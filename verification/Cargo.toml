[package]
name = "count_min"
version = "0.1.0"
edition = "2021"

[dependencies]
twox-hash = "1.6"
