//! A Count-Min sketch: approximate frequencies of weighted items in a
//! stream, in a fixed table of counters, with one-sided error.
//!
//! The sketch never reports less than an item has received (short of a
//! counter reaching `u64::MAX`, where it stays), and it reports more only
//! where other items share the item's counter in every row.

pub mod hashing;
pub mod laws;
pub mod sizing;
pub mod sketch;
pub mod table;
