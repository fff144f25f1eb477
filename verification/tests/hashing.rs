use count_min::hashing::{digests, frame, slot};
use count_min::sketch::CountMinSketch;
use std::hash::{Hash, Hasher};
use twox_hash::xxh3::{hash64_with_seed, Hash64};

#[test]
fn a_key_is_framed_by_one_closing_byte() {
    assert_eq!(frame(""), vec![0xff]);
    assert_eq!(frame("apple"), vec![b'a', b'p', b'p', b'l', b'e', 0xff]);
    assert_eq!(frame("\u{e9}"), vec![0xc3, 0xa9, 0xff]);
}

#[test]
fn each_row_hashes_with_its_own_seed() {
    let key = frame("apple");
    let found = digests(&key, 5);
    assert_eq!(found.len(), 5);
    let mut seed: u64 = 0;
    while seed < 5 {
        assert_eq!(found[seed as usize], hash64_with_seed(&key, seed));
        seed += 1;
    }
    assert_ne!(found[0], found[1]);
    assert_ne!(found[1], found[2]);
    assert!(digests(&key, 0).is_empty());
}

#[test]
fn digests_depend_on_the_key() {
    let apple = digests(&frame("apple"), 3);
    let banana = digests(&frame("banana"), 3);
    assert_ne!(apple, banana);
    assert_ne!(apple, vec![0, 1, 2]);
    assert_eq!(apple, digests(&frame("apple"), 3));
}

#[test]
fn digests_are_those_of_a_hasher_fed_through_hash() {
    for item in ["", "apple", "banana", "cherry", "durian", "a key of some forty bytes, more or less"]
    {
        let found = digests(&frame(item), 4);
        let mut seed: u64 = 0;
        while seed < 4 {
            let mut hasher = Hash64::with_seed(seed);
            item.hash(&mut hasher);
            assert_eq!(found[seed as usize], hasher.finish());
            seed += 1;
        }
    }
}

#[test]
fn a_long_key_hashes_the_same_every_time() {
    let mut length: usize = 230;
    while length < 1400 {
        let item = "x".repeat(length);
        let first = digests(&frame(&item), 3);
        let second = digests(&frame(&item), 3);
        assert_eq!(first, second);
        length += 7;
    }
}

#[test]
fn a_long_key_is_counted_like_any_other() {
    let mut sketch = CountMinSketch::with_dimensions(64, 4).unwrap();
    let long = "k".repeat(300);
    let longer = "k".repeat(1301);
    sketch.update(&long, 3);
    sketch.update(&longer, 4);
    sketch.update(&long, 5);
    assert_eq!(sketch.estimate(&long), 8);
    assert_eq!(sketch.estimate(&longer), 4);
}

#[test]
fn slot_reduces_a_digest_modulo_the_width() {
    assert_eq!(slot(0, 8), 0);
    assert_eq!(slot(13, 8), 5);
    assert_eq!(slot(8, 8), 0);
    assert_eq!(slot(u64::MAX, 8), 7);
    assert_eq!(slot(u64::MAX, 1), 0);
    assert_eq!(slot(100, 7), 2);
    assert_eq!(slot(5, 1 << 20), 5);
}

#[test]
fn update_touches_the_slot_of_each_row() {
    let mut sketch = CountMinSketch::with_dimensions(16, 3).unwrap();
    sketch.update("apple", 9);
    let found = digests(&frame("apple"), 3);
    assert_eq!(sketch.estimate_with(&found), 9);

    let mut elsewhere = found.clone();
    elsewhere[1] = found[1].wrapping_add(1);
    assert_eq!(sketch.estimate_with(&elsewhere), 0);
}
