use count_min::sizing::{Ratio, SketchError};
use count_min::sketch::CountMinSketch;

#[test]
fn test_count_min_sketch() {
    let mut sketch =
        CountMinSketch::new(Ratio { num: 90, den: 100 }, Ratio { num: 40, den: 100 }).unwrap();

    sketch.update("apple", 1);
    sketch.update("banana", 10);
    sketch.update("cherry", 5);
    sketch.update("apple", 3);

    assert_eq!(sketch.estimate("apple"), 4);
    assert_eq!(sketch.estimate("banana"), 10);
    assert_eq!(sketch.estimate("cherry"), 5);
    assert_eq!(sketch.estimate("durian"), 0);
}

#[test]
fn four_rows_of_thirty_two_count_a_small_stream_exactly() {
    let mut sketch =
        CountMinSketch::new(Ratio { num: 95, den: 100 }, Ratio { num: 1, den: 10 }).unwrap();
    assert_eq!(sketch.width(), 32);
    assert_eq!(sketch.depth(), 4);

    sketch.update("apple", 1);
    sketch.update("banana", 2);
    sketch.update("apple", 3);
    sketch.update("cherry", 4);

    assert_eq!(sketch.estimate("apple"), 4);
    assert_eq!(sketch.estimate("banana"), 2);
    assert_eq!(sketch.estimate("cherry"), 4);
    assert_eq!(sketch.estimate("durian"), 0);
}

#[test]
fn three_rows_of_eight_have_the_dimensions_asked_for() {
    let sketch =
        CountMinSketch::new(Ratio { num: 90, den: 100 }, Ratio { num: 40, den: 100 }).unwrap();
    assert_eq!(sketch.width(), 8);
    assert_eq!(sketch.depth(), 3);
}

#[test]
fn a_fresh_sketch_estimates_zero() {
    let sketch = CountMinSketch::with_dimensions(16, 4).unwrap();
    for item in ["", "apple", "banana", "a much longer key than the others"] {
        assert_eq!(sketch.estimate(item), 0);
    }
}

#[test]
fn a_zero_count_changes_nothing() {
    let mut sketch = CountMinSketch::with_dimensions(8, 3).unwrap();
    sketch.update("apple", 7);
    sketch.update("banana", 0);
    assert_eq!(sketch.estimate("apple"), 7);
    assert_eq!(sketch.estimate("banana"), 0);
}

#[test]
fn counters_stop_at_the_largest_value() {
    let mut sketch = CountMinSketch::with_dimensions(2, 1).unwrap();
    sketch.update("apple", u64::MAX - 1);
    assert_eq!(sketch.estimate("apple"), u64::MAX - 1);
    sketch.update("apple", 1);
    assert_eq!(sketch.estimate("apple"), u64::MAX);
    sketch.update("apple", 5);
    assert_eq!(sketch.estimate("apple"), u64::MAX);
}

#[test]
fn dimensions_are_raised_to_what_a_table_needs() {
    let smallest = CountMinSketch::with_dimensions(0, 0).unwrap();
    assert_eq!(smallest.width(), 2);
    assert_eq!(smallest.depth(), 1);

    let rounded = CountMinSketch::with_dimensions(27, 5).unwrap();
    assert_eq!(rounded.width(), 32);
    assert_eq!(rounded.depth(), 5);

    let exact = CountMinSketch::with_dimensions(64, 2).unwrap();
    assert_eq!(exact.width(), 64);
    assert_eq!(exact.depth(), 2);
}

#[test]
fn a_table_beyond_the_limit_is_refused() {
    assert_eq!(CountMinSketch::with_dimensions(usize::MAX, 1).err(), Some(SketchError::TooLarge));
    assert_eq!(
        CountMinSketch::with_dimensions(usize::MAX / 16 + 1, 1).err(),
        Some(SketchError::TooLarge)
    );
    assert_eq!(CountMinSketch::with_dimensions(2, usize::MAX).err(), Some(SketchError::TooLarge));
    assert_eq!(
        CountMinSketch::with_dimensions(1 << 20, usize::MAX >> 20).err(),
        Some(SketchError::TooLarge)
    );
}

#[test]
fn new_refuses_parameters_out_of_range() {
    let half = Ratio { num: 1, den: 2 };
    assert_eq!(
        CountMinSketch::new(half, Ratio { num: 0, den: 10 }).err(),
        Some(SketchError::InvalidParameter)
    );
    assert_eq!(
        CountMinSketch::new(half, Ratio { num: 1, den: 0 }).err(),
        Some(SketchError::InvalidParameter)
    );
    assert_eq!(
        CountMinSketch::new(Ratio { num: 1, den: 1 }, half).err(),
        Some(SketchError::InvalidParameter)
    );
    assert_eq!(
        CountMinSketch::new(Ratio { num: 3, den: 2 }, half).err(),
        Some(SketchError::InvalidParameter)
    );
    assert_eq!(
        CountMinSketch::new(Ratio { num: 0, den: 0 }, half).err(),
        Some(SketchError::InvalidParameter)
    );
    assert_eq!(
        CountMinSketch::new(Ratio { num: 1, den: 1 }, Ratio { num: 1, den: u64::MAX }).err(),
        Some(SketchError::InvalidParameter)
    );
}

#[test]
fn new_refuses_a_tolerance_too_small_to_allocate_for() {
    assert_eq!(
        CountMinSketch::new(Ratio { num: 1, den: 2 }, Ratio { num: 1, den: u64::MAX }).err(),
        Some(SketchError::TooLarge)
    );
}

#[test]
fn update_with_and_estimate_with_work_on_given_digests() {
    let mut sketch = CountMinSketch::with_dimensions(4, 2).unwrap();
    sketch.update_with(&[5, 6], 10);
    assert_eq!(sketch.estimate_with(&[5, 6]), 10);
    assert_eq!(sketch.estimate_with(&[9, 10]), 10);
    assert_eq!(sketch.estimate_with(&[1, 3]), 0);
    assert_eq!(sketch.estimate_with(&[0, 2]), 0);

    sketch.update_with(&[1, 3], 4);
    assert_eq!(sketch.estimate_with(&[5, 6]), 10);
    assert_eq!(sketch.estimate_with(&[1, 3]), 4);
    assert_eq!(sketch.estimate_with(&[1, 2]), 10);
    assert_eq!(sketch.estimate_with(&[1, 6]), 10);
    assert_eq!(sketch.estimate_with(&[5, 7]), 4);
    assert_eq!(sketch.estimate_with(&[u64::MAX - 2, u64::MAX]), 4);
    assert_eq!(sketch.estimate_with(&[u64::MAX, u64::MAX]), 0);
}

#[test]
fn a_loose_tolerance_and_a_low_probability_get_the_smallest_table() {
    let sketch = CountMinSketch::new(Ratio { num: 0, den: 1 }, Ratio { num: 5, den: 1 }).unwrap();
    assert_eq!(sketch.width(), 2);
    assert_eq!(sketch.depth(), 1);
}

#[test]
fn colliding_items_share_a_counter() {
    let mut sketch = CountMinSketch::with_dimensions(2, 1).unwrap();
    sketch.update("apple", 1);
    sketch.update("banana", 2);
    sketch.update("cherry", 4);
    let apple = sketch.estimate("apple");
    let banana = sketch.estimate("banana");
    let cherry = sketch.estimate("cherry");
    assert!(apple >= 1 && banana >= 2 && cherry >= 4);
    assert!(apple <= 7 && banana <= 7 && cherry <= 7);
    assert!(apple == 7 || banana == 7 || cherry == 7 || apple == banana || banana == cherry
        || apple == cherry);
}
