//! The mathematical model of the counter table: a sequence of rows, each a
//! sequence of 64-bit counters.

use crate::hashing::column;
use vstd::arithmetic::power2::is_pow2;
use vstd::prelude::*;

verus! {

/// The shape every table has: at least one row, all rows of one width, and
/// that width a power of two not below 2.
pub open spec fn well_formed(table: Seq<Seq<u64>>) -> bool {
    &&& table.len() >= 1
    &&& table[0].len() >= 2
    &&& is_pow2(table[0].len() as int)
    &&& forall|i: int| 0 <= i < table.len() ==> (#[trigger] table[i]).len() == table[0].len()
}

/// A table of `depth` rows and `width` columns with every counter at zero.
pub open spec fn zeroed(depth: nat, width: nat) -> Seq<Seq<u64>> {
    Seq::new(depth, |i: int| Seq::new(width, |j: int| 0u64))
}

/// Addition that stops at `u64::MAX`.
pub open spec fn saturating_sum(a: u64, b: u64) -> u64 {
    if a + b > u64::MAX {
        u64::MAX
    } else {
        (a + b) as u64
    }
}

/// The counter that `digest` selects in `row`.
pub open spec fn reading(row: Seq<u64>, digest: u64) -> u64 {
    row[column(digest, row.len())]
}

/// `row` after `count` was added to the counter that `digest` selects.
pub open spec fn bumped(row: Seq<u64>, digest: u64, count: u64) -> Seq<u64> {
    row.update(column(digest, row.len()), saturating_sum(reading(row, digest), count))
}

/// The table after one update: in every row, the counter that the row's
/// digest selects has grown by `count`.
pub open spec fn recorded(table: Seq<Seq<u64>>, digests: Seq<u64>, count: u64) -> Seq<Seq<u64>> {
    Seq::new(table.len(), |i: int| bumped(table[i], digests[i], count))
}

/// What each row reports for the digests: one counter per row.
pub open spec fn readings(table: Seq<Seq<u64>>, digests: Seq<u64>) -> Seq<int> {
    Seq::new(table.len(), |i: int| reading(table[i], digests[i]) as int)
}

/// The estimate: the least of the rows' readings (0 for a table without rows).
pub open spec fn least(table: Seq<Seq<u64>>, digests: Seq<u64>) -> int {
    readings(table, digests).min()
}

} // verus!
