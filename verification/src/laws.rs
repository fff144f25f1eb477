//! What holds of every sketch: the laws that relate estimates to the
//! stream of updates that a table has received.

use crate::hashing::{column, framed, row_digests, xxh3_64};
use crate::table::{least, reading, readings, recorded, saturating_sum, well_formed, zeroed};
use vstd::prelude::*;

verus! {

/// One update of a stream: `count` more of `item`.
pub struct Record {
    pub item: Seq<char>,
    pub count: u64,
}

/// The column that `item` selects in row `row` of a table `width` wide.
pub open spec fn item_column(row: int, item: Seq<char>, width: nat) -> int {
    column(xxh3_64(row as u64, framed(item)), width)
}

/// What a sketch with this table answers when asked for `item`.
pub open spec fn estimated(table: Seq<Seq<u64>>, item: Seq<char>) -> int {
    least(table, row_digests(framed(item), table.len()))
}

/// The table after the updates of `stream`, first to last.
pub open spec fn replayed(table: Seq<Seq<u64>>, stream: Seq<Record>) -> Seq<Seq<u64>>
    decreases stream.len(),
{
    if stream.len() == 0 {
        table
    } else {
        let before = replayed(table, stream.drop_last());
        recorded(before, row_digests(framed(stream.last().item), before.len()), stream.last().count)
    }
}

/// The true weight of `item`: the sum of the counts that `stream` holds for it.
pub open spec fn frequency(stream: Seq<Record>, item: Seq<char>) -> nat
    decreases stream.len(),
{
    if stream.len() == 0 {
        0
    } else {
        let earlier = frequency(stream.drop_last(), item);
        if stream.last().item == item {
            earlier + stream.last().count as nat
        } else {
            earlier
        }
    }
}

/// The weight that counter `col` of row `row` has received: the sum of the
/// counts of all updates whose item selects that column in that row.
pub open spec fn load(stream: Seq<Record>, row: int, col: int, width: nat) -> nat
    decreases stream.len(),
{
    if stream.len() == 0 {
        0
    } else {
        let earlier = load(stream.drop_last(), row, col, width);
        if item_column(row, stream.last().item, width) == col {
            earlier + stream.last().count as nat
        } else {
            earlier
        }
    }
}

/// A weight as a counter holds it: itself, or `u64::MAX` if it is larger.
pub open spec fn capped(weight: nat) -> int {
    if weight > u64::MAX {
        u64::MAX as int
    } else {
        weight as int
    }
}

/// A digest selects a column inside the row.
pub proof fn lemma_column_in_row(digest: u64, width: nat)
    requires
        width > 0,
    ensures
        0 <= column(digest, width) < width,
{
    assert(0 <= (digest as int) % (width as int) < width) by (nonlinear_arith)
        requires
            width > 0,
            digest >= 0,
    ;
}

/// One update touches one counter per row: the one that the row's digest
/// selects grows by the count, saturating; every other counter stays.
pub proof fn lemma_recorded_cell(
    table: Seq<Seq<u64>>,
    digests: Seq<u64>,
    count: u64,
    row: int,
    col: int,
)
    requires
        well_formed(table),
        digests.len() == table.len(),
        0 <= row < table.len(),
        0 <= col < table[0].len(),
    ensures
        recorded(table, digests, count)[row][col] == (if col == column(
            digests[row],
            table[0].len(),
        ) {
            saturating_sum(table[row][col], count)
        } else {
            table[row][col]
        }),
{
    assert(table[row].len() == table[0].len());
    lemma_column_in_row(digests[row], table[0].len());
}

/// An update keeps the table's shape.
pub proof fn lemma_recorded_well_formed(table: Seq<Seq<u64>>, digests: Seq<u64>, count: u64)
    requires
        well_formed(table),
        digests.len() == table.len(),
    ensures
        well_formed(recorded(table, digests, count)),
        recorded(table, digests, count).len() == table.len(),
        recorded(table, digests, count)[0].len() == table[0].len(),
{
    let after = recorded(table, digests, count);
    assert forall|i: int| 0 <= i < after.len() implies (#[trigger] after[i]).len()
        == table[0].len() by {
        assert(table[i].len() == table[0].len());
        lemma_column_in_row(digests[i], table[0].len());
    }
}

/// A stream of updates keeps the table's shape.
pub proof fn lemma_replayed_well_formed(table: Seq<Seq<u64>>, stream: Seq<Record>)
    requires
        well_formed(table),
    ensures
        well_formed(replayed(table, stream)),
        replayed(table, stream).len() == table.len(),
        replayed(table, stream)[0].len() == table[0].len(),
    decreases stream.len(),
{
    if stream.len() > 0 {
        lemma_replayed_well_formed(table, stream.drop_last());
        let before = replayed(table, stream.drop_last());
        lemma_recorded_well_formed(
            before,
            row_digests(framed(stream.last().item), before.len()),
            stream.last().count,
        );
    }
}

/// The estimate is the least of the rows' readings: no row reads less, and
/// one row reads exactly that.
pub proof fn lemma_least_is_minimum(table: Seq<Seq<u64>>, digests: Seq<u64>)
    requires
        table.len() >= 1,
    ensures
        forall|i: int|
            0 <= i < table.len() ==> least(table, digests) <= #[trigger] reading(
                table[i],
                digests[i],
            ),
        exists|i: int|
            0 <= i < table.len() && least(table, digests) == #[trigger] reading(
                table[i],
                digests[i],
            ),
        0 <= least(table, digests) <= u64::MAX,
{
    let seen = readings(table, digests);
    seen.min_ensures();
    let k = choose|k: int| 0 <= k < seen.len() && seen[k] == seen.min();
    assert(seen[k] == reading(table[k], digests[k]));
    assert forall|i: int| 0 <= i < table.len() implies least(table, digests) <= #[trigger] reading(
        table[i],
        digests[i],
    ) by {
        assert(seen[i] == reading(table[i], digests[i]));
    }
}

/// No update lowers an estimate.
pub proof fn lemma_update_never_lowers(
    table: Seq<Seq<u64>>,
    digests: Seq<u64>,
    count: u64,
    probe: Seq<u64>,
)
    requires
        well_formed(table),
        digests.len() == table.len(),
    ensures
        least(table, probe) <= least(recorded(table, digests, count), probe),
{
    let after = recorded(table, digests, count);
    lemma_recorded_well_formed(table, digests, count);
    lemma_least_is_minimum(table, probe);
    lemma_least_is_minimum(after, probe);
    let k = choose|k: int|
        0 <= k < after.len() && least(after, probe) == #[trigger] reading(after[k], probe[k]);
    assert(table[k].len() == table[0].len());
    assert(after[k].len() == table[0].len());
    lemma_column_in_row(probe[k], table[0].len());
    lemma_recorded_cell(table, digests, count, k, column(probe[k], table[0].len()));
    assert(reading(table[k], probe[k]) <= reading(after[k], probe[k]));
}

/// Estimates are never negative and never fall: whatever updates follow,
/// the estimate for an item is at least what it was.
pub proof fn lemma_estimates_never_fall(
    table: Seq<Seq<u64>>,
    stream: Seq<Record>,
    item: Seq<char>,
)
    requires
        well_formed(table),
    ensures
        0 <= estimated(table, item) <= estimated(replayed(table, stream), item),
    decreases stream.len(),
{
    lemma_least_is_minimum(table, row_digests(framed(item), table.len()));
    if stream.len() > 0 {
        let before = replayed(table, stream.drop_last());
        lemma_estimates_never_fall(table, stream.drop_last(), item);
        lemma_replayed_well_formed(table, stream.drop_last());
        lemma_update_never_lowers(
            before,
            row_digests(framed(stream.last().item), before.len()),
            stream.last().count,
            row_digests(framed(item), before.len()),
        );
    }
}

/// Every counter holds exactly the weight that reached it, capped at
/// `u64::MAX`.
pub proof fn lemma_counter_holds_load(
    depth: nat,
    width: nat,
    stream: Seq<Record>,
    row: int,
    col: int,
)
    requires
        well_formed(zeroed(depth, width)),
        0 <= row < depth,
        0 <= col < width,
    ensures
        replayed(zeroed(depth, width), stream)[row][col] == capped(load(stream, row, col, width)),
    decreases stream.len(),
{
    let fresh = zeroed(depth, width);
    assert(fresh[0].len() == width);
    if stream.len() > 0 {
        let before = replayed(fresh, stream.drop_last());
        lemma_counter_holds_load(depth, width, stream.drop_last(), row, col);
        lemma_replayed_well_formed(fresh, stream.drop_last());
        lemma_recorded_cell(
            before,
            row_digests(framed(stream.last().item), before.len()),
            stream.last().count,
            row,
            col,
        );
    }
}

/// The counter that an item selects has received at least the item's own
/// weight.
pub proof fn lemma_load_covers_frequency(
    stream: Seq<Record>,
    item: Seq<char>,
    row: int,
    width: nat,
)
    ensures
        frequency(stream, item) <= load(stream, row, item_column(row, item, width), width),
    decreases stream.len(),
{
    if stream.len() > 0 {
        lemma_load_covers_frequency(stream.drop_last(), item, row, width);
    }
}

/// A counter that no update selected has received nothing.
pub proof fn lemma_load_without_collision(stream: Seq<Record>, row: int, col: int, width: nat)
    requires
        forall|k: int|
            0 <= k < stream.len() ==> item_column(row, (#[trigger] stream[k]).item, width) != col,
    ensures
        load(stream, row, col, width) == 0,
    decreases stream.len(),
{
    if stream.len() > 0 {
        let earlier = stream.drop_last();
        assert forall|k: int| 0 <= k < earlier.len() implies item_column(
            row,
            (#[trigger] earlier[k]).item,
            width,
        ) != col by {
            assert(earlier[k] == stream[k]);
        }
        lemma_load_without_collision(earlier, row, col, width);
        assert(stream.last() == stream[stream.len() - 1]);
    }
}

/// A sketch never underestimates: after any stream of updates to a fresh
/// table, the estimate for an item is at least the sum of the counts
/// recorded for it, or `u64::MAX` where that sum is larger.
pub proof fn lemma_never_underestimates(
    depth: nat,
    width: nat,
    stream: Seq<Record>,
    item: Seq<char>,
)
    requires
        well_formed(zeroed(depth, width)),
    ensures
        capped(frequency(stream, item)) <= estimated(replayed(zeroed(depth, width), stream), item),
{
    let fresh = zeroed(depth, width);
    assert(fresh[0].len() == width);
    let table = replayed(fresh, stream);
    lemma_replayed_well_formed(fresh, stream);
    let digests = row_digests(framed(item), table.len());
    lemma_least_is_minimum(table, digests);
    let k = choose|k: int|
        0 <= k < table.len() && least(table, digests) == #[trigger] reading(table[k], digests[k]);
    assert(table[k].len() == table[0].len());
    lemma_column_in_row(digests[k], width);
    lemma_counter_holds_load(depth, width, stream, k, item_column(k, item, width));
    lemma_load_covers_frequency(stream, item, k, width);
}

/// An unseen item is estimated at zero unless it collides in every row: if
/// in some row no update of the stream selected the item's counter, the
/// estimate for the item is 0.
pub proof fn lemma_uncollided_is_zero(
    depth: nat,
    width: nat,
    stream: Seq<Record>,
    item: Seq<char>,
    row: int,
)
    requires
        well_formed(zeroed(depth, width)),
        0 <= row < depth,
        forall|k: int|
            0 <= k < stream.len() ==> item_column(row, (#[trigger] stream[k]).item, width)
                != item_column(row, item, width),
    ensures
        estimated(replayed(zeroed(depth, width), stream), item) == 0,
{
    let fresh = zeroed(depth, width);
    assert(fresh[0].len() == width);
    let table = replayed(fresh, stream);
    lemma_replayed_well_formed(fresh, stream);
    let digests = row_digests(framed(item), table.len());
    lemma_least_is_minimum(table, digests);
    assert(table[row].len() == table[0].len());
    lemma_column_in_row(digests[row], width);
    lemma_counter_holds_load(depth, width, stream, row, item_column(row, item, width));
    lemma_load_without_collision(stream, row, item_column(row, item, width), width);
    assert(reading(table[row], digests[row]) == 0);
}

/// A fresh sketch estimates every item at zero.
pub proof fn lemma_fresh_is_zero(depth: nat, width: nat, item: Seq<char>)
    requires
        well_formed(zeroed(depth, width)),
    ensures
        estimated(zeroed(depth, width), item) == 0,
{
    lemma_uncollided_is_zero(depth, width, Seq::<Record>::empty(), item, 0);
}

/// Asking twice gives one answer: a query only reads the table, so two
/// queries for an item with no update between them read the same table and
/// agree.
pub proof fn lemma_queries_agree(
    table: Seq<Seq<u64>>,
    item: Seq<char>,
    first: int,
    second: int,
)
    requires
        first == estimated(table, item),
        second == estimated(table, item),
    ensures
        first == second,
{
}

} // verus!
