//! The sketch itself: the counter table and the operations on it.

use crate::hashing::{digests, frame, framed, row_digests, slot};
use crate::sizing::{
    fit_depth, fit_width, fits, lemma_next_power_of_two_unique, optimal_depth_of,
    optimal_width_of, table_depth, table_width, valid_probability, valid_tolerance, Ratio,
    SketchError, MAX_COUNTERS,
};
use crate::laws::lemma_recorded_well_formed;
use crate::table::{bumped, least, readings, recorded, well_formed, zeroed};
use vstd::arithmetic::power2::is_pow2;
use vstd::prelude::*;

verus! {

/// A Count-Min sketch over string keys.
pub struct CountMinSketch {
    counts: Vec<Vec<u64>>,
}

impl View for CountMinSketch {
    type V = Seq<Seq<u64>>;

    /// The counter table, row by row.
    closed spec fn view(&self) -> Seq<Seq<u64>> {
        Seq::new(self.counts@.len(), |i: int| self.counts@[i]@)
    }
}

/// Adds `count` to the counter that `digest` selects in row `row`.
fn bump(counts: &mut Vec<Vec<u64>>, row: usize, digest: u64, count: u64)
    requires
        row < old(counts)@.len(),
        old(counts)@[row as int]@.len() > 0,
    ensures
        final(counts)@.len() == old(counts)@.len(),
        final(counts)@[row as int]@ == bumped(old(counts)@[row as int]@, digest, count),
        forall|i: int|
            0 <= i < old(counts)@.len() && i != row ==> final(counts)@[i] == old(counts)@[i],
        forall|i: int|
            0 <= i < old(counts)@.len() ==> (#[trigger] final(counts)@[i])@.len() == old(
                counts,
            )@[i]@.len(),
    no_unwind
{
    let j = slot(digest, counts[row].len());
    let held = counts[row][j];
    let grown = if held > u64::MAX - count {
        u64::MAX
    } else {
        held + count
    };
    counts[row][j] = grown;
}

impl CountMinSketch {
    #[verifier::type_invariant]
    spec fn inv(&self) -> bool {
        &&& self.counts@.len() >= 1
        &&& self.counts@[0]@.len() >= 2
        &&& is_pow2(self.counts@[0]@.len() as int)
        &&& forall|i: int|
            0 <= i < self.counts@.len() ==> (#[trigger] self.counts@[i])@.len()
                == self.counts@[0]@.len()
    }

    /// A sketch sized for the accuracy asked for: with probability at least
    /// `probability`, an estimate exceeds the true weight by at most
    /// `tolerance` times the total weight recorded.
    ///
    /// A tolerance that is not above zero and a probability that is not
    /// below one are refused, and so is a table of more than `MAX_COUNTERS`
    /// counters.
    pub fn new(probability: Ratio, tolerance: Ratio) -> (r: Result<Self, SketchError>)
        ensures
            match r {
                Ok(sketch) => {
                    &&& valid_probability(probability)
                    &&& valid_tolerance(tolerance)
                    &&& fits(optimal_width_of(tolerance), optimal_depth_of(probability))
                    &&& sketch@ == zeroed(
                        optimal_depth_of(probability),
                        optimal_width_of(tolerance),
                    )
                    &&& well_formed(sketch@)
                },
                Err(SketchError::InvalidParameter) => !(valid_probability(probability)
                    && valid_tolerance(tolerance)),
                Err(SketchError::TooLarge) => {
                    &&& valid_probability(probability)
                    &&& valid_tolerance(tolerance)
                    &&& !fits(optimal_width_of(tolerance), optimal_depth_of(probability))
                },
            },
    {
        let depth = match Self::optimal_depth(probability) {
            Ok(depth) => depth,
            Err(e) => {
                return Err(e);
            },
        };
        let width = match Self::optimal_width(tolerance) {
            Ok(width) => width,
            Err(e) => {
                assert(e == SketchError::TooLarge ==> optimal_width_of(tolerance) * optimal_depth_of(
                    probability,
                ) > MAX_COUNTERS) by (nonlinear_arith)
                    requires
                        e == SketchError::TooLarge ==> optimal_width_of(tolerance) > MAX_COUNTERS,
                        optimal_depth_of(probability) >= 1,
                ;
                return Err(e);
            },
        };
        proof {
            lemma_next_power_of_two_unique(width as nat, width as nat);
        }
        Self::with_dimensions(width, depth)
    }

    /// A sketch of at least `columns` counters in each of `rows` rows: the
    /// width is raised to a power of two, and to 2 at least; a table without
    /// rows gets one.
    ///
    /// Refused when the table would hold more than `MAX_COUNTERS` counters.
    pub fn with_dimensions(columns: usize, rows: usize) -> (r: Result<Self, SketchError>)
        ensures
            match r {
                Ok(sketch) => {
                    &&& fits(table_width(columns as nat), table_depth(rows as nat))
                    &&& sketch@ == zeroed(table_depth(rows as nat), table_width(columns as nat))
                    &&& well_formed(sketch@)
                },
                Err(e) => {
                    &&& e == SketchError::TooLarge
                    &&& !fits(table_width(columns as nat), table_depth(rows as nat))
                },
            },
    {
        let depth = fit_depth(rows);
        let width = match fit_width(columns) {
            Ok(width) => width,
            Err(e) => {
                assert(table_width(columns as nat) * depth > MAX_COUNTERS) by (nonlinear_arith)
                    requires
                        table_width(columns as nat) > MAX_COUNTERS,
                        depth >= 1,
                ;
                return Err(e);
            },
        };
        if depth > MAX_COUNTERS / width {
            assert(width * depth > MAX_COUNTERS) by (nonlinear_arith)
                requires
                    depth > MAX_COUNTERS / width,
                    width >= 1,
            ;
            return Err(SketchError::TooLarge);
        }
        assert(width * depth <= MAX_COUNTERS) by (nonlinear_arith)
            requires
                depth <= MAX_COUNTERS / width,
                width >= 1,
        ;
        let mut counts: Vec<Vec<u64>> = Vec::new();
        let mut row: usize = 0;
        while row < depth
            invariant
                row <= depth,
                counts@.len() == row,
                forall|i: int|
                    0 <= i < row ==> (#[trigger] counts@[i])@ == Seq::new(
                        width as nat,
                        |j: int| 0u64,
                    ),
            decreases depth - row,
        {
            let zeros: Vec<u64> = vec![0u64; width];
            assert(zeros@ =~= Seq::new(width as nat, |j: int| 0u64));
            counts.push(zeros);
            row += 1;
        }
        let sketch = CountMinSketch { counts };
        assert(sketch@ =~= zeroed(depth as nat, width as nat));
        Ok(sketch)
    }

    /// The number of counters in each row.
    pub fn width(&self) -> (width: usize)
        ensures
            width == self@[0].len(),
            well_formed(self@),
    {
        proof {
            use_type_invariant(self);
        }
        self.counts[0].len()
    }

    /// The number of rows.
    pub fn depth(&self) -> (depth: usize)
        ensures
            depth == self@.len(),
            well_formed(self@),
    {
        proof {
            use_type_invariant(self);
        }
        self.counts.len()
    }

    /// Records `count` more of `item`: in every row, the counter that the
    /// row's digest of `item` selects grows by `count`, and stops at
    /// `u64::MAX`.
    pub fn update(&mut self, item: &str, count: u64)
        ensures
            final(self)@ == recorded(
                old(self)@,
                row_digests(framed(item@), old(self)@.len()),
                count,
            ),
            well_formed(final(self)@),
    {
        let key = frame(item);
        let hashes = digests(key.as_slice(), self.counts.len());
        self.update_with(hashes.as_slice(), count);
    }

    /// An estimate of how much of `item` was recorded: the least of the
    /// counters that the rows' digests of `item` select.
    pub fn estimate(&self, item: &str) -> (estimate: u64)
        ensures
            estimate == least(self@, row_digests(framed(item@), self@.len())),
            well_formed(self@),
    {
        let key = frame(item);
        let hashes = digests(key.as_slice(), self.counts.len());
        self.estimate_with(hashes.as_slice())
    }

    /// Adds `count` to the counter that each row's digest selects.
    pub fn update_with(&mut self, digests: &[u64], count: u64)
        requires
            digests@.len() == old(self)@.len(),
        ensures
            final(self)@ == recorded(old(self)@, digests@, count),
            well_formed(final(self)@),
    {
        proof {
            use_type_invariant(&*self);
            lemma_recorded_well_formed(self@, digests@, count);
        }
        let depth = self.counts.len();
        let mut row: usize = 0;
        while row < depth
            invariant
                row <= depth,
                depth == old(self)@.len(),
                digests@.len() == depth,
                well_formed(old(self)@),
                self@.len() == depth,
                forall|i: int|
                    0 <= i < row ==> #[trigger] self@[i] == bumped(
                        old(self)@[i],
                        digests@[i],
                        count,
                    ),
                forall|i: int| row <= i < depth ==> #[trigger] self@[i] == old(self)@[i],
            decreases depth - row,
        {
            proof {
                use_type_invariant(&*self);
            }
            let ghost before = self@;
            assert(before[row as int] == old(self)@[row as int]);
            assert(before[row as int].len() == before[0].len());
            bump(&mut self.counts, row, digests[row], count);
            assert forall|i: int| 0 <= i < depth implies #[trigger] self@[i] == (if i == row {
                bumped(old(self)@[i], digests@[i], count)
            } else {
                before[i]
            }) by {}
            row += 1;
        }
        assert(self@ =~= recorded(old(self)@, digests@, count));
    }

    /// The least of the counters that the rows' digests select.
    pub fn estimate_with(&self, digests: &[u64]) -> (estimate: u64)
        requires
            digests@.len() == self@.len(),
        ensures
            estimate == least(self@, digests@),
            well_formed(self@),
    {
        proof {
            use_type_invariant(self);
        }
        let depth = self.counts.len();
        let ghost seen = readings(self@, digests@);
        let mut best: u64 = self.counts[0][slot(digests[0], self.counts[0].len())];
        assert(best == seen[0]);
        let mut row: usize = 1;
        while row < depth
            invariant
                1 <= row <= depth,
                depth == self.counts@.len(),
                digests@.len() == depth,
                seen == readings(self@, digests@),
                seen.len() == depth,
                forall|i: int|
                    0 <= i < depth ==> (#[trigger] self.counts@[i])@.len() == self.counts@[0]@.len(),
                self.counts@[0]@.len() >= 2,
                forall|i: int| 0 <= i < row ==> best <= #[trigger] seen[i],
                exists|i: int| 0 <= i < row && best == #[trigger] seen[i],
            decreases depth - row,
        {
            let held = self.counts[row][slot(digests[row], self.counts[row].len())];
            assert(held == seen[row as int]);
            if held < best {
                best = held;
            }
            row += 1;
        }
        proof {
            seen.min_ensures();
        }
        best
    }
}

} // verus!
