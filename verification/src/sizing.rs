//! Sizing: from the accuracy that a caller asks for to the dimensions of
//! the table.
//!
//! Accuracy parameters are exact fractions. The width is `e / tolerance`
//! rounded to the nearest integer, then raised to a power of two; the depth
//! is the number of times the failure probability `1 - probability` can be
//! doubled without exceeding 1, that is `log2(1 / (1 - probability))`
//! rounded down.

use crate::sketch::CountMinSketch;
use vstd::arithmetic::power2::{
    is_pow2, lemma2_to64, lemma_pow2_strictly_increases, lemma_pow2_unfold, pow2,
};
use vstd::prelude::*;

verus! {

/// Why a sketch could not be sized or built.
#[derive(Clone, Copy, Debug, PartialEq, Eq, Structural)]
pub enum SketchError {
    /// A tolerance that is not above zero, or a probability that is not below one.
    InvalidParameter,
    /// The table would hold more than `MAX_COUNTERS` counters.
    TooLarge,
}

/// An exact non-negative fraction `num / den`.
#[derive(Clone, Copy, Debug, PartialEq, Eq, Structural)]
pub struct Ratio {
    pub num: u64,
    pub den: u64,
}

/// Euler's number in thousandths.
pub const E_MILLI: u64 = 2718;

/// The most counters a table may hold: as many as fit in `isize::MAX`
/// bytes, the most that one allocation can span.
pub const MAX_COUNTERS: usize = usize::MAX / 16;

/// The least power of two that is not below `n`.
pub open spec fn next_power_of_two(n: nat) -> nat
    decreases n,
{
    if n <= 1 {
        1
    } else {
        2 * next_power_of_two((n + 1) / 2)
    }
}

/// The width of a table that was asked to have `columns` columns.
pub open spec fn table_width(columns: nat) -> nat {
    next_power_of_two(if columns < 2 { 2 } else { columns })
}

/// The depth of a table that was asked to have `rows` rows.
pub open spec fn table_depth(rows: nat) -> nat {
    if rows < 1 {
        1
    } else {
        rows
    }
}

/// Whether a table of these dimensions may be built.
pub open spec fn fits(width: nat, depth: nat) -> bool {
    width * depth <= MAX_COUNTERS
}

/// `a / b` rounded to the nearest integer, halves upwards.
pub open spec fn rounded_quotient(a: nat, b: nat) -> nat {
    (2 * a + b) / (2 * b)
}

/// How often `from` can be doubled without exceeding `limit`.
pub open spec fn doublings(from: nat, limit: nat) -> nat
    decreases limit - from,
{
    if from == 0 || 2 * from > limit {
        0
    } else {
        1 + doublings(2 * from, limit)
    }
}

/// A tolerance is usable when it is a fraction above zero.
pub open spec fn valid_tolerance(tolerance: Ratio) -> bool {
    tolerance.num > 0 && tolerance.den > 0
}

/// A probability is usable when it is a fraction below one.
pub open spec fn valid_probability(probability: Ratio) -> bool {
    probability.num < probability.den
}

/// `e / tolerance`, rounded.
pub open spec fn width_request(tolerance: Ratio) -> nat {
    rounded_quotient((E_MILLI * tolerance.den) as nat, (1000 * tolerance.num) as nat)
}

/// `log2(1 / (1 - probability))`, rounded down.
pub open spec fn depth_request(probability: Ratio) -> nat {
    doublings((probability.den - probability.num) as nat, probability.den as nat)
}

/// The width that meets `tolerance`.
pub open spec fn optimal_width_of(tolerance: Ratio) -> nat {
    table_width(width_request(tolerance))
}

/// The depth that meets `probability`.
pub open spec fn optimal_depth_of(probability: Ratio) -> nat {
    table_depth(depth_request(probability))
}

/// `next_power_of_two(n)` is a power of two, is not below `n`, and is below
/// `2 * n` unless `n` is zero.
pub proof fn lemma_next_power_of_two(n: nat)
    ensures
        is_pow2(next_power_of_two(n) as int),
        n <= next_power_of_two(n),
        n >= 1 ==> next_power_of_two(n) < 2 * n,
    decreases n,
{
    reveal(is_pow2);
    if n > 1 {
        lemma_next_power_of_two((n + 1) / 2);
    }
}

/// Only one power of two lies in `n .. 2 * n`.
pub proof fn lemma_next_power_of_two_unique(n: nat, w: nat)
    requires
        is_pow2(w as int),
        n <= w,
        w < 2 * n,
    ensures
        w == next_power_of_two(n),
    decreases n,
{
    reveal(is_pow2);
    if n > 1 {
        lemma_next_power_of_two_unique((n + 1) / 2, w / 2);
    }
}

/// Between a power of two and its double lies no other power of two.
pub proof fn lemma_powers_of_two_apart(a: nat, b: nat)
    requires
        is_pow2(a as int),
        is_pow2(b as int),
        a < b,
    ensures
        2 * a <= b,
    decreases a,
{
    reveal(is_pow2);
    if a > 1 {
        lemma_powers_of_two_apart(a / 2, b / 2);
    }
}

/// `rounded_quotient(a, b)` is the `q` with `q - 1/2 <= a / b < q + 1/2`.
pub proof fn lemma_rounded_quotient(a: nat, b: nat, q: nat)
    requires
        b > 0,
        2 * b * q <= 2 * a + b < 2 * b * (q + 1),
    ensures
        rounded_quotient(a, b) == q,
{
    assert((2 * a + b) / (2 * b) == q) by (nonlinear_arith)
        requires
            b > 0,
            2 * b * q <= 2 * a + b < 2 * b * (q + 1),
    ;
}

/// `doublings(from, limit)` is the `k` with
/// `2^k * from <= limit < 2^(k+1) * from`.
pub proof fn lemma_doublings(from: nat, limit: nat)
    requires
        1 <= from <= limit,
    ensures
        pow2(doublings(from, limit)) * from <= limit,
        limit < pow2(doublings(from, limit) + 1) * from,
    decreases limit - from,
{
    let d = doublings(from, limit);
    if 2 * from > limit {
        lemma2_to64();
        assert(pow2(d) * from == from && pow2(d + 1) * from == 2 * from) by (nonlinear_arith)
            requires
                pow2(d) == 1,
                pow2(d + 1) == 2,
        ;
    } else {
        lemma_doublings(2 * from, limit);
        let k = doublings(2 * from, limit);
        assert(d == k + 1);
        lemma_pow2_unfold(k + 1);
        lemma_pow2_unfold(k + 2);
        assert(pow2(d) * from == pow2(k) * (2 * from)) by (nonlinear_arith)
            requires
                pow2(d) == 2 * pow2(k),
        ;
        assert(pow2(d + 1) * from == pow2(k + 1) * (2 * from)) by (nonlinear_arith)
            requires
                pow2(d + 1) == 2 * pow2(k + 1),
        ;
    }
}

/// Raises a requested number of columns to the table's width.
pub fn fit_width(columns: usize) -> (r: Result<usize, SketchError>)
    ensures
        match r {
            Ok(w) => {
                &&& w == table_width(columns as nat)
                &&& 2 <= w <= MAX_COUNTERS
                &&& is_pow2(w as int)
            },
            Err(e) => e == SketchError::TooLarge && table_width(columns as nat) > MAX_COUNTERS,
        },
{
    let target: usize = if columns < 2 {
        2
    } else {
        columns
    };
    let mut w: usize = 2;
    proof {
        reveal_with_fuel(is_pow2, 2);
    }
    while w < target
        invariant
            2 <= target,
            table_width(columns as nat) == next_power_of_two(target as nat),
            2 <= w <= MAX_COUNTERS,
            w < 2 * target,
            is_pow2(w as int),
        decreases 2 * target - w,
    {
        if w > MAX_COUNTERS / 2 {
            proof {
                lemma_next_power_of_two(target as nat);
                lemma_powers_of_two_apart(w as nat, next_power_of_two(target as nat));
            }
            return Err(SketchError::TooLarge);
        }
        proof {
            reveal(is_pow2);
        }
        w = 2 * w;
    }
    proof {
        lemma_next_power_of_two_unique(target as nat, w as nat);
    }
    Ok(w)
}

/// Raises a requested number of rows to the table's depth.
pub fn fit_depth(rows: usize) -> (d: usize)
    ensures
        d == table_depth(rows as nat),
{
    if rows < 1 {
        1
    } else {
        rows
    }
}

impl CountMinSketch {
    /// The width that keeps the error within `tolerance` times the total
    /// weight: `e / tolerance` rounded, at least 2, raised to a power of two.
    pub fn optimal_width(tolerance: Ratio) -> (r: Result<usize, SketchError>)
        ensures
            match r {
                Ok(w) => {
                    &&& valid_tolerance(tolerance)
                    &&& w == optimal_width_of(tolerance)
                    &&& 2 <= w <= MAX_COUNTERS
                    &&& is_pow2(w as int)
                },
                Err(SketchError::InvalidParameter) => !valid_tolerance(tolerance),
                Err(SketchError::TooLarge) => valid_tolerance(tolerance) && optimal_width_of(tolerance)
                    > MAX_COUNTERS,
            },
    {
        if tolerance.num == 0 || tolerance.den == 0 {
            return Err(SketchError::InvalidParameter);
        }
        assert(2 * E_MILLI * tolerance.den == 5436 * tolerance.den) by (nonlinear_arith)
            requires
                E_MILLI == 2718,
        ;
        let doubled: u128 = 2 * (E_MILLI as u128) * (tolerance.den as u128);
        let unit: u128 = 1000 * (tolerance.num as u128);
        let request: u128 = (doubled + unit) / (2 * unit);
        assert(request == width_request(tolerance));
        if request > MAX_COUNTERS as u128 {
            proof {
                lemma_next_power_of_two(request as nat);
            }
            return Err(SketchError::TooLarge);
        }
        fit_width(request as usize)
    }

    /// The depth that makes the error bound hold with `probability`:
    /// `log2(1 / (1 - probability))` rounded down, at least 1.
    pub fn optimal_depth(probability: Ratio) -> (r: Result<usize, SketchError>)
        ensures
            match r {
                Ok(d) => {
                    &&& valid_probability(probability)
                    &&& d == optimal_depth_of(probability)
                    &&& 1 <= d < 64
                },
                Err(e) => e == SketchError::InvalidParameter && !valid_probability(probability),
            },
    {
        if probability.num >= probability.den {
            return Err(SketchError::InvalidParameter);
        }
        let rest: u64 = probability.den - probability.num;
        let mut grown: u64 = rest;
        let mut k: usize = 0;
        proof {
            lemma2_to64();
        }
        while grown <= probability.den - grown
            invariant
                1 <= rest <= grown <= probability.den,
                k < 64,
                grown == pow2(k as nat) * rest,
                doublings(rest as nat, probability.den as nat) == k + doublings(
                    grown as nat,
                    probability.den as nat,
                ),
            decreases probability.den - grown,
        {
            proof {
                lemma_pow2_unfold((k + 1) as nat);
                assert(pow2((k + 1) as nat) * rest == 2 * (pow2(k as nat) * rest)) by (nonlinear_arith)
                    requires
                        pow2((k + 1) as nat) == 2 * pow2(k as nat),
                ;
                if k + 1 >= 64 {
                    lemma2_to64();
                    if k + 1 > 64 {
                        lemma_pow2_strictly_increases(64, (k + 1) as nat);
                    }
                    assert(pow2((k + 1) as nat) * rest >= pow2((k + 1) as nat)) by (nonlinear_arith)
                        requires
                            rest >= 1,
                    ;
                }
            }
            grown = 2 * grown;
            k = k + 1;
        }
        Ok(fit_depth(k))
    }
}

} // verus!
