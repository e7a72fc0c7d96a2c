//! Cumulative sum/count accumulator for long reporting windows.

use vstd::prelude::*;

verus! {

use crate::EmptyAggregateError;

/// The quotient of `a` by `b`, rounded toward zero (the fractional
/// remainder is discarded, not rounded).
pub open spec fn div_trunc(a: int, b: int) -> int
    recommends
        b != 0,
{
    let q = (if a >= 0 {
        a
    } else {
        -a
    }) / (if b >= 0 {
        b
    } else {
        -b
    });
    if (a >= 0) == (b >= 0) {
        q
    } else {
        -q
    }
}

/// The pairwise sum of two (sum, count) pairs.
pub open spec fn merged(a: (int, int), b: (int, int)) -> (int, int) {
    (a.0 + b.0, a.1 + b.1)
}

/// An additive accumulation of per-period totals. The represented average
/// is `sum / count` with truncating integer division, and is undefined
/// while `count` is zero.
pub struct AvgSum {
    pub sum: i64,
    pub count: i32,
}

impl AvgSum {
    /// The mathematical (sum, count) pair this accumulator holds.
    pub open spec fn totals(&self) -> (int, int) {
        (self.sum as int, self.count as int)
    }

    /// Folds another period's totals into this accumulator.
    pub fn update(self, sum: i64, count: i32) -> (r: Self)
        requires
            i64::MIN <= self.sum + sum <= i64::MAX,
            i32::MIN <= self.count + count <= i32::MAX,
        ensures
            r.totals() == merged(self.totals(), (sum as int, count as int)),
    {
        AvgSum { sum: self.sum + sum, count: self.count + count }
    }

    /// The truncated average of everything folded in so far; fails when no
    /// periods have been accumulated. The one (sum, count) pair whose
    /// quotient does not fit in an `i64` is ruled out up front.
    pub fn get_average(&self) -> (r: Result<i64, EmptyAggregateError>)
        requires
            !(self.sum == i64::MIN && self.count == -1),
        ensures
            self.count == 0 ==> r == Result::<i64, EmptyAggregateError>::Err(EmptyAggregateError),
            self.count != 0 ==> r is Ok && r.unwrap() as int == div_trunc(
                self.sum as int,
                self.count as int,
            ),
    {
        if self.count == 0 {
            return Err(EmptyAggregateError);
        }
        let neg = (self.sum < 0) != (self.count < 0);
        let a: u64 = if self.sum >= 0 {
            self.sum as u64
        } else {
            (-(self.sum as i128)) as u64
        };
        let b: u64 = if self.count >= 0 {
            self.count as u64
        } else {
            (-(self.count as i128)) as u64
        };
        let q: u64 = a / b;
        proof {
            vstd::arithmetic::div_mod::lemma_div_nonincreasing(a as int, b as int);
            if b >= 2 {
                vstd::arithmetic::div_mod::lemma_div_is_ordered_by_denominator(a as int, 2, b as int);
                vstd::arithmetic::div_mod::lemma_div_is_ordered(a as int, 0x8000000000000000, 2);
            }
        }
        if neg {
            Ok((-(q as i128)) as i64)
        } else {
            Ok(q as i64)
        }
    }
}

/// Law: folding two period totals into an accumulator gives the same
/// result in either order.
pub proof fn lemma_merged_commutative(a: (int, int), b: (int, int))
    ensures
        merged(a, b) == merged(b, a),
{
}

/// Law: folding period totals is associative, so parallel partial folds
/// that are combined later give the same final (sum, count).
pub proof fn lemma_merged_associative(a: (int, int), b: (int, int), c: (int, int))
    ensures
        merged(merged(a, b), c) == merged(a, merged(b, c)),
{
}

} // verus!
