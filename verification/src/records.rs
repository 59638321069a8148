//! Per-key running statistics: count, minimum, maximum and sum of all
//! observed values, held in tenths of a unit (fixed point, one decimal).

use vstd::prelude::*;

verus! {

/// Largest value the line format can carry, in tenths (`999.9`).
pub const MAX_TENTHS: i32 = 9999;

/// Mathematical model of one key's statistics, in tenths of a unit.
pub ghost struct Acc {
    pub count: int,
    pub min: int,
    pub max: int,
    pub sum: int,
}

pub open spec fn imin(a: int, b: int) -> int {
    if a <= b { a } else { b }
}

pub open spec fn imax(a: int, b: int) -> int {
    if a >= b { a } else { b }
}

/// The statistics after a single observation of `v`.
pub open spec fn acc_one(v: int) -> Acc {
    Acc { count: 1, min: v, max: v, sum: v }
}

/// Combined statistics of two disjoint groups of observations.
pub open spec fn acc_merge(a: Acc, b: Acc) -> Acc {
    Acc {
        count: a.count + b.count,
        min: imin(a.min, b.min),
        max: imax(a.max, b.max),
        sum: a.sum + b.sum,
    }
}

/// The statistics after one more observation of `v`.
pub open spec fn acc_add(a: Acc, v: int) -> Acc {
    acc_merge(a, acc_one(v))
}

/// Every accumulator arising from at least one in-range observation
/// satisfies this: the sum is bracketed by `count * min` and `count * max`.
pub open spec fn acc_wf(a: Acc) -> bool {
    &&& 1 <= a.count
    &&& -(MAX_TENTHS as int) <= a.min <= a.max <= MAX_TENTHS as int
    &&& a.count * a.min <= a.sum <= a.count * a.max
}

/// The mean in tenths, rounded half away from zero.
pub open spec fn mean_tenths(a: Acc) -> int
    recommends
        1 <= a.count,
{
    if a.sum >= 0 {
        (2 * a.sum + a.count) / (2 * a.count)
    } else {
        -((2 * -a.sum + a.count) / (2 * a.count))
    }
}

/// Merging two well-formed accumulators yields a well-formed accumulator.
pub proof fn lemma_acc_merge_wf(a: Acc, b: Acc)
    requires
        acc_wf(a),
        acc_wf(b),
    ensures
        acc_wf(acc_merge(a, b)),
{
    let m = acc_merge(a, b);
    assert(m.count * m.min <= m.sum) by (nonlinear_arith)
        requires
            a.count * a.min <= a.sum,
            b.count * b.min <= b.sum,
            1 <= a.count,
            1 <= b.count,
            m.count == a.count + b.count,
            m.sum == a.sum + b.sum,
            m.min == imin(a.min, b.min),
            m.min <= a.min,
            m.min <= b.min,
    ;
    assert(m.sum <= m.count * m.max) by (nonlinear_arith)
        requires
            a.sum <= a.count * a.max,
            b.sum <= b.count * b.max,
            1 <= a.count,
            1 <= b.count,
            m.count == a.count + b.count,
            m.sum == a.sum + b.sum,
            m.max == imax(a.max, b.max),
            a.max <= m.max,
            b.max <= m.max,
    ;
}

/// For a well-formed accumulator, the rounded mean lies between the
/// minimum and the maximum.
pub proof fn lemma_mean_bounded(a: Acc)
    requires
        acc_wf(a),
    ensures
        a.min <= mean_tenths(a) <= a.max,
{
    let c = a.count;
    let s = a.sum;
    if s >= 0 {
        let q = (2 * s + c) / (2 * c);
        assert(a.max >= 0) by (nonlinear_arith)
            requires s >= 0, c >= 1, s <= c * a.max,
        ;
        assert(q >= 0) by (nonlinear_arith)
            requires s >= 0, c >= 1, q == (2 * s + c) / (2 * c),
        ;
        assert(q <= a.max) by (nonlinear_arith)
            requires s >= 0, c >= 1, s <= c * a.max, a.max >= 0, q == (2 * s + c) / (2 * c),
        ;
        if a.min > 0 {
            assert(q >= a.min) by (nonlinear_arith)
                requires c >= 1, c * a.min <= s, a.min > 0, q == (2 * s + c) / (2 * c),
            ;
        }
    } else {
        let q = (2 * -s + c) / (2 * c);
        assert(a.min <= 0) by (nonlinear_arith)
            requires s < 0, c >= 1, c * a.min <= s,
        ;
        assert(q >= 0) by (nonlinear_arith)
            requires s < 0, c >= 1, q == (2 * -s + c) / (2 * c),
        ;
        assert(q <= -a.min) by (nonlinear_arith)
            requires s < 0, c >= 1, c * a.min <= s, a.min <= 0, q == (2 * -s + c) / (2 * c),
        ;
        if a.max < 0 {
            assert(q >= -a.max) by (nonlinear_arith)
                requires c >= 1, s <= c * a.max, a.max < 0, q == (2 * -s + c) / (2 * c),
            ;
        }
    }
}

/// Running statistics for one key, values in tenths of a unit.
#[derive(Clone, Copy, Debug, PartialEq, Eq, Structural)]
pub struct Records {
    pub count: u64,
    pub min: i32,
    pub max: i32,
    pub sum: i128,
}

impl View for Records {
    type V = Acc;

    open spec fn view(&self) -> Acc {
        Acc {
            count: self.count as int,
            min: self.min as int,
            max: self.max as int,
            sum: self.sum as int,
        }
    }
}

impl Records {
    pub open spec fn wf(&self) -> bool {
        acc_wf(self@)
    }

    /// A fresh accumulator holding its first observation.
    pub fn from_item(item: i32) -> (r: Records)
        requires
            -MAX_TENTHS <= item <= MAX_TENTHS,
        ensures
            r@ == acc_one(item as int),
            r.wf(),
    {
        Records { count: 1, min: item, max: item, sum: item as i128 }
    }

    /// Record one more observation.
    pub fn update(&mut self, item: i32)
        requires
            old(self).wf(),
            -MAX_TENTHS <= item <= MAX_TENTHS,
            old(self).count < u64::MAX,
        ensures
            final(self)@ == acc_add(old(self)@, item as int),
            final(self).wf(),
    {
        proof {
            lemma_acc_merge_wf(self@, acc_one(item as int));
            assert(self@.sum + item <= (self@.count + 1) * (MAX_TENTHS as int)
                && -((self@.count + 1) * (MAX_TENTHS as int)) <= self@.sum + item) by (nonlinear_arith)
                requires
                    acc_wf(self@),
                    -(MAX_TENTHS as int) <= item as int <= MAX_TENTHS as int,
            ;
            assert((self@.count + 1) * (MAX_TENTHS as int) < i128::MAX) by (nonlinear_arith)
                requires self@.count < u64::MAX as int,
            ;
        }
        self.count = self.count + 1;
        if item < self.min {
            self.min = item;
        }
        if item > self.max {
            self.max = item;
        }
        self.sum = self.sum + item as i128;
    }

    /// Combine with the statistics of another disjoint group of
    /// observations of the same key.
    pub fn merge(self, other: Records) -> (r: Records)
        requires
            self.wf(),
            other.wf(),
            self.count + other.count <= u64::MAX,
        ensures
            r@ == acc_merge(self@, other@),
            r.wf(),
    {
        proof {
            lemma_acc_merge_wf(self@, other@);
            let m = acc_merge(self@, other@);
            assert(m.sum <= m.count * (MAX_TENTHS as int)
                && -(m.count * (MAX_TENTHS as int)) <= m.sum) by (nonlinear_arith)
                requires
                    acc_wf(m),
                    m == acc_merge(self@, other@),
            ;
            assert(m.count * (MAX_TENTHS as int) < i128::MAX) by (nonlinear_arith)
                requires m.count <= u64::MAX as int,
            ;
        }
        Records {
            count: self.count + other.count,
            min: if self.min <= other.min { self.min } else { other.min },
            max: if self.max >= other.max { self.max } else { other.max },
            sum: self.sum + other.sum,
        }
    }

    /// The mean of all observations, in tenths, rounded half away from zero.
    pub fn mean(&self) -> (m: i32)
        requires
            self.wf(),
        ensures
            m == mean_tenths(self@),
            self.min <= m <= self.max,
    {
        proof {
            lemma_mean_bounded(self@);
            assert(self@.sum <= self@.count * (MAX_TENTHS as int)
                && -(self@.count * (MAX_TENTHS as int)) <= self@.sum) by (nonlinear_arith)
                requires acc_wf(self@),
            ;
            assert(self@.count * (MAX_TENTHS as int) <= u64::MAX as int * (MAX_TENTHS as int)) by (nonlinear_arith)
                requires 1 <= self@.count <= u64::MAX as int,
            ;
        }
        let c: u128 = self.count as u128;
        let mag: u128 = if self.sum >= 0 { self.sum as u128 } else { (-self.sum) as u128 };
        let q: u128 = (2 * mag + c) / (2 * c);
        proof {
            if self@.sum >= 0 {
                assert(q as int == (2 * self@.sum + self@.count) / (2 * self@.count));
            } else {
                assert(q as int == (2 * -self@.sum + self@.count) / (2 * self@.count));
            }
        }
        if self.sum >= 0 {
            q as i32
        } else {
            -(q as i32)
        }
    }
}

} // verus!
