//! The running statistic of one key: minimum, maximum, sum and count, in tenths.

use vstd::prelude::*;

verus! {

/// What an [`Aggregate`] stands for.
pub struct Summary {
    pub min: int,
    pub max: int,
    pub sum: int,
    pub count: nat,
}

/// The statistic of one value.
pub open spec fn single(v: int) -> Summary {
    Summary { min: v, max: v, sum: v, count: 1 }
}

pub open spec fn min_int(a: int, b: int) -> int {
    if a <= b {
        a
    } else {
        b
    }
}

pub open spec fn max_int(a: int, b: int) -> int {
    if a >= b {
        a
    } else {
        b
    }
}

/// The statistic once `v` is added.
pub open spec fn add_value(s: Summary, v: int) -> Summary {
    Summary { min: min_int(s.min, v), max: max_int(s.max, v), sum: s.sum + v, count: s.count + 1 }
}

/// The statistic of two disjoint groups of values taken together.
pub open spec fn merge_summary(a: Summary, b: Summary) -> Summary {
    Summary {
        min: min_int(a.min, b.min),
        max: max_int(a.max, b.max),
        sum: a.sum + b.sum,
        count: a.count + b.count,
    }
}

/// The average in tenths, rounded half up: `floor(sum / count + 1/2)`.
pub open spec fn avg_tenths(s: Summary) -> int {
    (2 * s.sum + s.count) / (2 * s.count as int)
}

/// A statistic that some non-empty group of values can have.
pub open spec fn summary_ok(s: Summary) -> bool {
    &&& s.count >= 1
    &&& s.min <= s.max
    &&& s.count * s.min <= s.sum <= s.count * s.max
}

/// Per-key statistic; all values are in tenths.
#[derive(Clone, Copy, Debug)]
pub struct Aggregate {
    pub min: i32,
    pub max: i32,
    pub sum: i128,
    pub count: u64,
}

impl View for Aggregate {
    type V = Summary;

    open spec fn view(&self) -> Summary {
        Summary {
            min: self.min as int,
            max: self.max as int,
            sum: self.sum as int,
            count: self.count as nat,
        }
    }
}

impl Aggregate {
    /// Count at least one, minimum at most maximum, sum between `count * min`
    /// and `count * max`.
    pub open spec fn wf(&self) -> bool {
        summary_ok(self@)
    }

    /// The statistic of the single value `v`.
    pub fn new(v: i32) -> (r: Aggregate)
        ensures
            r@ == single(v as int),
            r.wf(),
    {
        Aggregate { min: v, max: v, sum: v as i128, count: 1 }
    }

    /// Adds one value.
    pub fn add(&mut self, v: i32)
        requires
            old(self).wf(),
            old(self).count < u64::MAX,
        ensures
            final(self)@ == add_value(old(self)@, v as int),
            final(self).wf(),
    {
        proof {
            lemma_add_ok(self@, v as int);
            lemma_sum_range(self@);
        }
        if v < self.min {
            self.min = v;
        }
        if v > self.max {
            self.max = v;
        }
        self.sum = self.sum + v as i128;
        self.count = self.count + 1;
    }

    /// Takes in the statistic of another group of values.
    pub fn merge(&mut self, other: &Aggregate)
        requires
            old(self).wf(),
            other.wf(),
            old(self).count + other.count <= u64::MAX,
        ensures
            final(self)@ == merge_summary(old(self)@, other@),
            final(self).wf(),
    {
        proof {
            lemma_merge_ok(self@, other@);
            lemma_sum_range(self@);
            lemma_sum_range(other@);
        }
        if other.min < self.min {
            self.min = other.min;
        }
        if other.max > self.max {
            self.max = other.max;
        }
        self.sum = self.sum + other.sum;
        self.count = self.count + other.count;
    }

    /// The average in tenths, rounded half up.
    pub fn avg(&self) -> (r: i32)
        requires
            self.wf(),
        ensures
            r as int == avg_tenths(self@),
            self.min <= r <= self.max,
    {
        proof {
            lemma_avg_bounds(self@);
            lemma_sum_range(self@);
        }
        let num: i128 = 2 * self.sum + self.count as i128;
        let den: i128 = 2 * self.count as i128;
        floor_div(num, den) as i32
    }
}

/// `|sum| < count * 2^31`: what keeps sums inside `i128`.
proof fn lemma_sum_range(s: Summary)
    requires
        summary_ok(s),
        -0x8000_0000 <= s.min,
        s.max < 0x8000_0000,
        s.count <= u64::MAX,
    ensures
        -s.count * 0x8000_0000 <= s.sum <= s.count * 0x8000_0000,
        -0x8000_0000_0000_0000_0000_0000 < s.sum < 0x8000_0000_0000_0000_0000_0000,
{
    assert(-s.count * 0x8000_0000 <= s.count * s.min) by (nonlinear_arith)
        requires
            -0x8000_0000 <= s.min,
            s.count >= 0,
    ;
    assert(s.count * s.max <= s.count * 0x8000_0000) by (nonlinear_arith)
        requires
            s.max < 0x8000_0000,
            s.count >= 0,
    ;
    assert(s.count * 0x8000_0000 < 0x8000_0000_0000_0000_0000_0000) by (nonlinear_arith)
        requires
            s.count <= u64::MAX,
    ;
}

proof fn lemma_add_ok(s: Summary, v: int)
    requires
        summary_ok(s),
    ensures
        summary_ok(add_value(s, v)),
{
    lemma_merge_ok(s, single(v));
    assert(add_value(s, v) == merge_summary(s, single(v)));
}

proof fn lemma_merge_ok(a: Summary, b: Summary)
    requires
        summary_ok(a),
        summary_ok(b),
    ensures
        summary_ok(merge_summary(a, b)),
{
    let m = merge_summary(a, b);
    assert(a.count * m.min <= a.count * a.min) by (nonlinear_arith)
        requires
            m.min <= a.min,
            a.count >= 0,
    ;
    assert(b.count * m.min <= b.count * b.min) by (nonlinear_arith)
        requires
            m.min <= b.min,
            b.count >= 0,
    ;
    assert(a.count * a.max <= a.count * m.max) by (nonlinear_arith)
        requires
            a.max <= m.max,
            a.count >= 0,
    ;
    assert(b.count * b.max <= b.count * m.max) by (nonlinear_arith)
        requires
            b.max <= m.max,
            b.count >= 0,
    ;
    assert(m.count * m.min == a.count * m.min + b.count * m.min) by (nonlinear_arith)
        requires
            m.count == a.count + b.count,
    ;
    assert(m.count * m.max == a.count * m.max + b.count * m.max) by (nonlinear_arith)
        requires
            m.count == a.count + b.count,
    ;
}

/// The rounded average lies between the minimum and the maximum.
proof fn lemma_avg_bounds(s: Summary)
    requires
        summary_ok(s),
    ensures
        s.min <= avg_tenths(s) <= s.max,
{
    let num: int = 2 * s.sum + s.count;
    let den: int = 2 * (s.count as int);
    let q = num / den;
    vstd::arithmetic::div_mod::lemma_fundamental_div_mod(num, den);
    assert(s.min <= q <= s.max) by (nonlinear_arith)
        requires
            num == den * q + num % den,
            0 <= num % den < den,
            den == 2 * s.count,
            num == 2 * s.sum + s.count,
            s.count >= 1,
            s.count * s.min <= s.sum <= s.count * s.max,
    ;
}

/// Division rounded towards minus infinity, for a positive divisor.
pub fn floor_div(num: i128, den: i128) -> (r: i128)
    requires
        den > 0,
        -0x1_0000_0000_0000_0000_0000_0000_0000 < num < 0x1_0000_0000_0000_0000_0000_0000_0000,
    ensures
        r as int == num as int / den as int,
{
    if num >= 0 {
        ((num as u128) / (den as u128)) as i128
    } else {
        let a: u128 = (-num) as u128;
        let t: u128 = (a + den as u128 - 1) / (den as u128);
        proof {
            let x = (a + den - 1) as int;
            vstd::arithmetic::div_mod::lemma_fundamental_div_mod(x, den as int);
            assert(t <= a) by (nonlinear_arith)
                requires
                    x == den * t + x % (den as int),
                    0 <= x % (den as int),
                    x == a + den - 1,
                    a >= 1,
                    den >= 1,
            ;
            assert(0 <= num + t * den < den && num == -(t as int) * den + (num + t * den))
                by (nonlinear_arith)
                requires
                    x == den * t + x % (den as int),
                    0 <= x % (den as int) < den,
                    x == a + den - 1,
                    a == -num,
            ;
            vstd::arithmetic::div_mod::lemma_fundamental_div_mod_converse(
                num as int,
                den as int,
                -(t as int),
                num + t * den,
            );
        }
        -(t as i128)
    }
}

/// Merging statistics does not depend on the order of the two sides.
pub proof fn merge_commutes(a: Summary, b: Summary)
    ensures
        merge_summary(a, b) == merge_summary(b, a),
{
}

/// Merging statistics does not depend on how three of them are grouped.
pub proof fn merge_associates(a: Summary, b: Summary, c: Summary)
    ensures
        merge_summary(merge_summary(a, b), c) == merge_summary(a, merge_summary(b, c)),
{
}

} // verus!
