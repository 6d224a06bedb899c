//! The running aggregate kept for one key.
use vstd::prelude::*;

verus! {

/// Largest number of observations a single accumulator may hold.
///
/// With every scaled value in `[-32768, 32767]`, a count up to this bound keeps
/// the exact sum well inside `i64`.
pub const MAX_COUNT: u64 = 0x4000_0000_0000;

/// Running minimum, maximum, sum and count of scaled (value × 10) readings.
#[derive(Clone, Copy, Debug, PartialEq, Eq, Structural)]
pub struct TempStats {
    pub min: i16,
    pub max: i16,
    pub sum: i64,
    pub count: u64,
}

/// The accumulator holding exactly one observation.
pub open spec fn stats_of(v: i16) -> TempStats {
    TempStats { min: v, max: v, sum: v as i64, count: 1 }
}

pub open spec fn min_i16(a: i16, b: i16) -> i16 {
    if a <= b { a } else { b }
}

pub open spec fn max_i16(a: i16, b: i16) -> i16 {
    if a >= b { a } else { b }
}

/// The accumulator after one more observation `v`.
pub open spec fn stats_add(s: TempStats, v: i16) -> TempStats {
    TempStats {
        min: min_i16(s.min, v),
        max: max_i16(s.max, v),
        sum: (s.sum + v) as i64,
        count: (s.count + 1) as u64,
    }
}

/// The accumulator describing the observations of both `a` and `b`.
pub open spec fn stats_join(a: TempStats, b: TempStats) -> TempStats {
    TempStats {
        min: min_i16(a.min, b.min),
        max: max_i16(a.max, b.max),
        sum: (a.sum + b.sum) as i64,
        count: (a.count + b.count) as u64,
    }
}

impl TempStats {
    /// Holds after at least one observation: the count is positive and
    /// bounded, `min <= max`, and the sum lies between `count × min` and
    /// `count × max`.
    pub open spec fn wf(self) -> bool {
        &&& 1 <= self.count <= MAX_COUNT
        &&& self.min <= self.max
        &&& self.count * self.min <= self.sum <= self.count * self.max
    }

    /// Two accumulators can be joined without exceeding the count bound.
    pub open spec fn can_join(self, other: TempStats) -> bool {
        self.count + other.count <= MAX_COUNT
    }

    pub fn new(temp: i16) -> (r: TempStats)
        ensures
            r == stats_of(temp),
            r.wf(),
    {
        TempStats { min: temp, max: temp, sum: temp as i64, count: 1 }
    }

    pub fn update(&mut self, temp: i16)
        requires
            old(self).wf(),
            old(self).count < MAX_COUNT,
        ensures
            *final(self) == stats_add(*old(self), temp),
            final(self).wf(),
    {
        proof {
            lemma_sum_bounds(*self);
        }
        if temp < self.min {
            self.min = temp;
        }
        if temp > self.max {
            self.max = temp;
        }
        self.sum = self.sum + temp as i64;
        self.count = self.count + 1;
        proof {
            lemma_add_wf(*old(self), temp);
        }
    }

    pub fn merge(&mut self, other: &TempStats)
        requires
            old(self).wf(),
            other.wf(),
            old(self).can_join(*other),
        ensures
            *final(self) == stats_join(*old(self), *other),
            final(self).wf(),
    {
        proof {
            lemma_sum_bounds(*self);
            lemma_sum_bounds(*other);
        }
        if other.min < self.min {
            self.min = other.min;
        }
        if other.max > self.max {
            self.max = other.max;
        }
        self.sum = self.sum + other.sum;
        self.count = self.count + other.count;
        proof {
            lemma_join_wf(*old(self), *other);
        }
    }
}

/// A well-formed accumulator's sum stays far from the limits of `i64`.
pub proof fn lemma_sum_bounds(s: TempStats)
    requires
        s.wf(),
    ensures
        -0x2000_0000_0000_0000 <= s.sum <= 0x2000_0000_0000_0000,
{
    assert(s.count * s.min >= s.count * (-32768)) by (nonlinear_arith)
        requires s.min >= -32768, s.count >= 0;
    assert(s.count * s.max <= s.count * 32767) by (nonlinear_arith)
        requires s.max <= 32767, s.count >= 0;
}

/// One more observation keeps an accumulator with room well formed.
pub proof fn lemma_add_wf(s: TempStats, v: i16)
    requires
        s.wf(),
        s.count < MAX_COUNT,
    ensures
        stats_add(s, v).wf(),
{
    lemma_sum_bounds(s);
    let r = stats_add(s, v);
    assert(s.count * s.min + v >= (s.count + 1) * r.min) by (nonlinear_arith)
        requires r.min <= s.min, r.min <= v, s.count >= 0;
    assert(s.count * s.max + v <= (s.count + 1) * r.max) by (nonlinear_arith)
        requires r.max >= s.max, r.max >= v, s.count >= 0;
}

/// Joining two accumulators within the count bound keeps it well formed.
pub proof fn lemma_join_wf(a: TempStats, b: TempStats)
    requires
        a.wf(),
        b.wf(),
        a.can_join(b),
    ensures
        stats_join(a, b).wf(),
{
    lemma_sum_bounds(a);
    lemma_sum_bounds(b);
    let r = stats_join(a, b);
    assert(a.count * a.min + b.count * b.min >= (a.count + b.count) * r.min) by (nonlinear_arith)
        requires r.min <= a.min, r.min <= b.min, a.count >= 0, b.count >= 0;
    assert(a.count * a.max + b.count * b.max <= (a.count + b.count) * r.max) by (nonlinear_arith)
        requires r.max >= a.max, r.max >= b.max, a.count >= 0, b.count >= 0;
}

/// Joining accumulators does not depend on their order.
pub proof fn lemma_merge_commutative(a: TempStats, b: TempStats)
    ensures
        stats_join(a, b) == stats_join(b, a),
{
}

/// Joining accumulators does not depend on how they are grouped.
pub proof fn lemma_merge_associative(a: TempStats, b: TempStats, c: TempStats)
    requires
        a.wf(),
        b.wf(),
        c.wf(),
        a.count + b.count + c.count <= MAX_COUNT,
    ensures
        stats_join(stats_join(a, b), c) == stats_join(a, stats_join(b, c)),
        stats_join(a, b).wf(),
        stats_join(b, c).wf(),
{
    lemma_join_wf(a, b);
    lemma_join_wf(b, c);
    lemma_sum_bounds(a);
    lemma_sum_bounds(b);
    lemma_sum_bounds(c);
}

} // verus!
