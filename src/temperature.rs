use vstd::prelude::*;

verus! {

/// The lowest temperature a record can hold, in tenths of a degree.
pub const MIN_TENTHS: i32 = -999;

/// The highest temperature a record can hold, in tenths of a degree.
pub const MAX_TENTHS: i32 = 999;

/// A temperature in tenths of a degree that a line of input can carry.
pub open spec fn is_tenths(t: int) -> bool {
    MIN_TENTHS <= t <= MAX_TENTHS
}

pub open spec fn min_of(a: int, b: int) -> int {
    if a <= b { a } else { b }
}

pub open spec fn max_of(a: int, b: int) -> int {
    if a >= b { a } else { b }
}

/// The aggregate of a non-empty collection of samples, as mathematical integers.
pub struct Stats {
    pub min: int,
    pub max: int,
    pub sum: int,
    pub count: nat,
}

impl Stats {
    /// The aggregate of one sample.
    pub open spec fn single(t: int) -> Stats {
        Stats { min: t, max: t, sum: t, count: 1 }
    }

    /// The aggregate after one more sample.
    pub open spec fn add(self, t: int) -> Stats {
        Stats {
            min: min_of(self.min, t),
            max: max_of(self.max, t),
            sum: self.sum + t,
            count: self.count + 1,
        }
    }

    /// The aggregate of the samples of both.
    pub open spec fn merge(self, other: Stats) -> Stats {
        Stats {
            min: min_of(self.min, other.min),
            max: max_of(self.max, other.max),
            sum: self.sum + other.sum,
            count: self.count + other.count,
        }
    }

    /// What holds of the aggregate of at least one legal sample.
    pub open spec fn wf(self) -> bool {
        &&& self.count >= 1
        &&& is_tenths(self.min)
        &&& is_tenths(self.max)
        &&& self.min <= self.max
        &&& self.min * self.count <= self.sum <= self.max * self.count
    }
}

/// Minimum, maximum, sum and count of the samples of one station, in tenths.
#[derive(Debug, Clone, Copy, PartialEq, Eq, Structural)]
pub struct Temperature {
    pub min: i32,
    pub max: i32,
    pub sum: i64,
    pub count: u32,
}

impl View for Temperature {
    type V = Stats;

    open spec fn view(&self) -> Stats {
        Stats { min: self.min as int, max: self.max as int, sum: self.sum as int, count: self.count as nat }
    }
}

/// A sum of samples stays within the count times the largest magnitude.
pub proof fn lemma_sum_bounds(s: Stats)
    requires
        s.wf(),
    ensures
        -999 * s.count <= s.sum <= 999 * s.count,
{
    assert(-999 * s.count <= s.min * s.count) by (nonlinear_arith)
        requires
            -999 <= s.min,
            s.count >= 1,
    ;
    assert(s.max * s.count <= 999 * s.count) by (nonlinear_arith)
        requires
            s.max <= 999,
            s.count >= 1,
    ;
}

impl Temperature {
    /// The record of a single sample.
    pub fn new(temperature: i32) -> (r: Self)
        requires
            is_tenths(temperature as int),
        ensures
            r@ == Stats::single(temperature as int),
            r@.wf(),
    {
        Self { min: temperature, max: temperature, sum: temperature as i64, count: 1 }
    }

    /// Folds the samples of `other` into this record.
    pub fn update(&mut self, other: &Temperature)
        requires
            old(self)@.wf(),
            other@.wf(),
            old(self).count + other.count <= u32::MAX,
        ensures
            final(self)@ == old(self)@.merge(other@),
            final(self)@.wf(),
    {
        proof {
            lemma_sum_bounds(self@);
            lemma_sum_bounds(other@);
            let (a, b) = (self@, other@);
            assert(min_of(a.min, b.min) * (a.count + b.count) <= a.sum + b.sum) by (nonlinear_arith)
                requires
                    a.min * a.count <= a.sum,
                    b.min * b.count <= b.sum,
                    a.count >= 1,
                    b.count >= 1,
            ;
            assert(a.sum + b.sum <= max_of(a.max, b.max) * (a.count + b.count)) by (nonlinear_arith)
                requires
                    a.sum <= a.max * a.count,
                    b.sum <= b.max * b.count,
                    a.count >= 1,
                    b.count >= 1,
            ;
        }
        if other.min < self.min {
            self.min = other.min;
        }
        if other.max > self.max {
            self.max = other.max;
        }
        self.sum = self.sum + other.sum;
        self.count = self.count + other.count;
    }

    /// Folds one more sample into this record.
    pub fn update_single(&mut self, temperature: i32)
        requires
            old(self)@.wf(),
            is_tenths(temperature as int),
            old(self).count < u32::MAX,
        ensures
            final(self)@ == old(self)@.add(temperature as int),
            final(self)@.wf(),
    {
        proof {
            lemma_sum_bounds(self@);
            let (a, t) = (self@, temperature as int);
            assert(min_of(a.min, t) * (a.count + 1) <= a.sum + t) by (nonlinear_arith)
                requires
                    a.min * a.count <= a.sum,
                    a.count >= 1,
            ;
            assert(a.sum + t <= max_of(a.max, t) * (a.count + 1)) by (nonlinear_arith)
                requires
                    a.sum <= a.max * a.count,
                    a.count >= 1,
            ;
        }
        if temperature < self.min {
            self.min = temperature;
        }
        if temperature > self.max {
            self.max = temperature;
        }
        self.sum = self.sum + temperature as i64;
        self.count = self.count + 1;
    }
}

} // verus!
