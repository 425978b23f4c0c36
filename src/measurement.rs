use vstd::prelude::*;

verus! {

/// Largest magnitude, in tenths, that a single observation may have.
pub const DOMAIN_BOUND: i16 = 999;

/// Mathematical form of a running aggregate.
pub struct Agg {
    pub min: int,
    pub max: int,
    pub sum: int,
    pub count: nat,
}

/// `v` forced into `[-DOMAIN_BOUND, DOMAIN_BOUND]`.
pub open spec fn clamp_tenths(v: int) -> int {
    if v > 999 {
        999
    } else if v < -999 {
        -999
    } else {
        v
    }
}

/// Forces tenths into `[-DOMAIN_BOUND, DOMAIN_BOUND]`.
pub fn clamp_to_domain(value: i16) -> (r: i16)
    ensures
        r as int == clamp_tenths(value as int),
{
    if value > DOMAIN_BOUND {
        DOMAIN_BOUND
    } else if value < -DOMAIN_BOUND {
        -DOMAIN_BOUND
    } else {
        value
    }
}

/// The aggregate of the single observation `v`.
pub open spec fn single(v: int) -> Agg {
    Agg { min: v, max: v, sum: v, count: 1 }
}

pub open spec fn min_int(a: int, b: int) -> int {
    if b < a {
        b
    } else {
        a
    }
}

pub open spec fn max_int(a: int, b: int) -> int {
    if b > a {
        b
    } else {
        a
    }
}

/// The aggregate of the union of two disjoint sets of observations.
pub open spec fn combine(a: Agg, b: Agg) -> Agg {
    Agg {
        min: min_int(a.min, b.min),
        max: max_int(a.max, b.max),
        sum: a.sum + b.sum,
        count: a.count + b.count,
    }
}

/// Average in tenths, rounded to the nearest tenth with halves away from zero.
pub open spec fn rounded_avg(sum: int, count: int) -> int
    recommends
        count > 0,
{
    if sum >= 0 {
        (2 * sum + count) / (2 * count)
    } else {
        -((-2 * sum + count) / (2 * count))
    }
}

/// Running aggregate of the observations of one key, in tenths.
#[derive(Clone, Copy, Debug)]
pub struct Measurement {
    pub min: i16,
    pub max: i16,
    pub sum: i64,
    pub count: usize,
}

/// Display form of an aggregate: minimum, maximum and rounded average, in tenths.
#[derive(Clone, Copy, Debug, PartialEq, Eq)]
pub struct FinalMeasurement {
    pub min: i16,
    pub max: i16,
    pub avg: i16,
}

impl Measurement {
    pub open spec fn view(&self) -> Agg {
        Agg { min: self.min as int, max: self.max as int, sum: self.sum as int, count: self.count as nat }
    }

    /// At least one observation, and `min <= each observation <= max`.
    pub open spec fn wf(&self) -> bool {
        &&& self.count >= 1
        &&& self.min <= self.max
        &&& self.count * self.min <= self.sum <= self.count * self.max
    }

    /// Starts an aggregate from one observation, clamped to the value domain.
    pub fn new(value: i16) -> (r: Self)
        ensures
            r@ == single(clamp_tenths(value as int)),
            r.wf(),
    {
        let value = clamp_to_domain(value);
        Measurement { min: value, max: value, sum: value as i64, count: 1 }
    }

    /// Adds one observation.
    pub fn add(&mut self, value: i16)
        requires
            old(self).wf(),
            old(self).count < usize::MAX,
            i64::MIN <= old(self).sum + value <= i64::MAX,
        ensures
            final(self)@ == combine(old(self)@, single(value as int)),
            final(self).wf(),
    {
        self.sum = self.sum + value as i64;
        self.count = self.count + 1;
        if value < self.min {
            self.min = value;
        }
        if value > self.max {
            self.max = value;
        }
        proof {
            let o = old(self);
            assert(self.count * self.min <= self.sum <= self.count * self.max) by (nonlinear_arith)
                requires
                    self.count == o.count + 1,
                    self.sum == o.sum + value,
                    self.min <= o.min,
                    self.min <= value,
                    self.max >= o.max,
                    self.max >= value,
                    o.count * o.min <= o.sum <= o.count * o.max,
                    o.count >= 1,
            ;
        }
    }

    /// Folds in an aggregate built from a disjoint set of observations.
    pub fn merge(&mut self, other: &Measurement)
        requires
            old(self).wf(),
            other.wf(),
            old(self).count + other.count <= usize::MAX,
            i64::MIN <= old(self).sum + other.sum <= i64::MAX,
        ensures
            final(self)@ == combine(old(self)@, other@),
            final(self).wf(),
    {
        self.sum = self.sum + other.sum;
        self.count = self.count + other.count;
        if other.min < self.min {
            self.min = other.min;
        }
        if other.max > self.max {
            self.max = other.max;
        }
        proof {
            let o = old(self);
            assert(self.count * self.min <= self.sum <= self.count * self.max) by (nonlinear_arith)
                requires
                    self.count == o.count + other.count,
                    self.sum == o.sum + other.sum,
                    self.min <= o.min,
                    self.min <= other.min,
                    self.max >= o.max,
                    self.max >= other.max,
                    o.count * o.min <= o.sum <= o.count * o.max,
                    other.count * other.min <= other.sum <= other.count * other.max,
                    o.count >= 1,
                    other.count >= 1,
            ;
        }
    }

    /// Average in tenths, rounded once to the nearest tenth (halves away from zero).
    pub fn avg(&self) -> (r: i16)
        requires
            self.wf(),
        ensures
            r as int == rounded_avg(self.sum as int, self.count as int),
            rounds_to_nearest(self.sum as int, self.count as int, r as int),
            self.min <= r <= self.max,
    {
        proof {
            lemma_rounded_avg_nearest(self.sum as int, self.count as int);
            lemma_rounded_avg_bounds(self.sum as int, self.count as int, self.min as int, self.max as int);
        }
        let c: i128 = self.count as i128;
        if self.sum >= 0 {
            let s: i128 = self.sum as i128;
            let q: i128 = (2 * s + c) / (2 * c);
            q as i16
        } else {
            let s: i128 = -(self.sum as i128);
            let q: i128 = (2 * s + c) / (2 * c);
            (-q) as i16
        }
    }

    /// Display form: minimum, maximum and rounded average.
    pub fn finalize(&self) -> (r: FinalMeasurement)
        requires
            self.wf(),
        ensures
            r == finalized(self@),
            r.min <= r.avg <= r.max,
    {
        FinalMeasurement::new(self.min, self.max, self.avg())
    }
}

/// The display form of a well-formed aggregate.
pub open spec fn finalized(a: Agg) -> FinalMeasurement {
    FinalMeasurement {
        min: a.min as i16,
        max: a.max as i16,
        avg: rounded_avg(a.sum, a.count as int) as i16,
    }
}

impl FinalMeasurement {
    pub fn new(min: i16, max: i16, avg: i16) -> (r: Self)
        ensures
            r.min == min,
            r.max == max,
            r.avg == avg,
    {
        FinalMeasurement { min, max, avg }
    }
}

/// The rounded average of observations lying in `[lo, hi]` lies in `[lo, hi]`.
pub proof fn lemma_rounded_avg_bounds(sum: int, count: int, lo: int, hi: int)
    requires
        count >= 1,
        count * lo <= sum <= count * hi,
    ensures
        lo <= rounded_avg(sum, count) <= hi,
{
    if sum >= 0 {
        let q = (2 * sum + count) / (2 * count);
        let r = (2 * sum + count) % (2 * count);
        vstd::arithmetic::div_mod::lemma_fundamental_div_mod(2 * sum + count, 2 * count);
        assert(lo <= q <= hi) by (nonlinear_arith)
            requires
                2 * sum + count == 2 * count * q + r,
                0 <= r < 2 * count,
                count >= 1,
                count * lo <= sum <= count * hi,
        ;
    } else {
        let q = (-2 * sum + count) / (2 * count);
        let r = (-2 * sum + count) % (2 * count);
        vstd::arithmetic::div_mod::lemma_fundamental_div_mod(-2 * sum + count, 2 * count);
        assert(lo <= -q <= hi) by (nonlinear_arith)
            requires
                -2 * sum + count == 2 * count * q + r,
                0 <= r < 2 * count,
                count >= 1,
                count * lo <= sum <= count * hi,
        ;
    }
}

/// `r` is a nearest integer to `sum / count`, and on a tie the one farther
/// from zero.
pub open spec fn rounds_to_nearest(sum: int, count: int, r: int) -> bool {
    &&& -count <= 2 * count * r - 2 * sum <= count
    &&& 2 * count * r - 2 * sum == count ==> sum >= 0
    &&& 2 * count * r - 2 * sum == -count ==> sum < 0
}

/// `rounded_avg` rounds the mean to the nearest integer, halves away from zero.
pub proof fn lemma_rounded_avg_nearest(sum: int, count: int)
    requires
        count >= 1,
    ensures
        rounds_to_nearest(sum, count, rounded_avg(sum, count)),
{
    if sum >= 0 {
        let q = (2 * sum + count) / (2 * count);
        let r = (2 * sum + count) % (2 * count);
        vstd::arithmetic::div_mod::lemma_fundamental_div_mod(2 * sum + count, 2 * count);
        assert(rounds_to_nearest(sum, count, q)) by (nonlinear_arith)
            requires
                2 * sum + count == 2 * count * q + r,
                0 <= r < 2 * count,
                count >= 1,
                sum >= 0,
        ;
    } else {
        let q = (-2 * sum + count) / (2 * count);
        let r = (-2 * sum + count) % (2 * count);
        vstd::arithmetic::div_mod::lemma_fundamental_div_mod(-2 * sum + count, 2 * count);
        assert(rounds_to_nearest(sum, count, -q)) by (nonlinear_arith)
            requires
                -2 * sum + count == 2 * count * q + r,
                0 <= r < 2 * count,
                count >= 1,
                sum < 0,
        ;
    }
}

} // verus!
