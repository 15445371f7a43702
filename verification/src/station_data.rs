//! The running statistic kept for one station: minimum, maximum, exact
//! integer sum and count of the observed fixed-point temperatures.

use vstd::prelude::*;

verus! {

/// Mathematical model of a station's statistic, over unbounded integers.
pub struct StationStat {
    pub min: int,
    pub max: int,
    pub sum: int,
    pub count: nat,
}

/// The statistic after exactly one observation.
pub open spec fn singleton_stat(v: int) -> StationStat {
    StationStat { min: v, max: v, sum: v, count: 1 }
}

/// The statistic after one further observation.
pub open spec fn stat_observe(s: StationStat, v: int) -> StationStat {
    StationStat {
        min: if v < s.min {
            v
        } else {
            s.min
        },
        max: if v > s.max {
            v
        } else {
            s.max
        },
        sum: s.sum + v,
        count: s.count + 1,
    }
}

/// The element-wise merge of two statistics for the same station.
pub open spec fn combine_stat(a: StationStat, b: StationStat) -> StationStat {
    StationStat {
        min: if a.min < b.min {
            a.min
        } else {
            b.min
        },
        max: if a.max > b.max {
            a.max
        } else {
            b.max
        },
        sum: a.sum + b.sum,
        count: a.count + b.count,
    }
}

/// Merging statistics does not depend on the order of the two sides.
pub proof fn lemma_combine_commutative(a: StationStat, b: StationStat)
    ensures
        combine_stat(a, b) == combine_stat(b, a),
{
}

/// Merging statistics does not depend on how the merges are grouped.
pub proof fn lemma_combine_associative(a: StationStat, b: StationStat, c: StationStat)
    ensures
        combine_stat(combine_stat(a, b), c) == combine_stat(a, combine_stat(b, c)),
{
}

/// The statistic kept for one station.  The sum is wide enough that it can
/// never overflow: each observation fits in `i16` and the count fits in
/// `u64`, so the sum's magnitude stays below `2^80`.
#[derive(Clone, Copy, Debug, PartialEq, Eq, Structural)]
pub struct StationData {
    pub min: i16,
    pub max: i16,
    pub sum: i128,
    pub count: u64,
}

impl View for StationData {
    type V = StationStat;

    open spec fn view(&self) -> StationStat {
        StationStat {
            min: self.min as int,
            max: self.max as int,
            sum: self.sum as int,
            count: self.count as nat,
        }
    }
}

impl StationData {
    /// A statistic is well formed when it records at least one observation
    /// and its fields are mutually consistent: every observation lay between
    /// the minimum and the maximum, so the sum does too, scaled by the count.
    pub open spec fn wf(self) -> bool {
        &&& self.count >= 1
        &&& self.min <= self.max
        &&& (self.min as int) * (self.count as int) <= self.sum as int
        &&& self.sum as int <= (self.max as int) * (self.count as int)
    }

    /// The statistic of a station seen exactly once.
    pub fn from_initial_measurement(measurement: i16) -> (r: Self)
        ensures
            r.wf(),
            r@ == singleton_stat(measurement as int),
    {
        StationData { min: measurement, max: measurement, sum: measurement as i128, count: 1 }
    }

    /// Fold one further observation into the statistic.
    pub fn add_measurement(&mut self, measurement: i16)
        requires
            old(self).wf(),
            old(self).count < u64::MAX,
        ensures
            final(self).wf(),
            final(self)@ == stat_observe(old(self)@, measurement as int),
    {
        proof {
            lemma_stat_sum_bounds(*self);
        }
        if measurement < self.min {
            self.min = measurement;
        }
        if measurement > self.max {
            self.max = measurement;
        }
        self.sum = self.sum + measurement as i128;
        self.count = self.count + 1;
        proof {
            lemma_scaled_bound_observe(*old(self), measurement as int, *self);
        }
    }

    /// Merge another station's statistic for the same key into this one.
    pub fn combine(&mut self, other: Self)
        requires
            old(self).wf(),
            other.wf(),
            old(self).count + other.count <= u64::MAX,
        ensures
            final(self).wf(),
            final(self)@ == combine_stat(old(self)@, other@),
    {
        proof {
            lemma_stat_sum_bounds(*self);
            lemma_stat_sum_bounds(other);
        }
        if other.min < self.min {
            self.min = other.min;
        }
        if other.max > self.max {
            self.max = other.max;
        }
        self.sum = self.sum + other.sum;
        self.count = self.count + other.count;
        proof {
            lemma_scaled_bound_combine(*old(self), other, *self);
        }
    }
}

/// A well-formed statistic's sum is bounded by the extreme `i16` values
/// scaled by the count.
pub proof fn lemma_stat_sum_bounds(d: StationData)
    requires
        d.wf(),
    ensures
        -0x8000 * (d.count as int) <= d.sum as int <= 0x7fff * (d.count as int),
{
    assert(-0x8000 * (d.count as int) <= (d.min as int) * (d.count as int)
        && (d.max as int) * (d.count as int) <= 0x7fff * (d.count as int)) by (nonlinear_arith)
        requires
            -0x8000 <= d.min as int,
            d.max as int <= 0x7fff,
            d.count as int >= 0,
    ;
}

proof fn lemma_scaled_bound_observe(before: StationData, v: int, after: StationData)
    requires
        before.wf(),
        -0x8000 <= v <= 0x7fff,
        after.min as int == if v < (before.min as int) {
            v
        } else {
            before.min as int
        },
        after.max as int == if v > (before.max as int) {
            v
        } else {
            before.max as int
        },
        after.sum as int == before.sum as int + v,
        after.count as int == before.count as int + 1,
    ensures
        after.wf(),
{
    assert((after.min as int) * (after.count as int) <= after.sum as int && after.sum as int <= (
    after.max as int) * (after.count as int)) by (nonlinear_arith)
        requires
            before.count as int >= 1,
            after.min as int <= before.min as int,
            after.min as int <= v,
            before.max as int <= after.max as int,
            v <= after.max as int,
            (before.min as int) * (before.count as int) <= before.sum as int,
            before.sum as int <= (before.max as int) * (before.count as int),
            after.sum as int == before.sum as int + v,
            after.count as int == before.count as int + 1,
    ;
}

proof fn lemma_scaled_bound_combine(a: StationData, b: StationData, after: StationData)
    requires
        a.wf(),
        b.wf(),
        after.min as int == if (b.min as int) < (a.min as int) {
            b.min as int
        } else {
            a.min as int
        },
        after.max as int == if (b.max as int) > (a.max as int) {
            b.max as int
        } else {
            a.max as int
        },
        after.sum as int == a.sum as int + b.sum as int,
        after.count as int == a.count as int + b.count as int,
    ensures
        after.wf(),
{
    assert((after.min as int) * (after.count as int) <= after.sum as int && after.sum as int <= (
    after.max as int) * (after.count as int)) by (nonlinear_arith)
        requires
            a.count as int >= 1,
            b.count as int >= 1,
            after.min as int <= a.min as int,
            after.min as int <= b.min as int,
            a.max as int <= after.max as int,
            b.max as int <= after.max as int,
            (a.min as int) * (a.count as int) <= a.sum as int,
            a.sum as int <= (a.max as int) * (a.count as int),
            (b.min as int) * (b.count as int) <= b.sum as int,
            b.sum as int <= (b.max as int) * (b.count as int),
            after.sum as int == a.sum as int + b.sum as int,
            after.count as int == a.count as int + b.count as int,
    ;
}

} // verus!
