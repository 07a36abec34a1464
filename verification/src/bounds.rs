//! Shared axis bounds over one or more extracted series: the raw value
//! range, rounded outward to whole percent and scaled by a tick
//! granularity.

use vstd::prelude::*;
use crate::record::{Date, RateError};

verus! {

/// Value-axis bounds for a chart. `min` and `max` are tick indices: the
/// bound value in percent is the index divided by `granularity`, and the
/// tick step is `1 / granularity`.
#[derive(Clone, Copy, Debug, PartialEq, Eq, Structural)]
pub struct AxisBounds {
    pub min: u64,
    pub max: u64,
    pub granularity: u32,
}

/// The views of a sequence of series vectors.
pub open spec fn series_views(ss: Seq<Vec<(Date, u32)>>) -> Seq<Seq<(Date, u32)>> {
    Seq::new(ss.len(), |i: int| ss[i]@)
}

/// The values (in thousandths of a percent) of one series, in order.
pub open spec fn values_of(s: Seq<(Date, u32)>) -> Seq<u32> {
    s.map(|i: int, p: (Date, u32)| p.1)
}

/// All values across a sequence of series, flattened in order.
pub open spec fn all_values(ss: Seq<Seq<(Date, u32)>>) -> Seq<u32>
    decreases ss.len(),
{
    if ss.len() == 0 {
        Seq::empty()
    } else {
        all_values(ss.drop_last()) + values_of(ss.last())
    }
}

/// The least element of a non-empty value sequence.
pub open spec fn seq_min(s: Seq<u32>) -> u32
    decreases s.len(),
{
    if s.len() <= 1 {
        s[0]
    } else if s.last() < seq_min(s.drop_last()) {
        s.last()
    } else {
        seq_min(s.drop_last())
    }
}

/// The greatest element of a non-empty value sequence.
pub open spec fn seq_max(s: Seq<u32>) -> u32
    decreases s.len(),
{
    if s.len() <= 1 {
        s[0]
    } else if s.last() > seq_max(s.drop_last()) {
        s.last()
    } else {
        seq_max(s.drop_last())
    }
}

/// `seq_min` and `seq_max` bound every element and are themselves elements.
pub proof fn lemma_min_max_bounds(s: Seq<u32>)
    requires
        s.len() > 0,
    ensures
        forall|i: int| 0 <= i < s.len() ==> seq_min(s) <= #[trigger] s[i] <= seq_max(s),
        exists|i: int| 0 <= i < s.len() && s[i] == seq_min(s),
        exists|j: int| 0 <= j < s.len() && s[j] == seq_max(s),
        seq_min(s) <= seq_max(s),
    decreases s.len(),
{
    if s.len() == 1 {
        assert(s[0] == seq_min(s));
        assert(s[0] == seq_max(s));
        assert forall|i: int| 0 <= i < s.len() implies seq_min(s) <= #[trigger] s[i] <= seq_max(
            s,
        ) by {
            assert(i == 0);
        };
    } else {
        lemma_min_max_bounds(s.drop_last());
        assert(forall|i: int| 0 <= i < s.len() - 1 ==> s[i] == #[trigger] s.drop_last()[i]);
        assert forall|i: int| 0 <= i < s.len() implies seq_min(s) <= #[trigger] s[i] <= seq_max(
            s,
        ) by {
            if i < s.len() - 1 {
                assert(s[i] == s.drop_last()[i]);
                assert(seq_min(s.drop_last()) <= s.drop_last()[i] <= seq_max(s.drop_last()));
            } else {
                assert(s[i] == s.last());
            }
        };
        let wit_min = choose|i: int|
            0 <= i < s.drop_last().len() && s.drop_last()[i] == seq_min(s.drop_last());
        let wit_max = choose|j: int|
            0 <= j < s.drop_last().len() && s.drop_last()[j] == seq_max(s.drop_last());
        if s.last() < seq_min(s.drop_last()) {
            assert(s[s.len() - 1] == seq_min(s));
        } else {
            assert(s[wit_min] == seq_min(s));
        }
        if s.last() > seq_max(s.drop_last()) {
            assert(s[s.len() - 1] == seq_max(s));
        } else {
            assert(s[wit_max] == seq_max(s));
        }
    }
}

/// The tick index of the value-axis minimum: the raw minimum (in
/// thousandths of a percent) rounded down to a whole percent, scaled by the
/// granularity.
pub open spec fn min_bound(raw_min: u32, granularity: u32) -> int {
    (raw_min / 1000) * granularity
}

/// The tick index of the value-axis maximum: the raw maximum rounded up to
/// a whole percent, scaled by the granularity.
pub open spec fn max_bound(raw_max: u32, granularity: u32) -> int {
    ((raw_max + 999) / 1000) * granularity
}

/// The minimum and maximum value across one series.
pub fn min_max(series: &Vec<(Date, u32)>) -> (r: (u32, u32))
    requires
        series@.len() > 0,
    ensures
        r.0 == seq_min(values_of(series@)),
        r.1 == seq_max(values_of(series@)),
{
    let ghost vals = values_of(series@);
    let mut lo = series[0].1;
    let mut hi = series[0].1;
    let mut i: usize = 1;
    proof {
        assert(vals.len() == series@.len());
        assert(vals[0] == series@[0].1);
        assert(vals.take(1).len() == 1);
        assert(vals.take(1)[0] == vals[0]);
    }
    while i < series.len()
        invariant
            1 <= i <= series@.len(),
            vals == values_of(series@),
            vals.len() == series@.len(),
            lo == seq_min(vals.take(i as int)),
            hi == seq_max(vals.take(i as int)),
        decreases series@.len() - i,
    {
        let ghost k = i as int;
        proof {
            assert(vals.take(k + 1).drop_last() =~= vals.take(k));
            assert(vals.take(k + 1).last() == vals[k]);
            assert(vals[k] == series@[k].1);
            assert(vals.take(k + 1).len() == k + 1);
        }
        let v = series[i].1;
        if v < lo {
            lo = v;
        }
        if v > hi {
            hi = v;
        }
        i += 1;
    }
    proof {
        assert(vals.take(vals.len() as int) =~= vals);
    }
    (lo, hi)
}

/// Compute shared axis bounds across all supplied series.
///
/// Fails with `EmptyDomain` exactly when the series carry no value at all.
/// Otherwise the result's `min` is the raw minimum rounded down to a whole
/// percent and `max` the raw maximum rounded up, both expressed as tick
/// indices at the given granularity.
pub fn compute_bounds(series: &Vec<Vec<(Date, u32)>>, granularity: u32) -> (r: Result<
    AxisBounds,
    RateError,
>)
    requires
        granularity >= 1,
    ensures
        match r {
            Ok(b) => {
                let vals = all_values(series_views(series@));
                &&& vals.len() > 0
                &&& b.granularity == granularity
                &&& b.min == min_bound(seq_min(vals), granularity)
                &&& b.max == max_bound(seq_max(vals), granularity)
            },
            Err(e) => {
                &&& e == RateError::EmptyDomain
                &&& all_values(series_views(series@)).len() == 0
            },
        },
{
    let ghost ss: Seq<Seq<(Date, u32)>> = series_views(series@);
    let mut found = false;
    let mut lo: u32 = 0;
    let mut hi: u32 = 0;
    let mut i: usize = 0;
    proof {
        assert(ss.take(0) =~= Seq::<Seq<(Date, u32)>>::empty());
    }
    while i < series.len()
        invariant
            granularity >= 1,
            i <= series@.len(),
            ss == series_views(series@),
            ss.len() == series@.len(),
            !found ==> all_values(ss.take(i as int)).len() == 0,
            found ==> all_values(ss.take(i as int)).len() > 0,
            found ==> lo == seq_min(all_values(ss.take(i as int))),
            found ==> hi == seq_max(all_values(ss.take(i as int))),
        decreases series@.len() - i,
    {
        let ghost k = i as int;
        let ghost prefix = all_values(ss.take(k));
        proof {
            assert(ss.take(k + 1).drop_last() =~= ss.take(k));
            assert(ss.take(k + 1).last() == ss[k]);
            assert(ss[k] == series@[k]@);
            assert(all_values(ss.take(k + 1)) == prefix + values_of(series@[k]@));
        }
        let s = &series[i];
        if s.len() > 0 {
            let (slo, shi) = min_max(s);
            proof {
                lemma_min_max_concat(prefix, values_of(s@));
            }
            if found {
                if slo < lo {
                    lo = slo;
                }
                if shi > hi {
                    hi = shi;
                }
            } else {
                lo = slo;
                hi = shi;
                found = true;
            }
        } else {
            proof {
                assert(values_of(s@).len() == 0);
                assert(all_values(ss.take(k + 1)) =~= prefix);
            }
        }
        i += 1;
    }
    proof {
        assert(ss.take(ss.len() as int) =~= ss);
    }
    if !found {
        return Err(RateError::EmptyDomain);
    }
    proof {
        assert(lo as u64 / 1000 == lo / 1000);
        assert((hi as u64 + 999) / 1000 == (hi + 999) as u64 / 1000);
        assert((lo / 1000) as u64 <= 0xffff_ffffu64 && granularity as u64 <= 0xffff_ffffu64);
        assert((lo as u64 / 1000) * (granularity as u64) <= 0xffff_ffffu64 * 0xffff_ffffu64)
            by (nonlinear_arith)
            requires
                lo as u64 / 1000 <= 0xffff_ffffu64,
                granularity as u64 <= 0xffff_ffffu64,
        ;
        assert(((hi as u64 + 999) / 1000) <= 0xffff_ffffu64);
        assert(((hi as u64 + 999) / 1000) * (granularity as u64) <= 0xffff_ffffu64
            * 0xffff_ffffu64) by (nonlinear_arith)
            requires
                (hi as u64 + 999) / 1000 <= 0xffff_ffffu64,
                granularity as u64 <= 0xffff_ffffu64,
        ;
    }
    let min: u64 = (lo as u64 / 1000) * (granularity as u64);
    let max: u64 = ((hi as u64 + 999) / 1000) * (granularity as u64);
    Ok(AxisBounds { min, max, granularity })
}

/// Minimum and maximum of a concatenation, in terms of the two parts.
proof fn lemma_min_max_concat(a: Seq<u32>, b: Seq<u32>)
    requires
        b.len() > 0,
    ensures
        a.len() > 0 ==> seq_min(a + b) == if seq_min(b) < seq_min(a) {
            seq_min(b)
        } else {
            seq_min(a)
        },
        a.len() > 0 ==> seq_max(a + b) == if seq_max(b) > seq_max(a) {
            seq_max(b)
        } else {
            seq_max(a)
        },
        a.len() == 0 ==> seq_min(a + b) == seq_min(b) && seq_max(a + b) == seq_max(b),
    decreases b.len(),
{
    if b.len() == 1 {
        assert((a + b).drop_last() =~= a);
        assert((a + b).last() == b[0]);
        if a.len() == 0 {
            assert((a + b).len() == 1);
            assert((a + b)[0] == b[0]);
        } else {
            assert((a + b).len() > 1);
        }
    } else {
        lemma_min_max_concat(a, b.drop_last());
        assert((a + b).drop_last() =~= a + b.drop_last());
        assert((a + b).last() == b.last());
        assert(b.drop_last().len() > 0);
        if a.len() > 0 {
            lemma_min_max_bounds(a);
            lemma_min_max_bounds(b);
        }
    }
}

/// Bounds monotonicity: the computed axis range contains the raw value
/// range. Stated in a common unit: tick indices carry a factor of the
/// granularity per percent, raw values a factor of a thousand per percent.
pub proof fn lemma_bounds_monotonicity(raw_min: u32, raw_max: u32, granularity: u32)
    requires
        raw_min <= raw_max,
        granularity >= 1,
    ensures
        min_bound(raw_min, granularity) * 1000 <= raw_min * granularity,
        raw_min * granularity <= raw_max * granularity,
        raw_max * granularity <= max_bound(raw_max, granularity) * 1000,
{
    assert((raw_min / 1000) * 1000 <= raw_min);
    assert(raw_max <= ((raw_max + 999) / 1000) * 1000);
    assert((raw_min / 1000) * granularity * 1000 <= raw_min * granularity) by (nonlinear_arith)
        requires
            (raw_min / 1000) * 1000 <= raw_min,
            granularity >= 1,
    ;
    assert(raw_max * granularity <= ((raw_max + 999) / 1000) * granularity * 1000)
        by (nonlinear_arith)
        requires
            raw_max <= ((raw_max + 999) / 1000) * 1000,
            granularity >= 1,
    ;
    assert(raw_min * granularity <= raw_max * granularity) by (nonlinear_arith)
        requires
            raw_min <= raw_max,
            granularity >= 1,
    ;
}

} // verus!
