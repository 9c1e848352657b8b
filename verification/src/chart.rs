//! Time arithmetic of the charts: sample ages and pointer-to-sample mapping.
use vstd::prelude::*;

verus! {

/// How long ago a hovered sample was taken, relative to the newest sample.
#[derive(Debug, Clone, Copy, PartialEq, Eq, Structural)]
pub enum SampleAge {
    /// No caption: the chart has no timestamps, or the index is out of range.
    Unknown,
    /// Less than half a second old.
    Now,
    /// Whole seconds, below one minute.
    Seconds(u64),
    /// At least a minute: minutes and the remaining seconds (`m:ss`).
    Minutes(u64, u64),
}

/// The caption for an age in milliseconds: "now" below half a second, else
/// the age rounded to whole seconds, as seconds below a minute and as
/// minutes and seconds above.
pub open spec fn spec_age(age_ms: u64) -> SampleAge {
    if age_ms < 500 {
        SampleAge::Now
    } else {
        let secs = (age_ms as int + 500) / 1000;
        if secs < 60 {
            SampleAge::Seconds(secs as u64)
        } else {
            SampleAge::Minutes((secs / 60) as u64, (secs % 60) as u64)
        }
    }
}

/// Age caption for a sample `age_ms` old.
pub fn age_of(age_ms: u64) -> (age: SampleAge)
    ensures
        age == spec_age(age_ms),
{
    if age_ms < 500 {
        return SampleAge::Now;
    }
    let secs: u64 = age_ms / 1000 + (if age_ms % 1000 >= 500 { 1u64 } else { 0u64 });
    assert(secs == (age_ms as int + 500) / 1000) by (nonlinear_arith)
        requires
            secs == age_ms / 1000 + (if age_ms % 1000 >= 500 { 1int } else { 0int }),
    ;
    if secs < 60 {
        SampleAge::Seconds(secs)
    } else {
        SampleAge::Minutes(secs / 60, secs % 60)
    }
}

/// Age caption for sample `idx` of `timestamps_ms`, relative to the newest
/// sample in the window; an earlier timestamp than the sample's counts as no
/// time at all. Unknown when the caller charted without timestamps or the
/// index is out of range.
pub fn sample_age(timestamps_ms: Option<&[u64]>, idx: usize) -> (age: SampleAge)
    ensures
        age == match timestamps_ms {
            None => SampleAge::Unknown,
            Some(ts) => if idx < ts@.len() {
                let last = ts@.last();
                let at = ts@[idx as int];
                spec_age(if last >= at { (last - at) as u64 } else { 0 })
            } else {
                SampleAge::Unknown
            },
        },
{
    match timestamps_ms {
        None => SampleAge::Unknown,
        Some(ts) => {
            if idx >= ts.len() {
                return SampleAge::Unknown;
            }
            let at = ts[idx];
            let last = ts[ts.len() - 1];
            age_of(if last >= at { last - at } else { 0 })
        },
    }
}

/// The first timestamp of a window and its length in milliseconds (at
/// least one, and zero when the clock stepped backwards), or `None` for an
/// empty window.
pub fn time_span(ts: &[u64]) -> (span: Option<(u64, u64)>)
    ensures
        ts@.len() == 0 <==> span is None,
        ts@.len() > 0 ==> span == Some(
            (
                ts@[0],
                if ts@.last() > ts@[0] { (ts@.last() - ts@[0]) as u64 } else { 1u64 },
            ),
        ),
{
    if ts.len() == 0 {
        return None;
    }
    let first = ts[0];
    let last = ts[ts.len() - 1];
    Some((first, if last > first { last - first } else { 1 }))
}

/// The number of leading timestamps before `t`.
pub open spec fn count_before(ts: Seq<u64>, t: u64) -> int
    decreases ts.len(),
{
    if ts.len() == 0 {
        0
    } else {
        count_before(ts.drop_last(), t) + if ts.last() < t { 1int } else { 0int }
    }
}

/// Timestamps in order (equal times allowed).
pub open spec fn ascending_times(ts: Seq<u64>) -> bool {
    forall|i: int, j: int| 0 <= i <= j < ts.len() ==> ts[i] <= ts[j]
}

proof fn lemma_count_before_prefix(ts: Seq<u64>, t: u64, k: int)
    requires
        ascending_times(ts),
        0 <= k <= ts.len(),
        forall|i: int| 0 <= i < k ==> ts[i] < t,
        forall|i: int| k <= i < ts.len() ==> ts[i] >= t,
    ensures
        count_before(ts, t) == k,
    decreases ts.len(),
{
    if ts.len() > 0 {
        if k == ts.len() {
            lemma_count_before_prefix(ts.drop_last(), t, k - 1);
        } else {
            lemma_count_before_prefix(ts.drop_last(), t, k);
        }
    }
}

/// The sample a pointer at time `t` reads from a series of `n >= 1`
/// samples: the last sample taken before `t` (the first one when none is),
/// never past the series' end. The timestamps are searched by halving,
/// which presumes them in order; for ordered timestamps the result is
/// exactly that sample.
pub fn sample_at_time(ts: &[u64], t: u64, n: usize) -> (idx: usize)
    requires
        n >= 1,
    ensures
        idx < n,
        ascending_times(ts@) ==> idx == {
            let before = count_before(ts@, t);
            let last_before = if before > 0 { before - 1 } else { 0 };
            if last_before < n { last_before } else { n - 1 }
        },
{
    let len = ts.len();
    let mut lo: usize = 0;
    let mut hi: usize = len;
    while lo < hi
        invariant
            len == ts@.len(),
            lo <= hi <= len,
            ascending_times(ts@) ==> forall|i: int| 0 <= i < lo ==> (#[trigger] ts@[i]) < t,
            ascending_times(ts@) ==> forall|i: int| hi <= i < len ==> (#[trigger] ts@[i]) >= t,
        decreases hi - lo,
    {
        let mid = lo + (hi - lo) / 2;
        if ts[mid] < t {
            proof {
                if ascending_times(ts@) {
                    assert forall|i: int| 0 <= i < mid + 1 implies (#[trigger] ts@[i]) < t by {
                        assert(ts@[i] <= ts@[mid as int]);
                    }
                }
            }
            lo = mid + 1;
        } else {
            proof {
                if ascending_times(ts@) {
                    assert forall|i: int| mid <= i < len implies (#[trigger] ts@[i]) >= t by {
                        assert(ts@[mid as int] <= ts@[i]);
                    }
                }
            }
            hi = mid;
        }
    }
    proof {
        if ascending_times(ts@) {
            lemma_count_before_prefix(ts@, t, lo as int);
        }
    }
    let last_before = if lo > 0 { lo - 1 } else { 0 };
    if last_before < n {
        last_before
    } else {
        n - 1
    }
}

} // verus!
