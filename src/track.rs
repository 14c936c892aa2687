//! The instants at which a ground track is sampled.
use vstd::prelude::*;

use crate::time::{in_year, year_start_nanos, Timestamp};

verus! {

/// Why a ground track cannot be sampled.
#[derive(Clone, Copy, Debug, PartialEq, Eq, Structural)]
pub enum TrackError {
    /// The end comes before the start, or the step is not positive.
    InvalidTimeRange,
}

proof fn lemma_step_within(i: int, span: int, step: int)
    requires
        step > 0,
        span >= 0,
        0 <= i <= span / step,
    ensures
        0 <= i * step <= span,
{
    assert(0 <= i * step <= (span / step) * step) by (nonlinear_arith)
        requires
            step > 0,
            0 <= i <= span / step,
    {
    }
    assert((span / step) * step <= span) by (nonlinear_arith)
        requires
            step > 0,
            span >= 0,
    {
    }
}

/// The instants `start`, `start + step`, `start + 2 step`, … up to `end` inclusive:
/// `1 + (end - start) / step` of them, rounded down. Fails where `end` comes before
/// `start` or `step_nanos` is not positive.
pub fn time_steps(start: Timestamp, end: Timestamp, step_nanos: i64) -> (r: Result<
    Vec<Timestamp>,
    TrackError,
>)
    ensures
        r is Err <==> end.nanos < start.nanos || step_nanos <= 0,
        r is Err ==> r->Err_0 == TrackError::InvalidTimeRange,
        r is Ok ==> r->Ok_0.len() == 1 + (end.nanos - start.nanos) / (step_nanos as int),
        r is Ok ==> forall|i: int|
            0 <= i < r->Ok_0.len() ==> #[trigger] r->Ok_0[i].nanos == start.nanos + i * step_nanos,
        r is Ok ==> forall|i: int|
            0 <= i < r->Ok_0.len() - 1 ==> #[trigger] r->Ok_0[i + 1].nanos - r->Ok_0[i].nanos
                == step_nanos,
        r is Ok ==> r->Ok_0[r->Ok_0.len() - 1].nanos <= end.nanos,
{
    if step_nanos <= 0 || end.nanos < start.nanos {
        return Err(TrackError::InvalidTimeRange);
    }
    let span: i128 = end.nanos as i128 - start.nanos as i128;
    let count: i128 = span / (step_nanos as i128) + 1;
    let mut r: Vec<Timestamp> = Vec::new();
    let mut i: i128 = 0;
    let mut t: i64 = start.nanos;
    while i < count
        invariant
            step_nanos > 0,
            span == end.nanos - start.nanos,
            span >= 0,
            count == (span as int) / (step_nanos as int) + 1,
            0 <= i <= count,
            r.len() == i,
            i < count ==> t == start.nanos + i * step_nanos,
            forall|j: int| 0 <= j < r.len() ==> #[trigger] r[j].nanos == start.nanos + j * step_nanos,
        decreases count - i,
    {
        r.push(Timestamp { nanos: t });
        i = i + 1;
        if i < count {
            proof {
                lemma_step_within(i as int, span as int, step_nanos as int);
                assert(start.nanos + i * step_nanos == t + step_nanos) by (nonlinear_arith)
                    requires
                        t == start.nanos + (i - 1) * step_nanos,
                {
                }
            }
            t = t + step_nanos;
        }
    }
    proof {
        lemma_step_within(count - 1, span as int, step_nanos as int);
        assert forall|k: int| 0 <= k < r.len() - 1 implies #[trigger] r[k + 1].nanos - r[k].nanos
            == step_nanos by {
            assert((k + 1) * step_nanos - k * step_nanos == step_nanos) by (nonlinear_arith);
        }
    }
    Ok(r)
}

/// Nanoseconds from the start of the calendar year (UTC) in which `start` falls to
/// `epoch`: where the rotation of the body is counted from for a track that
/// begins at `start`.
pub fn epoch_offset(epoch: Timestamp, start: Timestamp) -> (r: i128)
    ensures
        exists|y: int| in_year(start.nanos as int, y) && r == epoch.nanos - year_start_nanos(y),
{
    let year_start = start.year_start();
    assert(-0x1_0000_0000_0000_0000 < year_start <= start.nanos) by {
        let y = choose|y: int| in_year(start.nanos as int, y) && year_start == year_start_nanos(y);
        assert(year_start_nanos(y + 1) > start.nanos);
        assert(year_start_nanos(y + 1) - year_start_nanos(y) <= 366 * 86_400_000_000_000);
    }
    epoch.nanos as i128 - year_start
}

} // verus!
