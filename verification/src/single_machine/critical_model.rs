//! The critical path of a schedule: the run of greatest lateness, the busy
//! block that leads up to it, and the job inside the block that stands in
//! its way.

use vstd::prelude::*;

use crate::schedule::Run;

verus! {

/// The position of the run of greatest lateness among the first `k` runs;
/// the first such position where several runs share that lateness.
pub open spec fn pivot_of(runs: Seq<Run>, due: Seq<int>, k: int) -> int
    decreases k,
{
    if k <= 1 {
        0
    } else {
        let before = pivot_of(runs, due, k - 1);
        if runs[k - 1].lateness(due) > runs[before].lateness(due) {
            k - 1
        } else {
            before
        }
    }
}

/// The start of the busy block that contains position `i`: the last
/// position up to `i` before which the machine stood idle, or zero.
pub open spec fn block_start(runs: Seq<Run>, i: int) -> int
    decreases i,
{
    if i <= 0 {
        0
    } else if runs[i].start > runs[i - 1].end() {
        i
    } else {
        block_start(runs, i - 1)
    }
}

/// The last position in `lo..hi` whose job is due later than the job at
/// position `pivot`.
pub open spec fn interference(runs: Seq<Run>, due: Seq<int>, pivot: int, lo: int, hi: int) -> Option<int>
    decreases hi - lo,
{
    if hi <= lo {
        None
    } else if due[runs[hi - 1].job] > due[runs[pivot].job] {
        Some(hi - 1)
    } else {
        interference(runs, due, pivot, lo, hi - 1)
    }
}

/// The total duration of the runs at positions `lo..hi`.
pub open spec fn span_work(runs: Seq<Run>, lo: int, hi: int) -> int
    decreases hi - lo,
{
    if hi <= lo {
        0
    } else {
        span_work(runs, lo, hi - 1) + runs[hi - 1].duration
    }
}

/// The earliest release time among the jobs at positions `lo..hi`
/// (meaningful where `lo < hi`).
pub open spec fn span_release(runs: Seq<Run>, r: Seq<int>, lo: int, hi: int) -> int
    decreases hi - lo,
{
    if hi <= lo + 1 {
        r[runs[lo].job]
    } else {
        let before = span_release(runs, r, lo, hi - 1);
        let last = r[runs[hi - 1].job];
        if last < before { last } else { before }
    }
}

/// What `pivot_of` returns: a position whose lateness no run among the
/// first `k` exceeds and no earlier run reaches.
pub proof fn lemma_pivot(runs: Seq<Run>, due: Seq<int>, k: int)
    requires
        1 <= k <= runs.len(),
    ensures
        0 <= pivot_of(runs, due, k) < k,
        forall|i: int| 0 <= i < k ==> (#[trigger] runs[i]).lateness(due) <= runs[pivot_of(runs, due, k)].lateness(due),
        forall|i: int| 0 <= i < pivot_of(runs, due, k) ==> (#[trigger] runs[i]).lateness(due) < runs[pivot_of(runs, due, k)].lateness(due),
    decreases k,
{
    if k > 1 {
        lemma_pivot(runs, due, k - 1);
    }
}

/// What `block_start` returns: a position up to `i` that is zero or follows
/// idle time, after which no run up to `i` follows idle time.
pub proof fn lemma_block_start(runs: Seq<Run>, i: int)
    requires
        0 <= i < runs.len(),
    ensures
        0 <= block_start(runs, i) <= i,
        block_start(runs, i) == 0 || runs[block_start(runs, i)].start > runs[block_start(runs, i) - 1].end(),
        forall|k: int| block_start(runs, i) < k <= i ==> (#[trigger] runs[k]).start <= runs[k - 1].end(),
    decreases i,
{
    if i > 0 && !(runs[i].start > runs[i - 1].end()) {
        lemma_block_start(runs, i - 1);
    }
}

/// What `interference` returns: nothing exactly when no job in `lo..hi` is
/// due later than the pivot's, else the last position in `lo..hi` whose job is.
pub proof fn lemma_interference(runs: Seq<Run>, due: Seq<int>, pivot: int, lo: int, hi: int)
    ensures
        interference(runs, due, pivot, lo, hi) is None ==> forall|i: int|
            lo <= i < hi ==> due[(#[trigger] runs[i]).job] <= due[runs[pivot].job],
        interference(runs, due, pivot, lo, hi) is Some ==> {
            let c = interference(runs, due, pivot, lo, hi)->0;
            &&& lo <= c < hi
            &&& due[runs[c].job] > due[runs[pivot].job]
            &&& forall|i: int| c < i < hi ==> due[(#[trigger] runs[i]).job] <= due[runs[pivot].job]
        },
    decreases hi - lo,
{
    if hi > lo && !(due[runs[hi - 1].job] > due[runs[pivot].job]) {
        lemma_interference(runs, due, pivot, lo, hi - 1);
    }
}

/// What `span_release` returns: the release time of a job in `lo..hi` that
/// none of them undercuts.
pub proof fn lemma_span_release(runs: Seq<Run>, r: Seq<int>, lo: int, hi: int)
    requires
        lo < hi,
    ensures
        exists|i: int| lo <= i < hi && r[(#[trigger] runs[i]).job] == span_release(runs, r, lo, hi),
        forall|i: int| lo <= i < hi ==> r[(#[trigger] runs[i]).job] >= span_release(runs, r, lo, hi),
    decreases hi - lo,
{
    if hi <= lo + 1 {
        assert(r[runs[lo].job] == span_release(runs, r, lo, hi));
    } else {
        lemma_span_release(runs, r, lo, hi - 1);
        let before = span_release(runs, r, lo, hi - 1);
        let w = choose|i: int| lo <= i < hi - 1 && r[(#[trigger] runs[i]).job] == before;
        if r[runs[hi - 1].job] < before {
            assert(r[runs[hi - 1].job] == span_release(runs, r, lo, hi));
        } else {
            assert(r[runs[w].job] == span_release(runs, r, lo, hi));
        }
    }
}

/// In a stretch without idle time and without overlap, the last run ends
/// when the first started plus the stretch's total duration.
pub proof fn lemma_span_contiguous(runs: Seq<Run>, lo: int, hi: int)
    requires
        0 <= lo < hi <= runs.len(),
        forall|k: int| lo < k < hi ==> (#[trigger] runs[k]).start == runs[k - 1].end(),
    ensures
        runs[hi - 1].end() == runs[lo].start + span_work(runs, lo, hi),
    decreases hi - lo,
{
    if hi > lo + 1 {
        lemma_span_contiguous(runs, lo, hi - 1);
        assert(runs[hi - 1].start == runs[hi - 2].end());
    } else {
        assert(span_work(runs, lo, lo) == 0);
    }
}

/// Splitting a stretch at `mid` splits its total duration.
pub proof fn lemma_span_work_split(runs: Seq<Run>, lo: int, mid: int, hi: int)
    requires
        lo <= mid <= hi,
    ensures
        span_work(runs, lo, hi) == span_work(runs, lo, mid) + span_work(runs, mid, hi),
    decreases hi - mid,
{
    if hi > mid {
        lemma_span_work_split(runs, lo, mid, hi - 1);
    }
}

} // verus!
