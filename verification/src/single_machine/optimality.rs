//! Why the schedules are the best there are: Schrage's schedule where no
//! job interferes with its critical path, and Carlier's schedule always.

use vstd::prelude::*;

use crate::schedule::{
    feasible, finish_from, lemma_finish_monotone, lemma_list_schedule_valid, lemma_max_lateness, max_lateness_of,
    nonnegative, start_from, Run,
};
use crate::single_machine::carlier_model::{
    branch, carlier_schedule, enqueue, first_least, lemma_first_least, lemma_search_step, queue_weight, search,
    searchable, lemma_branch, lemma_critical_gap, lemma_span_work_picked, lemma_tighten, lemma_tighten_span, node_runs,
    picked_below, split_of, tighten, tighten_span, Block, Subproblem,
};
use crate::single_machine::critical_model::{
    block_start, interference, lemma_block_start, lemma_interference, lemma_pivot, lemma_span_contiguous,
    lemma_span_release, pivot_of, span_work,
};
use crate::schedule::{respects_release, runs_each_job_once, runs_job, well_ordered};
use crate::single_machine::lower_bound::{
    both, last_flagged, lemma_block_end, lemma_last_flagged, lemma_ordered, lemma_placed_work, lemma_set_bound,
    placed, placed_work, starts_after_zero,
};
use crate::single_machine::schrage_model::{done_work, lemma_done_work_update, pending, total_work};
use crate::single_machine::schrage_model::{lemma_schrage_busy, lemma_schrage_order, schrage_order};

verus! {

/// Where no job on the critical path of the Schrage schedule is due later
/// than the pivot's job, the schedule is optimal: no schedule of the
/// instance that runs each job once and in one piece, none before time zero
/// or before its release time, has a smaller maximum lateness.
pub proof fn lemma_schrage_optimal_without_interference(p: Seq<int>, r: Seq<int>, d: Seq<int>, other: Seq<Run>)
    requires
        p.len() > 0,
        p.len() == r.len(),
        p.len() == d.len(),
        nonnegative(p),
        feasible(other, p, r),
        starts_after_zero(other),
        interference(
            node_runs(p, r, d),
            d,
            pivot_of(node_runs(p, r, d), d, p.len() as int),
            block_start(node_runs(p, r, d), pivot_of(node_runs(p, r, d), d, p.len() as int)),
            pivot_of(node_runs(p, r, d), d, p.len() as int),
        ) is None,
    ensures
        max_lateness_of(node_runs(p, r, d), d) <= max_lateness_of(other, d),
{
    let n = p.len() as int;
    let order = schrage_order(p, r, d);
    let runs = node_runs(p, r, d);
    assert(runs.len() == n && order.len() == n) by {
        lemma_schrage_order(p, r, d);
    }
    let pivot = pivot_of(runs, d, n);
    lemma_pivot(runs, d, n);
    let a = block_start(runs, pivot);
    lemma_block_start(runs, pivot);
    lemma_interference(runs, d, pivot, a, pivot);
    let pjob = runs[pivot].job;
    // the maximum lateness is the pivot's
    assert(max_lateness_of(runs, d) == runs[pivot].lateness(d)) by {
        lemma_max_lateness(runs, d);
        let w = choose|i: int| 0 <= i < runs.len() && #[trigger] runs[i].lateness(d) == max_lateness_of(runs, d);
        assert(runs[w].lateness(d) <= runs[pivot].lateness(d));
        assert(runs[pivot].lateness(d) <= max_lateness_of(runs, d));
    }
    // the block runs without idle time
    assert(runs[pivot].end() == runs[a].start + span_work(runs, a, pivot + 1)) by {
        assert forall|k: int| a < k < pivot + 1 implies (#[trigger] runs[k]).start == runs[k - 1].end() by {
            assert(runs[k].start <= runs[k - 1].end());
            lemma_schrage_order(p, r, d);
            lemma_list_schedule_valid(order, p, r);
            assert(runs[k - 1].end() <= runs[k - 1 + 1].start);
        }
        lemma_span_contiguous(runs, a, pivot + 1);
    }
    // the jobs of the block
    let flags = picked_below(order, n, a, pivot + 1);
    assert(span_work(runs, a, pivot + 1) == crate::single_machine::schrage_model::done_work(p, flags, n)) by {
        lemma_schrage_order(p, r, d);
        lemma_span_work_picked(order, p, r, a, pivot + 1);
    }
    let lo = runs[a].start;
    let hi = d[pjob];
    assert(lo >= 0) by {
        lemma_schrage_order(p, r, d);
        lemma_finish_monotone(0, order, p, r, a, a);
    }
    assert(0 <= pjob < n) by {
        lemma_schrage_order(p, r, d);
        assert(runs[pivot].job == order[pivot]);
    }
    assert(flags[pjob]) by {
        assert(order[pivot] == pjob);
    }
    assert forall|j: int| 0 <= j < flags.len() && #[trigger] flags[j] implies (r[j] >= lo || 0 >= lo) && d[j] <= hi by {
        let k = choose|k: int| a <= k < pivot + 1 && #[trigger] order[k] == j;
        assert(runs[k].job == j);
        if k < pivot {
            assert(d[runs[k].job] <= d[runs[pivot].job]);
        }
        if lo > 0 {
            lemma_schrage_busy(p, r, d);
            assert(runs[a].start == start_from(0, order, p, r, a));
            if a > 0 {
                assert(runs[a].start > runs[a - 1].end());
                assert(runs[a - 1].end() == finish_from(0, order, p, r, a));
            }
            assert(start_from(0, order, p, r, a) > finish_from(0, order, p, r, a));
            assert(r[order[k]] >= start_from(0, order, p, r, a));
        }
    }
    lemma_set_bound(other, p, r, d, flags, lo, hi);
}

/// A set of jobs as a schedule sees it: the flagged jobs, of which there
/// is one at least, have the total processing time `work`; none of them
/// starts before `release`, and each ends by `due` plus `late`.
pub open spec fn critical_set(
    other: Seq<Run>,
    p: Seq<int>,
    flags: Seq<bool>,
    release: int,
    work: int,
    due: int,
    late: int,
) -> bool {
    &&& flags.len() == p.len()
    &&& exists|j: int| 0 <= j < flags.len() && flags[j]
    &&& work == done_work(p, flags, p.len() as int)
    &&& forall|k: int| 0 <= k < other.len() && flags[(#[trigger] other[k]).job] ==> other[k].start >= release
    &&& forall|k: int| 0 <= k < other.len() && flags[(#[trigger] other[k]).job] ==> other[k].end() - due <= late
}

/// The run at position `kx` comes before every run of a flagged job.
pub open spec fn before_all(other: Seq<Run>, flags: Seq<bool>, kx: int) -> bool {
    forall|l: int| 0 <= l < other.len() && flags[(#[trigger] other[l]).job] ==> kx < l
}

/// The run at position `kx` comes after every run of a flagged job.
pub open spec fn after_all(other: Seq<Run>, flags: Seq<bool>, kx: int) -> bool {
    forall|l: int| 0 <= l < other.len() && flags[(#[trigger] other[l]).job] ==> l < kx
}

/// The whole schedule in one: it can be held against any release times.
pub open spec fn schedule_of(other: Seq<Run>, p: Seq<int>) -> bool {
    &&& well_ordered(other)
    &&& runs_each_job_once(other, p)
    &&& starts_after_zero(other)
}

/// The flags with one more job flagged have that job's processing time
/// more, and the schedule has so much more work placed.
proof fn lemma_with_job(other: Seq<Run>, p: Seq<int>, flags: Seq<bool>, x: int)
    requires
        schedule_of(other, p),
        flags.len() == p.len(),
        0 <= x < p.len(),
        !flags[x],
    ensures
        placed_work(other, flags.update(x, true), p.len() as int) == done_work(p, flags, p.len() as int) + p[x],
        placed_work(other, flags, p.len() as int) == done_work(p, flags, p.len() as int),
{
    let n = p.len() as int;
    lemma_all_placed(other, p, flags);
    lemma_all_placed(other, p, flags.update(x, true));
    assert(pending(flags, x));
    lemma_done_work_update(p, flags, x, n);
}

proof fn lemma_all_placed(other: Seq<Run>, p: Seq<int>, flags: Seq<bool>)
    requires
        runs_each_job_once(other, p),
        flags.len() == p.len(),
    ensures
        placed_work(other, flags, p.len() as int) == done_work(p, flags, p.len() as int),
{
    let n = p.len() as int;
    lemma_placed_work(other, p, flags, n);
    let all = both(flags, placed(other, n, n));
    assert(all =~= flags) by {
        assert forall|j: int| 0 <= j < n implies all[j] == flags[j] by {
            assert(runs_job(other, j));
            let k = choose|k: int| 0 <= k < other.len() && (#[trigger] other[k]).job == j;
            assert(other[k].job == j);
        }
    }
}

/// A job that runs between two jobs of a critical set pushes the set's
/// last job back by its whole processing time.
proof fn lemma_between(
    other: Seq<Run>,
    p: Seq<int>,
    flags: Seq<bool>,
    release: int,
    work: int,
    due: int,
    late: int,
    kx: int,
    l1: int,
    l2: int,
)
    requires
        schedule_of(other, p),
        critical_set(other, p, flags, release, work, due, late),
        0 <= l1 < kx < l2 < other.len(),
        flags[other[l1].job],
        flags[other[l2].job],
        !flags[other[kx].job],
    ensures
        release + work + p[other[kx].job] - due <= late,
{
    let n = p.len() as int;
    let x = other[kx].job;
    let more = flags.update(x, true);
    lemma_with_job(other, p, flags, x);
    assert forall|i: int| 0 <= i < other.len() && more[(#[trigger] other[i]).job] implies other[i].start >= release by {
        if other[i].job == x {
            if i != kx {
                if i < kx {
                    assert(other[i].job != other[kx].job);
                } else {
                    assert(other[kx].job != other[i].job);
                }
            }
            lemma_ordered(other, l1, kx);
            assert(other[l1].start >= release);
            assert(other[l1].duration >= 0);
        } else {
            assert(flags[other[i].job]);
        }
    }
    lemma_block_end(other, more, release, n);
    assert(more[other[l2].job]);
    lemma_last_flagged(other, more, n, l2);
    let last = last_flagged(other, more, n);
    assert(other[kx].job != other[last].job);
    assert(flags[other[last].job]);
}

/// A job that runs before all jobs of a critical set pushes the set's last
/// job back from its own start by its processing time.
proof fn lemma_before(
    other: Seq<Run>,
    p: Seq<int>,
    flags: Seq<bool>,
    release: int,
    work: int,
    due: int,
    late: int,
    kx: int,
)
    requires
        schedule_of(other, p),
        critical_set(other, p, flags, release, work, due, late),
        0 <= kx < other.len(),
        !flags[other[kx].job],
        before_all(other, flags, kx),
    ensures
        other[kx].start + p[other[kx].job] + work - due <= late,
{
    let n = p.len() as int;
    let x = other[kx].job;
    let more = flags.update(x, true);
    let lo = other[kx].start;
    lemma_with_job(other, p, flags, x);
    assert forall|i: int| 0 <= i < other.len() && more[(#[trigger] other[i]).job] implies other[i].start >= lo by {
        if other[i].job == x {
            if i != kx {
                if i < kx {
                    assert(other[i].job != other[kx].job);
                } else {
                    assert(other[kx].job != other[i].job);
                }
            }
        } else {
            assert(flags[other[i].job]);
            assert(kx < i);
            lemma_ordered(other, kx, i);
            assert(other[kx].duration >= 0);
        }
    }
    lemma_block_end(other, more, lo, n);
    let w = choose|j: int| 0 <= j < flags.len() && flags[j];
    assert(runs_job(other, w));
    let kw = choose|k: int| 0 <= k < other.len() && (#[trigger] other[k]).job == w;
    assert(flags[other[kw].job]);
    assert(kx < kw);
    assert(more[other[kw].job]);
    lemma_last_flagged(other, more, n, kw);
    let last = last_flagged(other, more, n);
    assert(other[kx].job != other[last].job);
    assert(flags[other[last].job]);
}

/// A job that runs after all jobs of a critical set starts no earlier than
/// the set's release time plus its work.
proof fn lemma_after(
    other: Seq<Run>,
    p: Seq<int>,
    flags: Seq<bool>,
    release: int,
    work: int,
    due: int,
    late: int,
    kx: int,
)
    requires
        schedule_of(other, p),
        critical_set(other, p, flags, release, work, due, late),
        0 <= kx < other.len(),
        !flags[other[kx].job],
        after_all(other, flags, kx),
    ensures
        other[kx].start >= release + work,
{
    let n = p.len() as int;
    lemma_all_placed(other, p, flags);
    lemma_block_end(other, flags, release, n);
    let w = choose|j: int| 0 <= j < flags.len() && flags[j];
    assert(runs_job(other, w));
    let kw = choose|k: int| 0 <= k < other.len() && (#[trigger] other[k]).job == w;
    assert(flags[other[kw].job]);
    lemma_last_flagged(other, flags, n, kw);
    let last = last_flagged(other, flags, n);
    assert(flags[other[last].job]);
    assert(last < kx);
    lemma_ordered(other, last, kx);
}

/// A job outside a critical set runs before all of the set, after all of
/// it, or between two of its jobs.
proof fn lemma_trichotomy(other: Seq<Run>, flags: Seq<bool>, kx: int) -> (between: Option<(int, int)>)
    requires
        0 <= kx < other.len(),
        !flags[other[kx].job],
    ensures
        between is None ==> before_all(other, flags, kx) || after_all(other, flags, kx),
        between is Some ==> {
            let pair = between->0;
            &&& 0 <= pair.0 < kx < pair.1 < other.len()
            &&& flags[other[pair.0].job]
            &&& flags[other[pair.1].job]
        },
{
    if !before_all(other, flags, kx) && !after_all(other, flags, kx) {
        let l1 = choose|l: int| 0 <= l < other.len() && flags[(#[trigger] other[l]).job] && !(kx < l);
        let l2 = choose|l: int| 0 <= l < other.len() && flags[(#[trigger] other[l]).job] && !(l < kx);
        Some((l1, l2))
    } else {
        None
    }
}

/// No run of the schedule is later than `late` under the due times.
pub open spec fn within(other: Seq<Run>, d: Seq<int>, late: int) -> bool {
    forall|k: int| 0 <= k < other.len() ==> (#[trigger] other[k]).lateness(d) <= late
}

/// The maximum lateness is at most `late` exactly where no run is later.
pub proof fn lemma_within(other: Seq<Run>, d: Seq<int>, late: int)
    requires
        other.len() > 0,
    ensures
        within(other, d, late) <==> max_lateness_of(other, d) <= late,
{
    lemma_max_lateness(other, d);
    if within(other, d, late) {
        let w = choose|i: int| 0 <= i < other.len() && #[trigger] other[i].lateness(d) == max_lateness_of(other, d);
        assert(other[w].lateness(d) <= late);
    }
}

/// Looking at a job outside the critical set does not cut off a schedule
/// that is better than the incumbent: the schedule respects the tightened
/// release times and is no later under the tightened due times.
proof fn lemma_tighten_valid(
    p: Seq<int>,
    r: Seq<int>,
    d: Seq<int>,
    x: int,
    blk: Block,
    ub: int,
    other: Seq<Run>,
    flags: Seq<bool>,
    late: int,
)
    requires
        schedule_of(other, p),
        p.len() == r.len(),
        p.len() == d.len(),
        0 <= x < p.len(),
        !flags[x],
        critical_set(other, p, flags, blk.release, blk.work, blk.due, late),
        respects_release(other, r),
        within(other, d, late),
        late < ub,
    ensures
        respects_release(other, tighten(p, r, d, x, blk, ub).0),
        within(other, tighten(p, r, d, x, blk, ub).1, late),
{
    let t = tighten(p, r, d, x, blk, ub);
    lemma_tighten(p, r, d, x, blk, ub);
    assert(runs_job(other, x));
    let kx = choose|k: int| 0 <= k < other.len() && (#[trigger] other[k]).job == x;
    assert(other[kx].job == x);
    assert(other[kx].duration == p[x]);
    assert(other[kx].start >= r[x]);
    assert(other[kx].lateness(d) <= late);
    let apart = lemma_trichotomy(other, flags, kx);
    if p[x] > ub - blk.bound() {
        if apart is Some {
            let pair = apart->0;
            lemma_between(other, p, flags, blk.release, blk.work, blk.due, late, kx, pair.0, pair.1);
            assert(false);
        }
        if r[x] + p[x] + blk.work > ub + blk.due {
            if before_all(other, flags, kx) {
                lemma_before(other, p, flags, blk.release, blk.work, blk.due, late, kx);
                assert(false);
            }
            lemma_after(other, p, flags, blk.release, blk.work, blk.due, late, kx);
        } else if blk.release + blk.work + p[x] > ub + d[x] {
            if after_all(other, flags, kx) {
                lemma_after(other, p, flags, blk.release, blk.work, blk.due, late, kx);
                assert(false);
            }
            lemma_before(other, p, flags, blk.release, blk.work, blk.due, late, kx);
        }
    }
    assert forall|k: int| 0 <= k < other.len() implies (#[trigger] other[k]).start >= t.0[other[k].job] by {
        assert(other[k].start >= r[other[k].job]);
        if other[k].job == x && k != kx {
            if k < kx {
                assert(other[k].job != other[kx].job);
            } else {
                assert(other[kx].job != other[k].job);
            }
        }
    }
    assert forall|k: int| 0 <= k < other.len() implies (#[trigger] other[k]).lateness(t.1) <= late by {
        assert(other[k].lateness(d) <= late);
        if other[k].job == x && k != kx {
            if k < kx {
                assert(other[k].job != other[kx].job);
            } else {
                assert(other[kx].job != other[k].job);
            }
        }
    }
}

/// Looking at the jobs of a stretch outside the critical set does not cut
/// off a schedule that is better than the incumbent.
proof fn lemma_tighten_span_valid(
    p: Seq<int>,
    runs: Seq<Run>,
    r: Seq<int>,
    d: Seq<int>,
    blk: Block,
    ub: int,
    lo: int,
    hi: int,
    other: Seq<Run>,
    flags: Seq<bool>,
    late: int,
)
    requires
        schedule_of(other, p),
        p.len() == r.len(),
        p.len() == d.len(),
        0 <= lo,
        hi <= runs.len(),
        forall|k: int| 0 <= k < runs.len() ==> 0 <= (#[trigger] runs[k]).job < p.len(),
        forall|k: int| lo <= k < hi ==> !flags[(#[trigger] runs[k]).job],
        critical_set(other, p, flags, blk.release, blk.work, blk.due, late),
        respects_release(other, r),
        within(other, d, late),
        late < ub,
    ensures
        respects_release(other, tighten_span(p, runs, r, d, blk, ub, lo, hi).0),
        within(other, tighten_span(p, runs, r, d, blk, ub, lo, hi).1, late),
    decreases hi - lo,
{
    if hi > lo {
        lemma_tighten_span_valid(p, runs, r, d, blk, ub, lo, hi - 1, other, flags, late);
        lemma_tighten_span(p, runs, r, d, blk, ub, lo, hi - 1);
        let before = tighten_span(p, runs, r, d, blk, ub, lo, hi - 1);
        assert(0 <= runs[hi - 1].job < p.len());
        assert(!flags[runs[hi - 1].job]);
        lemma_tighten_valid(p, before.0, before.1, runs[hi - 1].job, blk, ub, other, flags, late);
    }
}

/// The subproblem has an interfering job.
pub open spec fn interferes(p: Seq<int>, r: Seq<int>, d: Seq<int>) -> bool {
    interference(
        node_runs(p, r, d),
        d,
        pivot_of(node_runs(p, r, d), d, p.len() as int),
        block_start(node_runs(p, r, d), pivot_of(node_runs(p, r, d), d, p.len() as int)),
        pivot_of(node_runs(p, r, d), d, p.len() as int),
    ) is Some
}

/// The jobs of the critical set of a subproblem, as flags.
pub open spec fn critical_flags(p: Seq<int>, r: Seq<int>, d: Seq<int>) -> Seq<bool> {
    let s = split_of(p, r, d, None);
    picked_below(schrage_order(p, r, d), p.len() as int, s.interferer + 1, s.pivot + 1)
}

/// What a schedule that respects the release times of a subproblem sees of
/// the subproblem's critical set: its jobs start no earlier than the set's
/// release time and are due no later than the set's due time; the jobs at
/// the other positions of the Schrage schedule are not in the set.
proof fn lemma_critical_set(p: Seq<int>, r: Seq<int>, d: Seq<int>, other: Seq<Run>, late: int)
    requires
        p.len() > 0,
        p.len() == r.len(),
        p.len() == d.len(),
        nonnegative(p),
        schedule_of(other, p),
        respects_release(other, r),
        within(other, d, late),
        interferes(p, r, d),
    ensures
        ({
            let s = split_of(p, r, d, None);
            let flags = critical_flags(p, r, d);
            let runs = node_runs(p, r, d);
            &&& critical_set(other, p, flags, s.blk.release, s.blk.work, s.blk.due, late)
            &&& forall|j: int| 0 <= j < p.len() && #[trigger] flags[j] ==> r[j] >= s.blk.release && d[j] <= s.blk.due
            &&& forall|k: int|
                0 <= k < runs.len() && !(s.interferer < k <= s.pivot) ==> !flags[(#[trigger] runs[k]).job]
            &&& forall|k: int| 0 <= k < runs.len() ==> 0 <= (#[trigger] runs[k]).job < p.len()
            &&& runs.len() == p.len()
        }),
{
    let n = p.len() as int;
    let order = schrage_order(p, r, d);
    let runs = node_runs(p, r, d);
    let s = split_of(p, r, d, None);
    let c = s.interferer;
    let pivot = s.pivot;
    let flags = critical_flags(p, r, d);
    lemma_critical_gap(p, r, d, None);
    lemma_schrage_order(p, r, d);
    assert(runs.len() == n);
    lemma_interference(runs, d, pivot, s.start, pivot);
    lemma_span_release(runs, r, c + 1, pivot + 1);
    assert forall|k: int| 0 <= k < runs.len() implies 0 <= (#[trigger] runs[k]).job < p.len() by {
        assert(runs[k].job == order[k]);
    }
    assert forall|j: int| 0 <= j < p.len() && #[trigger] flags[j] implies r[j] >= s.blk.release && d[j]
        <= s.blk.due by {
        let i = choose|i: int| c + 1 <= i < pivot + 1 && #[trigger] order[i] == j;
        assert(runs[i].job == j);
        assert(r[runs[i].job] >= s.blk.release);
        if i < pivot {
            assert(d[runs[i].job] <= d[runs[pivot].job]);
        }
    }
    assert forall|k: int| 0 <= k < runs.len() && !(c < k <= pivot) implies !flags[(#[trigger] runs[k]).job] by {
        if flags[runs[k].job] {
            let i = choose|i: int| c + 1 <= i < pivot + 1 && #[trigger] order[i] == runs[k].job;
            assert(runs[k].job == order[k]);
            if i < k {
                assert(order[i] != order[k]);
            } else {
                assert(order[k] != order[i]);
            }
        }
    }
    assert(flags[order[pivot]]);
    assert(s.blk.work == done_work(p, flags, n)) by {
        lemma_span_work_picked(order, p, r, c + 1, pivot + 1);
    }
    assert forall|k: int| 0 <= k < other.len() && flags[(#[trigger] other[k]).job] implies other[k].start
        >= s.blk.release && other[k].end() - s.blk.due <= late by {
        let j = other[k].job;
        assert(flags[j]);
        assert(other[k].start >= r[j]);
        assert(other[k].lateness(d) <= late);
    }
}

/// The bound that the children of a subproblem inherit from it is a lower
/// bound for every schedule that respects its release times.
proof fn lemma_own_bound(p: Seq<int>, r: Seq<int>, d: Seq<int>, other: Seq<Run>)
    requires
        p.len() > 0,
        p.len() == r.len(),
        p.len() == d.len(),
        nonnegative(p),
        schedule_of(other, p),
        respects_release(other, r),
        interferes(p, r, d),
    ensures
        ({
            let s = split_of(p, r, d, None);
            let cjob = node_runs(p, r, d)[s.interferer].job;
            s.blk.bound_with(r[cjob], d[cjob]) <= max_lateness_of(other, d)
        }),
{
    let n = p.len() as int;
    let s = split_of(p, r, d, None);
    let runs = node_runs(p, r, d);
    let cjob = runs[s.interferer].job;
    let flags = critical_flags(p, r, d);
    let late = max_lateness_of(other, d);
    lemma_within(other, d, late);
    lemma_critical_set(p, r, d, other, late);
    lemma_critical_gap(p, r, d, None);
    let w = choose|j: int| 0 <= j < flags.len() && flags[j];
    lemma_set_bound(other, p, r, d, flags, s.blk.release, s.blk.due);
    let lo = if r[cjob] < s.blk.release { r[cjob] } else { s.blk.release };
    lemma_set_bound(other, p, r, d, flags, lo, d[cjob]);
}

/// Later due times make no run later.
pub proof fn lemma_lateness_monotone(other: Seq<Run>, d: Seq<int>, tighter: Seq<int>)
    requires
        other.len() > 0,
        forall|k: int| 0 <= k < other.len() ==> 0 <= (#[trigger] other[k]).job < d.len(),
        d.len() == tighter.len(),
        forall|j: int| 0 <= j < d.len() ==> #[trigger] tighter[j] <= d[j],
    ensures
        max_lateness_of(other, d) <= max_lateness_of(other, tighter),
{
    lemma_max_lateness(other, d);
    lemma_max_lateness(other, tighter);
    let w = choose|i: int| 0 <= i < other.len() && #[trigger] other[i].lateness(d) == max_lateness_of(other, d);
    assert(tighter[other[w].job] <= d[other[w].job]);
    assert(other[w].lateness(tighter) <= max_lateness_of(other, tighter));
}

/// The bound of each child of a subproblem is a lower bound for every
/// schedule that respects the child's release times, where the bound that
/// the subproblem inherited is one for every schedule that respects the
/// subproblem's.
proof fn lemma_kids_sound(p: Seq<int>, r: Seq<int>, d: Seq<int>, other: Seq<Run>, ub: int, inherited: Option<int>)
    requires
        p.len() > 0,
        p.len() == r.len(),
        p.len() == d.len(),
        nonnegative(p),
        schedule_of(other, p),
        branch(p, r, d, ub, inherited) is Some,
        inherited is Some && respects_release(other, r) ==> inherited->0 <= max_lateness_of(other, d),
    ensures
        ({
            let kids = branch(p, r, d, ub, inherited)->0;
            &&& respects_release(other, kids.0.release) ==> kids.0.bound <= max_lateness_of(other, kids.0.due)
            &&& respects_release(other, kids.1.release) ==> kids.1.bound <= max_lateness_of(other, kids.1.due)
        }),
{
    let kids = branch(p, r, d, ub, inherited)->0;
    lemma_branch(p, r, d, ub, inherited);
    assert(node_runs(p, r, d).len() == p.len()) by {
        lemma_schrage_order(p, r, d);
    }
    assert(interferes(p, r, d));
    assert(split_of(p, r, d, None).blk == split_of(p, r, d, inherited).blk);
    assert forall|k: int| 0 <= k < other.len() implies 0 <= (#[trigger] other[k]).job < d.len() by {}
    if respects_release(other, kids.0.release) {
        assert forall|k: int| 0 <= k < other.len() implies (#[trigger] other[k]).start >= r[other[k].job] by {
            assert(other[k].start >= kids.0.release[other[k].job]);
            assert(r[other[k].job] <= kids.0.release[other[k].job]);
        }
        lemma_own_bound(p, r, d, other);
        lemma_lateness_monotone(other, d, kids.0.due);
    }
    if respects_release(other, kids.1.release) {
        assert forall|k: int| 0 <= k < other.len() implies (#[trigger] other[k]).start >= r[other[k].job] by {
            assert(other[k].start >= kids.1.release[other[k].job]);
            assert(r[other[k].job] <= kids.1.release[other[k].job]);
        }
        lemma_own_bound(p, r, d, other);
        lemma_lateness_monotone(other, d, kids.1.due);
    }
}

/// The first and the second child.
pub open spec fn first_kid(kids: Option<(Subproblem, Subproblem)>) -> Subproblem {
    let pair = kids->0;
    pair.0
}

pub open spec fn second_kid(kids: Option<(Subproblem, Subproblem)>) -> Subproblem {
    let pair = kids->0;
    pair.1
}

/// The schedule fits the subproblem: it respects the subproblem's release
/// times and is no later than `late` under its due times.
pub open spec fn fits(other: Seq<Run>, node: Subproblem, late: int) -> bool {
    respects_release(other, node.release) && within(other, node.due, late)
}

/// A schedule that fits a subproblem and is better than the incumbent fits
/// one of the subproblem's children, which exist: in the schedule the
/// interfering job runs before the whole critical set or after it.
proof fn lemma_children_cover(
    p: Seq<int>,
    r: Seq<int>,
    d: Seq<int>,
    other: Seq<Run>,
    late: int,
    ub: int,
    inherited: Option<int>,
)
    requires
        p.len() > 0,
        p.len() == r.len(),
        p.len() == d.len(),
        nonnegative(p),
        schedule_of(other, p),
        respects_release(other, r),
        within(other, d, late),
        late < ub,
        ub <= max_lateness_of(node_runs(p, r, d), d),
        inherited is Some ==> inherited->0 <= max_lateness_of(other, d),
    ensures
        branch(p, r, d, ub, inherited) is Some,
        fits(other, first_kid(branch(p, r, d, ub, inherited)), late) || fits(
            other,
            second_kid(branch(p, r, d, ub, inherited)),
            late,
        ),
{
    let n = p.len() as int;
    let runs = node_runs(p, r, d);
    lemma_within(other, d, late);
    assert(runs.len() == n) by {
        lemma_schrage_order(p, r, d);
    }
    if !interferes(p, r, d) {
        lemma_schrage_optimal_without_interference(p, r, d, other);
        assert(false);
    }
    let s = split_of(p, r, d, inherited);
    assert(s.blk == split_of(p, r, d, None).blk && s.interferer == split_of(p, r, d, None).interferer && s.pivot
        == split_of(p, r, d, None).pivot);
    let c = s.interferer;
    let cjob = runs[c].job;
    let blk = s.blk;
    let flags = critical_flags(p, r, d);
    lemma_critical_gap(p, r, d, inherited);
    lemma_critical_set(p, r, d, other, late);
    lemma_own_bound(p, r, d, other);
    assert(s.key < ub);
    let kids = branch(p, r, d, ub, inherited);
    assert(kids is Some);
    let pair = kids->0;
    // the release and due times after the other jobs have been looked at
    lemma_tighten_span_valid(p, runs, r, d, blk, ub, s.start, c, other, flags, late);
    lemma_tighten_span(p, runs, r, d, blk, ub, s.start, c);
    let front = tighten_span(p, runs, r, d, blk, ub, s.start, c);
    lemma_tighten_span_valid(p, runs, front.0, front.1, blk, ub, s.pivot + 1, n, other, flags, late);
    lemma_tighten_span(p, runs, front.0, front.1, blk, ub, s.pivot + 1, n);
    let all = tighten_span(p, runs, front.0, front.1, blk, ub, s.pivot + 1, n);
    // where the interfering job runs
    assert(!flags[cjob]);
    assert(runs_job(other, cjob));
    let kc = choose|k: int| 0 <= k < other.len() && (#[trigger] other[k]).job == cjob;
    assert(other[kc].job == cjob);
    assert(other[kc].duration == p[cjob]);
    let apart = lemma_trichotomy(other, flags, kc);
    if apart is Some {
        let mid = apart->0;
        lemma_between(other, p, flags, blk.release, blk.work, blk.due, late, kc, mid.0, mid.1);
        assert(false);
    }
    if before_all(other, flags, kc) {
        lemma_before(other, p, flags, blk.release, blk.work, blk.due, late, kc);
        assert forall|k: int| 0 <= k < other.len() implies (#[trigger] other[k]).lateness(pair.0.due) <= late by {
            assert(other[k].lateness(all.1) <= late);
            if other[k].job == cjob && k != kc {
                if k < kc {
                    assert(other[k].job != other[kc].job);
                } else {
                    assert(other[kc].job != other[k].job);
                }
            }
        }
        assert(fits(other, pair.0, late));
    } else {
        lemma_after(other, p, flags, blk.release, blk.work, blk.due, late, kc);
        assert forall|k: int| 0 <= k < other.len() implies (#[trigger] other[k]).start >= pair.1.release[other[k].job] by {
            assert(other[k].start >= all.0[other[k].job]);
            if other[k].job == cjob && k != kc {
                if k < kc {
                    assert(other[k].job != other[kc].job);
                } else {
                    assert(other[kc].job != other[k].job);
                }
            }
        }
        assert(fits(other, pair.1, late));
    }
}

/// What the search needs to know of a schedule to end no later than it:
/// the bound of every open subproblem is a lower bound for the schedule
/// where the schedule respects the subproblem's release times, no
/// subproblem is due later than the instance, and unless the incumbent is
/// already as good as the schedule, the schedule fits an open subproblem.
pub open spec fn covered(
    p: Seq<int>,
    d0: Seq<int>,
    other: Seq<Run>,
    queue: Seq<Subproblem>,
    best: int,
) -> bool {
    &&& forall|i: int|
        0 <= i < queue.len() && respects_release(other, (#[trigger] queue[i]).release) ==> queue[i].bound
            <= max_lateness_of(other, queue[i].due)
    &&& forall|i: int, j: int| 0 <= i < queue.len() && 0 <= j < p.len() ==> (#[trigger] queue[i]).due[j] <= #[trigger] d0[j]
    &&& (best <= max_lateness_of(other, d0) || exists|i: int|
        0 <= i < queue.len() && fits(other, #[trigger] queue[i], max_lateness_of(other, d0)))
}

/// The search ends with a schedule that is no later than any schedule that
/// fits one of the open subproblems.
proof fn lemma_search_optimal(
    p: Seq<int>,
    d0: Seq<int>,
    other: Seq<Run>,
    queue: Seq<Subproblem>,
    best: int,
    incumbent: Seq<Run>,
)
    requires
        searchable(p, queue),
        d0.len() == p.len(),
        schedule_of(other, p),
        best == max_lateness_of(incumbent, d0),
        covered(p, d0, other, queue, best),
    ensures
        max_lateness_of(search(p, d0, queue, best, incumbent), d0) <= max_lateness_of(other, d0),
    decreases queue_weight(p, queue, best + total_work(p)),
{
    let goal = max_lateness_of(other, d0);
    if queue.len() > 0 {
        lemma_search_step(p, d0, queue, best);
        let i = first_least(queue, queue.len() as int);
        lemma_first_least(queue, queue.len() as int);
        let node = queue[i];
        let rest = queue.remove(i);
        assert forall|k: int| 0 <= k < rest.len() implies #[trigger] rest[k] == queue[if k < i { k } else { k + 1 }] by {}
        assert forall|k: int| 0 <= k < rest.len() && respects_release(other, (#[trigger] rest[k]).release) implies rest[k].bound
            <= max_lateness_of(other, rest[k].due) by {
            let q = if k < i { k } else { k + 1 };
            assert(rest[k] == queue[q]);
        }
        assert forall|k: int, j: int| 0 <= k < rest.len() && 0 <= j < p.len() implies (#[trigger] rest[k]).due[j]
            <= #[trigger] d0[j] by {
            let q = if k < i { k } else { k + 1 };
            assert(rest[k] == queue[q]);
            assert(queue[q].due[j] <= d0[j]);
        }
        // the schedule fits the subproblem taken, or one that stays, or is no better than the incumbent
        let here = fits(other, node, goal);
        if best > goal && !here {
            let w = choose|w: int| 0 <= w < queue.len() && fits(other, #[trigger] queue[w], goal);
            let k = if w < i { w } else { w - 1 };
            assert(rest[k] == queue[w]);
            assert(fits(other, rest[k], goal));
        }
        if node.bound >= best {
            if best > goal && here {
                lemma_within(other, node.due, goal);
                assert(false);
            }
            lemma_search_optimal(p, d0, other, rest, best, incumbent);
        } else {
            let runs = node_runs(p, node.release, node.due);
            let late = max_lateness_of(runs, d0);
            let best1 = if late < best { late } else { best };
            let incumbent1 = if late < best { runs } else { incumbent };
            let kids = branch(p, node.release, node.due, best1, Some(node.bound));
            let next = enqueue(rest, kids);
            assert forall|j: int| 0 <= j < p.len() implies #[trigger] node.due[j] <= d0[j] by {
                assert(queue[i].due[j] <= d0[j]);
            }
            if best1 > goal && here {
                lemma_within(other, node.due, goal);
                assert(runs.len() == p.len() && forall|k: int|
                    0 <= k < runs.len() ==> 0 <= (#[trigger] runs[k]).job < d0.len()) by {
                    lemma_schrage_order(p, node.release, node.due);
                    assert forall|k: int| 0 <= k < runs.len() implies 0 <= (#[trigger] runs[k]).job < d0.len() by {
                        assert(runs[k].job == schrage_order(p, node.release, node.due)[k]);
                    }
                }
                lemma_lateness_monotone(runs, d0, node.due);
                lemma_children_cover(p, node.release, node.due, other, goal, best1, Some(node.bound));
            }
            if kids is Some {
                lemma_branch(p, node.release, node.due, best1, Some(node.bound));
                lemma_kids_sound(p, node.release, node.due, other, best1, Some(node.bound));
                let pair = kids->0;
                assert(next == rest.push(pair.0).push(pair.1));
                assert forall|k: int| 0 <= k < next.len() implies #[trigger] next[k] == (if k < rest.len() {
                    rest[k]
                } else if k == rest.len() {
                    pair.0
                } else {
                    pair.1
                }) by {}
                assert forall|k: int| 0 <= k < next.len() && respects_release(other, (#[trigger] next[k]).release) implies next[k].bound
                    <= max_lateness_of(other, next[k].due) by {
                    if k < rest.len() {
                        assert(next[k] == rest[k]);
                    }
                }
                assert forall|k: int, j: int| 0 <= k < next.len() && 0 <= j < p.len() implies (#[trigger] next[k]).due[j]
                    <= #[trigger] d0[j] by {
                    assert(node.due[j] <= d0[j]);
                    if k < rest.len() {
                        assert(next[k] == rest[k]);
                        assert(rest[k].due[j] <= d0[j]);
                    } else if k == rest.len() {
                        assert(pair.0.due[j] <= node.due[j]);
                    } else {
                        assert(pair.1.due[j] <= node.due[j]);
                    }
                }
                if best1 > goal {
                    if here {
                        if fits(other, pair.0, goal) {
                            assert(next[rest.len() as int] == pair.0);
                        } else {
                            assert(next[rest.len() as int + 1] == pair.1);
                        }
                    } else {
                        let k = choose|k: int| 0 <= k < rest.len() && fits(other, #[trigger] rest[k], goal);
                        assert(next[k] == rest[k]);
                    }
                }
            }
            lemma_search_optimal(p, d0, other, next, best1, incumbent1);
        }
    }
}

/// Carlier's algorithm is exact: no schedule of the instance that runs
/// each job once and in one piece, one job at a time, none before time zero
/// or before its release time, has a smaller maximum lateness than the
/// schedule it returns.
pub proof fn lemma_carlier_optimal(p: Seq<int>, r: Seq<int>, d: Seq<int>, other: Seq<Run>)
    requires
        p.len() > 0,
        p.len() == r.len(),
        p.len() == d.len(),
        nonnegative(p),
        feasible(other, p, r),
        starts_after_zero(other),
    ensures
        max_lateness_of(carlier_schedule(p, r, d), d) <= max_lateness_of(other, d),
{
    let runs = node_runs(p, r, d);
    let late = max_lateness_of(runs, d);
    let goal = max_lateness_of(other, d);
    let kids = branch(p, r, d, late, None);
    let queue = enqueue(Seq::empty(), kids);
    lemma_within(other, d, goal);
    if late > goal {
        lemma_children_cover(p, r, d, other, goal, late, None);
    }
    if kids is Some {
        lemma_branch(p, r, d, late, None);
        lemma_kids_sound(p, r, d, other, late, None);
        let pair = kids->0;
        assert(queue == Seq::<Subproblem>::empty().push(pair.0).push(pair.1));
        assert forall|k: int| 0 <= k < queue.len() implies #[trigger] queue[k] == (if k == 0 { pair.0 } else { pair.1 }) by {}
        assert forall|k: int, j: int| 0 <= k < queue.len() && 0 <= j < p.len() implies (#[trigger] queue[k]).due[j]
            <= #[trigger] d[j] by {
            if k == 0 {
                assert(pair.0.due[j] <= d[j]);
            } else {
                assert(pair.1.due[j] <= d[j]);
            }
        }
        if late > goal {
            if fits(other, pair.0, goal) {
                assert(queue[0] == pair.0);
            } else {
                assert(queue[1] == pair.1);
            }
        }
    }
    lemma_search_optimal(p, d, other, queue, late, runs);
}

/// Schrage's heuristic is exact where all jobs are released at the same
/// time: no schedule of the instance that runs each job once and in one
/// piece, one job at a time, none before time zero or before its release
/// time, has a smaller maximum lateness.
pub proof fn lemma_schrage_optimal_for_equal_release(p: Seq<int>, r: Seq<int>, d: Seq<int>, other: Seq<Run>)
    requires
        p.len() > 0,
        p.len() == r.len(),
        p.len() == d.len(),
        nonnegative(p),
        forall|j: int, k: int| 0 <= j < r.len() && 0 <= k < r.len() ==> r[j] == r[k],
        feasible(other, p, r),
        starts_after_zero(other),
    ensures
        max_lateness_of(node_runs(p, r, d), d) <= max_lateness_of(other, d),
{
    crate::single_machine::laws::lemma_carlier_keeps_schrage_for_equal_release(p, r, d);
    lemma_carlier_optimal(p, r, d, other);
}

} // verus!
