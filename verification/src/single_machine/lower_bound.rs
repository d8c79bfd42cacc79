//! Lower bounds on the maximum lateness: what no schedule of a set of jobs
//! can undercut, and why the earliest-due-date rule with preemption
//! undercuts no schedule without preemption.

use vstd::prelude::*;

use crate::schedule::{
    feasible, lemma_max_lateness, max_lateness_of, nonnegative, respects_release, runs_each_job_once, runs_job,
    well_ordered, Run,
};
use crate::single_machine::releasetimes_maxlateness::preemptive::{
    job_time, edd_choice, edd_from, edd_schedule, join, lemma_edd_choice, lemma_next_release, lemma_waiting_shrinks, merge_runs,
    next_release, waiting,
};
use crate::single_machine::schrage_model::{
    done_work, lemma_done_work_update, lemma_no_work, lemma_remaining_bounds, lemma_remaining_update, pending,
    remaining,
};

verus! {

/// No run starts before time zero.
pub open spec fn starts_after_zero(runs: Seq<Run>) -> bool {
    forall|k: int| 0 <= k < runs.len() ==> (#[trigger] runs[k]).start >= 0
}

/// The total duration of the first `k` runs whose jobs are flagged.
pub open spec fn placed_work(runs: Seq<Run>, flags: Seq<bool>, k: int) -> int
    decreases k,
{
    if k <= 0 {
        0
    } else {
        placed_work(runs, flags, k - 1) + (if flags[runs[k - 1].job] { runs[k - 1].duration } else { 0 })
    }
}

/// The last of the first `k` positions whose job is flagged, or -1.
pub open spec fn last_flagged(runs: Seq<Run>, flags: Seq<bool>, k: int) -> int
    decreases k,
{
    if k <= 0 {
        -1
    } else if flags[runs[k - 1].job] {
        k - 1
    } else {
        last_flagged(runs, flags, k - 1)
    }
}

/// In a schedule that keeps the machine to one job at a time, a run ends
/// before any later run starts.
pub proof fn lemma_ordered(runs: Seq<Run>, i: int, k: int)
    requires
        well_ordered(runs),
        0 <= i < k < runs.len(),
    ensures
        runs[i].end() <= runs[k].start,
    decreases k - i,
{
    if i + 1 < k {
        lemma_ordered(runs, i + 1, k);
        assert(runs[i].end() <= runs[i + 1].start);
        assert(runs[i + 1].duration >= 0);
    } else {
        assert(runs[i].end() <= runs[i + 1].start);
    }
}

/// The last flagged run among the first `k` ends no earlier than `lo` plus
/// the work of the flagged runs among them, where no flagged run starts
/// before `lo`.
pub proof fn lemma_block_end(runs: Seq<Run>, flags: Seq<bool>, lo: int, k: int)
    requires
        well_ordered(runs),
        0 <= k <= runs.len(),
        forall|i: int| 0 <= i < runs.len() && flags[(#[trigger] runs[i]).job] ==> runs[i].start >= lo,
    ensures
        -1 <= last_flagged(runs, flags, k) < k,
        last_flagged(runs, flags, k) >= 0 ==> flags[runs[last_flagged(runs, flags, k)].job] && runs[last_flagged(
            runs,
            flags,
            k,
        )].end() >= lo + placed_work(runs, flags, k),
        last_flagged(runs, flags, k) < 0 ==> placed_work(runs, flags, k) == 0,
    decreases k,
{
    if k > 0 {
        lemma_block_end(runs, flags, lo, k - 1);
        if flags[runs[k - 1].job] {
            let before = last_flagged(runs, flags, k - 1);
            assert(runs[k - 1].start >= lo);
            if before >= 0 {
                lemma_ordered(runs, before, k - 1);
            }
        }
    }
}

/// The jobs that stand at the first `k` positions, as flags.
pub open spec fn placed(runs: Seq<Run>, n: int, k: int) -> Seq<bool> {
    Seq::new(n as nat, |j: int| exists|i: int| 0 <= i < k && (#[trigger] runs[i]).job == j)
}

/// The flags that are set in both.
pub open spec fn both(a: Seq<bool>, b: Seq<bool>) -> Seq<bool> {
    Seq::new(a.len(), |j: int| a[j] && b[j])
}

pub proof fn lemma_placed_work(runs: Seq<Run>, p: Seq<int>, flags: Seq<bool>, k: int)
    requires
        crate::schedule::runs_each_job_once(runs, p),
        flags.len() == p.len(),
        0 <= k <= runs.len(),
    ensures
        placed_work(runs, flags, k) == done_work(p, both(flags, placed(runs, p.len() as int, k)), p.len() as int),
    decreases k,
{
    let n = p.len() as int;
    if k > 0 {
        lemma_placed_work(runs, p, flags, k - 1);
        let before = both(flags, placed(runs, n, k - 1));
        let after = both(flags, placed(runs, n, k));
        let j = runs[k - 1].job;
        assert(0 <= j < n && runs[k - 1].duration == p[j]);
        assert(!placed(runs, n, k - 1)[j]) by {
            if placed(runs, n, k - 1)[j] {
                let i = choose|i: int| 0 <= i < k - 1 && (#[trigger] runs[i]).job == j;
                assert(runs[i].job != runs[k - 1].job);
            }
        }
        assert(placed(runs, n, k)[j]) by {
            assert(runs[k - 1].job == j);
        }
        assert forall|x: int| 0 <= x < n && x != j implies placed(runs, n, k)[x] == placed(runs, n, k - 1)[x] by {
            if placed(runs, n, k)[x] {
                let i = choose|i: int| 0 <= i < k && (#[trigger] runs[i]).job == x;
                assert(0 <= i < k - 1 && runs[i].job == x);
            }
            if placed(runs, n, k - 1)[x] {
                let i = choose|i: int| 0 <= i < k - 1 && (#[trigger] runs[i]).job == x;
                assert(0 <= i < k && runs[i].job == x);
            }
        }
        if flags[j] {
            assert(after =~= before.update(j, true));
            assert(pending(before, j));
            lemma_done_work_update(p, before, j, n);
        } else {
            assert(after =~= before);
        }
    } else {
        let none = both(flags, placed(runs, n, 0));
        assert forall|x: int| 0 <= x < n implies !none[x] by {}
        lemma_no_work(p, none, n);
    }
}

/// The runs are a schedule of the instance in which jobs may be
/// interrupted: the machine runs one job at a time, none before time zero
/// or before its release time; every job has a run, and its runs last its
/// processing time together.
pub open spec fn preemptive_schedule(runs: Seq<Run>, p: Seq<int>, r: Seq<int>) -> bool {
    &&& well_ordered(runs)
    &&& respects_release(runs, r)
    &&& starts_after_zero(runs)
    &&& forall|k: int| 0 <= k < runs.len() ==> 0 <= (#[trigger] runs[k]).job < p.len()
    &&& forall|j: int| 0 <= j < p.len() ==> #[trigger] runs_job(runs, j)
    &&& forall|j: int| 0 <= j < p.len() ==> #[trigger] job_time(runs, j) == p[j]
}

/// The total time of the runs of the flagged jobs with an index below `m`.
pub open spec fn flagged_time(runs: Seq<Run>, flags: Seq<bool>, m: int) -> int
    decreases m,
{
    if m <= 0 {
        0
    } else {
        flagged_time(runs, flags, m - 1) + (if flags[m - 1] { job_time(runs, m - 1) } else { 0 })
    }
}

proof fn lemma_flagged_time_push(front: Seq<Run>, last: Run, flags: Seq<bool>, m: int)
    requires
        0 <= m <= flags.len(),
    ensures
        flagged_time(front.push(last), flags, m) == flagged_time(front, flags, m) + (if 0 <= last.job < m
            && flags[last.job] {
            last.duration
        } else {
            0
        }),
    decreases m,
{
    let runs = front.push(last);
    assert(runs.drop_last() =~= front);
    assert(runs.last() == last);
    if m > 0 {
        lemma_flagged_time_push(front, last, flags, m - 1);
    }
}

proof fn lemma_placed_prefix(runs: Seq<Run>, longer: Seq<Run>, flags: Seq<bool>, k: int)
    requires
        0 <= k <= runs.len(),
        k <= longer.len(),
        forall|i: int| 0 <= i < k ==> runs[i] == longer[i],
    ensures
        placed_work(runs, flags, k) == placed_work(longer, flags, k),
    decreases k,
{
    if k > 0 {
        lemma_placed_prefix(runs, longer, flags, k - 1);
    }
}

proof fn lemma_placed_time(runs: Seq<Run>, flags: Seq<bool>, n: int)
    requires
        flags.len() == n,
        forall|k: int| 0 <= k < runs.len() ==> 0 <= (#[trigger] runs[k]).job < n,
    ensures
        placed_work(runs, flags, runs.len() as int) == flagged_time(runs, flags, n),
    decreases runs.len(),
{
    if runs.len() > 0 {
        let front = runs.drop_last();
        let last = runs.last();
        assert forall|k: int| 0 <= k < front.len() implies 0 <= (#[trigger] front[k]).job < n by {
            assert(front[k] == runs[k]);
        }
        lemma_placed_time(front, flags, n);
        lemma_placed_prefix(front, runs, flags, front.len() as int);
        assert(front.push(last) =~= runs);
        lemma_flagged_time_push(front, last, flags, n);
        assert(0 <= runs[runs.len() - 1].job < n);
    } else {
        lemma_no_time(runs, flags, n);
    }
}

proof fn lemma_no_time(runs: Seq<Run>, flags: Seq<bool>, m: int)
    requires
        runs.len() == 0,
        0 <= m,
    ensures
        flagged_time(runs, flags, m) == 0,
    decreases m,
{
    if m > 0 {
        lemma_no_time(runs, flags, m - 1);
    }
}

proof fn lemma_time_is_work(runs: Seq<Run>, p: Seq<int>, flags: Seq<bool>, m: int)
    requires
        0 <= m <= p.len(),
        forall|j: int| 0 <= j < p.len() ==> #[trigger] job_time(runs, j) == p[j],
    ensures
        flagged_time(runs, flags, m) == done_work(p, flags, m),
    decreases m,
{
    if m > 0 {
        lemma_time_is_work(runs, p, flags, m - 1);
        assert(job_time(runs, m - 1) == p[m - 1]);
    }
}

/// The time of a job in a schedule that runs each job once is the job's
/// processing time where it has run, and zero before.
proof fn lemma_job_time_once(runs: Seq<Run>, p: Seq<int>, j: int, k: int)
    requires
        runs_each_job_once(runs, p),
        0 <= j < p.len(),
        0 <= k <= runs.len(),
    ensures
        job_time(runs.take(k), j) == (if exists|i: int| 0 <= i < k && (#[trigger] runs[i]).job == j {
            p[j]
        } else {
            0
        }),
    decreases k,
{
    let part = runs.take(k);
    if k > 0 {
        lemma_job_time_once(runs, p, j, k - 1);
        assert(part.drop_last() =~= runs.take(k - 1));
        assert(part.last() == runs[k - 1]);
        if runs[k - 1].job == j {
            if exists|i: int| 0 <= i < k - 1 && (#[trigger] runs[i]).job == j {
                let i = choose|i: int| 0 <= i < k - 1 && (#[trigger] runs[i]).job == j;
                assert(runs[i].job != runs[k - 1].job);
            }
            assert(runs[k - 1].duration == p[j]);
        } else {
            if exists|i: int| 0 <= i < k && (#[trigger] runs[i]).job == j {
                let i = choose|i: int| 0 <= i < k && (#[trigger] runs[i]).job == j;
                assert(0 <= i < k - 1 && runs[i].job == j);
            }
            if exists|i: int| 0 <= i < k - 1 && (#[trigger] runs[i]).job == j {
                let i = choose|i: int| 0 <= i < k - 1 && (#[trigger] runs[i]).job == j;
                assert(0 <= i < k && runs[i].job == j);
            }
        }
    }
}

/// A schedule without preemption is a schedule in which jobs may be
/// interrupted and none is.
pub proof fn lemma_feasible_is_preemptive(runs: Seq<Run>, p: Seq<int>, r: Seq<int>)
    requires
        feasible(runs, p, r),
        starts_after_zero(runs),
    ensures
        preemptive_schedule(runs, p, r),
{
    assert forall|j: int| 0 <= j < p.len() implies #[trigger] job_time(runs, j) == p[j] by {
        lemma_job_time_once(runs, p, j, runs.len() as int);
        assert(runs.take(runs.len() as int) =~= runs);
        assert(runs_job(runs, j));
        let k = choose|k: int| 0 <= k < runs.len() && (#[trigger] runs[k]).job == j;
        assert(runs[k].job == j);
    }
}

/// The bound of a set of jobs: a schedule of the instance, with or without
/// preemption, has a maximum lateness of at least `lo` plus the total
/// processing time of the flagged jobs minus `hi`, where none of these jobs
/// can start before `lo` and none is due after `hi`.
pub proof fn lemma_set_bound_preemptive(
    runs: Seq<Run>,
    p: Seq<int>,
    r: Seq<int>,
    d: Seq<int>,
    flags: Seq<bool>,
    lo: int,
    hi: int,
)
    requires
        preemptive_schedule(runs, p, r),
        p.len() == r.len(),
        p.len() == d.len(),
        flags.len() == p.len(),
        exists|j: int| 0 <= j < flags.len() && flags[j],
        forall|j: int| 0 <= j < flags.len() && #[trigger] flags[j] ==> (r[j] >= lo || 0 >= lo) && d[j] <= hi,
    ensures
        max_lateness_of(runs, d) >= lo + done_work(p, flags, p.len() as int) - hi,
{
    let n = p.len() as int;
    let len = runs.len() as int;
    assert forall|i: int| 0 <= i < runs.len() && flags[(#[trigger] runs[i]).job] implies runs[i].start >= lo by {
        let j = runs[i].job;
        assert(flags[j]);
        assert(runs[i].start >= r[j] && runs[i].start >= 0);
    }
    lemma_block_end(runs, flags, lo, len);
    lemma_placed_time(runs, flags, n);
    lemma_time_is_work(runs, p, flags, n);
    let w = choose|j: int| 0 <= j < flags.len() && flags[j];
    assert(runs_job(runs, w));
    let kw = choose|k: int| 0 <= k < runs.len() && (#[trigger] runs[k]).job == w;
    lemma_last_flagged(runs, flags, len, kw);
    let last = last_flagged(runs, flags, len);
    lemma_max_lateness(runs, d);
    assert(flags[runs[last].job]);
    assert(runs[last].lateness(d) <= max_lateness_of(runs, d));
}

/// The bound of a set of jobs for schedules without preemption.
pub proof fn lemma_set_bound(
    runs: Seq<Run>,
    p: Seq<int>,
    r: Seq<int>,
    d: Seq<int>,
    flags: Seq<bool>,
    lo: int,
    hi: int,
)
    requires
        feasible(runs, p, r),
        starts_after_zero(runs),
        p.len() == r.len(),
        p.len() == d.len(),
        flags.len() == p.len(),
        exists|j: int| 0 <= j < flags.len() && flags[j],
        forall|j: int| 0 <= j < flags.len() && #[trigger] flags[j] ==> (r[j] >= lo || 0 >= lo) && d[j] <= hi,
    ensures
        max_lateness_of(runs, d) >= lo + done_work(p, flags, p.len() as int) - hi,
{
    lemma_feasible_is_preemptive(runs, p, r);
    lemma_set_bound_preemptive(runs, p, r, d, flags, lo, hi);
}

pub proof fn lemma_last_flagged(runs: Seq<Run>, flags: Seq<bool>, k: int, i: int)
    requires
        0 <= i < k <= runs.len(),
        flags[runs[i].job],
    ensures
        last_flagged(runs, flags, k) >= i,
    decreases k,
{
    if i < k - 1 && !flags[runs[k - 1].job] {
        lemma_last_flagged(runs, flags, k - 1, i);
    }
}

/// The jobs that are due by `due` and cannot start before `from`.
pub open spec fn urgent_from(r: Seq<int>, d: Seq<int>, due: int, from: int) -> Seq<bool> {
    Seq::new(r.len(), |j: int| d[j] <= due && (r[j] >= from || 0 >= from))
}

/// The work done so far on the flagged jobs with an index below `k`.
pub open spec fn spent(p: Seq<int>, left: Seq<int>, done: Seq<bool>, flags: Seq<bool>, k: int) -> int
    decreases k,
{
    if k <= 0 {
        0
    } else {
        spent(p, left, done, flags, k - 1) + (if flags[k - 1] {
            p[k - 1] - (if done[k - 1] { 0 } else { left[k - 1] })
        } else {
            0
        })
    }
}

proof fn lemma_spent_bounds(p: Seq<int>, left: Seq<int>, done: Seq<bool>, flags: Seq<bool>, k: int)
    requires
        0 <= k <= p.len(),
        left.len() == p.len(),
        done.len() == p.len(),
        flags.len() == p.len(),
        forall|j: int| 0 <= j < p.len() ==> 0 <= #[trigger] left[j] <= p[j],
    ensures
        0 <= spent(p, left, done, flags, k) <= done_work(p, flags, k),
    decreases k,
{
    if k > 0 {
        lemma_spent_bounds(p, left, done, flags, k - 1);
        assert(0 <= left[k - 1] <= p[k - 1]);
    }
}

proof fn lemma_spent_step(p: Seq<int>, left: Seq<int>, done: Seq<bool>, flags: Seq<bool>, j: int, value: int, k: int)
    requires
        0 <= k <= p.len(),
        left.len() == p.len(),
        done.len() == p.len(),
        flags.len() == p.len(),
        pending(done, j),
    ensures
        spent(p, left.update(j, value), done, flags, k) == spent(p, left, done, flags, k) + (if j < k && flags[j] {
            left[j] - value
        } else {
            0
        }),
        spent(p, left, done.update(j, true), flags, k) == spent(p, left, done, flags, k) + (if j < k && flags[j] {
            left[j]
        } else {
            0
        }),
    decreases k,
{
    if k > 0 {
        lemma_spent_step(p, left, done, flags, j, value, k - 1);
    }
}

/// The fragments of the rule are in the order of time: each is a stretch
/// of a job that starts no earlier than the clock, than zero where the
/// clock is not negative, and than its job's release time, and ends before
/// the next starts.
pub proof fn lemma_edd_ordered(r: Seq<int>, d: Seq<int>, left: Seq<int>, done: Seq<bool>, clock: int)
    requires
        done.len() == r.len(),
        done.len() == d.len(),
        done.len() == left.len(),
        forall|j: int| 0 <= j < left.len() ==> #[trigger] left[j] >= 0,
    ensures
        well_ordered(edd_from(r, d, left, done, clock)),
        forall|k: int|
            0 <= k < edd_from(r, d, left, done, clock).len() ==> {
                let f = #[trigger] edd_from(r, d, left, done, clock)[k];
                &&& 0 <= f.job < done.len()
                &&& f.start >= clock
                &&& f.start >= r[f.job]
            },
        remaining(done) > 0 ==> edd_from(r, d, left, done, clock).len() > 0,
    decreases remaining(done), waiting(r, done, clock, done.len() as int),
{
    let n = done.len() as int;
    let choice = edd_choice(r, d, done, clock, n);
    let next = next_release(r, done, clock, n);
    lemma_edd_choice(r, d, done, clock, n);
    lemma_next_release(r, done, clock, n);
    lemma_remaining_bounds(done);
    let frags = edd_from(r, d, left, done, clock);
    if choice is Some {
        let j = choice->0;
        assert(left[j] >= 0);
        if next is Some && next->0 < clock + left[j] {
            let left2 = left.update(j, clock + left[j] - next->0);
            lemma_waiting_shrinks(r, done, clock, next->0, n);
            lemma_edd_ordered(r, d, left2, done, next->0);
            let f = Run { start: clock, job: j, duration: next->0 - clock };
            let tail = edd_from(r, d, left2, done, next->0);
            assert(frags == seq![f] + tail);
            lemma_cons_ordered(f, tail, r, clock, n);
        } else {
            lemma_remaining_update(done, j);
            lemma_edd_ordered(r, d, left, done.update(j, true), clock + left[j]);
            let f = Run { start: clock, job: j, duration: left[j] };
            let tail = edd_from(r, d, left, done.update(j, true), clock + left[j]);
            assert(frags == seq![f] + tail);
            lemma_cons_ordered(f, tail, r, clock, n);
        }
    } else if next is Some {
        lemma_waiting_shrinks(r, done, clock, next->0, n);
        lemma_edd_ordered(r, d, left, done, next->0);
    } else {
        if remaining(done) > 0 {
            let u = choose|i: int| 0 <= i < done.len() && !done[i];
            assert(pending(done, u));
            assert(false);
        }
    }
}

proof fn lemma_cons_ordered(f: Run, tail: Seq<Run>, r: Seq<int>, clock: int, n: int)
    requires
        well_ordered(tail),
        f.duration >= 0,
        f.start == clock,
        0 <= f.job < n,
        f.start >= r[f.job],
        forall|k: int|
            0 <= k < tail.len() ==> {
                let g = #[trigger] tail[k];
                &&& 0 <= g.job < n
                &&& g.start >= f.end()
                &&& g.start >= r[g.job]
            },
    ensures
        well_ordered(seq![f] + tail),
        forall|k: int|
            0 <= k < (seq![f] + tail).len() ==> {
                let g = #[trigger] (seq![f] + tail)[k];
                &&& 0 <= g.job < n
                &&& g.start >= clock
                &&& g.start >= r[g.job]
            },
{
    let all = seq![f] + tail;
    assert forall|k: int| 0 <= k < all.len() implies (#[trigger] all[k]).duration >= 0 by {
        if k > 0 {
            assert(all[k] == tail[k - 1]);
        }
    }
    assert forall|k: int| 0 <= k < all.len() - 1 implies #[trigger] all[k].end() <= all[k + 1].start by {
        assert(all[k + 1] == tail[k]);
        if k > 0 {
            assert(all[k] == tail[k - 1]);
            assert(tail[k - 1].end() <= tail[k - 1 + 1].start);
        }
    }
    assert forall|k: int| 0 <= k < all.len() implies {
        let g = #[trigger] all[k];
        &&& 0 <= g.job < n
        &&& g.start >= clock
        &&& g.start >= r[g.job]
    } by {
        if k > 0 {
            assert(all[k] == tail[k - 1]);
        }
    }
}

/// Every fragment of a job due by `due` ends by `due` plus the maximum
/// lateness of any schedule without preemption.
///
/// `from` is the last moment at which the machine was not working on a job
/// due by `due`: every unfinished such job cannot start before it, and the
/// machine has worked on such jobs ever since.
proof fn lemma_edd_urgent(
    p: Seq<int>,
    r: Seq<int>,
    d: Seq<int>,
    other: Seq<Run>,
    due: int,
    left: Seq<int>,
    done: Seq<bool>,
    clock: int,
    from: int,
)
    requires
        p.len() == r.len(),
        p.len() == d.len(),
        p.len() == left.len(),
        p.len() == done.len(),
        preemptive_schedule(other, p, r),
        forall|j: int| 0 <= j < p.len() ==> 0 <= #[trigger] left[j] <= p[j],
        0 <= from <= clock,
        forall|j: int| pending(done, j) && d[j] <= due ==> r[j] >= from || 0 >= from,
        clock - from <= spent(p, left, done, urgent_from(r, d, due, from), p.len() as int),
    ensures
        forall|k: int|
            0 <= k < edd_from(r, d, left, done, clock).len() && d[(#[trigger] edd_from(r, d, left, done, clock)[k]).job]
                <= due ==> edd_from(r, d, left, done, clock)[k].end() <= max_lateness_of(other, d) + due,
    decreases remaining(done), waiting(r, done, clock, done.len() as int),
{
    let n = done.len() as int;
    let choice = edd_choice(r, d, done, clock, n);
    let next = next_release(r, done, clock, n);
    lemma_edd_choice(r, d, done, clock, n);
    lemma_next_release(r, done, clock, n);
    let frags = edd_from(r, d, left, done, clock);
    let flags = urgent_from(r, d, due, from);
    let best = max_lateness_of(other, d);
    if choice is Some {
        let j = choice->0;
        assert(0 <= left[j] <= p[j]);
        let preempted = next is Some && next->0 < clock + left[j];
        let later = if preempted { next->0 } else { clock + left[j] };
        let left2 = if preempted { left.update(j, clock + left[j] - next->0) } else { left };
        let done2 = if preempted { done } else { done.update(j, true) };
        let f = Run { start: clock, job: j, duration: later - clock };
        let tail = edd_from(r, d, left2, done2, later);
        assert(frags == seq![f] + tail);
        if preempted {
            lemma_waiting_shrinks(r, done, clock, next->0, n);
        } else {
            lemma_remaining_update(done, j);
        }
        assert forall|i: int| 0 <= i < p.len() implies 0 <= #[trigger] left2[i] <= p[i] by {
            assert(0 <= left[i] <= p[i]);
        }
        lemma_spent_step(p, left, done, flags, j, clock + left[j] - later, n);
        if d[j] <= due {
            // the machine works on a job due by `due`
            assert(flags[j]);
            assert(later - from <= spent(p, left2, done2, flags, n));
            assert forall|i: int| pending(done2, i) && d[i] <= due implies r[i] >= from || 0 >= from by {
                assert(pending(done, i));
            }
            lemma_edd_urgent(p, r, d, other, due, left2, done2, later, from);
            lemma_spent_bounds(p, left2, done2, flags, n);
            lemma_set_bound_preemptive(other, p, r, d, flags, from, due);
            assert(f.end() <= best + due);
        } else {
            // no job due by `due` is at hand, nor will be before `later`
            assert forall|i: int| pending(done2, i) && d[i] <= due implies r[i] >= later || 0 >= later by {
                assert(pending(done, i));
                assert(r[i] > clock);
                assert(next is Some && next->0 <= r[i]);
            }
            lemma_spent_bounds(p, left2, done2, urgent_from(r, d, due, later), n);
            lemma_edd_urgent(p, r, d, other, due, left2, done2, later, later);
        }
        assert forall|k: int| 0 <= k < frags.len() && d[(#[trigger] frags[k]).job] <= due implies frags[k].end() <= best
            + due by {
            if k > 0 {
                assert(frags[k] == tail[k - 1]);
            }
        }
    } else if next is Some {
        lemma_waiting_shrinks(r, done, clock, next->0, n);
        assert forall|i: int| pending(done, i) && d[i] <= due implies r[i] >= next->0 || 0 >= next->0 by {
            assert(r[i] > clock);
        }
        lemma_spent_bounds(p, left, done, urgent_from(r, d, due, next->0), n);
        lemma_edd_urgent(p, r, d, other, due, left, done, next->0, next->0);
        assert(frags == edd_from(r, d, left, done, next->0));
    } else {
        assert(frags =~= Seq::<Run>::empty());
    }
}

/// Joining the fragments of a job into runs makes no run later than the
/// fragments are.
proof fn lemma_merge_lateness(fragments: Seq<Run>, d: Seq<int>, bound: int)
    requires
        well_ordered(fragments),
        fragments.len() > 0,
        forall|k: int| 0 <= k < fragments.len() ==> (#[trigger] fragments[k]).lateness(d) <= bound,
    ensures
        merge_runs(fragments).len() > 0,
        merge_runs(fragments).last().job == fragments.last().job,
        merge_runs(fragments).last().end() <= fragments.last().end(),
        forall|k: int| 0 <= k < merge_runs(fragments).len() ==> (#[trigger] merge_runs(fragments)[k]).lateness(d) <= bound,
    decreases fragments.len(),
{
    let front = fragments.drop_last();
    let f = fragments.last();
    let merged = merge_runs(fragments);
    assert(f == fragments[fragments.len() - 1]);
    assert(f.lateness(d) <= bound);
    if front.len() > 0 {
        assert(well_ordered(front)) by {
            assert forall|k: int| 0 <= k < front.len() implies (#[trigger] front[k]).duration >= 0 by {
                assert(front[k] == fragments[k]);
            }
            assert forall|k: int| 0 <= k < front.len() - 1 implies #[trigger] front[k].end() <= front[k + 1].start by {
                assert(front[k] == fragments[k]);
                assert(front[k + 1] == fragments[k + 1]);
                assert(fragments[k].end() <= fragments[k + 1].start);
            }
        }
        assert forall|k: int| 0 <= k < front.len() implies (#[trigger] front[k]).lateness(d) <= bound by {
            assert(front[k] == fragments[k]);
        }
        lemma_merge_lateness(front, d, bound);
        let before = merge_runs(front);
        assert(front.last() == fragments[fragments.len() - 2]);
        assert(fragments[fragments.len() - 2].end() <= fragments[fragments.len() - 2 + 1].start);
        assert(merged == join(before, f));
        if before.last().job == f.job {
            let joined = Run {
                start: before.last().start,
                job: f.job,
                duration: before.last().duration + f.duration,
            };
            assert(merged == before.drop_last().push(joined));
            assert(joined.end() <= f.end());
            assert forall|k: int| 0 <= k < merged.len() implies (#[trigger] merged[k]).lateness(d) <= bound by {
                if k < merged.len() - 1 {
                    assert(merged[k] == before[k]);
                }
            }
        } else {
            assert forall|k: int| 0 <= k < merged.len() implies (#[trigger] merged[k]).lateness(d) <= bound by {
                if k < merged.len() - 1 {
                    assert(merged[k] == before[k]);
                }
            }
        }
    } else {
        assert(merge_runs(front) =~= Seq::<Run>::empty());
        assert(merged =~= seq![f]);
    }
}

/// The earliest-due-date rule with preemption is exact: its maximum
/// lateness is at most that of any schedule of the same instance, with or
/// without preemption, that runs one job at a time, none before time zero
/// or before its release time, and every job for its processing time.
pub proof fn lemma_preemptive_optimal(p: Seq<int>, r: Seq<int>, d: Seq<int>, other: Seq<Run>)
    requires
        p.len() > 0,
        p.len() == r.len(),
        p.len() == d.len(),
        nonnegative(p),
        preemptive_schedule(other, p, r),
    ensures
        max_lateness_of(edd_schedule(p, r, d), d) <= max_lateness_of(other, d),
{
    let n = p.len() as int;
    let done = Seq::new(p.len(), |j: int| false);
    let frags = edd_from(r, d, p, done, 0);
    let best = max_lateness_of(other, d);
    lemma_remaining_bounds(done);
    lemma_edd_ordered(r, d, p, done, 0);
    assert forall|k: int| 0 <= k < frags.len() implies (#[trigger] frags[k]).lateness(d) <= best by {
        let due = d[frags[k].job];
        lemma_spent_bounds(p, p, done, urgent_from(r, d, due, 0), n);
        lemma_edd_urgent(p, r, d, other, due, p, done, 0, 0);
    }
    lemma_merge_lateness(frags, d, best);
    lemma_max_lateness(edd_schedule(p, r, d), d);
}

/// The earliest-due-date rule with preemption is a lower bound: its
/// maximum lateness is at most that of any schedule of the same instance
/// that runs each job once and in one piece, one job at a time, none
/// before time zero or before its release time.
pub proof fn lemma_preemptive_lower_bound(p: Seq<int>, r: Seq<int>, d: Seq<int>, other: Seq<Run>)
    requires
        p.len() > 0,
        p.len() == r.len(),
        p.len() == d.len(),
        nonnegative(p),
        feasible(other, p, r),
        starts_after_zero(other),
    ensures
        max_lateness_of(edd_schedule(p, r, d), d) <= max_lateness_of(other, d),
{
    lemma_feasible_is_preemptive(other, p, r);
    lemma_preemptive_optimal(p, r, d, other);
}

} // verus!
