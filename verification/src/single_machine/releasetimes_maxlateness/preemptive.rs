//! The earliest-due-date rule with preemption: at every moment the machine
//! works on the released, unfinished job that is due first.

use vstd::prelude::*;

use crate::schedule::{
    ints, max_lateness_of, respects_release, run_views, runs_job, well_ordered, JobRun, MachineSchedule, Run,
};
use crate::single_machine::lower_bound::{preemptive_schedule};
use crate::single_machine::schrage_model::{
    lemma_remaining_bounds, lemma_remaining_update, pending, remaining, schedulable, total_work, work_below,
};
use crate::{Job, Time};

verus! {

/// Among the unfinished jobs with an index below `k` that are released by
/// `clock`, the one that is due first; of several, the one with the largest
/// index.
pub open spec fn edd_choice(r: Seq<int>, d: Seq<int>, done: Seq<bool>, clock: int, k: int) -> Option<int>
    decreases k,
{
    if k <= 0 {
        None
    } else {
        let rest = edd_choice(r, d, done, clock, k - 1);
        if pending(done, k - 1) && r[k - 1] <= clock && (rest is None || d[k - 1] <= d[rest->0]) {
            Some(k - 1)
        } else {
            rest
        }
    }
}

/// The earliest release time after `clock` among the unfinished jobs with
/// an index below `k`.
pub open spec fn next_release(r: Seq<int>, done: Seq<bool>, clock: int, k: int) -> Option<int>
    decreases k,
{
    if k <= 0 {
        None
    } else {
        let rest = next_release(r, done, clock, k - 1);
        if pending(done, k - 1) && r[k - 1] > clock && (rest is None || r[k - 1] < rest->0) {
            Some(r[k - 1])
        } else {
            rest
        }
    }
}

/// The number of unfinished jobs with an index below `k` that are released
/// after `clock`.
pub open spec fn waiting(r: Seq<int>, done: Seq<bool>, clock: int, k: int) -> nat
    decreases k,
{
    if k <= 0 {
        0
    } else {
        waiting(r, done, clock, k - 1) + (if pending(done, k - 1) && r[k - 1] > clock { 1nat } else { 0nat })
    }
}

/// The fragments in which the rule runs the unfinished jobs from time
/// `clock` on, `left[j]` being what is left to do of job `j`.
///
/// The machine takes the released job that is due first. If another job is
/// released before that job would end, the job is stopped at that release,
/// keeps what is left of it, and the choice is made anew. Where no job is
/// released the machine waits for the next release.
pub open spec fn edd_from(r: Seq<int>, d: Seq<int>, left: Seq<int>, done: Seq<bool>, clock: int) -> Seq<Run>
    decreases remaining(done), waiting(r, done, clock, done.len() as int),
    via edd_from_decreases
{
    let n = done.len() as int;
    let choice = edd_choice(r, d, done, clock, n);
    let next = next_release(r, done, clock, n);
    if choice is Some {
        let j = choice->0;
        if next is Some && next->0 < clock + left[j] {
            seq![Run { start: clock, job: j, duration: next->0 - clock }] + edd_from(
                r,
                d,
                left.update(j, clock + left[j] - next->0),
                done,
                next->0,
            )
        } else {
            seq![Run { start: clock, job: j, duration: left[j] }] + edd_from(
                r,
                d,
                left,
                done.update(j, true),
                clock + left[j],
            )
        }
    } else if next is Some {
        edd_from(r, d, left, done, next->0)
    } else {
        Seq::empty()
    }
}

#[via_fn]
proof fn edd_from_decreases(r: Seq<int>, d: Seq<int>, left: Seq<int>, done: Seq<bool>, clock: int) {
    let n = done.len() as int;
    let choice = edd_choice(r, d, done, clock, n);
    let next = next_release(r, done, clock, n);
    lemma_edd_choice(r, d, done, clock, n);
    lemma_next_release(r, done, clock, n);
    if choice is Some {
        if next is Some && next->0 < clock + left[choice->0] {
            lemma_waiting_shrinks(r, done, clock, next->0, n);
        } else {
            lemma_remaining_update(done, choice->0);
        }
    } else if next is Some {
        lemma_waiting_shrinks(r, done, clock, next->0, n);
    }
}

/// The runs after consecutive fragments of one job have been joined into
/// one run, which starts where the first fragment starts and lasts as long
/// as the fragments together.
pub open spec fn merge_runs(fragments: Seq<Run>) -> Seq<Run>
    decreases fragments.len(),
{
    if fragments.len() == 0 {
        Seq::empty()
    } else {
        join(merge_runs(fragments.drop_last()), fragments.last())
    }
}

/// The runs `before` with the fragment `f` behind them: joined to the last
/// run if that is of the same job, else as a run of its own.
pub open spec fn join(before: Seq<Run>, f: Run) -> Seq<Run> {
    if before.len() > 0 && before.last().job == f.job {
        before.drop_last().push(
            Run { start: before.last().start, job: f.job, duration: before.last().duration + f.duration },
        )
    } else {
        before.push(f)
    }
}

/// The schedule of the earliest-due-date rule with preemption for the
/// instance `(p, r, d)`, from time zero.
pub open spec fn edd_schedule(p: Seq<int>, r: Seq<int>, d: Seq<int>) -> Seq<Run> {
    merge_runs(edd_from(r, d, p, Seq::new(p.len(), |j: int| false), 0))
}

/// The total duration of the runs of job `j`.
pub open spec fn job_time(runs: Seq<Run>, j: int) -> int
    decreases runs.len(),
{
    if runs.len() == 0 {
        0
    } else {
        job_time(runs.drop_last(), j) + (if runs.last().job == j { runs.last().duration } else { 0 })
    }
}

/// What is left to do of the unfinished jobs with an index below `k`.
pub open spec fn work_left(left: Seq<int>, done: Seq<bool>, k: int) -> int
    decreases k,
{
    if k <= 0 {
        0
    } else {
        work_left(left, done, k - 1) + (if done[k - 1] { 0 } else { left[k - 1] })
    }
}

/// What `edd_choice` returns: nothing exactly when no unfinished job below
/// `k` is released, else such a job that none of them is due before; those
/// due at the same time have a smaller index.
pub proof fn lemma_edd_choice(r: Seq<int>, d: Seq<int>, done: Seq<bool>, clock: int, k: int)
    requires
        0 <= k <= done.len(),
    ensures
        edd_choice(r, d, done, clock, k) is None ==> forall|j: int|
            0 <= j < k ==> !(pending(done, j) && r[j] <= clock),
        edd_choice(r, d, done, clock, k) is Some ==> {
            let c = edd_choice(r, d, done, clock, k)->0;
            &&& 0 <= c < k
            &&& pending(done, c)
            &&& r[c] <= clock
            &&& forall|j: int|
                0 <= j < k && pending(done, j) && r[j] <= clock ==> d[c] < d[j] || (d[c] == d[j] && j <= c)
        },
    decreases k,
{
    if k > 0 {
        lemma_edd_choice(r, d, done, clock, k - 1);
    }
}

/// What `next_release` returns: nothing exactly when no unfinished job below
/// `k` is released after `clock`, else the release time of such a job that
/// none of them undercuts.
pub proof fn lemma_next_release(r: Seq<int>, done: Seq<bool>, clock: int, k: int)
    requires
        0 <= k <= done.len(),
    ensures
        next_release(r, done, clock, k) is None ==> forall|j: int| 0 <= j < k ==> !(pending(done, j) && r[j] > clock),
        next_release(r, done, clock, k) is Some ==> {
            let m = next_release(r, done, clock, k)->0;
            &&& m > clock
            &&& exists|j: int| 0 <= j < k && pending(done, j) && r[j] == m
            &&& forall|j: int| 0 <= j < k && pending(done, j) && r[j] > clock ==> m <= r[j]
        },
    decreases k,
{
    if k > 0 {
        lemma_next_release(r, done, clock, k - 1);
        let rest = next_release(r, done, clock, k - 1);
        if pending(done, k - 1) && r[k - 1] > clock && (rest is None || r[k - 1] < rest->0) {
            assert(0 <= k - 1 < k && pending(done, k - 1) && r[k - 1] == r[k - 1]);
        } else if rest is Some {
            let w = choose|j: int| 0 <= j < k - 1 && pending(done, j) && r[j] == rest->0;
            assert(0 <= w < k && pending(done, w) && r[w] == rest->0);
        }
    }
}

/// When the clock moves on to the release time of an unfinished job, fewer
/// jobs are waiting for their release.
pub proof fn lemma_waiting_shrinks(r: Seq<int>, done: Seq<bool>, clock: int, later: int, k: int)
    requires
        0 <= k <= done.len(),
        clock <= later,
    ensures
        waiting(r, done, later, k) <= waiting(r, done, clock, k),
        (exists|j: int| 0 <= j < k && pending(done, j) && clock < r[j] <= later) ==> waiting(r, done, later, k)
            < waiting(r, done, clock, k),
    decreases k,
{
    if k > 0 {
        lemma_waiting_shrinks(r, done, clock, later, k - 1);
        if exists|j: int| 0 <= j < k && pending(done, j) && clock < r[j] <= later {
            let w = choose|j: int| 0 <= j < k && pending(done, j) && clock < r[j] <= later;
            if w < k - 1 {
                assert(0 <= w < k - 1 && pending(done, w) && clock < r[w] <= later);
            }
        }
    }
}

/// Finishing a job changes nobody's waiting for a release but its own.
pub proof fn lemma_waiting_done(r: Seq<int>, done: Seq<bool>, clock: int, j: int, k: int)
    requires
        0 <= k <= done.len(),
        0 <= j < done.len(),
    ensures
        waiting(r, done.update(j, true), clock, k) <= waiting(r, done, clock, k),
    decreases k,
{
    if k > 0 {
        lemma_waiting_done(r, done, clock, j, k - 1);
    }
}

/// A new fragment adds its duration to the time of its job, joined or not.
pub proof fn lemma_job_time_merge(fragments: Seq<Run>, f: Run, j: int)
    ensures
        job_time(merge_runs(fragments.push(f)), j) == job_time(merge_runs(fragments), j) + (if f.job == j {
            f.duration
        } else {
            0
        }),
{
    let all = fragments.push(f);
    assert(all.drop_last() =~= fragments);
    assert(all.last() == f);
    let before = merge_runs(fragments);
    if before.len() > 0 && before.last().job == f.job {
        let joined = Run { start: before.last().start, job: f.job, duration: before.last().duration + f.duration };
        let merged = before.drop_last().push(joined);
        assert(merged.drop_last() =~= before.drop_last());
        assert(merged.last() == joined);
    } else {
        assert(before.push(f).drop_last() =~= before);
    }
}

/// What is left to do changes by what one unfinished job has done.
pub proof fn lemma_work_left_update(left: Seq<int>, done: Seq<bool>, j: int, value: int, k: int)
    requires
        left.len() == done.len(),
        pending(done, j),
        0 <= k <= done.len(),
    ensures
        work_left(left.update(j, value), done, k) == work_left(left, done, k) + (if j < k { value - left[j] } else { 0 }),
        work_left(left, done.update(j, true), k) == work_left(left, done, k) - (if j < k { left[j] } else { 0 }),
    decreases k,
{
    if k > 0 {
        lemma_work_left_update(left, done, j, value, k - 1);
    }
}

/// What is left to do of an unfinished job is part of what is left to do.
pub proof fn lemma_work_left_covers(left: Seq<int>, done: Seq<bool>, j: int, k: int)
    requires
        left.len() == done.len(),
        0 <= k <= done.len(),
        forall|i: int| 0 <= i < left.len() ==> #[trigger] left[i] >= 0,
    ensures
        work_left(left, done, k) >= 0,
        pending(done, j) && j < k ==> left[j] <= work_left(left, done, k),
    decreases k,
{
    if k > 0 {
        lemma_work_left_covers(left, done, j, k - 1);
        assert(left[k - 1] >= 0);
    }
}

/// Before any job has run, all the work is left to do.
pub proof fn lemma_work_left_start(p: Seq<int>, done: Seq<bool>, k: int)
    requires
        p.len() == done.len(),
        0 <= k <= done.len(),
        forall|i: int| 0 <= i < done.len() ==> !done[i],
    ensures
        work_left(p, done, k) == work_below(p, k),
    decreases k,
{
    if k > 0 {
        lemma_work_left_start(p, done, k - 1);
    }
}

/// A fragment that starts when or after the runs before it have ended
/// leaves them a valid schedule, joined or not.
pub proof fn lemma_join_valid(before: Seq<Run>, f: Run, r: Seq<int>)
    requires
        well_ordered(before),
        respects_release(before, r),
        forall|k: int| 0 <= k < before.len() ==> 0 <= (#[trigger] before[k]).job < r.len() && before[k].start >= 0,
        before.len() > 0 ==> before.last().end() <= f.start,
        0 <= f.job < r.len(),
        f.start >= r[f.job],
        f.start >= 0,
        f.duration >= 0,
    ensures
        well_ordered(join(before, f)),
        respects_release(join(before, f), r),
        forall|k: int|
            0 <= k < join(before, f).len() ==> 0 <= (#[trigger] join(before, f)[k]).job < r.len() && join(
                before,
                f,
            )[k].start >= 0,
        join(before, f).len() > 0,
        join(before, f).last().end() <= f.end(),
{
    let after = join(before, f);
    if before.len() > 0 && before.last().job == f.job {
        let m = before.len() - 1;
        assert forall|k: int| 0 <= k < after.len() implies (#[trigger] after[k]).duration >= 0 && 0 <= after[k].job
            < r.len() && after[k].start >= 0 && after[k].start >= r[after[k].job] by {
            if k < m {
                assert(after[k] == before[k]);
            } else {
                assert(before[m].duration >= 0);
                assert(before[m].start >= r[before[m].job]);
            }
        }
        assert forall|k: int| 0 <= k < after.len() - 1 implies #[trigger] after[k].end() <= after[k + 1].start by {
            assert(after[k] == before[k]);
            assert(before[k].end() <= before[k + 1].start);
        }
    } else {
        assert forall|k: int| 0 <= k < after.len() implies (#[trigger] after[k]).duration >= 0 && 0 <= after[k].job
            < r.len() && after[k].start >= 0 && after[k].start >= r[after[k].job] by {
            if k < before.len() {
                assert(after[k] == before[k]);
                assert(before[k].duration >= 0);
                assert(before[k].start >= r[before[k].job]);
            }
        }
        assert forall|k: int| 0 <= k < after.len() - 1 implies #[trigger] after[k].end() <= after[k + 1].start by {
            if k < before.len() - 1 {
                assert(after[k] == before[k]);
                assert(before[k].end() <= before[k + 1].start);
            }
        }
    }
}

/// Every job that has a run keeps one when a fragment is put behind the
/// runs, and the fragment's job has one.
pub proof fn lemma_join_jobs(before: Seq<Run>, f: Run, x: int)
    ensures
        runs_job(join(before, f), f.job),
        runs_job(before, x) ==> runs_job(join(before, f), x),
{
    let after = join(before, f);
    assert(after[after.len() - 1].job == f.job);
    if runs_job(before, x) {
        let k = choose|k: int| 0 <= k < before.len() && (#[trigger] before[k]).job == x;
        if before.len() > 0 && before.last().job == f.job {
            if k == before.len() - 1 {
                assert(after[k].job == x);
            } else {
                assert(after[k] == before[k]);
            }
        } else {
            assert(after[k] == before[k]);
        }
    }
}

/// The released, unfinished job that is due first; of several, the one with
/// the largest index.
fn edd_pick(release_times: &[Time], due_times: &[Time], done: &Vec<bool>, clock: Time) -> (result: Option<Job>)
    requires
        release_times@.len() == done@.len(),
        due_times@.len() == done@.len(),
    ensures
        result is Some <==> edd_choice(ints(release_times@), ints(due_times@), done@, clock as int, done@.len() as int)
            is Some,
        result is Some ==> result->0 == edd_choice(
            ints(release_times@),
            ints(due_times@),
            done@,
            clock as int,
            done@.len() as int,
        )->0,
{
    let n = done.len();
    let ghost r = ints(release_times@);
    let ghost d = ints(due_times@);
    let mut choice: Option<Job> = None;
    let mut k: usize = 0;
    while k < n
        invariant
            n == done@.len(),
            release_times@.len() == n,
            due_times@.len() == n,
            r == ints(release_times@),
            d == ints(due_times@),
            0 <= k <= n,
            choice is Some <==> edd_choice(r, d, done@, clock as int, k as int) is Some,
            choice is Some ==> choice->0 == edd_choice(r, d, done@, clock as int, k as int)->0,
            choice is Some ==> choice->0 < k,
        decreases n - k,
    {
        if !done[k] && release_times[k] <= clock {
            match choice {
                Some(c) => {
                    if due_times[k] <= due_times[c] {
                        choice = Some(k);
                    }
                },
                None => {
                    choice = Some(k);
                },
            }
        }
        k = k + 1;
    }
    choice
}

/// The earliest release time after `clock` among the unfinished jobs.
fn next_release_after(release_times: &[Time], done: &Vec<bool>, clock: Time) -> (result: Option<Time>)
    requires
        release_times@.len() == done@.len(),
    ensures
        result is Some <==> next_release(ints(release_times@), done@, clock as int, done@.len() as int) is Some,
        result is Some ==> result->0 == next_release(ints(release_times@), done@, clock as int, done@.len() as int)->0,
{
    let n = done.len();
    let ghost r = ints(release_times@);
    let mut next: Option<Time> = None;
    let mut k: usize = 0;
    while k < n
        invariant
            n == done@.len(),
            release_times@.len() == n,
            r == ints(release_times@),
            0 <= k <= n,
            next is Some <==> next_release(r, done@, clock as int, k as int) is Some,
            next is Some ==> next->0 == next_release(r, done@, clock as int, k as int)->0,
        decreases n - k,
    {
        if !done[k] && release_times[k] > clock {
            match next {
                Some(m) => {
                    if release_times[k] < m {
                        next = Some(release_times[k]);
                    }
                },
                None => {
                    next = Some(release_times[k]);
                },
            }
        }
        k = k + 1;
    }
    next
}

/// Puts a fragment behind the runs: joined to the last run if that is of
/// the same job, else as a run of its own.
fn push_fragment(schedule: &mut Vec<JobRun>, start: Time, job: Job, length: Time)
    requires
        old(schedule)@.len() > 0 && old(schedule)@.last().job == job ==> isize::MIN <= old(schedule)@.last().duration
            + length <= isize::MAX,
    ensures
        run_views(final(schedule)@) == join(
            run_views(old(schedule)@),
            Run { start: start as int, job: job as int, duration: length as int },
        ),
{
    let ghost before = run_views(schedule@);
    let ghost f = Run { start: start as int, job: job as int, duration: length as int };
    let n = schedule.len();
    if n > 0 && schedule[n - 1].job == job {
        let last = schedule[n - 1];
        assert(last@ == before.last());
        schedule.set(n - 1, JobRun { time: last.time, job, duration: last.duration + length });
        assert(run_views(schedule@) =~= join(before, f));
    } else {
        if n > 0 {
            assert(schedule@[n - 1]@ == before.last());
        }
        schedule.push(JobRun { time: start, job, duration: length });
        assert(run_views(schedule@) =~= join(before, f));
    }
}

/// The earliest-due-date rule with preemption, which minimises the maximum
/// lateness on a single machine with release times when jobs may be
/// interrupted.
///
/// From time zero the machine works at every moment on the released,
/// unfinished job that is due first (of several, on the one with the largest
/// index); it is interrupted only when a job is released, and waits for the
/// next release where nothing is released. A job that is taken up again right
/// after its own fragment continues that run. The schedule is valid, the
/// runs of each job last its processing time together, and no schedule of
/// the instance, with or without preemption, has a smaller maximum lateness.
pub fn edd_preemptive(processing_times: Vec<Time>, release_times: &[Time], due_times: &[Time]) -> (result:
    MachineSchedule)
    requires
        schedulable(ints(processing_times@), ints(release_times@), ints(due_times@)),
    ensures
        result@ == edd_schedule(ints(processing_times@), ints(release_times@), ints(due_times@)),
        well_ordered(result@),
        respects_release(result@, ints(release_times@)),
        forall|k: int| 0 <= k < result@.len() ==> 0 <= (#[trigger] result@[k]).job < processing_times@.len(),
        forall|j: int|
            0 <= j < processing_times@.len() ==> #[trigger] job_time(result@, j) == ints(processing_times@)[j],
        preemptive_schedule(result@, ints(processing_times@), ints(release_times@)),
        forall|other: Seq<Run>|
            processing_times@.len() > 0 && #[trigger] preemptive_schedule(
                other,
                ints(processing_times@),
                ints(release_times@),
            ) ==> max_lateness_of(result@, ints(due_times@)) <= max_lateness_of(other, ints(due_times@)),
{
    let ghost p = ints(processing_times@);
    let ghost r = ints(release_times@);
    let ghost d = ints(due_times@);
    proof {
        assert forall|other: Seq<Run>| p.len() > 0 && #[trigger] preemptive_schedule(other, p, r) implies max_lateness_of(
            edd_schedule(p, r, d),
            d,
        ) <= max_lateness_of(other, d) by {
            crate::single_machine::lower_bound::lemma_preemptive_optimal(p, r, d, other);
        }
    }
    let n = processing_times.len();
    let mut processing_times = processing_times;
    let mut done: Vec<bool> = Vec::new();
    while done.len() < n
        invariant
            done@.len() <= n,
            forall|j: int| 0 <= j < done@.len() ==> !(#[trigger] done@[j]),
        decreases n - done@.len(),
    {
        done.push(false);
    }
    assert(done@ =~= Seq::new(p.len(), |j: int| false));
    let mut unfinished: usize = n;
    let mut clock: Time = 0;
    let mut schedule: Vec<JobRun> = Vec::new();
    let ghost mut raw: Seq<Run> = Seq::empty();
    proof {
        lemma_remaining_bounds(done@);
        lemma_work_left_start(p, done@, n as int);
        assert(raw + edd_from(r, d, p, done@, 0) =~= edd_from(r, d, p, done@, 0));
        assert(run_views(schedule@) =~= merge_runs(raw));
    }
    while unfinished > 0
        invariant
            n == p.len(),
            p.len() == r.len(),
            p.len() == d.len(),
            r == ints(release_times@),
            d == ints(due_times@),
            schedulable(p, r, d),
            processing_times@.len() == n,
            done@.len() == n,
            forall|j: int| 0 <= j < n ==> #[trigger] ints(processing_times@)[j] >= 0,
            unfinished == remaining(done@),
            raw + edd_from(r, d, ints(processing_times@), done@, clock as int) == edd_from(
                r,
                d,
                p,
                Seq::new(p.len(), |j: int| false),
                0,
            ),
            run_views(schedule@) == merge_runs(raw),
            well_ordered(run_views(schedule@)),
            respects_release(run_views(schedule@), r),
            forall|k: int|
                0 <= k < schedule@.len() ==> 0 <= (#[trigger] run_views(schedule@)[k]).job < n && run_views(
                    schedule@,
                )[k].start >= 0,
            schedule@.len() > 0 ==> run_views(schedule@).last().end() <= clock,
            forall|j: int| 0 <= j < n && done@[j] ==> #[trigger] runs_job(run_views(schedule@), j),
            forall|j: int|
                0 <= j < n ==> #[trigger] job_time(run_views(schedule@), j) + (if done@[j] {
                    0
                } else {
                    ints(processing_times@)[j]
                }) == p[j],
            0 <= clock,
            clock + work_left(ints(processing_times@), done@, n as int) <= total_work(p) || exists|j: int|
                0 <= j < n && clock + work_left(ints(processing_times@), done@, n as int) <= #[trigger] r[j]
                    + total_work(p),
        decreases remaining(done@), waiting(r, done@, clock as int, n as int),
    {
        let ghost left = ints(processing_times@);
        let ghost runs = run_views(schedule@);
        let ghost flags = done@;
        proof {
            lemma_remaining_bounds(done@);
            lemma_edd_choice(r, d, done@, clock as int, n as int);
            lemma_next_release(r, done@, clock as int, n as int);
            assert(runs.len() == schedule@.len());
        }
        let choice = edd_pick(release_times, due_times, &done, clock);
        let next = next_release_after(release_times, &done, clock);
        match choice {
            Some(job) => {
                proof {
                    lemma_work_left_covers(left, flags, job as int, n as int);
                    assert(left[job as int] == processing_times@[job as int]);
                    assert(left[job as int] >= 0);
                }
                let end = clock + processing_times[job];
                let preempted = match next {
                    Some(m) => m < end,
                    None => false,
                };
                if preempted {
                    let m = next.unwrap();
                    let ghost f = Run { start: clock as int, job: job as int, duration: m - clock };
                    proof {
                        lemma_join_valid(runs, f, r);
                        assert forall|j: int| 0 <= j < n && flags[j] implies #[trigger] runs_job(join(runs, f), j) by {
                            lemma_join_jobs(runs, f, j);
                        }
                        lemma_work_left_update(left, flags, job as int, end - m, n as int);
                        lemma_waiting_shrinks(r, flags, clock as int, m as int, n as int);
                        assert forall|j: int| 0 <= j < n implies #[trigger] job_time(join(runs, f), j) + (if flags[j] {
                            0
                        } else {
                            left.update(job as int, end - m)[j]
                        }) == p[j] by {
                            lemma_job_time_merge(raw, f, j);
                            assert(raw.push(f).drop_last() =~= raw);
                            assert(job_time(runs, j) + (if flags[j] { 0 } else { left[j] }) == p[j]);
                        }
                        assert(merge_runs(raw.push(f)) == join(runs, f)) by {
                            assert(raw.push(f).drop_last() =~= raw);
                        }
                        assert(raw.push(f) + edd_from(r, d, left.update(job as int, end - m), flags, m as int) =~= raw
                            + edd_from(r, d, left, flags, clock as int));
                        if runs.len() > 0 {
                            assert(runs.last().start >= 0);
                            assert(runs[runs.len() - 1].duration >= 0);
                        }
                    }
                    push_fragment(&mut schedule, clock, job, m - clock);
                    processing_times.set(job, end - m);
                    clock = m;
                    proof {
                        raw = raw.push(f);
                        assert(ints(processing_times@) =~= left.update(job as int, end - m));
                    }
                } else {
                    let length = processing_times[job];
                    let ghost f = Run { start: clock as int, job: job as int, duration: length as int };
                    proof {
                        lemma_join_valid(runs, f, r);
                        assert forall|j: int|
                            0 <= j < n && flags.update(job as int, true)[j] implies #[trigger] runs_job(
                            join(runs, f),
                            j,
                        ) by {
                            lemma_join_jobs(runs, f, j);
                        }
                        lemma_work_left_update(left, flags, job as int, 0, n as int);
                        lemma_remaining_update(flags, job as int);
                        assert forall|j: int| 0 <= j < n implies #[trigger] job_time(join(runs, f), j) + (if flags.update(
                            job as int,
                            true,
                        )[j] {
                            0
                        } else {
                            left[j]
                        }) == p[j] by {
                            lemma_job_time_merge(raw, f, j);
                            assert(raw.push(f).drop_last() =~= raw);
                            assert(job_time(runs, j) + (if flags[j] { 0 } else { left[j] }) == p[j]);
                        }
                        assert(merge_runs(raw.push(f)) == join(runs, f)) by {
                            assert(raw.push(f).drop_last() =~= raw);
                        }
                        assert(raw.push(f) + edd_from(r, d, left, flags.update(job as int, true), end as int) =~= raw
                            + edd_from(r, d, left, flags, clock as int));
                        if runs.len() > 0 {
                            assert(runs.last().start >= 0);
                            assert(runs[runs.len() - 1].duration >= 0);
                        }
                    }
                    push_fragment(&mut schedule, clock, job, length);
                    done.set(job, true);
                    unfinished = unfinished - 1;
                    clock = end;
                    proof {
                        raw = raw.push(f);
                    }
                }
            },
            None => {
                proof {
                    let u = choose|j: int| 0 <= j < n && !flags[j];
                    assert(pending(flags, u));
                    assert(next is Some);
                    lemma_waiting_shrinks(r, flags, clock as int, next->0 as int, n as int);
                    let w = choose|j: int| 0 <= j < n && pending(flags, j) && r[j] == next->0;
                    lemma_work_left_covers(left, flags, w, n as int);
                    crate::single_machine::schrage_model::lemma_done_work_bound(p, flags, n as int);
                    assert forall|j: int| 0 <= j < p.len() implies job_time(runs, j) >= 0 by {
                        lemma_job_time_nonnegative(runs, j);
                    }
                    lemma_work_left_total(p, left, flags, runs, n as int);
                    assert(next->0 + work_left(left, flags, n as int) <= r[w] + total_work(p));
                }
                match next {
                    Some(m) => {
                        clock = m;
                    },
                    None => {},
                }
            },
        }
    }
    let result = MachineSchedule { schedule };
    proof {
        lemma_remaining_bounds(done@);
        let left = ints(processing_times@);
        lemma_edd_choice(r, d, done@, clock as int, n as int);
        lemma_next_release(r, done@, clock as int, n as int);
        assert(edd_from(r, d, left, done@, clock as int) =~= Seq::<Run>::empty());
        assert(raw + Seq::<Run>::empty() =~= raw);
        assert(result@.len() == result.schedule@.len());
        assert forall|k: int| 0 <= k < result@.len() implies (#[trigger] result@[k]).start >= 0 by {}
        assert forall|j: int| 0 <= j < n implies #[trigger] runs_job(result@, j) by {
            assert(done@[j]);
        }
    }
    result
}

/// The time of a job is not negative where no run has a negative duration.
pub proof fn lemma_job_time_nonnegative(runs: Seq<Run>, j: int)
    requires
        forall|k: int| 0 <= k < runs.len() ==> (#[trigger] runs[k]).duration >= 0,
    ensures
        job_time(runs, j) >= 0,
    decreases runs.len(),
{
    if runs.len() > 0 {
        let front = runs.drop_last();
        assert forall|k: int| 0 <= k < front.len() implies (#[trigger] front[k]).duration >= 0 by {
            assert(front[k] == runs[k]);
        }
        lemma_job_time_nonnegative(front, j);
        assert(runs[runs.len() - 1].duration >= 0);
    }
}

/// What is left to do is no more than the whole work, where each job has
/// at most its processing time left.
proof fn lemma_work_left_total(p: Seq<int>, left: Seq<int>, done: Seq<bool>, runs: Seq<Run>, k: int)
    requires
        0 <= k <= p.len(),
        p.len() == left.len(),
        p.len() == done.len(),
        forall|j: int| 0 <= j < p.len() ==> #[trigger] p[j] >= 0,
        forall|j: int| 0 <= j < p.len() ==> #[trigger] left[j] >= 0,
        forall|j: int| 0 <= j < p.len() ==> #[trigger] job_time(runs, j) + (if done[j] { 0 } else { left[j] }) == p[j],
        forall|j: int| 0 <= j < p.len() ==> job_time(runs, j) >= 0,
    ensures
        work_left(left, done, k) <= work_below(p, k),
        work_below(p, k) <= total_work(p),
    decreases p.len() - k,
{
    lemma_work_left_prefix(p, left, done, runs, k);
    crate::single_machine::schrage_model::lemma_done_work_bound(p, done, k);
}

proof fn lemma_work_left_prefix(p: Seq<int>, left: Seq<int>, done: Seq<bool>, runs: Seq<Run>, k: int)
    requires
        0 <= k <= p.len(),
        p.len() == left.len(),
        p.len() == done.len(),
        forall|j: int| 0 <= j < p.len() ==> #[trigger] job_time(runs, j) + (if done[j] { 0 } else { left[j] }) == p[j],
        forall|j: int| 0 <= j < p.len() ==> job_time(runs, j) >= 0,
    ensures
        work_left(left, done, k) <= work_below(p, k),
    decreases k,
{
    if k > 0 {
        lemma_work_left_prefix(p, left, done, runs, k - 1);
        assert(job_time(runs, k - 1) + (if done[k - 1] { 0 } else { left[k - 1] }) == p[k - 1]);
        assert(job_time(runs, k - 1) >= 0);
    }
}

} // verus!
