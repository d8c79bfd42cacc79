//! Scheduling on a single machine with release times, under the
//! maximum-lateness objective.

use vstd::prelude::*;

use vstd::slice::slice_to_vec;

pub use releasetimes_maxlateness::preemptive::edd_preemptive;

use crate::schedule::{
    feasible, finish_from, ids, ints, lemma_finish_prefix, list_schedule, max_lateness_of, nonnegative,
    MachineSchedule, Run,
};
use crate::{Job, Time};

pub mod carlier_model;
pub mod critical_model;
pub mod laws;
pub mod lower_bound;
pub mod num_tardy;
pub mod optimality;
pub mod releasetimes_maxlateness;
pub mod schrage_model;
pub mod shift;
pub mod tardy_bound;

use carlier_model::{
    branch, carlier_schedule, compact, enqueue, first_least, lemma_branch, lemma_critical_gap,
    lemma_node_runs, lemma_search_step, lemma_span_work_nonnegative, node_runs, queue_weight, search,
    searchable, split_of, tighten, tighten_span, time_limit, within_reach, Block, Subproblem,
};
use critical_model::{
    block_start, interference, lemma_block_start, lemma_span_work_split, pivot_of, span_release, span_work,
};
use lower_bound::starts_after_zero;
use schrage_model::{
    done_work, earliest_release, first_choice, lemma_done_work_bound, lemma_done_work_update,
    lemma_earliest_release, lemma_first_choice, lemma_remaining_bounds, lemma_remaining_update, next_start,
    pending, precedes, ready, remaining, schedulable, schrage_from, schrage_order, total_work,
};

verus! {

/// The earliest release time among the jobs not yet scheduled, if there is one.
fn earliest_pending_release(release_times: &[Time], done: &Vec<bool>) -> (result: Option<Time>)
    requires
        release_times@.len() == done@.len(),
    ensures
        result is Some <==> earliest_release(ints(release_times@), done@, done@.len() as int) is Some,
        result is Some ==> result->0 == earliest_release(ints(release_times@), done@, done@.len() as int)->0,
{
    let n = release_times.len();
    let mut first: Option<Time> = None;
    let mut k: usize = 0;
    while k < n
        invariant
            n == release_times@.len(),
            n == done@.len(),
            0 <= k <= n,
            first is Some <==> earliest_release(ints(release_times@), done@, k as int) is Some,
            first is Some ==> first->0 == earliest_release(ints(release_times@), done@, k as int)->0,
        decreases n - k,
    {
        if !done[k] {
            let release = release_times[k];
            match first {
                Some(m) => {
                    if release < m {
                        first = Some(release);
                    }
                },
                None => {
                    first = Some(release);
                },
            }
        }
        k = k + 1;
    }
    first
}

/// Among the jobs that are not yet scheduled and are released by `clock`,
/// the one with the earliest due time; among those with that due time the
/// one with the longest processing time; among those the one with the
/// smallest index.
fn pick_ready(
    processing_times: &[Time],
    release_times: &[Time],
    due_times: &[Time],
    done: &Vec<bool>,
    clock: Time,
) -> (result: Option<Job>)
    requires
        processing_times@.len() == done@.len(),
        release_times@.len() == done@.len(),
        due_times@.len() == done@.len(),
    ensures
        result is Some <==> first_choice(
            ints(processing_times@),
            ints(release_times@),
            ints(due_times@),
            done@,
            clock as int,
            done@.len() as int,
        ) is Some,
        result is Some ==> result->0 == first_choice(
            ints(processing_times@),
            ints(release_times@),
            ints(due_times@),
            done@,
            clock as int,
            done@.len() as int,
        )->0,
{
    let n = done.len();
    let ghost p = ints(processing_times@);
    let ghost r = ints(release_times@);
    let ghost d = ints(due_times@);
    let mut choice: Option<Job> = None;
    let mut k: usize = 0;
    while k < n
        invariant
            n == done@.len(),
            processing_times@.len() == n,
            release_times@.len() == n,
            due_times@.len() == n,
            p == ints(processing_times@),
            r == ints(release_times@),
            d == ints(due_times@),
            0 <= k <= n,
            choice is Some <==> first_choice(p, r, d, done@, clock as int, k as int) is Some,
            choice is Some ==> choice->0 == first_choice(p, r, d, done@, clock as int, k as int)->0,
            choice is Some ==> choice->0 < k,
        decreases n - k,
    {
        if !done[k] && release_times[k] <= clock {
            match choice {
                Some(c) => {
                    let keep = due_times[c] < due_times[k] || (due_times[c] == due_times[k] && processing_times[c]
                        >= processing_times[k]);
                    assert(keep == precedes(p, d, c as int, k as int));
                    if !keep {
                        choice = Some(k);
                    }
                },
                None => {
                    choice = Some(k);
                },
            }
        }
        k = k + 1;
    }
    choice
}

/// Schrage's heuristic for single-machine scheduling with release times
/// under the maximum-lateness objective.
///
/// The machine starts at time zero. Whenever it is free it takes, among the
/// jobs already released, the one with the earliest due time (ties go to the
/// longer processing time, then to the smaller index) and runs it to the
/// end; where no job is released it waits for the earliest release. The
/// result is the list schedule of the order in which the jobs were taken.
pub fn schrage(processing_times: &[Time], release_times: &[Time], due_times: &[Time]) -> (result: MachineSchedule)
    requires
        schedulable(ints(processing_times@), ints(release_times@), ints(due_times@)),
    ensures
        result@ == list_schedule(
            schrage_order(ints(processing_times@), ints(release_times@), ints(due_times@)),
            ints(processing_times@),
            ints(release_times@),
        ),
        feasible(result@, ints(processing_times@), ints(release_times@)),
{
    let order = schrage_sequence(processing_times, release_times, due_times);
    proof {
        laws::lemma_schrage_feasible(ints(processing_times@), ints(release_times@), ints(due_times@));
    }
    MachineSchedule::from_order_ptimes_releasetimes(order.as_slice(), processing_times, release_times)
}

/// The order in which Schrage's rule takes the jobs.
pub fn schrage_sequence(processing_times: &[Time], release_times: &[Time], due_times: &[Time]) -> (order: Vec<Job>)
    requires
        schedulable(ints(processing_times@), ints(release_times@), ints(due_times@)),
    ensures
        ids(order@) == schrage_order(ints(processing_times@), ints(release_times@), ints(due_times@)),
        order@.len() == processing_times@.len(),
        forall|k: int| 0 <= k < order@.len() ==> 0 <= #[trigger] ids(order@)[k] < processing_times@.len(),
        finish_from(0, ids(order@), ints(processing_times@), ints(release_times@), order@.len() as int) <= isize::MAX,
{
    let n = processing_times.len();
    let ghost p = ints(processing_times@);
    let ghost r = ints(release_times@);
    let ghost d = ints(due_times@);
    let mut done: Vec<bool> = Vec::new();
    while done.len() < n
        invariant
            done@.len() <= n,
            forall|j: int| 0 <= j < done@.len() ==> !(#[trigger] done@[j]),
        decreases n - done@.len(),
    {
        done.push(false);
    }
    assert(done@ =~= Seq::new(p.len(), |j: int| false));
    let mut order: Vec<Job> = Vec::new();
    let mut clock: Time = 0;
    proof {
        lemma_remaining_bounds(done@);
        lemma_done_work_bound(p, done@, n as int);
        assert(ids(order@) + schrage_from(p, r, d, done@, 0) =~= schrage_order(p, r, d));
    }
    while order.len() < n
        invariant
            n == processing_times@.len(),
            p == ints(processing_times@),
            r == ints(release_times@),
            d == ints(due_times@),
            schedulable(p, r, d),
            done@.len() == n,
            order@.len() + remaining(done@) == n,
            ids(order@) + schrage_from(p, r, d, done@, clock as int) == schrage_order(p, r, d),
            forall|k: int| 0 <= k < order@.len() ==> 0 <= #[trigger] ids(order@)[k] < n,
            finish_from(0, ids(order@), p, r, order@.len() as int) <= clock,
            0 <= clock,
            clock <= done_work(p, done@, n as int) || exists|j: int|
                0 <= j < n && clock <= #[trigger] r[j] + done_work(p, done@, n as int),
        decreases 2 * (n - order@.len()) + (if first_choice(p, r, d, done@, clock as int, n as int) is Some {
            0int
        } else {
            1int
        }),
    {
        proof {
            lemma_remaining_bounds(done@);
            lemma_earliest_release(r, done@, n as int);
            lemma_first_choice(p, r, d, done@, clock as int, n as int);
            lemma_done_work_bound(p, done@, n as int);
        }
        match pick_ready(processing_times, release_times, due_times, &done, clock) {
            Some(job) => {
                proof {
                    // a job is ready, so the machine starts at the clock
                    assert(next_start(r, done@, clock as int) == clock);
                    lemma_remaining_update(done@, job as int);
                    lemma_done_work_update(p, done@, job as int, n as int);
                    lemma_done_work_bound(p, done@.update(job as int, true), n as int);
                    let before = ids(order@);
                    let after = ids(order@.push(job));
                    assert(after =~= before.push(job as int));
                    lemma_finish_prefix(0, before, after, p, r, before.len() as int);
                    assert(before.push(job as int) + schrage_from(
                        p,
                        r,
                        d,
                        done@.update(job as int, true),
                        clock + p[job as int],
                    ) =~= before + (seq![job as int] + schrage_from(
                        p,
                        r,
                        d,
                        done@.update(job as int, true),
                        clock + p[job as int],
                    )));
                    assert(p[job as int] >= 0);
                }
                order.push(job);
                done.set(job, true);
                clock = clock + processing_times[job];
            },
            None => {
                let first = earliest_pending_release(release_times, &done);
                proof {
                    let u = choose|j: int| 0 <= j < n && !done@[j];
                    assert(pending(done@, u));
                    assert(first is Some);
                    let w = choose|j: int| 0 <= j < n && pending(done@, j) && r[j] == first->0;
                    assert(!ready(r, done@, clock as int, w));
                    assert(next_start(r, done@, clock as int) == first->0);
                    assert(next_start(r, done@, first->0 as int) == first->0);
                    assert(ready(r, done@, first->0 as int, w));
                    lemma_first_choice(p, r, d, done@, first->0 as int, n as int);
                    assert(clock <= r[w] + done_work(p, done@, n as int));
                }
                match first {
                    Some(release) => {
                        clock = release;
                    },
                    None => {},
                }
            },
        }
    }
    proof {
        lemma_remaining_bounds(done@);
        lemma_first_choice(p, r, d, done@, clock as int, n as int);
        lemma_earliest_release(r, done@, n as int);
        assert(schrage_from(p, r, d, done@, clock as int) =~= Seq::<int>::empty());
        assert(ids(order@) + Seq::<int>::empty() =~= ids(order@));
    }
    order
}

/// The critical path of a schedule under the given due times, as a pair
/// `(a, p)` of positions: `p` is the first run of greatest lateness, and `a`
/// the start of the busy block that leads up to it, that is the last position
/// up to `p` before which the machine stood idle (zero if there is none).
/// The schedule must not be empty.
pub fn critical_path(schedule: &MachineSchedule, due_times: &[Time]) -> (result: (usize, usize))
    requires
        schedule@.len() > 0,
        forall|k: int| 0 <= k < schedule@.len() ==> 0 <= (#[trigger] schedule@[k]).job < due_times@.len(),
        forall|k: int|
            0 <= k < schedule@.len() ==> isize::MIN <= (#[trigger] schedule@[k]).lateness(ints(due_times@))
                <= isize::MAX,
        forall|k: int| 0 <= k < schedule@.len() ==> isize::MIN <= (#[trigger] schedule@[k]).end() <= isize::MAX,
    ensures
        result.1 == pivot_of(schedule@, ints(due_times@), schedule@.len() as int),
        result.0 == block_start(schedule@, result.1 as int),
        result.0 <= result.1 < schedule@.len(),
{
    let ghost runs = schedule@;
    let ghost due = ints(due_times@);
    let n = schedule.schedule.len();
    assert(runs[0].job < due_times@.len());
    let first = schedule.schedule[0];
    assert(first@ == runs[0]);
    let mut pivot: usize = 0;
    let mut worst: Time = first.time + first.duration - due_times[first.job];
    let mut i: usize = 1;
    while i < n
        invariant
            n == schedule@.len(),
            runs == schedule@,
            due == ints(due_times@),
            1 <= i <= n,
            forall|k: int| 0 <= k < runs.len() ==> 0 <= (#[trigger] runs[k]).job < due_times@.len(),
            forall|k: int| 0 <= k < runs.len() ==> isize::MIN <= (#[trigger] runs[k]).lateness(due) <= isize::MAX,
            forall|k: int| 0 <= k < runs.len() ==> isize::MIN <= (#[trigger] runs[k]).end() <= isize::MAX,
            pivot == pivot_of(runs, due, i as int),
            pivot < i,
            worst == runs[pivot as int].lateness(due),
        decreases n - i,
    {
        assert(runs[i as int].job < due_times@.len());
        let run = schedule.schedule[i];
        assert(run@ == runs[i as int]);
        let late = run.time + run.duration - due_times[run.job];
        if late > worst {
            worst = late;
            pivot = i;
        }
        i = i + 1;
    }
    let mut a: usize = pivot;
    proof {
        lemma_block_start(runs, pivot as int);
    }
    while a > 0
        invariant_except_break
            block_start(runs, a as int) == block_start(runs, pivot as int),
        invariant
            runs == schedule@,
            0 <= a <= pivot < runs.len(),
            forall|k: int| 0 <= k < runs.len() ==> isize::MIN <= (#[trigger] runs[k]).end() <= isize::MAX,
        ensures
            a == block_start(runs, pivot as int),
        decreases a,
    {
        let here = schedule.schedule[a];
        let before = schedule.schedule[a - 1];
        assert(here@ == runs[a as int]);
        assert(before@ == runs[a - 1]);
        if here.time > before.time + before.duration {
            break;
        }
        a = a - 1;
    }
    (a, pivot)
}

/// An open subproblem of the branch and bound: the instance with tightened
/// release and due times, and the lower bound it inherited.
#[derive(Debug)]
pub struct CarlierNode {
    pub lower_bound: Time,
    pub release_times: Vec<Time>,
    pub due_times: Vec<Time>,
}

impl View for CarlierNode {
    type V = Subproblem;

    open spec fn view(&self) -> Subproblem {
        Subproblem {
            bound: self.lower_bound as int,
            release: ints(self.release_times@),
            due: ints(self.due_times@),
        }
    }
}

/// What the analysis of one subproblem gives: its Schrage schedule, the
/// schedule's maximum lateness under the due times of the instance, and the two
/// subproblems it is split into, if it is split.
#[derive(Debug)]
pub struct CarlierResult {
    pub schedule: MachineSchedule,
    pub lateness: Time,
    pub subproblems: Option<(CarlierNode, CarlierNode)>,
}

/// The integer value of an optional time.
pub open spec fn optional_int(t: Option<Time>) -> Option<int> {
    match t {
        Some(v) => Some(v as int),
        None => None,
    }
}

/// The views of the open subproblems.
pub open spec fn queue_view(queue: Seq<CarlierNode>) -> Seq<Subproblem> {
    Seq::new(queue.len(), |i: int| queue[i]@)
}

/// The last position in `a..pivot` whose job is due later than the pivot's job.
fn find_interference(schedule: &MachineSchedule, due_times: &[Time], a: usize, pivot: usize) -> (result: Option<usize>)
    requires
        a <= pivot < schedule@.len(),
        forall|k: int| 0 <= k < schedule@.len() ==> 0 <= (#[trigger] schedule@[k]).job < due_times@.len(),
    ensures
        result is Some <==> interference(schedule@, ints(due_times@), pivot as int, a as int, pivot as int) is Some,
        result is Some ==> result->0 == interference(
            schedule@,
            ints(due_times@),
            pivot as int,
            a as int,
            pivot as int,
        )->0,
{
    let ghost runs = schedule@;
    let ghost due = ints(due_times@);
    assert(runs[pivot as int].job < due_times@.len());
    let pjob = schedule.schedule[pivot].job;
    assert(pjob == runs[pivot as int].job);
    let mut i: usize = pivot;
    while i > a
        invariant
            runs == schedule@,
            due == ints(due_times@),
            a <= i <= pivot < runs.len(),
            pjob == runs[pivot as int].job,
            forall|k: int| 0 <= k < runs.len() ==> 0 <= (#[trigger] runs[k]).job < due_times@.len(),
            interference(runs, due, pivot as int, a as int, i as int) == interference(
                runs,
                due,
                pivot as int,
                a as int,
                pivot as int,
            ),
        decreases i,
    {
        assert(runs[i - 1].job < due_times@.len());
        let job = schedule.schedule[i - 1].job;
        assert(job == runs[i - 1].job);
        if due_times[job] > due_times[pjob] {
            return Some(i - 1);
        }
        i = i - 1;
    }
    None
}

/// The total duration of the runs at positions `lo..hi` and the earliest
/// release time among their jobs.
fn critical_block(schedule: &MachineSchedule, release_times: &[Time], lo: usize, hi: usize) -> (result: (Time, Time))
    requires
        lo < hi <= schedule@.len(),
        forall|k: int| 0 <= k < schedule@.len() ==> 0 <= (#[trigger] schedule@[k]).job < release_times@.len(),
        forall|k: int| 0 <= k < schedule@.len() ==> (#[trigger] schedule@[k]).duration >= 0,
        span_work(schedule@, lo as int, hi as int) <= isize::MAX,
    ensures
        result.0 == span_work(schedule@, lo as int, hi as int),
        result.1 == span_release(schedule@, ints(release_times@), lo as int, hi as int),
{
    let ghost runs = schedule@;
    let ghost r = ints(release_times@);
    assert(runs[lo as int].job < release_times@.len());
    let first = schedule.schedule[lo];
    assert(first@ == runs[lo as int]);
    let mut work: Time = first.duration;
    let mut release: Time = release_times[first.job];
    let mut k: usize = lo + 1;
    proof {
        assert(span_work(runs, lo as int, lo as int) == 0);
        lemma_span_work_split(runs, lo as int, lo + 1, hi as int);
        lemma_span_work_nonnegative(runs, lo + 1, hi as int);
    }
    while k < hi
        invariant
            runs == schedule@,
            r == ints(release_times@),
            lo < k <= hi <= runs.len(),
            forall|i: int| 0 <= i < runs.len() ==> 0 <= (#[trigger] runs[i]).job < release_times@.len(),
            forall|i: int| 0 <= i < runs.len() ==> (#[trigger] runs[i]).duration >= 0,
            span_work(runs, lo as int, hi as int) <= isize::MAX,
            work == span_work(runs, lo as int, k as int),
            work >= 0,
            release == span_release(runs, r, lo as int, k as int),
        decreases hi - k,
    {
        assert(runs[k as int].job < release_times@.len());
        let run = schedule.schedule[k];
        assert(run@ == runs[k as int]);
        proof {
            lemma_span_work_split(runs, lo as int, k + 1, hi as int);
            lemma_span_work_nonnegative(runs, k + 1, hi as int);
        }
        work = work + run.duration;
        if release_times[run.job] < release {
            release = release_times[run.job];
        }
        k = k + 1;
    }
    (work, release)
}

/// Looks at the jobs at positions `lo..hi` of the schedule in turn and
/// tightens their release and due times: a job too long to run inside the
/// critical set of a schedule better than `ub` is forced behind the set if
/// it cannot run before it, and else before the set if it cannot run
/// behind it.
fn tighten_stretch(
    processing_times: &[Time],
    schedule: &MachineSchedule,
    release_times: &mut Vec<Time>,
    due_times: &mut Vec<Time>,
    work: Time,
    release: Time,
    latest: Time,
    ub: Time,
    lo: usize,
    hi: usize,
)
    requires
        lo <= hi <= schedule@.len(),
        forall|k: int| 0 <= k < schedule@.len() ==> 0 <= (#[trigger] schedule@[k]).job < processing_times@.len(),
        nonnegative(ints(processing_times@)),
        forall|j: int| 0 <= j < processing_times@.len() ==> (#[trigger] processing_times@[j]) <= time_limit(),
        within_reach(processing_times@.len(), ints(old(release_times)@), ints(old(due_times)@)),
        0 <= work <= time_limit(),
        -time_limit() <= release,
        release + work <= 4 * time_limit(),
        latest <= time_limit(),
        -4 * time_limit() <= latest - work,
        -3 * time_limit() <= ub <= 3 * time_limit(),
    ensures
        within_reach(processing_times@.len(), ints(final(release_times)@), ints(final(due_times)@)),
        (ints(final(release_times)@), ints(final(due_times)@)) == tighten_span(
            ints(processing_times@),
            schedule@,
            ints(old(release_times)@),
            ints(old(due_times)@),
            Block { work: work as int, release: release as int, due: latest as int },
            ub as int,
            lo as int,
            hi as int,
        ),
{
    let ghost p = ints(processing_times@);
    let ghost runs = schedule@;
    let ghost r0 = ints(release_times@);
    let ghost d0 = ints(due_times@);
    let ghost blk = Block { work: work as int, release: release as int, due: latest as int };
    let n = processing_times.len();
    let mut i: usize = lo;
    while i < hi
        invariant
            p == ints(processing_times@),
            runs == schedule@,
            n == processing_times@.len(),
            blk == (Block { work: work as int, release: release as int, due: latest as int }),
            lo <= i <= hi <= runs.len(),
            forall|k: int| 0 <= k < runs.len() ==> 0 <= (#[trigger] runs[k]).job < n,
            nonnegative(p),
            forall|j: int| 0 <= j < n ==> (#[trigger] processing_times@[j]) <= time_limit(),
            within_reach(n as nat, ints(release_times@), ints(due_times@)),
            0 <= work <= time_limit(),
            -time_limit() <= release,
            release + work <= 4 * time_limit(),
            latest <= time_limit(),
            -4 * time_limit() <= latest - work,
            -3 * time_limit() <= ub <= 3 * time_limit(),
            (ints(release_times@), ints(due_times@)) == tighten_span(p, runs, r0, d0, blk, ub as int, lo as int, i as int),
        decreases hi - i,
    {
        assert(runs[i as int].job < n);
        let job = schedule.schedule[i].job;
        assert(job == runs[i as int].job);
        let ghost r = ints(release_times@);
        let ghost d = ints(due_times@);
        assert(r[job as int] == release_times@[job as int]);
        assert(d[job as int] == due_times@[job as int]);
        assert(p[job as int] == processing_times@[job as int] && p[job as int] >= 0);
        let length = processing_times[job];
        let bound = work + release - latest;
        if length > ub - bound {
            if release_times[job] + length + work > ub + latest {
                if release_times[job] < release + work {
                    release_times.set(job, release + work);
                }
                assert(ints(release_times@) =~= tighten(p, r, d, job as int, blk, ub as int).0);
            } else if release + work + length > ub + due_times[job] {
                if due_times[job] > latest - work {
                    due_times.set(job, latest - work);
                }
                assert(ints(due_times@) =~= tighten(p, r, d, job as int, blk, ub as int).1);
            }
        }
        assert(ints(release_times@) == tighten(p, r, d, job as int, blk, ub as int).0);
        assert(ints(due_times@) == tighten(p, r, d, job as int, blk, ub as int).1);
        assert(within_reach(n as nat, ints(release_times@), ints(due_times@))) by {
            assert forall|j: int| 0 <= j < n implies -time_limit() <= #[trigger] ints(release_times@)[j] <= 4
                * time_limit() by {
                assert(-time_limit() <= r[j] <= 4 * time_limit());
            }
            assert forall|j: int| 0 <= j < n implies -4 * time_limit() <= #[trigger] ints(due_times@)[j]
                <= time_limit() by {
                assert(-4 * time_limit() <= d[j] <= time_limit());
            }
        }
        i = i + 1;
    }
}

/// The two children of a subproblem whose Schrage schedule has the
/// critical path `(a, pivot)` and the interfering job at position `c`, if
/// their bound is below `ub`.
fn split_subproblem(
    processing_times: &[Time],
    schedule: &MachineSchedule,
    release_times: Vec<Time>,
    due_times: Vec<Time>,
    ub: Time,
    inherited: Option<Time>,
    a: usize,
    pivot: usize,
    c: usize,
) -> (result: Option<(CarlierNode, CarlierNode)>)
    requires
        processing_times@.len() > 0,
        nonnegative(ints(processing_times@)),
        total_work(ints(processing_times@)) <= time_limit(),
        within_reach(processing_times@.len(), ints(release_times@), ints(due_times@)),
        -3 * time_limit() <= ub <= 3 * time_limit(),
        schedule@ == node_runs(ints(processing_times@), ints(release_times@), ints(due_times@)),
        pivot == pivot_of(schedule@, ints(due_times@), schedule@.len() as int),
        a == block_start(schedule@, pivot as int),
        interference(schedule@, ints(due_times@), pivot as int, a as int, pivot as int) == Some(c as int),
    ensures
        ({
            let kids = branch(
                ints(processing_times@),
                ints(release_times@),
                ints(due_times@),
                ub as int,
                optional_int(inherited),
            );
            &&& result is Some <==> kids is Some
            &&& result is Some ==> {
                let made = result->0;
                let pair = kids->0;
                &&& made.0@ == pair.0
                &&& made.1@ == pair.1
                &&& within_reach(processing_times@.len(), made.0@.release, made.0@.due)
                &&& within_reach(processing_times@.len(), made.1@.release, made.1@.due)
            }
        }),
{
    let ghost p = ints(processing_times@);
    let ghost r = ints(release_times@);
    let ghost d = ints(due_times@);
    let ghost runs = schedule@;
    let ghost s = split_of(p, r, d, optional_int(inherited));
    let n = processing_times.len();
    let mut release_times = release_times;
    let mut due_times = due_times;
    proof {
        assert(runs.len() == n && (forall|k: int|
            0 <= k < runs.len() ==> 0 <= (#[trigger] runs[k]).job < n && runs[k].duration >= 0)) by {
            lemma_node_runs(p, r, d, -time_limit(), 4 * time_limit());
        }
        lemma_critical_gap(p, r, d, optional_int(inherited));
        assert(s.pivot == pivot && s.start == a && s.interferer == c);
        assert forall|j: int| 0 <= j < n implies (#[trigger] processing_times@[j]) <= time_limit() by {
            crate::single_machine::schrage_model::lemma_work_covers(p, j, n as int);
            assert(p[j] == processing_times@[j]);
        }
    }
    let (work, release) = critical_block(schedule, release_times.as_slice(), c + 1, pivot + 1);
    let cjob = schedule.schedule[c].job;
    let pjob = schedule.schedule[pivot].job;
    assert(cjob == runs[c as int].job && pjob == runs[pivot as int].job);
    let latest = due_times[pjob];
    proof {
        assert(latest == d[pjob as int]);
        assert(s.blk == (Block { work: work as int, release: release as int, due: latest as int }));
        let w = choose|j: int| 0 <= j < p.len() && r[j] == s.blk.release;
        assert(-time_limit() <= r[w] <= 4 * time_limit());
        assert(r[cjob as int] == release_times@[cjob as int]);
        assert(d[cjob as int] == due_times@[cjob as int]);
        assert(-4 * time_limit() <= d[pjob as int] <= time_limit());
        assert(-4 * time_limit() <= d[cjob as int] <= time_limit());
        assert(-time_limit() <= r[cjob as int] <= 4 * time_limit());
    }
    let bound = work + release - latest;
    let sooner = if release_times[cjob] < release { release_times[cjob] } else { release };
    let joint = work + sooner - due_times[cjob];
    let own = if joint > bound { joint } else { bound };
    let key = match inherited {
        Some(up) => if up > own { up } else { own },
        None => own,
    };
    assert(key == s.key);
    if key < ub {
        tighten_stretch(processing_times, schedule, &mut release_times, &mut due_times, work, release, latest, ub, a, c);
        tighten_stretch(
            processing_times,
            schedule,
            &mut release_times,
            &mut due_times,
            work,
            release,
            latest,
            ub,
            pivot + 1,
            n,
        );
        let ghost all_r = ints(release_times@);
        let ghost all_d = ints(due_times@);
        assert(all_r[cjob as int] == release_times@[cjob as int]);
        assert(all_d[cjob as int] == due_times@[cjob as int]);
        let mut early_due = slice_to_vec(due_times.as_slice());
        if early_due[cjob] > latest - work {
            early_due.set(cjob, latest - work);
        }
        let first = CarlierNode {
            lower_bound: key,
            release_times: slice_to_vec(release_times.as_slice()),
            due_times: early_due,
        };
        if release_times[cjob] < release + work {
            release_times.set(cjob, release + work);
        }
        let second = CarlierNode { lower_bound: key, release_times, due_times };
        proof {
            let kids = branch(p, r, d, ub as int, optional_int(inherited));
            let pair = kids->0;
            assert(pair.0.release == all_r);
            assert(first@.release =~= pair.0.release);
            assert(first@.due =~= pair.0.due);
            assert(second@.release =~= pair.1.release);
            assert(second@.due =~= pair.1.due);
            assert(within_reach(n as nat, first@.release, first@.due)) by {
                assert forall|j: int| 0 <= j < n implies -4 * time_limit() <= #[trigger] first@.due[j]
                    <= time_limit() by {
                    assert(-4 * time_limit() <= all_d[j] <= time_limit());
                }
            }
            assert(within_reach(n as nat, second@.release, second@.due)) by {
                assert forall|j: int| 0 <= j < n implies -time_limit() <= #[trigger] second@.release[j] <= 4
                    * time_limit() by {
                    assert(-time_limit() <= all_r[j] <= 4 * time_limit());
                }
            }
        }
        Some((first, second))
    } else {
        None
    }
}

/// The analysis of one subproblem of the branch and bound.
///
/// Runs Schrage's heuristic on the subproblem and measures the schedule's
/// maximum lateness under the due times of the instance. The smaller of that and
/// `incumbent` is the upper bound for what follows: the critical path of the
/// schedule is searched for an interfering job, and where there is one and
/// the children's bound is below the upper bound, the release and due times
/// are tightened and the two children made.
pub fn carlier_iteration(
    processing_times: &[Time],
    release_times: Vec<Time>,
    due_times: Vec<Time>,
    instance_due: &[Time],
    incumbent: Option<Time>,
    inherited: Option<Time>,
) -> (result: CarlierResult)
    requires
        processing_times@.len() > 0,
        nonnegative(ints(processing_times@)),
        total_work(ints(processing_times@)) <= time_limit(),
        within_reach(processing_times@.len(), ints(release_times@), ints(due_times@)),
        instance_due@.len() == processing_times@.len(),
        forall|j: int|
            0 <= j < instance_due@.len() ==> -time_limit() <= #[trigger] ints(instance_due@)[j] <= time_limit(),
        incumbent is Some ==> -3 * time_limit() <= incumbent->0 <= 3 * time_limit(),
        incumbent is None ==> forall|j: int|
            0 <= j < release_times@.len() ==> #[trigger] ints(release_times@)[j] <= time_limit(),
    ensures
        result.schedule@ == node_runs(ints(processing_times@), ints(release_times@), ints(due_times@)),
        result.lateness == max_lateness_of(result.schedule@, ints(instance_due@)),
        -3 * time_limit() <= result.lateness,
        incumbent is None ==> result.lateness <= 3 * time_limit(),
        ({
            let ub = if incumbent is Some && incumbent->0 <= result.lateness {
                incumbent->0 as int
            } else {
                result.lateness as int
            };
            let kids = branch(
                ints(processing_times@),
                ints(release_times@),
                ints(due_times@),
                ub,
                optional_int(inherited),
            );
            &&& result.subproblems is Some <==> kids is Some
            &&& result.subproblems is Some ==> {
                let made = result.subproblems->0;
                let pair = kids->0;
                &&& made.0@ == pair.0
                &&& made.1@ == pair.1
                &&& within_reach(processing_times@.len(), made.0@.release, made.0@.due)
                &&& within_reach(processing_times@.len(), made.1@.release, made.1@.due)
            }
        }),
{
    let ghost p = ints(processing_times@);
    let ghost r = ints(release_times@);
    let ghost d = ints(due_times@);
    let ghost d0 = ints(instance_due@);
    let ghost runs = node_runs(p, r, d);
    let ghost hi = if incumbent is None { time_limit() } else { 4 * time_limit() };
    let n = processing_times.len();
    proof {
        assert(schedulable(p, r, d));
    }
    let schedule = schrage(processing_times, release_times.as_slice(), due_times.as_slice());
    proof {
        assert(schedule@ == runs);
        assert forall|k: int| 0 <= k < runs.len() implies 0 <= (#[trigger] runs[k]).job < n && -2 * time_limit()
            <= runs[k].lateness(d0) <= hi + 2 * time_limit() && -2 * time_limit() <= runs[k].lateness(d) <= 9
            * time_limit() && -time_limit() <= runs[k].end() <= 5 * time_limit() by {
            lemma_node_runs(p, r, d, -time_limit(), hi);
            assert(-time_limit() <= d0[runs[k].job] <= time_limit());
            assert(-4 * time_limit() <= d[runs[k].job] <= time_limit());
        }
        assert(runs.len() == n) by {
            lemma_node_runs(p, r, d, -time_limit(), hi);
        }
    }
    let lateness = schedule.max_lateness(instance_due);
    let ub = match incumbent {
        Some(best) => if best <= lateness { best } else { lateness },
        None => lateness,
    };
    let (a, pivot) = critical_path(&schedule, due_times.as_slice());
    let found = find_interference(&schedule, due_times.as_slice(), a, pivot);
    let subproblems = match found {
        None => None,
        Some(c) => split_subproblem(
            processing_times,
            &schedule,
            release_times,
            due_times,
            ub,
            inherited,
            a,
            pivot,
            c,
        ),
    };
    CarlierResult { schedule, lateness, subproblems }
}

/// The position of the open subproblem with the least bound; of several,
/// the one that has waited longest.
fn least_bound(queue: &Vec<CarlierNode>) -> (result: usize)
    requires
        queue@.len() > 0,
    ensures
        result == first_least(queue_view(queue@), queue@.len() as int),
        result < queue@.len(),
{
    let mut best: usize = 0;
    let mut k: usize = 1;
    while k < queue.len()
        invariant
            1 <= k <= queue@.len(),
            best < k,
            best == first_least(queue_view(queue@), k as int),
        decreases queue@.len() - k,
    {
        assert(queue_view(queue@)[k as int] == queue@[k as int]@);
        assert(queue_view(queue@)[best as int] == queue@[best as int]@);
        if queue[k].lower_bound < queue[best].lower_bound {
            best = k;
        }
        k = k + 1;
    }
    best
}

/// Carlier's algorithm for single-machine scheduling with release times
/// under the maximum-lateness objective: a branch and bound over Schrage
/// schedules.
///
/// The incumbent is first the Schrage schedule of the instance. Open
/// subproblems are taken in the order of their inherited lower bounds, those
/// that have waited longest first among equals. A subproblem whose bound
/// does not undercut the incumbent is dropped; else its Schrage schedule
/// becomes the incumbent if it is better under the due times of the instance, and
/// its two children, which force the interfering job before or behind the
/// critical set, join the queue if their bound undercuts the incumbent.
/// The result is the incumbent when no subproblem is left; for an instance
/// without jobs it is the empty schedule. It is a valid schedule, and no
/// valid schedule that starts at or after time zero has a smaller maximum
/// lateness.
pub fn carlier(processing_times: &[Time], release_times: &[Time], due_times: &[Time]) -> (result: MachineSchedule)
    requires
        compact(ints(processing_times@), ints(release_times@), ints(due_times@)),
    ensures
        result@ == carlier_schedule(ints(processing_times@), ints(release_times@), ints(due_times@)),
        feasible(result@, ints(processing_times@), ints(release_times@)),
        forall|other: Seq<Run>|
            processing_times@.len() > 0 && #[trigger] feasible(other, ints(processing_times@), ints(release_times@))
                && starts_after_zero(other) ==> max_lateness_of(result@, ints(due_times@)) <= max_lateness_of(
                other,
                ints(due_times@),
            ),
{
    let ghost p = ints(processing_times@);
    let ghost r = ints(release_times@);
    let ghost d = ints(due_times@);
    proof {
        laws::lemma_carlier_feasible(p, r, d);
        assert forall|other: Seq<Run>|
            p.len() > 0 && #[trigger] feasible(other, p, r) && starts_after_zero(other) implies max_lateness_of(
            carlier_schedule(p, r, d),
            d,
        ) <= max_lateness_of(other, d) by {
            optimality::lemma_carlier_optimal(p, r, d, other);
        }
    }
    if processing_times.len() == 0 {
        return MachineSchedule::new();
    }
    assert(within_reach(p.len(), r, d));
    let root = carlier_iteration(
        processing_times,
        slice_to_vec(release_times),
        slice_to_vec(due_times),
        due_times,
        None,
        None,
    );
    let mut best_lateness = root.lateness;
    let mut best_schedule = root.schedule;
    let mut queue: Vec<CarlierNode> = Vec::new();
    let ghost kids = branch(p, r, d, best_lateness as int, None);
    match root.subproblems {
        Some((first, second)) => {
            queue.push(first);
            queue.push(second);
            proof {
                lemma_branch(p, r, d, best_lateness as int, None);
            }
        },
        None => {},
    }
    assert(queue_view(queue@) =~= enqueue(Seq::empty(), kids));
    while queue.len() > 0
        invariant
            p == ints(processing_times@),
            d == ints(due_times@),
            p.len() > 0,
            p.len() == d.len(),
            nonnegative(p),
            total_work(p) <= time_limit(),
            forall|j: int| 0 <= j < d.len() ==> -time_limit() <= #[trigger] d[j] <= time_limit(),
            -3 * time_limit() <= best_lateness <= 3 * time_limit(),
            searchable(p, queue_view(queue@)),
            forall|i: int|
                0 <= i < queue@.len() ==> within_reach(
                    p.len(),
                    (#[trigger] queue@[i])@.release,
                    queue@[i]@.due,
                ),
            search(p, d, queue_view(queue@), best_lateness as int, best_schedule@) == carlier_schedule(
                p,
                ints(release_times@),
                d,
            ),
        decreases queue_weight(p, queue_view(queue@), best_lateness + total_work(p)),
    {
        let ghost before = queue_view(queue@);
        let ghost old_queue = queue@;
        proof {
            lemma_search_step(p, d, before, best_lateness as int);
        }
        let i = least_bound(&queue);
        let node = queue.remove(i);
        assert(node@ == before[i as int]);
        assert(queue_view(queue@) =~= before.remove(i as int));
        assert forall|k: int| 0 <= k < queue@.len() implies within_reach(
            p.len(),
            (#[trigger] queue@[k])@.release,
            queue@[k]@.due,
        ) by {
            if k < i {
                assert(queue@[k] == old_queue[k]);
            } else {
                assert(queue@[k] == old_queue[k + 1]);
            }
        }
        if node.lower_bound < best_lateness {
            let ghost rest = queue_view(queue@);
            let ghost rest_nodes = queue@;
            let inherited = node.lower_bound;
            let result = carlier_iteration(
                processing_times,
                node.release_times,
                node.due_times,
                due_times,
                Some(best_lateness),
                Some(inherited),
            );
            if result.lateness < best_lateness {
                best_lateness = result.lateness;
                best_schedule = result.schedule;
            }
            let ghost kids = branch(p, node@.release, node@.due, best_lateness as int, Some(inherited as int));
            match result.subproblems {
                Some((first, second)) => {
                    queue.push(first);
                    queue.push(second);
                },
                None => {},
            }
            assert(queue_view(queue@) =~= enqueue(rest, kids));
            assert forall|k: int| 0 <= k < queue@.len() implies within_reach(
                p.len(),
                (#[trigger] queue@[k])@.release,
                queue@[k]@.due,
            ) by {
                if k < rest_nodes.len() {
                    assert(queue@[k] == rest_nodes[k]);
                }
            }
        }
    }
    best_schedule
}

} // verus!
