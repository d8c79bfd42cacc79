//! What holds of the single-machine algorithms taken together.

use vstd::prelude::*;

use crate::schedule::{
    feasible, lemma_list_schedule_valid, max_lateness_of, nonnegative, runs_job, start_from, Run,
};
use crate::single_machine::carlier_model::{
    branch, carlier_schedule, enqueue, first_least, lemma_branch, lemma_search_step, node_runs, queue_weight,
    search, searchable, Subproblem,
};
use crate::single_machine::lower_bound::{lemma_preemptive_lower_bound, starts_after_zero};
use crate::single_machine::releasetimes_maxlateness::preemptive::edd_schedule;
use crate::single_machine::critical_model::{block_start, interference, lemma_block_start, lemma_interference, lemma_pivot, pivot_of};
use crate::single_machine::schrage_model::{lemma_schrage_order, occurs, schrage_order, total_work};

verus! {

/// Schrage's heuristic gives a valid schedule: every run starts at or after
/// its job's release time and ends before the next run starts, and every job
/// is run exactly once, for its processing time.
pub proof fn lemma_schrage_feasible(p: Seq<int>, r: Seq<int>, d: Seq<int>)
    requires
        p.len() == r.len(),
        p.len() == d.len(),
        nonnegative(p),
    ensures
        feasible(node_runs(p, r, d), p, r),
        starts_after_zero(node_runs(p, r, d)),
{
    let order = schrage_order(p, r, d);
    let runs = node_runs(p, r, d);
    lemma_schrage_order(p, r, d);
    lemma_list_schedule_valid(order, p, r);
    assert forall|k: int| 0 <= k < runs.len() implies (#[trigger] runs[k]).start >= 0 by {
        crate::schedule::lemma_finish_monotone(0, order, p, r, k, k);
    }
    assert forall|j: int| 0 <= j < p.len() implies #[trigger] runs_job(runs, j) by {
        assert(occurs(order, j));
        let k = choose|k: int| 0 <= k < order.len() && #[trigger] order[k] == j;
        assert(runs[k].job == j);
    }
    assert forall|k: int, l: int| 0 <= k < l < runs.len() implies (#[trigger] runs[k]).job != (
    #[trigger] runs[l]).job by {
        assert(order[k] != order[l]);
    }
}

/// A schedule that is valid for later release times is valid for earlier ones.
pub proof fn lemma_feasible_earlier(runs: Seq<Run>, p: Seq<int>, r: Seq<int>, r0: Seq<int>)
    requires
        feasible(runs, p, r),
        r.len() == p.len(),
        r0.len() == p.len(),
        forall|j: int| 0 <= j < p.len() ==> r0[j] <= #[trigger] r[j],
    ensures
        feasible(runs, p, r0),
{
    assert forall|k: int| 0 <= k < runs.len() implies (#[trigger] runs[k]).start >= r0[runs[k].job] by {
        assert(r0[runs[k].job] <= r[runs[k].job]);
    }
}

/// What the search ends with: a schedule that is valid for the release
/// times `r0` and whose maximum lateness is no greater than the incumbent's,
/// where the incumbent is valid and no open subproblem has a release time
/// before the one in `r0`.
pub proof fn lemma_search_result(
    p: Seq<int>,
    r0: Seq<int>,
    d0: Seq<int>,
    queue: Seq<Subproblem>,
    best: int,
    incumbent: Seq<Run>,
)
    requires
        searchable(p, queue),
        r0.len() == p.len(),
        d0.len() == p.len(),
        forall|i: int, j: int|
            0 <= i < queue.len() && 0 <= j < p.len() ==> r0[j] <= #[trigger] (#[trigger] queue[i]).release[j],
        feasible(incumbent, p, r0),
        starts_after_zero(incumbent),
        best == max_lateness_of(incumbent, d0),
    ensures
        feasible(search(p, d0, queue, best, incumbent), p, r0),
        starts_after_zero(search(p, d0, queue, best, incumbent)),
        max_lateness_of(search(p, d0, queue, best, incumbent), d0) <= best,
    decreases queue_weight(p, queue, best + total_work(p)),
{
    if queue.len() > 0 {
        lemma_search_step(p, d0, queue, best);
        let i = first_least(queue, queue.len() as int);
        let node = queue[i];
        let rest = queue.remove(i);
        assert forall|k: int, j: int| 0 <= k < rest.len() && 0 <= j < p.len() implies r0[j] <= #[trigger] (
        #[trigger] rest[k]).release[j] by {
            if k < i {
                assert(rest[k] == queue[k]);
            } else {
                assert(rest[k] == queue[k + 1]);
            }
        }
        if node.bound >= best {
            lemma_search_result(p, r0, d0, rest, best, incumbent);
        } else {
            let runs = node_runs(p, node.release, node.due);
            let late = max_lateness_of(runs, d0);
            let best1 = if late < best { late } else { best };
            let incumbent1 = if late < best { runs } else { incumbent };
            let kids = branch(p, node.release, node.due, best1, Some(node.bound));
            let next = enqueue(rest, kids);
            lemma_schrage_feasible(p, node.release, node.due);
            assert forall|j: int| 0 <= j < p.len() implies r0[j] <= #[trigger] node.release[j] by {
                assert(r0[j] <= queue[i].release[j]);
            }
            lemma_feasible_earlier(runs, p, node.release, r0);
            if kids is Some {
                lemma_branch(p, node.release, node.due, best1, Some(node.bound));
                let pair = kids->0;
                assert(next == rest.push(pair.0).push(pair.1));
                assert forall|k: int, j: int| 0 <= k < next.len() && 0 <= j < p.len() implies r0[j] <= #[trigger] (
                #[trigger] next[k]).release[j] by {
                    assert(r0[j] <= node.release[j]);
                    if k < rest.len() {
                        assert(next[k] == rest[k]);
                    } else if k == rest.len() {
                        assert(next[k] == pair.0);
                        assert(node.release[j] <= pair.0.release[j]);
                    } else {
                        assert(next[k] == pair.1);
                        assert(node.release[j] <= pair.1.release[j]);
                    }
                }
            }
            lemma_search_result(p, r0, d0, next, best1, incumbent1);
        }
    }
}

/// Carlier's algorithm gives a valid schedule: every run starts at or after
/// its job's release time and ends before the next run starts, and every job
/// is run exactly once, for its processing time.
pub proof fn lemma_carlier_feasible(p: Seq<int>, r: Seq<int>, d: Seq<int>)
    requires
        p.len() == r.len(),
        p.len() == d.len(),
        nonnegative(p),
    ensures
        feasible(carlier_schedule(p, r, d), p, r),
{
    lemma_carlier_result(p, r, d);
}

/// Carlier's algorithm never does worse than Schrage's heuristic: the
/// maximum lateness of its schedule is at most that of the Schrage schedule
/// of the same instance.
pub proof fn lemma_carlier_dominates_schrage(p: Seq<int>, r: Seq<int>, d: Seq<int>)
    requires
        p.len() > 0,
        p.len() == r.len(),
        p.len() == d.len(),
        nonnegative(p),
    ensures
        max_lateness_of(carlier_schedule(p, r, d), d) <= max_lateness_of(node_runs(p, r, d), d),
{
    lemma_carlier_result(p, r, d);
}

proof fn lemma_carlier_result(p: Seq<int>, r: Seq<int>, d: Seq<int>)
    requires
        p.len() == r.len(),
        p.len() == d.len(),
        nonnegative(p),
    ensures
        feasible(carlier_schedule(p, r, d), p, r),
        starts_after_zero(carlier_schedule(p, r, d)),
        p.len() > 0 ==> max_lateness_of(carlier_schedule(p, r, d), d) <= max_lateness_of(node_runs(p, r, d), d),
{
    if p.len() == 0 {
        let none = carlier_schedule(p, r, d);
        assert(none =~= Seq::<Run>::empty());
    } else {
        let runs = node_runs(p, r, d);
        let late = max_lateness_of(runs, d);
        let kids = branch(p, r, d, late, None);
        let queue = enqueue(Seq::empty(), kids);
        lemma_schrage_feasible(p, r, d);
        if kids is Some {
            lemma_branch(p, r, d, late, None);
            let pair = kids->0;
            assert(queue == Seq::<Subproblem>::empty().push(pair.0).push(pair.1));
            assert forall|k: int, j: int| 0 <= k < queue.len() && 0 <= j < p.len() implies r[j] <= #[trigger] (
            #[trigger] queue[k]).release[j] by {
                if k == 0 {
                    assert(queue[k] == pair.0);
                    assert(r[j] <= pair.0.release[j]);
                } else {
                    assert(queue[k] == pair.1);
                    assert(r[j] <= pair.1.release[j]);
                }
            }
        }
        lemma_search_result(p, r, d, queue, late, runs);
    }
}

/// Where all jobs are released at the same time, Carlier's algorithm
/// returns the Schrage schedule itself: the heuristic is already optimal,
/// and the two maximum latenesses are equal.
pub proof fn lemma_carlier_keeps_schrage_for_equal_release(p: Seq<int>, r: Seq<int>, d: Seq<int>)
    requires
        p.len() == r.len(),
        p.len() == d.len(),
        nonnegative(p),
        forall|j: int, k: int| 0 <= j < r.len() && 0 <= k < r.len() ==> r[j] == r[k],
    ensures
        carlier_schedule(p, r, d) == node_runs(p, r, d),
        max_lateness_of(carlier_schedule(p, r, d), d) == max_lateness_of(node_runs(p, r, d), d),
{
    let order = schrage_order(p, r, d);
    let runs = node_runs(p, r, d);
    lemma_schrage_order(p, r, d);
    if p.len() == 0 {
        assert(carlier_schedule(p, r, d) =~= runs);
    } else {
        let n = p.len() as int;
        let pivot = pivot_of(runs, d, n);
        let a = block_start(runs, pivot);
        lemma_pivot(runs, d, n);
        lemma_block_start(runs, pivot);
        lemma_interference(runs, d, pivot, a, pivot);
        let found = interference(runs, d, pivot, a, pivot);
        if found is Some {
            let c = found->0;
            assert(runs[c].job == order[c]);
            assert(runs[pivot].job == order[pivot]);
            assert(r[order[pivot]] == r[order[c]]);
            assert(start_from(0, order, p, r, c) >= r[order[c]]);
            assert(crate::single_machine::schrage_model::precedes(p, d, order[c], order[pivot]));
            assert(false);
        }
        let late = max_lateness_of(runs, d);
        assert(branch(p, r, d, late, None) is None);
        assert(enqueue(Seq::<Subproblem>::empty(), branch(p, r, d, late, None)) =~= Seq::<Subproblem>::empty());
        assert(searchable(p, Seq::<Subproblem>::empty()));
    }
}

/// Carlier's algorithm is deterministic: the schedule is a function of the
/// instance, so two runs on equal inputs give equal schedules.
pub proof fn lemma_carlier_deterministic(
    p: Seq<int>,
    r: Seq<int>,
    d: Seq<int>,
    p_again: Seq<int>,
    r_again: Seq<int>,
    d_again: Seq<int>,
)
    requires
        p == p_again,
        r == r_again,
        d == d_again,
    ensures
        carlier_schedule(p, r, d) == carlier_schedule(p_again, r_again, d_again),
{
}

/// The preemptive relaxation is a lower bound for Carlier's algorithm: the
/// maximum lateness of the earliest-due-date schedule with preemption is at
/// most that of Carlier's schedule.
pub proof fn lemma_preemptive_bounds_carlier(p: Seq<int>, r: Seq<int>, d: Seq<int>)
    requires
        p.len() > 0,
        p.len() == r.len(),
        p.len() == d.len(),
        nonnegative(p),
    ensures
        max_lateness_of(edd_schedule(p, r, d), d) <= max_lateness_of(carlier_schedule(p, r, d), d),
{
    lemma_carlier_result(p, r, d);
    lemma_preemptive_lower_bound(p, r, d, carlier_schedule(p, r, d));
}

/// The preemptive relaxation is a lower bound for Schrage's heuristic too.
pub proof fn lemma_preemptive_bounds_schrage(p: Seq<int>, r: Seq<int>, d: Seq<int>)
    requires
        p.len() > 0,
        p.len() == r.len(),
        p.len() == d.len(),
        nonnegative(p),
    ensures
        max_lateness_of(edd_schedule(p, r, d), d) <= max_lateness_of(node_runs(p, r, d), d),
{
    lemma_schrage_feasible(p, r, d);
    lemma_preemptive_lower_bound(p, r, d, node_runs(p, r, d));
}

} // verus!
