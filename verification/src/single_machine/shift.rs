//! Moving an instance in time: what happens to the schedules when every
//! release time and every due time is moved by the same amount.

use vstd::prelude::*;

use crate::schedule::{finish_from, jobs_in_range, list_schedule, max_lateness_of, nonnegative, Run};
use crate::single_machine::carlier_model::{
    branch, carlier_schedule, enqueue, first_least, lemma_branch, lemma_first_least, lemma_search_step,
    node_runs, queue_weight, search, searchable, tighten, tighten_span, Block, Subproblem,
};
use crate::single_machine::critical_model::{
    block_start, interference, lemma_block_start, lemma_interference, lemma_pivot, pivot_of, span_release, span_work,
};
use crate::single_machine::releasetimes_maxlateness::preemptive::{
    edd_choice, edd_from, edd_schedule, join, lemma_edd_choice, lemma_next_release, lemma_waiting_shrinks, merge_runs,
    next_release, waiting,
};
use crate::single_machine::schrage_model::{
    earliest_release, first_choice, lemma_earliest_release, lemma_first_choice, lemma_remaining_update,
    lemma_schrage_order, next_start, pending, remaining, schrage_from, schrage_order, total_work,
};

verus! {

/// The times moved by `delta`.
pub open spec fn shifted(times: Seq<int>, delta: int) -> Seq<int> {
    Seq::new(times.len(), |j: int| times[j] + delta)
}

/// The runs moved by `delta`: each starts `delta` later and is otherwise
/// the same.
pub open spec fn shifted_runs(runs: Seq<Run>, delta: int) -> Seq<Run> {
    Seq::new(
        runs.len(),
        |k: int| Run { start: runs[k].start + delta, job: runs[k].job, duration: runs[k].duration },
    )
}

/// The release times can be moved by `delta` without the machine's start at
/// time zero coming into play: no release time is negative, before or after
/// the move.
pub open spec fn movable(r: Seq<int>, delta: int) -> bool {
    forall|j: int| 0 <= j < r.len() ==> #[trigger] r[j] >= 0 && r[j] + delta >= 0
}

proof fn lemma_shift_first_choice(
    p: Seq<int>,
    r: Seq<int>,
    d: Seq<int>,
    delta: int,
    done: Seq<bool>,
    clock: int,
    k: int,
)
    requires
        0 <= k <= done.len(),
        done.len() == r.len(),
        done.len() == d.len(),
    ensures
        first_choice(p, shifted(r, delta), shifted(d, delta), done, clock + delta, k) == first_choice(
            p,
            r,
            d,
            done,
            clock,
            k,
        ),
    decreases k,
{
    if k > 0 {
        lemma_shift_first_choice(p, r, d, delta, done, clock, k - 1);
        lemma_first_choice(p, r, d, done, clock, k - 1);
    }
}

proof fn lemma_shift_earliest_release(r: Seq<int>, delta: int, done: Seq<bool>, k: int)
    requires
        0 <= k <= done.len(),
        done.len() == r.len(),
    ensures
        earliest_release(shifted(r, delta), done, k) is Some <==> earliest_release(r, done, k) is Some,
        earliest_release(r, done, k) is Some ==> earliest_release(shifted(r, delta), done, k)->0 == earliest_release(
            r,
            done,
            k,
        )->0 + delta,
    decreases k,
{
    if k > 0 {
        lemma_shift_earliest_release(r, delta, done, k - 1);
    }
}

proof fn lemma_shift_schrage_from(p: Seq<int>, r: Seq<int>, d: Seq<int>, delta: int, done: Seq<bool>, clock: int)
    requires
        done.len() == p.len(),
        done.len() == r.len(),
        done.len() == d.len(),
    ensures
        schrage_from(p, shifted(r, delta), shifted(d, delta), done, clock + delta) == schrage_from(
            p,
            r,
            d,
            done,
            clock,
        ),
    decreases remaining(done),
{
    let n = done.len() as int;
    let r2 = shifted(r, delta);
    let d2 = shifted(d, delta);
    lemma_shift_earliest_release(r, delta, done, n);
    let now = next_start(r, done, clock);
    assert(next_start(r2, done, clock + delta) == now + delta);
    lemma_shift_first_choice(p, r, d, delta, done, now, n);
    let choice = first_choice(p, r, d, done, now, n);
    if choice is Some {
        lemma_first_choice(p, r, d, done, now, n);
        lemma_remaining_update(done, choice->0);
        lemma_shift_schrage_from(p, r, d, delta, done.update(choice->0, true), now + p[choice->0]);
    }
}

/// Whether the machine starts at one time or another makes no difference
/// as long as no job is released before either.
proof fn lemma_schrage_from_early(p: Seq<int>, r: Seq<int>, d: Seq<int>, done: Seq<bool>, clock: int, other: int)
    requires
        done.len() == r.len(),
        forall|j: int| 0 <= j < r.len() ==> clock <= #[trigger] r[j] && other <= r[j],
    ensures
        schrage_from(p, r, d, done, clock) == schrage_from(p, r, d, done, other),
{
    let n = done.len() as int;
    lemma_earliest_release(r, done, n);
    let first = earliest_release(r, done, n);
    if first is Some {
        let w = choose|j: int| 0 <= j < n && pending(done, j) && r[j] == first->0;
        assert(clock <= r[w] && other <= r[w]);
        assert(next_start(r, done, clock) == next_start(r, done, other));
    } else {
        lemma_first_choice(p, r, d, done, next_start(r, done, clock), n);
        lemma_first_choice(p, r, d, done, next_start(r, done, other), n);
    }
}

/// Schrage's rule takes the jobs of the moved instance in the same order.
pub proof fn lemma_shift_schrage_order(p: Seq<int>, r: Seq<int>, d: Seq<int>, delta: int)
    requires
        p.len() == r.len(),
        p.len() == d.len(),
        movable(r, delta),
    ensures
        schrage_order(p, shifted(r, delta), shifted(d, delta)) == schrage_order(p, r, d),
{
    let done = Seq::new(p.len(), |j: int| false);
    let r2 = shifted(r, delta);
    let d2 = shifted(d, delta);
    lemma_shift_schrage_from(p, r, d, delta, done, 0);
    assert forall|j: int| 0 <= j < r2.len() implies 0 <= #[trigger] r2[j] && 0 + delta <= r2[j] by {
        assert(r[j] >= 0 && r[j] + delta >= 0);
    }
    lemma_schrage_from_early(p, r2, d2, done, 0, 0 + delta);
}

/// The list schedule of an order under moved release times ends each job
/// `delta` later.
proof fn lemma_shift_finish(order: Seq<int>, p: Seq<int>, r: Seq<int>, delta: int, k: int)
    requires
        jobs_in_range(order, r.len() as int),
        movable(r, delta),
        1 <= k <= order.len(),
    ensures
        finish_from(0, order, p, shifted(r, delta), k) == finish_from(0, order, p, r, k) + delta,
        finish_from(0, order, p, r, k) >= r[order[k - 1]] + p[order[k - 1]],
    decreases k,
{
    let j = order[k - 1];
    assert(0 <= j < r.len());
    assert(r[j] >= 0 && r[j] + delta >= 0);
    if k > 1 {
        lemma_shift_finish(order, p, r, delta, k - 1);
    }
}

/// The list schedule of an order under moved release times is the list
/// schedule moved.
pub proof fn lemma_shift_list_schedule(order: Seq<int>, p: Seq<int>, r: Seq<int>, delta: int)
    requires
        jobs_in_range(order, r.len() as int),
        movable(r, delta),
    ensures
        list_schedule(order, p, shifted(r, delta)) == shifted_runs(list_schedule(order, p, r), delta),
{
    let a = list_schedule(order, p, shifted(r, delta));
    let b = shifted_runs(list_schedule(order, p, r), delta);
    assert forall|k: int| 0 <= k < order.len() implies a[k] == b[k] by {
        let j = order[k];
        assert(0 <= j < r.len());
        assert(r[j] >= 0 && r[j] + delta >= 0);
        if k > 0 {
            lemma_shift_finish(order, p, r, delta, k);
        }
    }
    assert(a =~= b);
}

/// Moving the runs and the due times by the same amount leaves the maximum
/// lateness as it is.
pub proof fn lemma_shift_max_lateness(runs: Seq<Run>, d: Seq<int>, delta: int)
    requires
        runs.len() > 0,
        forall|k: int| 0 <= k < runs.len() ==> 0 <= (#[trigger] runs[k]).job < d.len(),
    ensures
        max_lateness_of(shifted_runs(runs, delta), shifted(d, delta)) == max_lateness_of(runs, d),
    decreases runs.len(),
{
    let moved = shifted_runs(runs, delta);
    if runs.len() <= 1 {
        assert(0 <= runs[0].job < d.len());
    } else {
        let front = runs.drop_last();
        assert forall|k: int| 0 <= k < front.len() implies 0 <= (#[trigger] front[k]).job < d.len() by {
            assert(front[k] == runs[k]);
        }
        lemma_shift_max_lateness(front, d, delta);
        assert(moved.drop_last() =~= shifted_runs(front, delta));
        assert(0 <= runs[runs.len() - 1].job < d.len());
    }
}

/// Schrage's heuristic on the moved instance gives the schedule moved, with
/// the same maximum lateness.
pub proof fn lemma_shift_schrage(p: Seq<int>, r: Seq<int>, d: Seq<int>, delta: int)
    requires
        p.len() == r.len(),
        p.len() == d.len(),
        movable(r, delta),
    ensures
        node_runs(p, shifted(r, delta), shifted(d, delta)) == shifted_runs(node_runs(p, r, d), delta),
        p.len() > 0 ==> max_lateness_of(node_runs(p, shifted(r, delta), shifted(d, delta)), shifted(d, delta))
            == max_lateness_of(node_runs(p, r, d), d),
{
    let order = schrage_order(p, r, d);
    lemma_shift_schrage_order(p, r, d, delta);
    lemma_schrage_order(p, r, d);
    lemma_shift_list_schedule(order, p, r, delta);
    let runs = node_runs(p, r, d);
    assert forall|k: int| 0 <= k < runs.len() implies 0 <= (#[trigger] runs[k]).job < d.len() by {
        assert(runs[k].job == order[k]);
    }
    if p.len() > 0 {
        lemma_shift_max_lateness(runs, d, delta);
    }
}

/// The subproblem moved by `delta`: its bound is a lateness and stays.
pub open spec fn shifted_node(node: Subproblem, delta: int) -> Subproblem {
    Subproblem { bound: node.bound, release: shifted(node.release, delta), due: shifted(node.due, delta) }
}

/// The open subproblems, each moved by `delta`.
pub open spec fn shifted_queue(queue: Seq<Subproblem>, delta: int) -> Seq<Subproblem> {
    Seq::new(queue.len(), |i: int| shifted_node(queue[i], delta))
}

/// The children of a subproblem, each moved by `delta`.
pub open spec fn shifted_kids(kids: Option<(Subproblem, Subproblem)>, delta: int) -> Option<(Subproblem, Subproblem)> {
    match kids {
        Some((first, second)) => Some((shifted_node(first, delta), shifted_node(second, delta))),
        None => None,
    }
}

/// The runs are runs of jobs that `d` has due times for.
pub open spec fn jobs_known(runs: Seq<Run>, n: int) -> bool {
    forall|k: int| 0 <= k < runs.len() ==> 0 <= (#[trigger] runs[k]).job < n
}

proof fn lemma_shift_pivot(runs: Seq<Run>, d: Seq<int>, delta: int, k: int)
    requires
        0 <= k <= runs.len(),
        jobs_known(runs, d.len() as int),
    ensures
        pivot_of(shifted_runs(runs, delta), shifted(d, delta), k) == pivot_of(runs, d, k),
    decreases k,
{
    if k > 1 {
        lemma_shift_pivot(runs, d, delta, k - 1);
        lemma_pivot(runs, d, k - 1);
        let before = pivot_of(runs, d, k - 1);
        assert(0 <= runs[k - 1].job < d.len());
        assert(0 <= runs[before].job < d.len());
    }
}

proof fn lemma_shift_block_start(runs: Seq<Run>, delta: int, i: int)
    requires
        0 <= i < runs.len(),
    ensures
        block_start(shifted_runs(runs, delta), i) == block_start(runs, i),
    decreases i,
{
    if i > 0 {
        lemma_shift_block_start(runs, delta, i - 1);
    }
}

proof fn lemma_shift_interference(runs: Seq<Run>, d: Seq<int>, delta: int, pivot: int, lo: int, hi: int)
    requires
        0 <= lo,
        hi <= runs.len(),
        0 <= pivot < runs.len(),
        jobs_known(runs, d.len() as int),
    ensures
        interference(shifted_runs(runs, delta), shifted(d, delta), pivot, lo, hi) == interference(
            runs,
            d,
            pivot,
            lo,
            hi,
        ),
    decreases hi - lo,
{
    if hi > lo {
        lemma_shift_interference(runs, d, delta, pivot, lo, hi - 1);
        assert(0 <= runs[hi - 1].job < d.len());
        assert(0 <= runs[pivot].job < d.len());
    }
}

proof fn lemma_shift_span(runs: Seq<Run>, r: Seq<int>, delta: int, lo: int, hi: int)
    requires
        0 <= lo,
        hi <= runs.len(),
        jobs_known(runs, r.len() as int),
    ensures
        span_work(shifted_runs(runs, delta), lo, hi) == span_work(runs, lo, hi),
        lo < hi ==> span_release(shifted_runs(runs, delta), shifted(r, delta), lo, hi) == span_release(
            runs,
            r,
            lo,
            hi,
        ) + delta,
    decreases hi - lo,
{
    if hi > lo {
        lemma_shift_span(runs, r, delta, lo, hi - 1);
        assert(0 <= runs[hi - 1].job < r.len());
        assert(0 <= runs[lo].job < r.len());
    }
}

/// The critical set moved by `delta`.
pub open spec fn shifted_block(blk: Block, delta: int) -> Block {
    Block { work: blk.work, release: blk.release + delta, due: blk.due + delta }
}

proof fn lemma_shift_tighten(p: Seq<int>, r: Seq<int>, d: Seq<int>, delta: int, j: int, blk: Block, ub: int)
    requires
        r.len() == d.len(),
        0 <= j < r.len(),
    ensures
        tighten(p, shifted(r, delta), shifted(d, delta), j, shifted_block(blk, delta), ub).0 == shifted(
            tighten(p, r, d, j, blk, ub).0,
            delta,
        ),
        tighten(p, shifted(r, delta), shifted(d, delta), j, shifted_block(blk, delta), ub).1 == shifted(
            tighten(p, r, d, j, blk, ub).1,
            delta,
        ),
{
    let a = tighten(p, shifted(r, delta), shifted(d, delta), j, shifted_block(blk, delta), ub);
    let b = tighten(p, r, d, j, blk, ub);
    assert(a.0 =~= shifted(b.0, delta));
    assert(a.1 =~= shifted(b.1, delta));
}

proof fn lemma_shift_tighten_span(
    p: Seq<int>,
    runs: Seq<Run>,
    r: Seq<int>,
    d: Seq<int>,
    delta: int,
    blk: Block,
    ub: int,
    lo: int,
    hi: int,
)
    requires
        r.len() == d.len(),
        0 <= lo,
        hi <= runs.len(),
        jobs_known(runs, r.len() as int),
    ensures
        tighten_span(
            p,
            shifted_runs(runs, delta),
            shifted(r, delta),
            shifted(d, delta),
            shifted_block(blk, delta),
            ub,
            lo,
            hi,
        ).0 == shifted(tighten_span(p, runs, r, d, blk, ub, lo, hi).0, delta),
        tighten_span(
            p,
            shifted_runs(runs, delta),
            shifted(r, delta),
            shifted(d, delta),
            shifted_block(blk, delta),
            ub,
            lo,
            hi,
        ).1 == shifted(tighten_span(p, runs, r, d, blk, ub, lo, hi).1, delta),
        tighten_span(p, runs, r, d, blk, ub, lo, hi).0.len() == r.len(),
        tighten_span(p, runs, r, d, blk, ub, lo, hi).1.len() == r.len(),
    decreases hi - lo,
{
    if hi > lo {
        lemma_shift_tighten_span(p, runs, r, d, delta, blk, ub, lo, hi - 1);
        let before = tighten_span(p, runs, r, d, blk, ub, lo, hi - 1);
        assert(0 <= runs[hi - 1].job < r.len());
        lemma_shift_tighten(p, before.0, before.1, delta, runs[hi - 1].job, blk, ub);
    }
}

/// The critical path and the interfering job of the moved subproblem are
/// those of the subproblem, and its critical set is the critical set moved.
proof fn lemma_shift_analysis(p: Seq<int>, r: Seq<int>, d: Seq<int>, delta: int)
    requires
        p.len() > 0,
        p.len() == r.len(),
        p.len() == d.len(),
        nonnegative(p),
        movable(r, delta),
    ensures
        ({
            let runs = node_runs(p, r, d);
            let runs2 = node_runs(p, shifted(r, delta), shifted(d, delta));
            let n = p.len() as int;
            let pivot = pivot_of(runs, d, n);
            let a = block_start(runs, pivot);
            let found = interference(runs, d, pivot, a, pivot);
            &&& runs.len() == n
            &&& jobs_known(runs, n)
            &&& runs2 == shifted_runs(runs, delta)
            &&& 0 <= a <= pivot < n
            &&& pivot_of(runs2, shifted(d, delta), n) == pivot
            &&& block_start(runs2, pivot) == a
            &&& interference(runs2, shifted(d, delta), pivot, a, pivot) == found
            &&& found is Some ==> a <= found->0 < pivot && span_work(runs2, found->0 + 1, pivot + 1) == span_work(
                runs,
                found->0 + 1,
                pivot + 1,
            ) && span_release(runs2, shifted(r, delta), found->0 + 1, pivot + 1) == span_release(
                runs,
                r,
                found->0 + 1,
                pivot + 1,
            ) + delta
        }),
{
    let n = p.len() as int;
    let runs = node_runs(p, r, d);
    lemma_shift_schrage(p, r, d, delta);
    assert(runs.len() == n && jobs_known(runs, n)) by {
        lemma_schrage_order(p, r, d);
        assert forall|k: int| 0 <= k < runs.len() implies 0 <= (#[trigger] runs[k]).job < n by {
            assert(runs[k].job == schrage_order(p, r, d)[k]);
        }
    }
    let pivot = pivot_of(runs, d, n);
    lemma_shift_pivot(runs, d, delta, n);
    lemma_pivot(runs, d, n);
    let a = block_start(runs, pivot);
    lemma_shift_block_start(runs, delta, pivot);
    lemma_block_start(runs, pivot);
    lemma_shift_interference(runs, d, delta, pivot, a, pivot);
    lemma_interference(runs, d, pivot, a, pivot);
    let found = interference(runs, d, pivot, a, pivot);
    if found is Some {
        lemma_shift_span(runs, r, delta, found->0 + 1, pivot + 1);
    }
}

/// The children made from moved times and a moved critical set are the
/// children moved.
proof fn lemma_shift_children(
    p: Seq<int>,
    runs: Seq<Run>,
    r: Seq<int>,
    d: Seq<int>,
    delta: int,
    blk: Block,
    ub: int,
    a: int,
    c: int,
    pivot: int,
    cjob: int,
)
    requires
        r.len() == d.len(),
        runs.len() == r.len(),
        jobs_known(runs, r.len() as int),
        0 <= a <= c < pivot < runs.len(),
        0 <= cjob < r.len(),
    ensures
        ({
            let front = tighten_span(p, runs, r, d, blk, ub, a, c);
            let all = tighten_span(p, runs, front.0, front.1, blk, ub, pivot + 1, runs.len() as int);
            let blk2 = shifted_block(blk, delta);
            let runs2 = shifted_runs(runs, delta);
            let front2 = tighten_span(p, runs2, shifted(r, delta), shifted(d, delta), blk2, ub, a, c);
            let all2 = tighten_span(p, runs2, front2.0, front2.1, blk2, ub, pivot + 1, runs.len() as int);
            let early = if all.1[cjob] <= blk.due - blk.work { all.1[cjob] } else { blk.due - blk.work };
            let late = if all.0[cjob] >= blk.release + blk.work { all.0[cjob] } else { blk.release + blk.work };
            let early2 = if all2.1[cjob] <= blk2.due - blk2.work { all2.1[cjob] } else { blk2.due - blk2.work };
            let late2 = if all2.0[cjob] >= blk2.release + blk2.work { all2.0[cjob] } else { blk2.release + blk2.work };
            &&& all2.0 == shifted(all.0, delta)
            &&& all2.1 == shifted(all.1, delta)
            &&& all2.1.update(cjob, early2) == shifted(all.1.update(cjob, early), delta)
            &&& all2.0.update(cjob, late2) == shifted(all.0.update(cjob, late), delta)
        }),
{
    let n = runs.len() as int;
    lemma_shift_tighten_span(p, runs, r, d, delta, blk, ub, a, c);
    let front = tighten_span(p, runs, r, d, blk, ub, a, c);
    lemma_shift_tighten_span(p, runs, front.0, front.1, delta, blk, ub, pivot + 1, n);
    let all = tighten_span(p, runs, front.0, front.1, blk, ub, pivot + 1, n);
    let blk2 = shifted_block(blk, delta);
    let runs2 = shifted_runs(runs, delta);
    let front2 = tighten_span(p, runs2, shifted(r, delta), shifted(d, delta), blk2, ub, a, c);
    let all2 = tighten_span(p, runs2, front2.0, front2.1, blk2, ub, pivot + 1, n);
    assert(all2.0 == shifted(all.0, delta));
    assert(all2.1 == shifted(all.1, delta));
    let early = if all.1[cjob] <= blk.due - blk.work { all.1[cjob] } else { blk.due - blk.work };
    let late = if all.0[cjob] >= blk.release + blk.work { all.0[cjob] } else { blk.release + blk.work };
    let early2 = if all2.1[cjob] <= blk2.due - blk2.work { all2.1[cjob] } else { blk2.due - blk2.work };
    let late2 = if all2.0[cjob] >= blk2.release + blk2.work { all2.0[cjob] } else { blk2.release + blk2.work };
    assert(all2.1.update(cjob, early2) =~= shifted(all.1.update(cjob, early), delta));
    assert(all2.0.update(cjob, late2) =~= shifted(all.0.update(cjob, late), delta));
}

/// A moved subproblem is split into the moved children.
pub proof fn lemma_shift_branch(p: Seq<int>, r: Seq<int>, d: Seq<int>, delta: int, ub: int, inherited: Option<int>)
    requires
        p.len() > 0,
        p.len() == r.len(),
        p.len() == d.len(),
        nonnegative(p),
        movable(r, delta),
    ensures
        branch(p, shifted(r, delta), shifted(d, delta), ub, inherited) == shifted_kids(
            branch(p, r, d, ub, inherited),
            delta,
        ),
{
    let n = p.len() as int;
    let r2 = shifted(r, delta);
    let d2 = shifted(d, delta);
    let runs = node_runs(p, r, d);
    let runs2 = node_runs(p, r2, d2);
    lemma_shift_analysis(p, r, d, delta);
    let pivot = pivot_of(runs, d, n);
    let a = block_start(runs, pivot);
    let found = interference(runs, d, pivot, a, pivot);
    if found is Some {
        let c = found->0;
        let cjob = runs[c].job;
        let pjob = runs[pivot].job;
        assert(0 <= cjob < n && 0 <= pjob < n);
        assert(runs2[c].job == cjob);
        assert(runs2[pivot].job == pjob);
        let blk = Block {
            work: span_work(runs, c + 1, pivot + 1),
            release: span_release(runs, r, c + 1, pivot + 1),
            due: d[pjob],
        };
        let blk2 = Block {
            work: span_work(runs2, c + 1, pivot + 1),
            release: span_release(runs2, r2, c + 1, pivot + 1),
            due: d2[pjob],
        };
        assert(blk2 == shifted_block(blk, delta));
        assert(blk2.bound() == blk.bound());
        assert(blk2.bound_with(r2[cjob], d2[cjob]) == blk.bound_with(r[cjob], d[cjob]));
        let own = blk.bound_with(r[cjob], d[cjob]);
        let key = if inherited is Some && inherited->0 > own { inherited->0 } else { own };
        if key < ub {
            lemma_shift_children(p, runs, r, d, delta, blk, ub, a, c, pivot, cjob);
        }
    }
}

/// The moved queue is searched as the queue is, and ends with the schedule
/// moved.
pub proof fn lemma_shift_search(
    p: Seq<int>,
    d0: Seq<int>,
    delta: int,
    queue: Seq<Subproblem>,
    best: int,
    incumbent: Seq<Run>,
)
    requires
        searchable(p, queue),
        d0.len() == p.len(),
        forall|i: int| 0 <= i < queue.len() ==> movable((#[trigger] queue[i]).release, delta),
    ensures
        search(p, shifted(d0, delta), shifted_queue(queue, delta), best, shifted_runs(incumbent, delta))
            == shifted_runs(search(p, d0, queue, best, incumbent), delta),
    decreases queue_weight(p, queue, best + total_work(p)),
{
    let queue2 = shifted_queue(queue, delta);
    let d2 = shifted(d0, delta);
    assert(searchable(p, queue2));
    if queue.len() > 0 {
        lemma_search_step(p, d0, queue, best);
        let n = queue.len() as int;
        lemma_shift_first_least(queue, delta, n);
        let i = first_least(queue, n);
        lemma_first_least(queue, n);
        let node = queue[i];
        let rest = queue.remove(i);
        assert(queue2[i] == shifted_node(node, delta));
        assert(queue2.remove(i) =~= shifted_queue(rest, delta));
        assert forall|k: int| 0 <= k < rest.len() implies movable((#[trigger] rest[k]).release, delta) by {
            if k < i {
                assert(rest[k] == queue[k]);
            } else {
                assert(rest[k] == queue[k + 1]);
            }
        }
        if node.bound >= best {
            lemma_shift_search(p, d0, delta, rest, best, incumbent);
        } else {
            let runs = node_runs(p, node.release, node.due);
            lemma_shift_schrage(p, node.release, node.due, delta);
            assert(runs.len() == p.len() && jobs_known(runs, p.len() as int)) by {
                lemma_schrage_order(p, node.release, node.due);
                assert forall|k: int| 0 <= k < runs.len() implies 0 <= (#[trigger] runs[k]).job < p.len() by {
                    assert(runs[k].job == schrage_order(p, node.release, node.due)[k]);
                }
            }
            lemma_shift_max_lateness(runs, d0, delta);
            let late = max_lateness_of(runs, d0);
            let best1 = if late < best { late } else { best };
            let incumbent1 = if late < best { runs } else { incumbent };
            let kids = branch(p, node.release, node.due, best1, Some(node.bound));
            lemma_shift_branch(p, node.release, node.due, delta, best1, Some(node.bound));
            let next = enqueue(rest, kids);
            assert(enqueue(shifted_queue(rest, delta), shifted_kids(kids, delta)) =~= shifted_queue(next, delta));
            if kids is Some {
                lemma_branch(p, node.release, node.due, best1, Some(node.bound));
                let pair = kids->0;
                assert(next == rest.push(pair.0).push(pair.1));
                assert forall|k: int| 0 <= k < next.len() implies movable((#[trigger] next[k]).release, delta) by {
                    if k < rest.len() {
                        assert(next[k] == rest[k]);
                    } else {
                        let child = next[k];
                        assert(child == pair.0 || child == pair.1);
                        assert forall|j: int| 0 <= j < child.release.len() implies #[trigger] child.release[j] >= 0
                            && child.release[j] + delta >= 0 by {
                            assert(node.release[j] >= 0 && node.release[j] + delta >= 0);
                            assert(node.release[j] <= pair.0.release[j]);
                            assert(node.release[j] <= pair.1.release[j]);
                        }
                    }
                }
            }
            lemma_shift_search(p, d0, delta, next, best1, incumbent1);
        }
    }
}

proof fn lemma_shift_first_least(queue: Seq<Subproblem>, delta: int, k: int)
    requires
        0 <= k <= queue.len(),
    ensures
        first_least(shifted_queue(queue, delta), k) == first_least(queue, k),
    decreases k,
{
    if k > 1 {
        lemma_shift_first_least(queue, delta, k - 1);
        lemma_first_least(queue, k - 1);
    }
}

/// Shift invariance of Carlier's algorithm: where every release time and
/// every due time is moved by the same amount, and no release time is
/// negative before or after, every run of the schedule starts that much
/// later, and the maximum lateness is the same.
pub proof fn lemma_shift_carlier(p: Seq<int>, r: Seq<int>, d: Seq<int>, delta: int)
    requires
        p.len() == r.len(),
        p.len() == d.len(),
        nonnegative(p),
        movable(r, delta),
    ensures
        carlier_schedule(p, shifted(r, delta), shifted(d, delta)) == shifted_runs(carlier_schedule(p, r, d), delta),
        p.len() > 0 ==> max_lateness_of(carlier_schedule(p, shifted(r, delta), shifted(d, delta)), shifted(d, delta))
            == max_lateness_of(carlier_schedule(p, r, d), d),
{
    let r2 = shifted(r, delta);
    let d2 = shifted(d, delta);
    if p.len() == 0 {
        assert(carlier_schedule(p, r2, d2) =~= shifted_runs(carlier_schedule(p, r, d), delta));
    } else {
        let runs = node_runs(p, r, d);
        lemma_shift_schrage(p, r, d, delta);
        let late = max_lateness_of(runs, d);
        let kids = branch(p, r, d, late, None);
        lemma_shift_branch(p, r, d, delta, late, None);
        let queue = enqueue(Seq::empty(), kids);
        assert(enqueue(Seq::empty(), shifted_kids(kids, delta)) =~= shifted_queue(queue, delta));
        if kids is Some {
            lemma_branch(p, r, d, late, None);
            let pair = kids->0;
            assert(queue == Seq::<Subproblem>::empty().push(pair.0).push(pair.1));
            assert forall|k: int| 0 <= k < queue.len() implies movable((#[trigger] queue[k]).release, delta) by {
                let child = queue[k];
                assert(child == pair.0 || child == pair.1);
                assert forall|j: int| 0 <= j < child.release.len() implies #[trigger] child.release[j] >= 0
                    && child.release[j] + delta >= 0 by {
                    assert(r[j] >= 0 && r[j] + delta >= 0);
                    assert(r[j] <= pair.0.release[j]);
                    assert(r[j] <= pair.1.release[j]);
                }
            }
        }
        lemma_shift_search(p, d, delta, queue, late, runs);
        // the schedule runs jobs that have due times
        let result = carlier_schedule(p, r, d);
        crate::single_machine::laws::lemma_carlier_feasible(p, r, d);
        assert forall|k: int| 0 <= k < result.len() implies 0 <= (#[trigger] result[k]).job < d.len() by {}
        lemma_shift_max_lateness(result, d, delta);
    }
}

proof fn lemma_shift_edd_choice(r: Seq<int>, d: Seq<int>, delta: int, done: Seq<bool>, clock: int, k: int)
    requires
        0 <= k <= done.len(),
        done.len() == r.len(),
        done.len() == d.len(),
    ensures
        edd_choice(shifted(r, delta), shifted(d, delta), done, clock + delta, k) == edd_choice(r, d, done, clock, k),
    decreases k,
{
    if k > 0 {
        lemma_shift_edd_choice(r, d, delta, done, clock, k - 1);
        lemma_edd_choice(r, d, done, clock, k - 1);
    }
}

proof fn lemma_shift_next_release(r: Seq<int>, delta: int, done: Seq<bool>, clock: int, k: int)
    requires
        0 <= k <= done.len(),
        done.len() == r.len(),
    ensures
        next_release(shifted(r, delta), done, clock + delta, k) is Some <==> next_release(r, done, clock, k) is Some,
        next_release(r, done, clock, k) is Some ==> next_release(shifted(r, delta), done, clock + delta, k)->0
            == next_release(r, done, clock, k)->0 + delta,
    decreases k,
{
    if k > 0 {
        lemma_shift_next_release(r, delta, done, clock, k - 1);
    }
}

proof fn lemma_shift_edd_from(r: Seq<int>, d: Seq<int>, delta: int, left: Seq<int>, done: Seq<bool>, clock: int)
    requires
        done.len() == r.len(),
        done.len() == d.len(),
    ensures
        edd_from(shifted(r, delta), shifted(d, delta), left, done, clock + delta) == shifted_runs(
            edd_from(r, d, left, done, clock),
            delta,
        ),
    decreases remaining(done), waiting(r, done, clock, done.len() as int),
{
    let n = done.len() as int;
    let r2 = shifted(r, delta);
    let d2 = shifted(d, delta);
    lemma_shift_edd_choice(r, d, delta, done, clock, n);
    lemma_shift_next_release(r, delta, done, clock, n);
    lemma_edd_choice(r, d, done, clock, n);
    lemma_next_release(r, done, clock, n);
    let choice = edd_choice(r, d, done, clock, n);
    let next = next_release(r, done, clock, n);
    let a = edd_from(r2, d2, left, done, clock + delta);
    let b = edd_from(r, d, left, done, clock);
    if choice is Some {
        let j = choice->0;
        if next is Some && next->0 < clock + left[j] {
            lemma_waiting_shrinks(r, done, clock, next->0, n);
            lemma_shift_edd_from(r, d, delta, left.update(j, clock + left[j] - next->0), done, next->0);
            let f = Run { start: clock, job: j, duration: next->0 - clock };
            let tail = edd_from(r, d, left.update(j, clock + left[j] - next->0), done, next->0);
            assert(b == seq![f] + tail);
            assert(a =~= shifted_runs(seq![f] + tail, delta));
        } else {
            lemma_remaining_update(done, j);
            lemma_shift_edd_from(r, d, delta, left, done.update(j, true), clock + left[j]);
            let f = Run { start: clock, job: j, duration: left[j] };
            let tail = edd_from(r, d, left, done.update(j, true), clock + left[j]);
            assert(b == seq![f] + tail);
            assert(a =~= shifted_runs(seq![f] + tail, delta));
        }
    } else if next is Some {
        lemma_waiting_shrinks(r, done, clock, next->0, n);
        lemma_shift_edd_from(r, d, delta, left, done, next->0);
    } else {
        assert(a =~= shifted_runs(b, delta));
    }
}

/// Whether the machine starts at one time or another makes no difference
/// to the rule as long as no job is released before either.
proof fn lemma_edd_from_early(r: Seq<int>, d: Seq<int>, left: Seq<int>, done: Seq<bool>, clock: int, other: int)
    requires
        done.len() == r.len(),
        clock <= other,
        forall|j: int| 0 <= j < r.len() ==> other <= #[trigger] r[j],
    ensures
        edd_from(r, d, left, done, clock) == edd_from(r, d, left, done, other),
{
    let n = done.len() as int;
    if clock < other {
        lemma_edd_choice(r, d, done, clock, n);
        lemma_next_release(r, done, clock, n);
        lemma_edd_choice(r, d, done, other, n);
        lemma_next_release(r, done, other, n);
        let choice = edd_choice(r, d, done, clock, n);
        let next = next_release(r, done, clock, n);
        let choice2 = edd_choice(r, d, done, other, n);
        let next2 = next_release(r, done, other, n);
        if choice is Some {
            assert(other <= r[choice->0]);
            assert(false);
        }
        if next is Some {
            let w = choose|j: int| 0 <= j < n && pending(done, j) && r[j] == next->0;
            assert(other <= r[w]);
            if other < next->0 {
                if choice2 is Some {
                    assert(pending(done, choice2->0) && r[choice2->0] > clock);
                    assert(false);
                }
                assert(pending(done, w) && r[w] > other);
                assert(next2 is Some);
                let v = choose|j: int| 0 <= j < n && pending(done, j) && r[j] == next2->0;
                assert(pending(done, v) && r[v] > clock);
                assert(next2->0 == next->0);
            }
        } else {
            if choice2 is Some {
                assert(pending(done, choice2->0) && r[choice2->0] > clock);
                assert(false);
            }
            if next2 is Some {
                let w = choose|j: int| 0 <= j < n && pending(done, j) && r[j] == next2->0;
                assert(pending(done, w) && r[w] > clock);
                assert(false);
            }
        }
    }
}

proof fn lemma_shift_merge(fragments: Seq<Run>, delta: int)
    ensures
        merge_runs(shifted_runs(fragments, delta)) == shifted_runs(merge_runs(fragments), delta),
    decreases fragments.len(),
{
    let moved = shifted_runs(fragments, delta);
    if fragments.len() > 0 {
        let front = fragments.drop_last();
        lemma_shift_merge(front, delta);
        assert(moved.drop_last() =~= shifted_runs(front, delta));
        let before = merge_runs(front);
        let f = fragments.last();
        let f2 = moved.last();
        assert(join(shifted_runs(before, delta), f2) =~= shifted_runs(join(before, f), delta));
    } else {
        assert(merge_runs(moved) =~= shifted_runs(merge_runs(fragments), delta));
    }
}

/// Shift invariance of the earliest-due-date rule with preemption: where
/// every release time and every due time is moved by the same amount, and
/// no release time is negative before or after, every run starts that much
/// later.
pub proof fn lemma_shift_edd(p: Seq<int>, r: Seq<int>, d: Seq<int>, delta: int)
    requires
        p.len() == r.len(),
        p.len() == d.len(),
        movable(r, delta),
    ensures
        edd_schedule(p, shifted(r, delta), shifted(d, delta)) == shifted_runs(edd_schedule(p, r, d), delta),
{
    let done = Seq::new(p.len(), |j: int| false);
    let r2 = shifted(r, delta);
    let d2 = shifted(d, delta);
    lemma_shift_edd_from(r, d, delta, p, done, 0);
    assert forall|j: int| 0 <= j < r2.len() implies 0 <= #[trigger] r2[j] && delta <= r2[j] by {
        assert(r[j] >= 0 && r[j] + delta >= 0);
    }
    if delta >= 0 {
        lemma_edd_from_early(r2, d2, p, done, 0, delta);
    } else {
        lemma_edd_from_early(r2, d2, p, done, delta, 0);
    }
    lemma_shift_merge(edd_from(r, d, p, done, 0), delta);
}

} // verus!
