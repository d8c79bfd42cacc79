//! The mathematical model of Carlier's branch and bound: how a subproblem is
//! analysed and split, in which order the open subproblems are taken, and
//! why the search comes to an end.

use vstd::prelude::*;

use crate::schedule::{
    finish_from, jobs_in_range, lemma_list_schedule_valid, lemma_max_lateness, list_schedule, max_lateness_of,
    nonnegative, respects_release, start_from, well_ordered, Run,
};
use crate::single_machine::critical_model::{
    block_start, interference, lemma_block_start, lemma_interference, lemma_pivot, lemma_span_contiguous,
    lemma_span_release, lemma_span_work_split, pivot_of, span_release, span_work,
};
use crate::single_machine::schrage_model::{
    done_work, is_permutation, lemma_done_work_bound, lemma_done_work_update, lemma_no_work,
    lemma_schrage_order, occurs, precedes, schrage_order, total_work,
};

verus! {

/// An open subproblem: the instance with tightened release and due times,
/// and the lower bound it inherited, by which the search orders its work.
pub struct Subproblem {
    pub bound: int,
    pub release: Seq<int>,
    pub due: Seq<int>,
}

/// The critical set of a schedule in numbers: the total processing time of
/// its jobs, their earliest release time and their latest due time.
pub struct Block {
    pub work: int,
    pub release: int,
    pub due: int,
}

impl Block {
    /// No schedule of the critical set alone has a maximum lateness below this.
    pub open spec fn bound(self) -> int {
        self.work + self.release - self.due
    }

    /// The lower bound for the critical set together with a job released at
    /// `release` and due at `due`.
    pub open spec fn bound_with(self, release: int, due: int) -> int {
        let joint = self.work + (if release < self.release { release } else { self.release }) - due;
        if joint > self.bound() { joint } else { self.bound() }
    }
}

/// The release and due times after job `j` has been looked at: where the job
/// is too long to run inside the critical set of a schedule better than
/// `ub`, it is forced behind the set if it cannot run before it, and else
/// forced before the set if it cannot run behind it.
pub open spec fn tighten(p: Seq<int>, r: Seq<int>, d: Seq<int>, j: int, blk: Block, ub: int) -> (Seq<int>, Seq<int>) {
    if p[j] > ub - blk.bound() {
        if r[j] + p[j] + blk.work > ub + blk.due {
            (r.update(j, if r[j] >= blk.release + blk.work { r[j] } else { blk.release + blk.work }), d)
        } else if blk.release + blk.work + p[j] > ub + d[j] {
            (r, d.update(j, if d[j] <= blk.due - blk.work { d[j] } else { blk.due - blk.work }))
        } else {
            (r, d)
        }
    } else {
        (r, d)
    }
}

/// The release and due times after the jobs at positions `lo..hi` of the
/// schedule have been looked at in turn.
pub open spec fn tighten_span(
    p: Seq<int>,
    runs: Seq<Run>,
    r: Seq<int>,
    d: Seq<int>,
    blk: Block,
    ub: int,
    lo: int,
    hi: int,
) -> (Seq<int>, Seq<int>)
    decreases hi - lo,
{
    if hi <= lo {
        (r, d)
    } else {
        let before = tighten_span(p, runs, r, d, blk, ub, lo, hi - 1);
        tighten(p, before.0, before.1, runs[hi - 1].job, blk, ub)
    }
}

/// The schedule that Schrage's rule gives for a subproblem.
pub open spec fn node_runs(p: Seq<int>, r: Seq<int>, d: Seq<int>) -> Seq<Run> {
    list_schedule(schrage_order(p, r, d), p, r)
}

/// The two subproblems into which the instance `(p, r, d)` is split, if it
/// is split at all.
///
/// The instance's Schrage schedule is searched for its critical path and for
/// the last job `c` on it, before the pivot, that is due later than the
/// pivot's job. Without such a job nothing is split: the schedule is the best
/// for this instance. Else the critical set is what follows `c` up to the
/// pivot, and the children inherit the larger of `inherited` and the lower
/// bound of the set with and without `c`. They are made only if that is
/// below the incumbent `ub`. Both take the release and due times tightened
/// over the jobs of the block before `c` and the jobs after the pivot; the
/// first forces `c` before the critical set, the second behind it.
pub open spec fn branch(p: Seq<int>, r: Seq<int>, d: Seq<int>, ub: int, inherited: Option<int>) -> Option<
    (Subproblem, Subproblem),
> {
    let runs = node_runs(p, r, d);
    let pivot = pivot_of(runs, d, runs.len() as int);
    let a = block_start(runs, pivot);
    let found = interference(runs, d, pivot, a, pivot);
    if found is Some {
        let c = found->0;
        let cjob = runs[c].job;
        let blk = Block {
            work: span_work(runs, c + 1, pivot + 1),
            release: span_release(runs, r, c + 1, pivot + 1),
            due: d[runs[pivot].job],
        };
        let own = blk.bound_with(r[cjob], d[cjob]);
        let key = if inherited is Some && inherited->0 > own { inherited->0 } else { own };
        if key < ub {
            let front = tighten_span(p, runs, r, d, blk, ub, a, c);
            let all = tighten_span(p, runs, front.0, front.1, blk, ub, pivot + 1, runs.len() as int);
            let early = if all.1[cjob] <= blk.due - blk.work { all.1[cjob] } else { blk.due - blk.work };
            let late = if all.0[cjob] >= blk.release + blk.work { all.0[cjob] } else { blk.release + blk.work };
            Some(
                (
                    Subproblem { bound: key, release: all.0, due: all.1.update(cjob, early) },
                    Subproblem { bound: key, release: all.0.update(cjob, late), due: all.1 },
                ),
            )
        } else {
            None
        }
    } else {
        None
    }
}

/// The position of the open subproblem that is taken next: among the first
/// `k`, the one with the least bound, and of several the one that has
/// waited longest.
pub open spec fn first_least(queue: Seq<Subproblem>, k: int) -> int
    decreases k,
{
    if k <= 1 {
        0
    } else {
        let before = first_least(queue, k - 1);
        if queue[k - 1].bound < queue[before].bound {
            k - 1
        } else {
            before
        }
    }
}

/// The queue after the children of a subproblem, if it has any, have joined
/// it: the one that forces the interfering job forward first.
pub open spec fn enqueue(queue: Seq<Subproblem>, kids: Option<(Subproblem, Subproblem)>) -> Seq<Subproblem> {
    match kids {
        Some((first, second)) => queue.push(first).push(second),
        None => queue,
    }
}

/// The search can run: there are jobs, no processing time is negative, and
/// every open subproblem has a release and a due time for each job.
pub open spec fn searchable(p: Seq<int>, queue: Seq<Subproblem>) -> bool {
    &&& p.len() > 0
    &&& nonnegative(p)
    &&& forall|i: int|
        0 <= i < queue.len() ==> (#[trigger] queue[i]).release.len() == p.len() && queue[i].due.len() == p.len()
}

/// The schedule that the search ends with, from the open subproblems
/// `queue`, the incumbent schedule and its maximum lateness `best`.
///
/// The subproblem with the least inherited bound is taken first. It is
/// dropped if its bound does not undercut the incumbent. Else its Schrage
/// schedule replaces the incumbent if its maximum lateness under the
/// due times `d0` of the instance is smaller, and its children, if any, join the
/// queue.
pub open spec fn search(p: Seq<int>, d0: Seq<int>, queue: Seq<Subproblem>, best: int, incumbent: Seq<Run>) -> Seq<Run>
    decreases queue_weight(p, queue, best + total_work(p)),
    when searchable(p, queue)
    via search_decreases
{
    if queue.len() == 0 {
        incumbent
    } else {
        let i = first_least(queue, queue.len() as int);
        let node = queue[i];
        let rest = queue.remove(i);
        if node.bound >= best {
            search(p, d0, rest, best, incumbent)
        } else {
            let runs = node_runs(p, node.release, node.due);
            let late = max_lateness_of(runs, d0);
            let best1 = if late < best { late } else { best };
            let incumbent1 = if late < best { runs } else { incumbent };
            let kids = branch(p, node.release, node.due, best1, Some(node.bound));
            search(p, d0, enqueue(rest, kids), best1, incumbent1)
        }
    }
}

/// The schedule that Carlier's algorithm returns for the instance
/// `(p, r, d)`.
///
/// The incumbent is first the instance's Schrage schedule; the search then
/// starts from the children of the instance itself.
pub open spec fn carlier_schedule(p: Seq<int>, r: Seq<int>, d: Seq<int>) -> Seq<Run> {
    if p.len() == 0 {
        Seq::empty()
    } else {
        let runs = node_runs(p, r, d);
        let late = max_lateness_of(runs, d);
        let kids = branch(p, r, d, late, None);
        search(p, d, enqueue(Seq::empty(), kids), late, runs)
    }
}

/// By how much `x` exceeds zero.
pub open spec fn excess(x: int) -> nat {
    if x > 0 { x as nat } else { 0 }
}

/// The room that the jobs below `k` have left under the cap `cap`: for each
/// job, by how much release time plus processing time minus due time falls
/// short of the cap.
pub open spec fn slack_below(p: Seq<int>, r: Seq<int>, d: Seq<int>, cap: int, k: int) -> nat
    decreases k,
{
    if k <= 0 {
        0
    } else {
        slack_below(p, r, d, cap, k - 1) + excess(cap - (r[k - 1] + p[k - 1] - d[k - 1]))
    }
}

/// The number of nodes of a full binary tree of the given depth.
pub open spec fn tree_size(depth: nat) -> nat
    decreases depth,
{
    if depth == 0 {
        1
    } else {
        2 * tree_size((depth - 1) as nat) + 1
    }
}

/// A bound on the number of subproblems that can descend from the open
/// ones, themselves included.
pub open spec fn queue_weight(p: Seq<int>, queue: Seq<Subproblem>, cap: int) -> nat
    decreases queue.len(),
{
    if queue.len() == 0 {
        0
    } else {
        queue_weight(p, queue.drop_last(), cap) + tree_size(
            slack_below(p, queue.last().release, queue.last().due, cap, p.len() as int),
        )
    }
}

pub proof fn lemma_tree_size_monotone(a: nat, b: nat)
    requires
        a <= b,
    ensures
        1 <= tree_size(a) <= tree_size(b),
    decreases b,
{
    if b > 0 {
        if a < b {
            lemma_tree_size_monotone(a, (b - 1) as nat);
        } else {
            lemma_tree_size_monotone((a - 1) as nat, (b - 1) as nat);
        }
    }
}

/// Later release times, earlier due times and a lower cap leave less room.
pub proof fn lemma_slack_monotone(
    p: Seq<int>,
    r: Seq<int>,
    d: Seq<int>,
    cap: int,
    r2: Seq<int>,
    d2: Seq<int>,
    cap2: int,
    k: int,
)
    requires
        0 <= k <= r.len(),
        k <= d.len(),
        k <= r2.len(),
        k <= d2.len(),
        cap2 <= cap,
        forall|j: int| 0 <= j < k ==> r[j] <= #[trigger] r2[j],
        forall|j: int| 0 <= j < k ==> d[j] >= #[trigger] d2[j],
    ensures
        slack_below(p, r2, d2, cap2, k) <= slack_below(p, r, d, cap, k),
    decreases k,
{
    if k > 0 {
        lemma_slack_monotone(p, r, d, cap, r2, d2, cap2, k - 1);
        assert(r[k - 1] <= r2[k - 1]);
        assert(d[k - 1] >= d2[k - 1]);
    }
}

/// Where one job that had room left is tightened, there is strictly less room.
pub proof fn lemma_slack_strict(
    p: Seq<int>,
    r: Seq<int>,
    d: Seq<int>,
    r2: Seq<int>,
    d2: Seq<int>,
    cap: int,
    c: int,
    k: int,
)
    requires
        0 <= c < k <= r.len(),
        k <= d.len(),
        k <= r2.len(),
        k <= d2.len(),
        forall|j: int| 0 <= j < k ==> r[j] <= #[trigger] r2[j],
        forall|j: int| 0 <= j < k ==> d[j] >= #[trigger] d2[j],
        r2[c] - d2[c] >= r[c] - d[c] + 1,
        cap - (r[c] + p[c] - d[c]) >= 1,
    ensures
        slack_below(p, r2, d2, cap, k) + 1 <= slack_below(p, r, d, cap, k),
    decreases k,
{
    if c == k - 1 {
        lemma_slack_monotone(p, r, d, cap, r2, d2, cap, k - 1);
    } else {
        lemma_slack_strict(p, r, d, r2, d2, cap, c, k - 1);
        assert(r[k - 1] <= r2[k - 1]);
        assert(d[k - 1] >= d2[k - 1]);
    }
}

/// A lower cap leaves no subproblem more descendants.
pub proof fn lemma_queue_weight_monotone(p: Seq<int>, queue: Seq<Subproblem>, cap: int, cap2: int)
    requires
        cap2 <= cap,
        forall|i: int|
            0 <= i < queue.len() ==> (#[trigger] queue[i]).release.len() == p.len() && queue[i].due.len() == p.len(),
    ensures
        queue_weight(p, queue, cap2) <= queue_weight(p, queue, cap),
    decreases queue.len(),
{
    if queue.len() > 0 {
        let front = queue.drop_last();
        assert forall|i: int| 0 <= i < front.len() implies (#[trigger] front[i]).release.len() == p.len()
            && front[i].due.len() == p.len() by {
            assert(front[i] == queue[i]);
        }
        lemma_queue_weight_monotone(p, front, cap, cap2);
        let node = queue.last();
        assert(node == queue[queue.len() - 1]);
        lemma_slack_monotone(p, node.release, node.due, cap, node.release, node.due, cap2, p.len() as int);
        lemma_tree_size_monotone(
            slack_below(p, node.release, node.due, cap2, p.len() as int),
            slack_below(p, node.release, node.due, cap, p.len() as int),
        );
    }
}

/// Taking a subproblem out of the queue takes its weight off the queue's.
pub proof fn lemma_queue_weight_remove(p: Seq<int>, queue: Seq<Subproblem>, cap: int, i: int)
    requires
        0 <= i < queue.len(),
    ensures
        queue_weight(p, queue, cap) == queue_weight(p, queue.remove(i), cap) + tree_size(
            slack_below(p, queue[i].release, queue[i].due, cap, p.len() as int),
        ),
    decreases queue.len(),
{
    if i == queue.len() - 1 {
        assert(queue.remove(i) =~= queue.drop_last());
    } else {
        lemma_queue_weight_remove(p, queue.drop_last(), cap, i);
        assert(queue.remove(i).drop_last() =~= queue.drop_last().remove(i));
        assert(queue.remove(i).last() == queue.last());
        assert(queue.drop_last()[i] == queue[i]);
    }
}

/// Adding a subproblem to the queue adds its weight to the queue's.
pub proof fn lemma_queue_weight_push(p: Seq<int>, queue: Seq<Subproblem>, cap: int, node: Subproblem)
    ensures
        queue_weight(p, queue.push(node), cap) == queue_weight(p, queue, cap) + tree_size(
            slack_below(p, node.release, node.due, cap, p.len() as int),
        ),
{
    assert(queue.push(node).drop_last() =~= queue);
    assert(queue.push(node).last() == node);
}

/// Looking at a job moves no release time back and no due time forward,
/// and touches no job but this one.
pub proof fn lemma_tighten(p: Seq<int>, r: Seq<int>, d: Seq<int>, j: int, blk: Block, ub: int)
    requires
        r.len() == d.len(),
        0 <= j < r.len(),
    ensures
        tighten(p, r, d, j, blk, ub).0.len() == r.len(),
        tighten(p, r, d, j, blk, ub).1.len() == r.len(),
        forall|i: int| 0 <= i < r.len() ==> r[i] <= #[trigger] tighten(p, r, d, j, blk, ub).0[i],
        forall|i: int| 0 <= i < r.len() ==> d[i] >= #[trigger] tighten(p, r, d, j, blk, ub).1[i],
        forall|i: int| 0 <= i < r.len() && i != j ==> r[i] == #[trigger] tighten(p, r, d, j, blk, ub).0[i],
        forall|i: int| 0 <= i < r.len() && i != j ==> d[i] == #[trigger] tighten(p, r, d, j, blk, ub).1[i],
        tighten(p, r, d, j, blk, ub).0[j] == r[j] || (tighten(p, r, d, j, blk, ub).0[j] == blk.release + blk.work
            && p[j] > ub - blk.bound()),
        tighten(p, r, d, j, blk, ub).1[j] == d[j] || (tighten(p, r, d, j, blk, ub).1[j] == blk.due - blk.work
            && p[j] > ub - blk.bound()),
{
}

/// Looking at the jobs of a stretch moves no release time back and no due
/// time forward; a time that has moved is the one that forces the job
/// behind or before the critical set.
pub proof fn lemma_tighten_span(
    p: Seq<int>,
    runs: Seq<Run>,
    r: Seq<int>,
    d: Seq<int>,
    blk: Block,
    ub: int,
    lo: int,
    hi: int,
)
    requires
        r.len() == d.len(),
        0 <= lo,
        hi <= runs.len(),
        forall|k: int| 0 <= k < runs.len() ==> 0 <= (#[trigger] runs[k]).job < r.len(),
    ensures
        tighten_span(p, runs, r, d, blk, ub, lo, hi).0.len() == r.len(),
        tighten_span(p, runs, r, d, blk, ub, lo, hi).1.len() == r.len(),
        forall|i: int|
            0 <= i < r.len() ==> r[i] <= #[trigger] tighten_span(p, runs, r, d, blk, ub, lo, hi).0[i] && (
            tighten_span(p, runs, r, d, blk, ub, lo, hi).0[i] == r[i] || tighten_span(
                p,
                runs,
                r,
                d,
                blk,
                ub,
                lo,
                hi,
            ).0[i] == blk.release + blk.work),
        forall|i: int|
            0 <= i < r.len() ==> d[i] >= #[trigger] tighten_span(p, runs, r, d, blk, ub, lo, hi).1[i] && (
            tighten_span(p, runs, r, d, blk, ub, lo, hi).1[i] == d[i] || tighten_span(
                p,
                runs,
                r,
                d,
                blk,
                ub,
                lo,
                hi,
            ).1[i] == blk.due - blk.work),
    decreases hi - lo,
{
    if hi > lo {
        lemma_tighten_span(p, runs, r, d, blk, ub, lo, hi - 1);
        let before = tighten_span(p, runs, r, d, blk, ub, lo, hi - 1);
        assert(0 <= runs[hi - 1].job < r.len());
        lemma_tighten(p, before.0, before.1, runs[hi - 1].job, blk, ub);
    }
}

/// The total duration of a stretch of runs without negative durations is
/// not negative.
pub proof fn lemma_span_work_nonnegative(runs: Seq<Run>, lo: int, hi: int)
    requires
        0 <= lo,
        hi <= runs.len(),
        forall|k: int| 0 <= k < runs.len() ==> (#[trigger] runs[k]).duration >= 0,
    ensures
        span_work(runs, lo, hi) >= 0,
    decreases hi - lo,
{
    if hi > lo {
        lemma_span_work_nonnegative(runs, lo, hi - 1);
        assert(runs[hi - 1].duration >= 0);
    }
}

/// What the analysis of a subproblem finds, where the subproblem is split.
pub struct Split {
    pub pivot: int,
    pub start: int,
    pub interferer: int,
    pub blk: Block,
    pub key: int,
}

/// The analysis behind `branch`, where it splits.
pub open spec fn split_of(p: Seq<int>, r: Seq<int>, d: Seq<int>, inherited: Option<int>) -> Split {
    let runs = node_runs(p, r, d);
    let pivot = pivot_of(runs, d, runs.len() as int);
    let a = block_start(runs, pivot);
    let c = interference(runs, d, pivot, a, pivot)->0;
    let cjob = runs[c].job;
    let blk = Block {
        work: span_work(runs, c + 1, pivot + 1),
        release: span_release(runs, r, c + 1, pivot + 1),
        due: d[runs[pivot].job],
    };
    let own = blk.bound_with(r[cjob], d[cjob]);
    Split {
        pivot,
        start: a,
        interferer: c,
        blk,
        key: if inherited is Some && inherited->0 > own { inherited->0 } else { own },
    }
}

/// What holds of the Schrage schedule of a subproblem that has an
/// interfering job: the critical set is released only after the interfering
/// job has started, so the schedule's maximum lateness exceeds the critical
/// set's bound by less than the interfering job's processing time; and no
/// job's release time plus processing time minus due time exceeds the
/// schedule's maximum lateness.
pub proof fn lemma_critical_gap(p: Seq<int>, r: Seq<int>, d: Seq<int>, inherited: Option<int>)
    requires
        p.len() > 0,
        p.len() == r.len(),
        p.len() == d.len(),
        nonnegative(p),
        interference(
            node_runs(p, r, d),
            d,
            pivot_of(node_runs(p, r, d), d, p.len() as int),
            block_start(node_runs(p, r, d), pivot_of(node_runs(p, r, d), d, p.len() as int)),
            pivot_of(node_runs(p, r, d), d, p.len() as int),
        ) is Some,
    ensures
        ({
            let s = split_of(p, r, d, inherited);
            let runs = node_runs(p, r, d);
            let cjob = runs[s.interferer].job;
            &&& 0 <= s.start <= s.interferer < s.pivot < p.len()
            &&& 0 <= cjob < p.len()
            &&& 0 <= runs[s.pivot].job < p.len()
            &&& s.blk.due == d[runs[s.pivot].job]
            &&& s.blk.due < d[cjob]
            &&& s.blk.work >= 0
            &&& s.blk.work + p[cjob] <= total_work(p)
            &&& r[cjob] <= runs[s.interferer].start < s.blk.release
            &&& exists|j: int| 0 <= j < p.len() && r[j] == s.blk.release
            &&& s.key >= s.blk.bound()
            &&& inherited is Some ==> s.key >= inherited->0
            &&& max_lateness_of(runs, d) == runs[s.pivot].lateness(d)
            &&& max_lateness_of(runs, d) < s.blk.bound() + p[cjob]
            &&& forall|j: int| 0 <= j < p.len() ==> r[j] + #[trigger] p[j] - d[j] <= max_lateness_of(runs, d)
        }),
{
    let n = p.len() as int;
    let order = schrage_order(p, r, d);
    let runs = node_runs(p, r, d);
    assert(runs.len() == n && order.len() == n) by {
        lemma_schrage_order(p, r, d);
    }
    let s = split_of(p, r, d, inherited);
    let pivot = s.pivot;
    let a = s.start;
    let c = s.interferer;
    let cjob = runs[c].job;
    let pjob = runs[pivot].job;
    lemma_pivot(runs, d, n);
    lemma_block_start(runs, pivot);
    lemma_interference(runs, d, pivot, a, pivot);
    assert(0 <= a <= c < pivot < n);
    assert(0 <= cjob < n && 0 <= pjob < n && runs[c].duration == p[cjob] && runs[c].start >= r[cjob]) by {
        lemma_schrage_order(p, r, d);
        lemma_list_schedule_valid(order, p, r);
        assert(runs[c].job == order[c]);
        assert(runs[pivot].job == order[pivot]);
    }
    // the maximum lateness is the pivot's
    assert(max_lateness_of(runs, d) == runs[pivot].lateness(d)) by {
        lemma_max_lateness(runs, d);
        let w = choose|i: int| 0 <= i < runs.len() && #[trigger] runs[i].lateness(d) == max_lateness_of(runs, d);
        assert(runs[w].lateness(d) <= runs[pivot].lateness(d));
        assert(runs[pivot].lateness(d) <= max_lateness_of(runs, d));
    }
    // no idle time from the interfering job to the pivot
    assert(runs[pivot].end() == runs[c].start + p[cjob] + s.blk.work) by {
        assert forall|k: int| c < k < pivot + 1 implies (#[trigger] runs[k]).start == runs[k - 1].end() by {
            assert(runs[k].start <= runs[k - 1].end());
            assert(runs[k - 1].end() <= runs[k].start) by {
                lemma_schrage_order(p, r, d);
                lemma_list_schedule_valid(order, p, r);
                assert(runs[k - 1].end() <= runs[k - 1 + 1].start);
            }
        }
        lemma_span_contiguous(runs, c, pivot + 1);
        lemma_span_work_split(runs, c, c + 1, pivot + 1);
        assert(span_work(runs, c, c + 1) == runs[c].duration) by {
            assert(span_work(runs, c, c) == 0);
        }
    }
    assert(s.blk.work >= 0) by {
        lemma_schrage_order(p, r, d);
        lemma_list_schedule_valid(order, p, r);
        assert forall|k: int| 0 <= k < runs.len() implies (#[trigger] runs[k]).duration >= 0 by {}
        lemma_span_work_nonnegative(runs, c + 1, pivot + 1);
    }
    // the critical set is released after the interfering job has started
    lemma_span_release(runs, r, c + 1, pivot + 1);
    let i = choose|i: int| c + 1 <= i < pivot + 1 && r[(#[trigger] runs[i]).job] == s.blk.release;
    assert(d[runs[i].job] <= d[pjob]);
    assert(r[runs[i].job] > runs[c].start && 0 <= runs[i].job < n) by {
        lemma_schrage_order(p, r, d);
        assert(runs[i].job == order[i]);
        assert(runs[c].job == order[c]);
        assert(!precedes(p, d, order[c], order[i]));
        assert(r[order[i]] > start_from(0, order, p, r, c));
    }
    assert(0 <= runs[i].job < p.len() && r[runs[i].job] == s.blk.release);
    // the work of the block with the interfering job is part of the whole work
    assert(s.blk.work + p[cjob] <= total_work(p)) by {
        lemma_schrage_order(p, r, d);
        lemma_span_work_bound(order, p, r, c, pivot + 1);
        lemma_span_work_split(runs, c, c + 1, pivot + 1);
        assert(span_work(runs, c, c + 1) == runs[c].duration) by {
            assert(span_work(runs, c, c) == 0);
        }
    }
    assert forall|j: int| 0 <= j < p.len() implies r[j] + #[trigger] p[j] - d[j] <= max_lateness_of(runs, d) by {
        lemma_job_lateness(p, r, d, j);
    }
}

/// No job's release time plus processing time minus due time exceeds the
/// maximum lateness of the Schrage schedule.
pub proof fn lemma_job_lateness(p: Seq<int>, r: Seq<int>, d: Seq<int>, j: int)
    requires
        p.len() == r.len(),
        p.len() == d.len(),
        nonnegative(p),
        0 <= j < p.len(),
    ensures
        r[j] + p[j] - d[j] <= max_lateness_of(node_runs(p, r, d), d),
{
    let order = schrage_order(p, r, d);
    let runs = node_runs(p, r, d);
    lemma_schrage_order(p, r, d);
    lemma_list_schedule_valid(order, p, r);
    lemma_max_lateness(runs, d);
    assert(occurs(order, j));
    let k = choose|k: int| 0 <= k < order.len() && #[trigger] order[k] == j;
    assert(runs[k].job == j);
    assert(runs[k].start >= r[runs[k].job]);
    assert(runs[k].lateness(d) <= max_lateness_of(runs, d));
}

/// The work of a stretch of a schedule that runs each job once is part of
/// the whole work.
pub proof fn lemma_span_work_bound(order: Seq<int>, p: Seq<int>, r: Seq<int>, lo: int, hi: int)
    requires
        is_permutation(order, p.len() as int),
        nonnegative(p),
        0 <= lo <= hi <= order.len(),
    ensures
        span_work(list_schedule(order, p, r), lo, hi) <= total_work(p),
{
    let n = p.len() as int;
    lemma_span_work_picked(order, p, r, lo, hi);
    lemma_done_work_bound(p, picked_below(order, n, lo, hi), n);
}

/// The jobs that stand at the positions `lo..hi` of the order, as flags.
pub open spec fn picked_below(order: Seq<int>, n: int, lo: int, hi: int) -> Seq<bool> {
    Seq::new(n as nat, |j: int| exists|k: int| lo <= k < hi && #[trigger] order[k] == j)
}

pub proof fn lemma_span_work_picked(order: Seq<int>, p: Seq<int>, r: Seq<int>, lo: int, hi: int)
    requires
        is_permutation(order, p.len() as int),
        0 <= lo <= hi <= order.len(),
    ensures
        span_work(list_schedule(order, p, r), lo, hi) == done_work(
            p,
            picked_below(order, p.len() as int, lo, hi),
            p.len() as int,
        ),
    decreases hi - lo,
{
    let n = p.len() as int;
    let runs = list_schedule(order, p, r);
    if hi > lo {
        lemma_span_work_picked(order, p, r, lo, hi - 1);
        let before = picked_below(order, n, lo, hi - 1);
        let after = picked_below(order, n, lo, hi);
        let j = order[hi - 1];
        assert(0 <= j < n);
        assert(!before[j]) by {
            if before[j] {
                let k = choose|k: int| lo <= k < hi - 1 && #[trigger] order[k] == j;
                assert(order[k] != order[hi - 1]);
            }
        }
        assert(after =~= before.update(j, true)) by {
            assert forall|i: int| 0 <= i < n implies after[i] == before.update(j, true)[i] by {
                if i == j {
                    assert(order[hi - 1] == j);
                } else {
                    if after[i] {
                        let k = choose|k: int| lo <= k < hi && #[trigger] order[k] == i;
                        assert(lo <= k < hi - 1 && order[k] == i);
                    }
                    if before[i] {
                        let k = choose|k: int| lo <= k < hi - 1 && #[trigger] order[k] == i;
                        assert(lo <= k < hi && order[k] == i);
                    }
                }
            }
        }
        lemma_done_work_update(p, before, j, n);
        assert(runs[hi - 1].duration == p[j]);
    } else {
        let none = picked_below(order, n, lo, hi);
        assert forall|i: int| 0 <= i < n implies !none[i] by {}
        lemma_no_work(p, none, n);
    }
}


/// What holds of the children of a subproblem: they describe the same
/// jobs, inherit one bound, which is below the incumbent and not below the
/// parent's, move no release time back and no due time forward, and each
/// leaves strictly less room under the incumbent than the parent did.
pub proof fn lemma_branch(p: Seq<int>, r: Seq<int>, d: Seq<int>, ub: int, inherited: Option<int>)
    requires
        p.len() > 0,
        p.len() == r.len(),
        p.len() == d.len(),
        nonnegative(p),
        branch(p, r, d, ub, inherited) is Some,
    ensures
        ({
            let kids = branch(p, r, d, ub, inherited)->0;
            let first = kids.0;
            let second = kids.1;
            let cap = ub + total_work(p);
            &&& first.release.len() == p.len() && first.due.len() == p.len()
            &&& second.release.len() == p.len() && second.due.len() == p.len()
            &&& first.bound == second.bound
            &&& first.bound < ub
            &&& inherited is Some ==> first.bound >= inherited->0
            &&& forall|j: int| 0 <= j < p.len() ==> r[j] <= #[trigger] first.release[j]
            &&& forall|j: int| 0 <= j < p.len() ==> r[j] <= #[trigger] second.release[j]
            &&& forall|j: int| 0 <= j < p.len() ==> d[j] >= #[trigger] first.due[j]
            &&& forall|j: int| 0 <= j < p.len() ==> d[j] >= #[trigger] second.due[j]
            &&& slack_below(p, first.release, first.due, cap, p.len() as int) + 1 <= slack_below(
                p,
                r,
                d,
                cap,
                p.len() as int,
            )
            &&& slack_below(p, second.release, second.due, cap, p.len() as int) + 1 <= slack_below(
                p,
                r,
                d,
                cap,
                p.len() as int,
            )
        }),
{
    let n = p.len() as int;
    let runs = node_runs(p, r, d);
    lemma_schrage_order(p, r, d);
    lemma_list_schedule_valid(schrage_order(p, r, d), p, r);
    lemma_critical_gap(p, r, d, inherited);
    let s = split_of(p, r, d, inherited);
    let blk = s.blk;
    let c = s.interferer;
    let cjob = runs[c].job;
    let kids = branch(p, r, d, ub, inherited)->0;
    let first = kids.0;
    let second = kids.1;
    let cap = ub + total_work(p);
    assert forall|k: int| 0 <= k < runs.len() implies 0 <= (#[trigger] runs[k]).job < r.len() by {
        assert(runs[k].job == schrage_order(p, r, d)[k]);
    }
    lemma_tighten_span(p, runs, r, d, blk, ub, s.start, c);
    let front = tighten_span(p, runs, r, d, blk, ub, s.start, c);
    lemma_tighten_span(p, runs, front.0, front.1, blk, ub, s.pivot + 1, n);
    let all = tighten_span(p, runs, front.0, front.1, blk, ub, s.pivot + 1, n);
    assert forall|j: int| 0 <= j < n implies r[j] <= #[trigger] all.0[j] && d[j] >= all.1[j] by {
        assert(r[j] <= front.0[j]);
        assert(d[j] >= front.1[j]);
    }
    assert(cap - (r[cjob] + p[cjob] - d[cjob]) >= 1);
    lemma_slack_strict(p, r, d, first.release, first.due, cap, cjob, n);
    lemma_slack_strict(p, r, d, second.release, second.due, cap, cjob, n);
}

#[via_fn]
proof fn search_decreases(p: Seq<int>, d0: Seq<int>, queue: Seq<Subproblem>, best: int, incumbent: Seq<Run>) {
    if queue.len() > 0 {
        lemma_search_step(p, d0, queue, best);
    }
}

/// One step of the search leaves strictly less to do, and a queue that can
/// be searched again: the queue's weight under the new incumbent is below
/// its weight under the old one.
pub proof fn lemma_search_step(p: Seq<int>, d0: Seq<int>, queue: Seq<Subproblem>, best: int)
    requires
        searchable(p, queue),
        queue.len() > 0,
    ensures
        ({
            let i = first_least(queue, queue.len() as int);
            let node = queue[i];
            let rest = queue.remove(i);
            let late = max_lateness_of(node_runs(p, node.release, node.due), d0);
            let best1 = if late < best { late } else { best };
            let kids = branch(p, node.release, node.due, best1, Some(node.bound));
            &&& 0 <= i < queue.len()
            &&& searchable(p, rest)
            &&& queue_weight(p, rest, best + total_work(p)) < queue_weight(p, queue, best + total_work(p))
            &&& node.bound < best ==> searchable(p, enqueue(rest, kids)) && queue_weight(
                p,
                enqueue(rest, kids),
                best1 + total_work(p),
            ) < queue_weight(p, queue, best + total_work(p))
        }),
{
    let i = first_least(queue, queue.len() as int);
    lemma_first_least(queue, queue.len() as int);
    let node = queue[i];
    let rest = queue.remove(i);
    let cap = best + total_work(p);
    lemma_queue_weight_remove(p, queue, cap, i);
    let room = slack_below(p, node.release, node.due, cap, p.len() as int);
    lemma_tree_size_monotone(0, room);
    assert forall|k: int| 0 <= k < rest.len() implies (#[trigger] rest[k]).release.len() == p.len()
        && rest[k].due.len() == p.len() by {
        if k < i {
            assert(rest[k] == queue[k]);
        } else {
            assert(rest[k] == queue[k + 1]);
        }
    }
    if node.bound < best {
        let runs = node_runs(p, node.release, node.due);
        let late = max_lateness_of(runs, d0);
        let best1 = if late < best { late } else { best };
        let cap1 = best1 + total_work(p);
        let kids = branch(p, node.release, node.due, best1, Some(node.bound));
        lemma_queue_weight_monotone(p, rest, cap, cap1);
        if kids is Some {
            lemma_branch(p, node.release, node.due, best1, Some(node.bound));
            let pair = kids->0;
            let first = pair.0;
            let second = pair.1;
            let next = enqueue(rest, kids);
            assert(next == rest.push(first).push(second));
            assert forall|k: int| 0 <= k < next.len() implies (#[trigger] next[k]).release.len() == p.len()
                && next[k].due.len() == p.len() by {
                if k < rest.len() {
                    assert(next[k] == rest[k]);
                }
            }
            lemma_queue_weight_push(p, rest, cap1, first);
            lemma_queue_weight_push(p, rest.push(first), cap1, second);
            let room1 = slack_below(p, node.release, node.due, cap1, p.len() as int);
            lemma_slack_monotone(p, node.release, node.due, cap, node.release, node.due, cap1, p.len() as int);
            lemma_tree_size_monotone(room1, room);
            lemma_tree_size_monotone(
                slack_below(p, first.release, first.due, cap1, p.len() as int),
                (room1 - 1) as nat,
            );
            lemma_tree_size_monotone(
                slack_below(p, second.release, second.due, cap1, p.len() as int),
                (room1 - 1) as nat,
            );
            assert(tree_size(room1) == 2 * tree_size((room1 - 1) as nat) + 1);
        }
    }
}

/// What `first_least` returns: a position among the first `k` whose bound
/// none of them undercuts and no earlier one reaches.
pub proof fn lemma_first_least(queue: Seq<Subproblem>, k: int)
    requires
        1 <= k <= queue.len(),
    ensures
        0 <= first_least(queue, k) < k,
        forall|i: int| 0 <= i < k ==> (#[trigger] queue[i]).bound >= queue[first_least(queue, k)].bound,
        forall|i: int| 0 <= i < first_least(queue, k) ==> (#[trigger] queue[i]).bound > queue[first_least(queue, k)].bound,
    decreases k,
{
    if k > 1 {
        lemma_first_least(queue, k - 1);
    }
}

/// The largest magnitude of a time for which the branch and bound is
/// guaranteed to stay within the machine's integers: a sixteenth of the
/// range of the time type.
pub open spec fn time_limit() -> int {
    isize::MAX as int / 16
}

/// The instance is one that the branch and bound can take: the three arrays
/// describe the same jobs, no processing time is negative, and the whole
/// work as well as the magnitude of each release and due time is within
/// `time_limit()`.
pub open spec fn compact(p: Seq<int>, r: Seq<int>, d: Seq<int>) -> bool {
    &&& p.len() == r.len()
    &&& p.len() == d.len()
    &&& nonnegative(p)
    &&& total_work(p) <= time_limit()
    &&& forall|j: int| 0 <= j < r.len() ==> -time_limit() <= #[trigger] r[j] <= time_limit()
    &&& forall|j: int| 0 <= j < d.len() ==> -time_limit() <= #[trigger] d[j] <= time_limit()
}

/// The release and due times of a subproblem of a compact instance: no
/// release time has moved beyond four times the limit, no due time below
/// minus that.
pub open spec fn within_reach(n: nat, r: Seq<int>, d: Seq<int>) -> bool {
    &&& r.len() == n
    &&& d.len() == n
    &&& forall|j: int| 0 <= j < n ==> -time_limit() <= #[trigger] r[j] <= 4 * time_limit()
    &&& forall|j: int| 0 <= j < n ==> -4 * time_limit() <= #[trigger] d[j] <= time_limit()
}

/// The machine is busy no longer than the latest release time (or time
/// zero) plus the work of the jobs it has run.
pub proof fn lemma_finish_horizon(order: Seq<int>, p: Seq<int>, r: Seq<int>, hi: int, k: int)
    requires
        p.len() == r.len(),
        jobs_in_range(order, p.len() as int),
        nonnegative(p),
        hi >= 0,
        forall|j: int| 0 <= j < r.len() ==> #[trigger] r[j] <= hi,
        0 <= k <= order.len(),
    ensures
        span_work(list_schedule(order, p, r), 0, k) >= 0,
        finish_from(0, order, p, r, k) <= hi + span_work(list_schedule(order, p, r), 0, k),
    decreases k,
{
    if k > 0 {
        lemma_finish_horizon(order, p, r, hi, k - 1);
        let j = order[k - 1];
        assert(0 <= j < p.len());
        assert(p[j] >= 0);
        assert(r[j] <= hi);
        assert(list_schedule(order, p, r)[k - 1].duration == p[j]);
    }
}

/// The Schrage schedule of a subproblem in numbers: it runs each job once
/// for its processing time, not before its release time, one job at a time,
/// and is over by the latest release time (or time zero) plus the whole work.
pub proof fn lemma_node_runs(p: Seq<int>, r: Seq<int>, d: Seq<int>, lo: int, hi: int)
    requires
        p.len() == r.len(),
        p.len() == d.len(),
        nonnegative(p),
        hi >= 0,
        forall|j: int| 0 <= j < r.len() ==> lo <= #[trigger] r[j] <= hi,
    ensures
        node_runs(p, r, d).len() == p.len(),
        is_permutation(schrage_order(p, r, d), p.len() as int),
        well_ordered(node_runs(p, r, d)),
        respects_release(node_runs(p, r, d), r),
        forall|k: int|
            0 <= k < p.len() ==> {
                let run = #[trigger] node_runs(p, r, d)[k];
                &&& 0 <= run.job < p.len()
                &&& run.job == schrage_order(p, r, d)[k]
                &&& run.duration == p[run.job]
                &&& run.duration >= 0
                &&& lo <= r[run.job] <= run.start
                &&& run.end() <= hi + total_work(p)
            },
{
    let order = schrage_order(p, r, d);
    let runs = node_runs(p, r, d);
    lemma_schrage_order(p, r, d);
    lemma_list_schedule_valid(order, p, r);
    assert forall|k: int| 0 <= k < p.len() implies {
        let run = #[trigger] runs[k];
        &&& 0 <= run.job < p.len()
        &&& run.job == order[k]
        &&& run.duration == p[run.job]
        &&& run.duration >= 0
        &&& lo <= r[run.job] <= run.start
        &&& run.end() <= hi + total_work(p)
    } by {
        assert(runs[k].job == order[k]);
        assert(0 <= order[k] < p.len());
        lemma_finish_horizon(order, p, r, hi, k + 1);
        lemma_span_work_bound(order, p, r, 0, k + 1);
        assert(runs[k].end() == finish_from(0, order, p, r, k + 1));
    }
}

} // verus!
