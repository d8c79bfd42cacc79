//! The mathematical model of Schrage's list-scheduling rule: which job the
//! machine takes next, and the job order that results.

use vstd::prelude::*;

use crate::schedule::{finish_from, start_from};

verus! {

/// Job `j` is taken before job `k` when both are ready: the earlier due time
/// wins, then the longer processing time, then the smaller index.
pub open spec fn precedes(p: Seq<int>, d: Seq<int>, j: int, k: int) -> bool {
    d[j] < d[k] || (d[j] == d[k] && (p[j] > p[k] || (p[j] == p[k] && j <= k)))
}

/// Job `j` has not been scheduled yet.
pub open spec fn pending(done: Seq<bool>, j: int) -> bool {
    0 <= j < done.len() && !done[j]
}

/// Job `j` has not been scheduled yet and is released by time `clock`.
pub open spec fn ready(r: Seq<int>, done: Seq<bool>, clock: int, j: int) -> bool {
    pending(done, j) && r[j] <= clock
}

/// The number of jobs not yet scheduled.
pub open spec fn remaining(done: Seq<bool>) -> nat
    decreases done.len(),
{
    if done.len() == 0 {
        0
    } else {
        remaining(done.drop_last()) + (if done.last() { 0nat } else { 1nat })
    }
}

/// The earliest release time among the pending jobs with an index below `k`.
pub open spec fn earliest_release(r: Seq<int>, done: Seq<bool>, k: int) -> Option<int>
    decreases k,
{
    if k <= 0 {
        None
    } else {
        let rest = earliest_release(r, done, k - 1);
        if !pending(done, k - 1) || (rest is Some && rest->0 <= r[k - 1]) {
            rest
        } else {
            Some(r[k - 1])
        }
    }
}

/// Among the ready jobs with an index below `k`, the one that precedes all
/// the others.
pub open spec fn first_choice(p: Seq<int>, r: Seq<int>, d: Seq<int>, done: Seq<bool>, clock: int, k: int) -> Option<int>
    decreases k,
{
    if k <= 0 {
        None
    } else {
        let rest = first_choice(p, r, d, done, clock, k - 1);
        if !ready(r, done, clock, k - 1) || (rest is Some && precedes(p, d, rest->0, k - 1)) {
            rest
        } else {
            Some(k - 1)
        }
    }
}

/// The time at which the machine takes its next job: the clock, or the
/// earliest pending release where nothing is ready before it.
pub open spec fn next_start(r: Seq<int>, done: Seq<bool>, clock: int) -> int {
    let first = earliest_release(r, done, done.len() as int);
    if first is Some && first->0 > clock { first->0 } else { clock }
}

/// The order in which Schrage's rule runs the pending jobs from time `clock`
/// on: whenever the machine is free it takes, among the jobs released by
/// then, the one that precedes the others; where none is released it waits
/// for the earliest release.
pub open spec fn schrage_from(p: Seq<int>, r: Seq<int>, d: Seq<int>, done: Seq<bool>, clock: int) -> Seq<int>
    decreases remaining(done),
    via schrage_from_decreases
{
    let now = next_start(r, done, clock);
    let choice = first_choice(p, r, d, done, now, done.len() as int);
    if choice is Some {
        seq![choice->0] + schrage_from(p, r, d, done.update(choice->0, true), now + p[choice->0])
    } else {
        Seq::empty()
    }
}

#[via_fn]
proof fn schrage_from_decreases(p: Seq<int>, r: Seq<int>, d: Seq<int>, done: Seq<bool>, clock: int) {
    let now = next_start(r, done, clock);
    let choice = first_choice(p, r, d, done, now, done.len() as int);
    if choice is Some {
        lemma_first_choice(p, r, d, done, now, done.len() as int);
        lemma_remaining_update(done, choice->0);
    }
}

/// The order in which Schrage's rule runs all jobs, starting at time zero.
pub open spec fn schrage_order(p: Seq<int>, r: Seq<int>, d: Seq<int>) -> Seq<int> {
    schrage_from(p, r, d, Seq::new(p.len(), |j: int| false), 0)
}

/// What `first_choice` returns: nothing exactly when no job below `k` is
/// ready, else a ready job that precedes every ready job below `k`.
pub proof fn lemma_first_choice(p: Seq<int>, r: Seq<int>, d: Seq<int>, done: Seq<bool>, clock: int, k: int)
    requires
        0 <= k <= done.len(),
    ensures
        first_choice(p, r, d, done, clock, k) is None ==> forall|j: int| 0 <= j < k ==> !ready(r, done, clock, j),
        first_choice(p, r, d, done, clock, k) is Some ==> {
            let c = first_choice(p, r, d, done, clock, k)->0;
            &&& 0 <= c < k
            &&& ready(r, done, clock, c)
            &&& forall|j: int| 0 <= j < k && ready(r, done, clock, j) ==> precedes(p, d, c, j)
        },
    decreases k,
{
    if k > 0 {
        lemma_first_choice(p, r, d, done, clock, k - 1);
    }
}

/// What `earliest_release` returns: nothing exactly when no job below `k` is
/// pending, else the release time of a pending job that no pending job below
/// `k` undercuts.
pub proof fn lemma_earliest_release(r: Seq<int>, done: Seq<bool>, k: int)
    requires
        0 <= k <= done.len(),
    ensures
        earliest_release(r, done, k) is None ==> forall|j: int| 0 <= j < k ==> !pending(done, j),
        earliest_release(r, done, k) is Some ==> {
            let m = earliest_release(r, done, k)->0;
            &&& exists|j: int| 0 <= j < k && pending(done, j) && r[j] == m
            &&& forall|j: int| 0 <= j < k && pending(done, j) ==> m <= r[j]
        },
    decreases k,
{
    if k > 0 {
        lemma_earliest_release(r, done, k - 1);
        let rest = earliest_release(r, done, k - 1);
        if !pending(done, k - 1) || (rest is Some && rest->0 <= r[k - 1]) {
            if rest is Some {
                let w = choose|j: int| 0 <= j < k - 1 && pending(done, j) && r[j] == rest->0;
                assert(0 <= w < k && pending(done, w) && r[w] == rest->0);
            }
        } else {
            assert(0 <= k - 1 < k && pending(done, k - 1) && r[k - 1] == r[k - 1]);
        }
    }
}

/// Scheduling a pending job leaves one job fewer to schedule.
pub proof fn lemma_remaining_update(done: Seq<bool>, j: int)
    requires
        pending(done, j),
    ensures
        remaining(done.update(j, true)) + 1 == remaining(done),
    decreases done.len(),
{
    let after = done.update(j, true);
    if j == done.len() - 1 {
        assert(after.drop_last() =~= done.drop_last());
    } else {
        lemma_remaining_update(done.drop_last(), j);
        assert(after.drop_last() =~= done.drop_last().update(j, true));
    }
}

/// While a job is pending, the count of pending jobs is positive; it never
/// exceeds the number of jobs.
pub proof fn lemma_remaining_bounds(done: Seq<bool>)
    ensures
        remaining(done) <= done.len(),
        remaining(done) == 0 <==> forall|j: int| 0 <= j < done.len() ==> done[j],
        remaining(done) == done.len() <==> forall|j: int| 0 <= j < done.len() ==> !done[j],
    decreases done.len(),
{
    if done.len() > 0 {
        let front = done.drop_last();
        lemma_remaining_bounds(front);
        assert forall|j: int| 0 <= j < front.len() implies front[j] == done[j] by {}
        if remaining(done) == 0 {
            assert forall|j: int| 0 <= j < done.len() implies done[j] by {
                if j < front.len() {
                    assert(front[j]);
                }
            }
        }
        if forall|j: int| 0 <= j < done.len() ==> done[j] {
            assert forall|j: int| 0 <= j < front.len() implies front[j] by {
                assert(done[j]);
            }
        }
        if remaining(done) == done.len() {
            assert forall|j: int| 0 <= j < done.len() implies !done[j] by {
                if j < front.len() {
                    assert(!front[j]);
                }
            }
        }
        if forall|j: int| 0 <= j < done.len() ==> !done[j] {
            assert forall|j: int| 0 <= j < front.len() implies !front[j] by {
                assert(!done[j]);
            }
        }
    }
}

/// The total processing time of the jobs with an index below `k`.
pub open spec fn work_below(p: Seq<int>, k: int) -> int
    decreases k,
{
    if k <= 0 {
        0
    } else {
        work_below(p, k - 1) + p[k - 1]
    }
}

/// The total processing time of all jobs.
pub open spec fn total_work(p: Seq<int>) -> int {
    work_below(p, p.len() as int)
}

/// The total processing time of the scheduled jobs with an index below `k`.
pub open spec fn done_work(p: Seq<int>, done: Seq<bool>, k: int) -> int
    decreases k,
{
    if k <= 0 {
        0
    } else {
        done_work(p, done, k - 1) + (if done[k - 1] { p[k - 1] } else { 0 })
    }
}

/// The instance is one that the machine's integers can schedule: the three
/// arrays describe the same jobs, no processing time is negative, and the
/// whole work, begun at time zero or at any release time, ends within the
/// range of the time type.
pub open spec fn schedulable(p: Seq<int>, r: Seq<int>, d: Seq<int>) -> bool {
    &&& p.len() == r.len()
    &&& p.len() == d.len()
    &&& forall|j: int| 0 <= j < p.len() ==> #[trigger] p[j] >= 0
    &&& total_work(p) <= isize::MAX
    &&& forall|j: int| 0 <= j < r.len() ==> isize::MIN <= #[trigger] r[j] && r[j] + total_work(p) <= isize::MAX
}

/// The work done so far is no more than the whole work.
pub proof fn lemma_done_work_bound(p: Seq<int>, done: Seq<bool>, k: int)
    requires
        0 <= k <= p.len(),
        forall|j: int| 0 <= j < p.len() ==> #[trigger] p[j] >= 0,
    ensures
        0 <= done_work(p, done, k) <= work_below(p, k),
        work_below(p, k) <= total_work(p),
    decreases p.len() - k,
{
    lemma_done_work_prefix(p, done, k);
    if k < p.len() {
        lemma_done_work_bound(p, done, k + 1);
        assert(p[k] >= 0);
    }
}

proof fn lemma_done_work_prefix(p: Seq<int>, done: Seq<bool>, k: int)
    requires
        0 <= k <= p.len(),
        forall|j: int| 0 <= j < p.len() ==> #[trigger] p[j] >= 0,
    ensures
        0 <= done_work(p, done, k) <= work_below(p, k),
    decreases k,
{
    if k > 0 {
        lemma_done_work_prefix(p, done, k - 1);
        assert(p[k - 1] >= 0);
    }
}

/// Where no job is scheduled, no work is done.
pub proof fn lemma_no_work(p: Seq<int>, done: Seq<bool>, k: int)
    requires
        0 <= k <= done.len(),
        forall|j: int| 0 <= j < done.len() ==> !done[j],
    ensures
        done_work(p, done, k) == 0,
    decreases k,
{
    if k > 0 {
        lemma_no_work(p, done, k - 1);
    }
}

/// Scheduling a pending job adds its processing time to the work done.
pub proof fn lemma_done_work_update(p: Seq<int>, done: Seq<bool>, j: int, k: int)
    requires
        pending(done, j),
        0 <= k <= done.len(),
    ensures
        done_work(p, done.update(j, true), k) == done_work(p, done, k) + (if j < k { p[j] } else { 0 }),
    decreases k,
{
    if k > 0 {
        lemma_done_work_update(p, done, j, k - 1);
    }
}

/// A single processing time is no more than the whole work.
pub proof fn lemma_work_covers(p: Seq<int>, j: int, k: int)
    requires
        0 <= j < k <= p.len(),
        forall|i: int| 0 <= i < p.len() ==> #[trigger] p[i] >= 0,
    ensures
        p[j] <= work_below(p, k),
        work_below(p, k) >= 0,
    decreases k,
{
    if j < k - 1 {
        lemma_work_covers(p, j, k - 1);
        assert(p[k - 1] >= 0);
    } else {
        lemma_work_nonnegative(p, k - 1);
    }
}

/// Work is never negative.
pub proof fn lemma_work_nonnegative(p: Seq<int>, k: int)
    requires
        0 <= k <= p.len(),
        forall|i: int| 0 <= i < p.len() ==> #[trigger] p[i] >= 0,
    ensures
        work_below(p, k) >= 0,
    decreases k,
{
    if k > 0 {
        lemma_work_nonnegative(p, k - 1);
        assert(p[k - 1] >= 0);
    }
}

/// Job `j` occurs in the order.
pub open spec fn occurs(order: Seq<int>, j: int) -> bool {
    exists|k: int| 0 <= k < order.len() && #[trigger] order[k] == j
}

/// The order lists each of the `n` jobs exactly once.
pub open spec fn is_permutation(order: Seq<int>, n: int) -> bool {
    &&& order.len() == n
    &&& forall|k: int| 0 <= k < order.len() ==> 0 <= #[trigger] order[k] < n
    &&& forall|k: int, l: int| 0 <= k < l < order.len() ==> #[trigger] order[k] != #[trigger] order[l]
    &&& forall|j: int| 0 <= j < n ==> #[trigger] occurs(order, j)
}

/// When a job of the order starts, it precedes every later job of the order
/// that is released by then: the machine always took the best job at hand.
pub open spec fn takes_best(clock: int, order: Seq<int>, p: Seq<int>, r: Seq<int>, d: Seq<int>) -> bool {
    forall|k: int, l: int|
        0 <= k < l < order.len() ==> r[#[trigger] order[l]] > start_from(clock, order, p, r, k) || precedes(
            p,
            d,
            #[trigger] order[k],
            order[l],
        )
}

/// Running job `j` first and then `rest` finishes as `rest` does on a
/// machine that is free once `j` has run.
pub proof fn lemma_finish_cons(clock: int, j: int, rest: Seq<int>, p: Seq<int>, r: Seq<int>, k: int)
    requires
        0 <= k <= rest.len(),
    ensures
        finish_from(clock, seq![j] + rest, p, r, k + 1) == finish_from(
            (if clock >= r[j] { clock } else { r[j] }) + p[j],
            rest,
            p,
            r,
            k,
        ),
    decreases k,
{
    let all = seq![j] + rest;
    if k > 0 {
        lemma_finish_cons(clock, j, rest, p, r, k - 1);
        assert(all[k] == rest[k - 1]);
    } else {
        assert(all[0] == j);
        assert(finish_from(clock, all, p, r, 0) == clock);
    }
}

/// What Schrage's rule produces from a given state: an order of exactly the
/// pending jobs, each once, in which the machine always took the best job
/// at hand.
pub proof fn lemma_schrage_from(p: Seq<int>, r: Seq<int>, d: Seq<int>, done: Seq<bool>, clock: int)
    requires
        p.len() == done.len(),
        r.len() == done.len(),
        d.len() == done.len(),
    ensures
        schrage_from(p, r, d, done, clock).len() == remaining(done),
        forall|k: int|
            0 <= k < schrage_from(p, r, d, done, clock).len() ==> pending(
                done,
                #[trigger] schrage_from(p, r, d, done, clock)[k],
            ),
        forall|k: int, l: int|
            0 <= k < l < schrage_from(p, r, d, done, clock).len() ==> #[trigger] schrage_from(p, r, d, done, clock)[k]
                != #[trigger] schrage_from(p, r, d, done, clock)[l],
        forall|j: int|
            pending(done, j) ==> exists|k: int|
                0 <= k < schrage_from(p, r, d, done, clock).len() && #[trigger] schrage_from(p, r, d, done, clock)[k]
                    == j,
        takes_best(clock, schrage_from(p, r, d, done, clock), p, r, d),
    decreases remaining(done),
{
    let n = done.len() as int;
    let s = schrage_from(p, r, d, done, clock);
    let now = next_start(r, done, clock);
    let choice = first_choice(p, r, d, done, now, n);
    lemma_earliest_release(r, done, n);
    lemma_first_choice(p, r, d, done, now, n);
    lemma_remaining_bounds(done);
    if choice is Some {
        let j = choice->0;
        let after = done.update(j, true);
        let rest = schrage_from(p, r, d, after, now + p[j]);
        lemma_remaining_update(done, j);
        lemma_schrage_from(p, r, d, after, now + p[j]);
        assert(s =~= seq![j] + rest);
        assert(s[0] == j);
        assert forall|k: int| 0 <= k < s.len() implies pending(done, #[trigger] s[k]) by {
            if k > 0 {
                assert(s[k] == rest[k - 1]);
                assert(pending(after, rest[k - 1]));
            }
        }
        assert forall|k: int, l: int| 0 <= k < l < s.len() implies #[trigger] s[k] != #[trigger] s[l] by {
            assert(s[l] == rest[l - 1]);
            assert(pending(after, rest[l - 1]));
            if k > 0 {
                assert(s[k] == rest[k - 1]);
            }
        }
        assert forall|i: int| pending(done, i) implies exists|k: int| 0 <= k < s.len() && #[trigger] s[k] == i by {
            if i == j {
                assert(s[0] == i);
            } else {
                assert(pending(after, i));
                let w = choose|k: int| 0 <= k < rest.len() && #[trigger] rest[k] == i;
                assert(s[w + 1] == i);
            }
        }
        // the first job starts at `now`
        let first = earliest_release(r, done, n);
        assert(first is Some);
        assert(first->0 <= r[j]);
        assert(start_from(clock, s, p, r, 0) == now);
        assert forall|k: int, l: int| 0 <= k < l < s.len() implies r[#[trigger] s[l]] > start_from(clock, s, p, r, k)
            || precedes(p, d, #[trigger] s[k], s[l]) by {
            assert(s[l] == rest[l - 1]);
            assert(pending(after, rest[l - 1]));
            if k == 0 {
                if r[s[l]] <= now {
                    assert(ready(r, done, now, s[l]));
                }
            } else {
                assert(s[k] == rest[k - 1]);
                lemma_finish_cons(clock, j, rest, p, r, k - 1);
                assert(start_from(clock, s, p, r, k) == start_from(now + p[j], rest, p, r, k - 1));
            }
        }
    } else {
        assert(s =~= Seq::<int>::empty());
        if remaining(done) > 0 {
            let u = choose|i: int| 0 <= i < done.len() && !done[i];
            assert(pending(done, u));
            let first = earliest_release(r, done, n);
            let w = choose|i: int| 0 <= i < n && pending(done, i) && r[i] == first->0;
            assert(ready(r, done, now, w));
            assert(false);
        }
        assert forall|i: int| pending(done, i) implies exists|k: int| 0 <= k < s.len() && #[trigger] s[k] == i by {
            assert(!done[i]);
            assert(false);
        }
    }
}

/// Schrage's rule schedules every job exactly once, and always takes the
/// best job at hand.
pub proof fn lemma_schrage_order(p: Seq<int>, r: Seq<int>, d: Seq<int>)
    requires
        p.len() == r.len(),
        p.len() == d.len(),
    ensures
        is_permutation(schrage_order(p, r, d), p.len() as int),
        takes_best(0, schrage_order(p, r, d), p, r, d),
{
    let done = Seq::new(p.len(), |j: int| false);
    lemma_schrage_from(p, r, d, done, 0);
    lemma_remaining_bounds(done);
    let s = schrage_order(p, r, d);
    assert forall|k: int| 0 <= k < s.len() implies 0 <= #[trigger] s[k] < p.len() by {
        assert(pending(done, s[k]));
    }
    assert forall|j: int| 0 <= j < p.len() implies #[trigger] occurs(s, j) by {
        assert(pending(done, j));
    }
}

/// The machine never stands idle while a job of the order is released:
/// where a job starts later than the machine was free, no job from there on
/// is released before that start.
pub open spec fn never_idles(clock: int, order: Seq<int>, p: Seq<int>, r: Seq<int>) -> bool {
    forall|k: int, l: int|
        0 <= k <= l < order.len() && start_from(clock, order, p, r, k) > finish_from(clock, order, p, r, k) ==> r[
            #[trigger] order[l]] >= #[trigger] start_from(clock, order, p, r, k)
}

/// Schrage's rule never lets the machine stand idle while a pending job is
/// released.
pub proof fn lemma_schrage_from_busy(p: Seq<int>, r: Seq<int>, d: Seq<int>, done: Seq<bool>, clock: int)
    requires
        p.len() == done.len(),
        r.len() == done.len(),
        d.len() == done.len(),
    ensures
        never_idles(clock, schrage_from(p, r, d, done, clock), p, r),
    decreases remaining(done),
{
    let n = done.len() as int;
    let s = schrage_from(p, r, d, done, clock);
    let now = next_start(r, done, clock);
    let choice = first_choice(p, r, d, done, now, n);
    lemma_earliest_release(r, done, n);
    lemma_first_choice(p, r, d, done, now, n);
    if choice is Some {
        let j = choice->0;
        let after = done.update(j, true);
        let rest = schrage_from(p, r, d, after, now + p[j]);
        lemma_remaining_update(done, j);
        lemma_schrage_from_busy(p, r, d, after, now + p[j]);
        lemma_schrage_from(p, r, d, done, clock);
        lemma_schrage_from(p, r, d, after, now + p[j]);
        assert(s =~= seq![j] + rest);
        assert(s[0] == j);
        let first = earliest_release(r, done, n);
        assert(first is Some);
        assert(first->0 <= r[j]);
        assert(start_from(clock, s, p, r, 0) == now);
        assert forall|k: int, l: int|
            0 <= k <= l < s.len() && start_from(clock, s, p, r, k) > finish_from(clock, s, p, r, k) implies r[
            #[trigger] s[l]] >= #[trigger] start_from(clock, s, p, r, k) by {
            if k == 0 {
                assert(pending(done, s[l]));
                assert(now > clock);
                assert(first->0 <= r[s[l]]);
            } else {
                assert(s[l] == rest[l - 1]);
                assert(s[k] == rest[k - 1]);
                lemma_finish_cons(clock, j, rest, p, r, k - 1);
                assert(start_from(clock, s, p, r, k) == start_from(now + p[j], rest, p, r, k - 1));
                assert(finish_from(clock, s, p, r, k) == finish_from(now + p[j], rest, p, r, k - 1));
                assert(r[rest[l - 1]] >= start_from(now + p[j], rest, p, r, k - 1));
            }
        }
    } else {
        assert(s =~= Seq::<int>::empty());
    }
}

/// Schrage's rule never lets the machine stand idle while a job is released.
pub proof fn lemma_schrage_busy(p: Seq<int>, r: Seq<int>, d: Seq<int>)
    requires
        p.len() == r.len(),
        p.len() == d.len(),
    ensures
        never_idles(0, schrage_order(p, r, d), p, r),
{
    lemma_schrage_from_busy(p, r, d, Seq::new(p.len(), |j: int| false), 0);
}

} // verus!
