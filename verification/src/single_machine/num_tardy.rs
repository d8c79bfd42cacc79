//! Scheduling on a single machine so that as few jobs as possible are late.

use vstd::prelude::*;

use crate::schedule::{
    finish_from, ids, ints, jobs_in_range, lemma_list_schedule_valid, list_schedule, nonnegative,
    num_tardy_of, runs_each_job_once, well_ordered, zero_times, MachineSchedule, Run,
};
use crate::single_machine::lower_bound::starts_after_zero;
use crate::selection::{ascending, key_before, lemma_ascending, sorted_jobs};
use crate::single_machine::carlier_model::{lemma_finish_horizon, lemma_span_work_bound};
use crate::single_machine::schrage_model::{
    done_work, is_permutation, lemma_done_work_bound, lemma_done_work_update, lemma_no_work,
    lemma_remaining_bounds, lemma_remaining_update, occurs, pending, remaining, total_work,
};
use crate::{Job, Time};

verus! {

/// Among the jobs with an index below `k` that are kept, the one with the
/// longest processing time; of several, the one with the largest index.
pub open spec fn longest(p: Seq<int>, kept: Seq<bool>, k: int) -> Option<int>
    decreases k,
{
    if k <= 0 {
        None
    } else {
        let rest = longest(p, kept, k - 1);
        if kept[k - 1] && (rest is None || p[k - 1] >= p[rest->0]) {
            Some(k - 1)
        } else {
            rest
        }
    }
}

/// The state of Hodgson's algorithm: which jobs are kept on time, which
/// have been given up as late (in the order in which they were given up),
/// and the total processing time of the kept jobs.
pub struct Selection {
    pub kept: Seq<bool>,
    pub late: Seq<int>,
    pub duration: int,
}

/// The state after the first `k` jobs of `order` have been looked at: each
/// job is kept at first; if the kept jobs then take longer than the job's
/// due time allows, the longest kept job is given up.
pub open spec fn hodgson_state(p: Seq<int>, d: Seq<int>, order: Seq<int>, k: int) -> Selection
    decreases k,
{
    if k <= 0 {
        Selection { kept: Seq::new(p.len(), |j: int| false), late: Seq::empty(), duration: 0 }
    } else {
        let before = hodgson_state(p, d, order, k - 1);
        let j = order[k - 1];
        let kept = before.kept.update(j, true);
        let duration = before.duration + p[j];
        if duration > d[j] {
            let x = longest(p, kept, p.len() as int)->0;
            Selection { kept: kept.update(x, false), late: before.late.push(x), duration: duration - p[x] }
        } else {
            Selection { kept, late: before.late, duration }
        }
    }
}

/// The flags turned round.
pub open spec fn complement(flags: Seq<bool>) -> Seq<bool> {
    Seq::new(flags.len(), |j: int| !flags[j])
}

/// The jobs in the order of their due times, those due at the same time in
/// the order of their indices.
pub open spec fn due_order(d: Seq<int>) -> Seq<int> {
    ascending(d, Seq::new(d.len(), |j: int| false))
}

/// The order of Hodgson's algorithm: the jobs are looked at in the order of
/// their due times; the jobs that are kept come first, in that order, and
/// the jobs given up follow, the one given up last first.
pub open spec fn hodgson_order(p: Seq<int>, d: Seq<int>) -> Seq<int> {
    let end = hodgson_state(p, d, due_order(d), p.len() as int);
    ascending(d, complement(end.kept)) + end.late.reverse()
}

/// What `longest` returns: nothing exactly when no job below `k` is kept,
/// else a kept job that no kept job below `k` outlasts.
pub proof fn lemma_longest(p: Seq<int>, kept: Seq<bool>, k: int)
    requires
        0 <= k <= kept.len(),
    ensures
        longest(p, kept, k) is None ==> forall|j: int| 0 <= j < k ==> !kept[j],
        longest(p, kept, k) is Some ==> {
            let x = longest(p, kept, k)->0;
            &&& 0 <= x < k
            &&& kept[x]
            &&& forall|j: int| 0 <= j < k && kept[j] ==> p[j] <= p[x]
        },
    decreases k,
{
    if k > 0 {
        lemma_longest(p, kept, k - 1);
    }
}

/// Unmarking a marked job leaves one more job unmarked.
pub proof fn lemma_remaining_clear(done: Seq<bool>, j: int)
    requires
        0 <= j < done.len(),
        done[j],
    ensures
        remaining(done.update(j, false)) == remaining(done) + 1,
{
    let after = done.update(j, false);
    assert(pending(after, j));
    lemma_remaining_update(after, j);
    assert(after.update(j, true) =~= done);
}

/// Job `x` is among the first `k` jobs of the order.
pub open spec fn seen(order: Seq<int>, k: int, x: int) -> bool {
    exists|a: int| 0 <= a < k && #[trigger] order[a] == x
}

/// What holds of the state after `k` jobs: every job looked at is either
/// kept or given up, never both and only once, no other job is either, and
/// the duration is the total processing time of the kept jobs.
pub open spec fn consistent(p: Seq<int>, order: Seq<int>, k: int, s: Selection) -> bool {
    &&& s.kept.len() == p.len()
    &&& forall|x: int| 0 <= x < p.len() && #[trigger] s.kept[x] ==> seen(order, k, x)
    &&& forall|a: int| 0 <= a < s.late.len() ==> 0 <= #[trigger] s.late[a] < p.len() && !s.kept[s.late[a]] && seen(order, k, s.late[a])
    &&& forall|a: int, b: int| 0 <= a < b < s.late.len() ==> #[trigger] s.late[a] != #[trigger] s.late[b]
    &&& forall|a: int| 0 <= a < k ==> s.kept[#[trigger] order[a]] || s.late.contains(order[a])
    &&& s.duration == done_work(p, s.kept, p.len() as int)
    &&& remaining(complement(s.kept)) + s.late.len() == k
}

/// Every state of Hodgson's algorithm is consistent.
pub proof fn lemma_hodgson_state(p: Seq<int>, d: Seq<int>, order: Seq<int>, k: int)
    requires
        is_permutation(order, p.len() as int),
        0 <= k <= p.len(),
    ensures
        consistent(p, order, k, hodgson_state(p, d, order, k)),
    decreases k,
{
    let n = p.len() as int;
    let s = hodgson_state(p, d, order, k);
    if k <= 0 {
        lemma_no_work(p, s.kept, n);
        lemma_remaining_bounds(complement(s.kept));
    } else {
        lemma_hodgson_state(p, d, order, k - 1);
        let before = hodgson_state(p, d, order, k - 1);
        let j = order[k - 1];
        let kept = before.kept.update(j, true);
        let duration = before.duration + p[j];
        assert(!before.kept[j]) by {
            if before.kept[j] {
                let a = choose|a: int| 0 <= a < k - 1 && #[trigger] order[a] == j;
                assert(order[a] != order[k - 1]);
            }
        }
        assert(pending(before.kept, j));
        lemma_done_work_update(p, before.kept, j, n);
        assert(complement(kept) =~= complement(before.kept).update(j, false));
        lemma_remaining_clear(complement(before.kept), j);
        assert forall|x: int| seen(order, k - 1, x) implies seen(order, k, x) by {
            let a = choose|a: int| 0 <= a < k - 1 && #[trigger] order[a] == x;
            assert(0 <= a < k && order[a] == x);
        }
        assert(seen(order, k, j)) by {
            assert(order[k - 1] == j);
        }
        if duration > d[j] {
            lemma_longest(p, kept, n);
            let x = longest(p, kept, n)->0;
            assert(kept[j]);
            assert(pending(kept.update(x, false), x));
            lemma_done_work_update(p, kept.update(x, false), x, n);
            assert(kept.update(x, false).update(x, true) =~= kept);
            assert(complement(s.kept) =~= complement(kept).update(x, true));
            assert(pending(complement(kept), x));
            lemma_remaining_update(complement(kept), x);
            assert(!before.late.contains(x)) by {
                if before.late.contains(x) {
                    let a = choose|a: int| 0 <= a < before.late.len() && before.late[a] == x;
                    assert(!before.kept[before.late[a]]);
                    assert(seen(order, k - 1, before.late[a]));
                    if x == j {
                        let b = choose|b: int| 0 <= b < k - 1 && #[trigger] order[b] == j;
                        assert(order[b] != order[k - 1]);
                    }
                }
            }
            assert forall|a: int| 0 <= a < s.late.len() implies 0 <= #[trigger] s.late[a] < p.len() && !s.kept[s.late[a]]
                && seen(order, k, s.late[a]) by {
                if a < before.late.len() {
                    assert(s.late[a] == before.late[a]);
                    assert(seen(order, k - 1, before.late[a]));
                    assert(!before.kept[before.late[a]]);
                    if before.late[a] == j {
                        let b = choose|b: int| 0 <= b < k - 1 && #[trigger] order[b] == j;
                        assert(order[b] != order[k - 1]);
                    }
                } else {
                    assert(s.late[a] == x);
                    if x != j {
                        assert(before.kept[x]);
                    }
                }
            }
            assert forall|a: int, b: int| 0 <= a < b < s.late.len() implies #[trigger] s.late[a] != #[trigger] s.late[b] by {
                assert(s.late[a] == before.late[a]);
                if b < before.late.len() {
                    assert(s.late[b] == before.late[b]);
                } else {
                    assert(before.late.contains(before.late[a]));
                }
            }
            assert forall|a: int| 0 <= a < k implies s.kept[#[trigger] order[a]] || s.late.contains(order[a]) by {
                if order[a] == x {
                    assert(s.late[s.late.len() - 1] == x);
                } else if a < k - 1 {
                    if !before.kept[order[a]] {
                        let b = choose|b: int| 0 <= b < before.late.len() && before.late[b] == order[a];
                        assert(s.late[b] == order[a]);
                    }
                }
            }
            assert forall|y: int| 0 <= y < p.len() && #[trigger] s.kept[y] implies seen(order, k, y) by {
                if y != j {
                    assert(before.kept[y]);
                }
            }
        } else {
            assert forall|a: int| 0 <= a < s.late.len() implies 0 <= #[trigger] s.late[a] < p.len() && !s.kept[s.late[a]]
                && seen(order, k, s.late[a]) by {
                assert(seen(order, k - 1, before.late[a]));
                assert(!before.kept[before.late[a]]);
                if before.late[a] == j {
                    let b = choose|b: int| 0 <= b < k - 1 && #[trigger] order[b] == j;
                    assert(order[b] != order[k - 1]);
                }
            }
            assert forall|y: int| 0 <= y < p.len() && #[trigger] s.kept[y] implies seen(order, k, y) by {
                if y != j {
                    assert(before.kept[y]);
                }
            }
            assert forall|a: int| 0 <= a < k implies s.kept[#[trigger] order[a]] || s.late.contains(order[a]) by {
                if a < k - 1 {
                    assert(before.kept[order[a]] || before.late.contains(order[a]));
                }
            }
        }
    }
}

/// The jobs in the order of their due times are each job once.
pub proof fn lemma_due_order(d: Seq<int>)
    ensures
        is_permutation(due_order(d), d.len() as int),
{
    let done = Seq::new(d.len(), |j: int| false);
    let s = due_order(d);
    lemma_ascending(d, done);
    lemma_remaining_bounds(done);
    assert forall|k: int| 0 <= k < s.len() implies 0 <= #[trigger] s[k] < d.len() by {
        assert(pending(done, s[k]));
    }
    assert forall|k: int, l: int| 0 <= k < l < s.len() implies #[trigger] s[k] != #[trigger] s[l] by {
        assert(key_before(d, s[k], s[l]));
    }
    assert forall|j: int| 0 <= j < d.len() implies #[trigger] occurs(s, j) by {
        assert(pending(done, j));
    }
}

/// Hodgson's order runs each job exactly once.
pub proof fn lemma_hodgson_order(p: Seq<int>, d: Seq<int>)
    requires
        p.len() == d.len(),
    ensures
        is_permutation(hodgson_order(p, d), p.len() as int),
{
    let n = p.len() as int;
    let order = due_order(d);
    lemma_due_order(d);
    lemma_hodgson_state(p, d, order, n);
    let end = hodgson_state(p, d, order, n);
    let rest = complement(end.kept);
    let front = ascending(d, rest);
    let back = end.late.reverse();
    let all = hodgson_order(p, d);
    lemma_ascending(d, rest);
    assert(all =~= front + back);
    assert forall|k: int| 0 <= k < all.len() implies 0 <= #[trigger] all[k] < n by {
        if k < front.len() {
            assert(pending(rest, front[k]));
        } else {
            assert(all[k] == end.late[end.late.len() - 1 - (k - front.len())]);
        }
    }
    assert forall|k: int, l: int| 0 <= k < l < all.len() implies #[trigger] all[k] != #[trigger] all[l] by {
        if l < front.len() {
            assert(key_before(d, front[k], front[l]));
        } else if k < front.len() {
            assert(pending(rest, front[k]));
            assert(all[l] == end.late[end.late.len() - 1 - (l - front.len())]);
        } else {
            assert(all[k] == end.late[end.late.len() - 1 - (k - front.len())]);
            assert(all[l] == end.late[end.late.len() - 1 - (l - front.len())]);
        }
    }
    assert forall|j: int| 0 <= j < n implies #[trigger] occurs(all, j) by {
        if end.kept[j] {
            assert(pending(rest, j));
            let k = choose|k: int| 0 <= k < front.len() && #[trigger] front[k] == j;
            assert(all[k] == j);
        } else {
            assert(occurs(order, j));
            let a = choose|a: int| 0 <= a < order.len() && #[trigger] order[a] == j;
            assert(end.kept[order[a]] || end.late.contains(order[a]));
            let b = choose|b: int| 0 <= b < end.late.len() && end.late[b] == j;
            let k = front.len() + (end.late.len() - 1 - b);
            assert(all[k] == back[end.late.len() - 1 - b]);
            assert(all[k] == j);
        }
    }
}

/// The kept jobs that come no later than job `e` in the order of the due
/// times, as flags.
pub open spec fn kept_until(kept: Seq<bool>, d: Seq<int>, e: int) -> Seq<bool> {
    Seq::new(kept.len(), |x: int| kept[x] && (x == e || key_before(d, x, e)))
}

/// Run in the order of their due times, back to back from time zero, the
/// kept jobs are all on time.
pub open spec fn all_on_time(p: Seq<int>, d: Seq<int>, kept: Seq<bool>) -> bool {
    forall|e: int| 0 <= e < kept.len() && #[trigger] kept[e] ==> done_work(p, kept_until(kept, d, e), p.len() as int) <= d[e]
}

/// Fewer flags make less work.
pub proof fn lemma_done_work_subset(p: Seq<int>, fewer: Seq<bool>, more: Seq<bool>, k: int)
    requires
        0 <= k <= p.len(),
        fewer.len() == p.len(),
        more.len() == p.len(),
        nonnegative(p),
        forall|j: int| 0 <= j < p.len() && fewer[j] ==> more[j],
    ensures
        done_work(p, fewer, k) <= done_work(p, more, k),
    decreases k,
{
    if k > 0 {
        lemma_done_work_subset(p, fewer, more, k - 1);
        assert(p[k - 1] >= 0);
    }
}

/// In every state of Hodgson's algorithm the kept jobs are all on time,
/// and if there are any, they end together by the due time of one of them.
pub proof fn lemma_hodgson_on_time(p: Seq<int>, d: Seq<int>, k: int)
    requires
        p.len() == d.len(),
        nonnegative(p),
        0 <= k <= p.len(),
    ensures
        all_on_time(p, d, hodgson_state(p, d, due_order(d), k).kept),
        (exists|x: int| 0 <= x < p.len() && hodgson_state(p, d, due_order(d), k).kept[x]) ==> exists|m: int|
            0 <= m < p.len() && #[trigger] hodgson_state(p, d, due_order(d), k).kept[m] && hodgson_state(
                p,
                d,
                due_order(d),
                k,
            ).duration <= d[m] && seen(due_order(d), k, m),
    decreases k,
{
    let n = p.len() as int;
    let order = due_order(d);
    lemma_due_order(d);
    lemma_hodgson_state(p, d, order, k);
    let s = hodgson_state(p, d, order, k);
    if k > 0 {
        lemma_hodgson_on_time(p, d, k - 1);
        lemma_hodgson_state(p, d, order, k - 1);
        let before = hodgson_state(p, d, order, k - 1);
        let j = order[k - 1];
        let kept1 = before.kept.update(j, true);
        let duration1 = before.duration + p[j];
        assert(seen(order, k, j)) by {
            assert(order[k - 1] == j);
        }
        // every job looked at before comes before `j` in the order of the due times
        assert forall|x: int| 0 <= x < n && before.kept[x] implies key_before(d, x, j) && x != j by {
            assert(seen(order, k - 1, x));
            let a = choose|a: int| 0 <= a < k - 1 && #[trigger] order[a] == x;
            lemma_ascending(d, Seq::new(d.len(), |i: int| false));
            assert(key_before(d, order[a], order[k - 1]));
        }
        assert(pending(before.kept, j));
        lemma_done_work_update(p, before.kept, j, n);
        assert(done_work(p, kept1, n) == duration1);
        assert(kept_until(kept1, d, j) =~= kept1);
        assert forall|e: int| 0 <= e < n && before.kept[e] implies kept_until(kept1, d, e) =~= kept_until(
            before.kept,
            d,
            e,
        ) by {
            assert(key_before(d, e, j));
        }
        if duration1 > d[j] {
            lemma_longest(p, kept1, n);
            let x = longest(p, kept1, n)->0;
            assert(kept1[j]);
            assert(s.kept == kept1.update(x, false));
            assert(pending(s.kept, x));
            lemma_done_work_update(p, s.kept, x, n);
            assert(s.kept.update(x, true) =~= kept1);
            assert(s.duration == done_work(p, s.kept, n));
            assert forall|e: int| 0 <= e < n && #[trigger] s.kept[e] implies done_work(p, kept_until(s.kept, d, e), n)
                <= d[e] by {
                if e == j {
                    assert(kept_until(s.kept, d, j) =~= s.kept);
                    assert(p[j] <= p[x]);
                    assert(before.kept[x]);
                    let m = choose|m: int|
                        0 <= m < p.len() && #[trigger] before.kept[m] && before.duration <= d[m] && seen(order, k - 1, m);
                    assert(key_before(d, m, j));
                } else {
                    assert(before.kept[e]);
                    lemma_done_work_subset(p, kept_until(s.kept, d, e), kept_until(before.kept, d, e), n);
                }
            }
            if exists|y: int| 0 <= y < p.len() && s.kept[y] {
                if x == j {
                    assert(s.kept =~= before.kept);
                    let m = choose|m: int|
                        0 <= m < p.len() && #[trigger] before.kept[m] && before.duration <= d[m] && seen(order, k - 1, m);
                    assert(seen(order, k, m)) by {
                        let a = choose|a: int| 0 <= a < k - 1 && #[trigger] order[a] == m;
                        assert(0 <= a < k && order[a] == m);
                    }
                    assert(s.kept[m] && s.duration <= d[m]);
                } else {
                    assert(before.kept[x]);
                    let m = choose|m: int|
                        0 <= m < p.len() && #[trigger] before.kept[m] && before.duration <= d[m] && seen(order, k - 1, m);
                    assert(key_before(d, m, j));
                    assert(p[j] <= p[x]);
                    assert(s.kept[j] && s.duration <= d[j]);
                }
            }
        } else {
            assert(s.kept == kept1);
            assert forall|e: int| 0 <= e < n && #[trigger] s.kept[e] implies done_work(p, kept_until(s.kept, d, e), n)
                <= d[e] by {
                if e != j {
                    assert(before.kept[e]);
                }
            }
            assert(s.kept[j] && s.duration <= d[j]);
        }
    } else {
        assert forall|e: int| 0 <= e < n implies !s.kept[e] by {}
    }
}

/// Back to back from time zero, the machine is busy for the work of the
/// runs.
pub proof fn lemma_finish_is_work(order: Seq<int>, p: Seq<int>, k: int)
    requires
        jobs_in_range(order, p.len() as int),
        nonnegative(p),
        0 <= k <= order.len(),
    ensures
        finish_from(0, order, p, zero_times(p.len()), k) == crate::single_machine::critical_model::span_work(
            list_schedule(order, p, zero_times(p.len())),
            0,
            k,
        ),
        finish_from(0, order, p, zero_times(p.len()), k) >= 0,
    decreases k,
{
    if k > 0 {
        lemma_finish_is_work(order, p, k - 1);
        let j = order[k - 1];
        assert(0 <= j < p.len());
        assert(p[j] >= 0);
        assert(list_schedule(order, p, zero_times(p.len()))[k - 1].duration == p[j]);
    }
}

/// The jobs that Hodgson's algorithm keeps are on time in its schedule:
/// none of the runs before those of the jobs given up ends after its job's
/// due time.
pub proof fn lemma_hodgson_keeps_on_time(p: Seq<int>, d: Seq<int>, k: int)
    requires
        p.len() == d.len(),
        nonnegative(p),
        0 <= k < p.len() - hodgson_state(p, d, due_order(d), p.len() as int).late.len(),
    ensures
        k < list_schedule(hodgson_order(p, d), p, zero_times(p.len())).len(),
        list_schedule(hodgson_order(p, d), p, zero_times(p.len()))[k].lateness(d) <= 0,
{
    let n = p.len() as int;
    let order = due_order(d);
    let end = hodgson_state(p, d, order, n);
    let rest = complement(end.kept);
    let front = ascending(d, rest);
    let all = hodgson_order(p, d);
    let zeros = zero_times(p.len());
    let runs = list_schedule(all, p, zeros);
    lemma_due_order(d);
    lemma_hodgson_state(p, d, order, n);
    lemma_hodgson_order(p, d);
    lemma_hodgson_on_time(p, d, n);
    lemma_ascending(d, rest);
    assert(all =~= front + end.late.reverse());
    assert(front.len() == n - end.late.len());
    assert(all[k] == front[k]);
    let e = front[k];
    assert(pending(rest, e));
    assert(end.kept[e]);
    lemma_finish_is_work(all, p, k + 1);
    crate::single_machine::carlier_model::lemma_span_work_picked(all, p, zeros, 0, k + 1);
    let picked = crate::single_machine::carlier_model::picked_below(all, n, 0, k + 1);
    assert(picked =~= kept_until(end.kept, d, e)) by {
        assert forall|x: int| 0 <= x < n implies picked[x] == kept_until(end.kept, d, e)[x] by {
            if picked[x] {
                let i = choose|i: int| 0 <= i < k + 1 && #[trigger] all[i] == x;
                assert(all[i] == front[i]);
                assert(pending(rest, front[i]));
                if i < k {
                    assert(key_before(d, front[i], front[k]));
                }
            }
            if kept_until(end.kept, d, e)[x] {
                if x == e {
                    assert(all[k] == x);
                } else {
                    assert(pending(rest, x));
                    let i = choose|i: int| 0 <= i < front.len() && #[trigger] front[i] == x;
                    if i > k {
                        assert(key_before(d, front[k], front[i]));
                    }
                    assert(all[i] == front[i]);
                }
            }
        }
    }
    assert(runs[k].end() == finish_from(0, all, p, zeros, k + 1));
}

/// The kept job with the longest processing time; of several, the one with
/// the largest index.
fn longest_kept(processing_times: &[Time], kept: &Vec<bool>) -> (result: Option<Job>)
    requires
        processing_times@.len() == kept@.len(),
    ensures
        result is Some <==> longest(ints(processing_times@), kept@, kept@.len() as int) is Some,
        result is Some ==> result->0 == longest(ints(processing_times@), kept@, kept@.len() as int)->0,
{
    let n = kept.len();
    let ghost p = ints(processing_times@);
    let mut choice: Option<Job> = None;
    let mut k: usize = 0;
    while k < n
        invariant
            n == kept@.len(),
            processing_times@.len() == n,
            p == ints(processing_times@),
            0 <= k <= n,
            choice is Some <==> longest(p, kept@, k as int) is Some,
            choice is Some ==> choice->0 == longest(p, kept@, k as int)->0,
            choice is Some ==> choice->0 < k,
        decreases n - k,
    {
        if kept[k] {
            match choice {
                Some(c) => {
                    if processing_times[k] >= processing_times[c] {
                        choice = Some(k);
                    }
                },
                None => {
                    choice = Some(k);
                },
            }
        }
        k = k + 1;
    }
    choice
}

/// Hodgson's algorithm for a single machine without release times, which
/// keeps as many jobs on time as possible.
///
/// The jobs are looked at in the order of their due times. Each is kept at
/// first; whenever the kept jobs together take longer than the due time of
/// the job just added allows, the longest kept job is given up. The
/// schedule runs the kept jobs in the order of their due times, back to
/// back from time zero, and then the jobs given up, the one given up last
/// first. The kept jobs are on time, and no schedule has fewer late jobs.
pub fn schedule_hodgson(processing_times: &[Time], due_times: &[Time]) -> (result: MachineSchedule)
    requires
        processing_times@.len() == due_times@.len(),
        nonnegative(ints(processing_times@)),
        total_work(ints(processing_times@)) <= isize::MAX,
    ensures
        result@ == list_schedule(
            hodgson_order(ints(processing_times@), ints(due_times@)),
            ints(processing_times@),
            zero_times(processing_times@.len()),
        ),
        well_ordered(result@),
        runs_each_job_once(result@, ints(processing_times@)),
        forall|k: int|
            0 <= k < processing_times@.len() - hodgson_state(
                ints(processing_times@),
                ints(due_times@),
                due_order(ints(due_times@)),
                processing_times@.len() as int,
            ).late.len() ==> (#[trigger] result@[k]).lateness(ints(due_times@)) <= 0,
        forall|other: Seq<Run>|
            #[trigger] runs_each_job_once(other, ints(processing_times@)) && well_ordered(other) && starts_after_zero(
                other,
            ) ==> num_tardy_of(result@, ints(due_times@)) <= num_tardy_of(other, ints(due_times@)),
{
    let ghost p = ints(processing_times@);
    let ghost d = ints(due_times@);
    let ghost order = due_order(d);
    let n = processing_times.len();
    let mut kept: Vec<bool> = Vec::new();
    let mut given_up: Vec<bool> = Vec::new();
    let mut i: usize = 0;
    while i < n
        invariant
            0 <= i <= n,
            kept@.len() == i,
            given_up@.len() == i,
            forall|j: int| 0 <= j < i ==> !(#[trigger] kept@[j]),
            forall|j: int| 0 <= j < i ==> #[trigger] given_up@[j],
        decreases n - i,
    {
        kept.push(false);
        given_up.push(true);
        i = i + 1;
    }
    assert(kept@ =~= Seq::new(d.len(), |j: int| false));
    let jobs = sorted_jobs(due_times, &kept, false);
    let mut late: Vec<Job> = Vec::new();
    let mut duration: Time = 0;
    proof {
        lemma_due_order(d);
        assert(kept@ =~= hodgson_state(p, d, order, 0).kept);
        assert(ids(late@) =~= hodgson_state(p, d, order, 0).late);
        assert(given_up@ =~= complement(kept@));
    }
    let mut k: usize = 0;
    while k < n
        invariant
            n == p.len(),
            p == ints(processing_times@),
            d == ints(due_times@),
            p.len() == d.len(),
            nonnegative(p),
            total_work(p) <= isize::MAX,
            order == due_order(d),
            ids(jobs@) == order,
            is_permutation(order, n as int),
            0 <= k <= n,
            kept@ == hodgson_state(p, d, order, k as int).kept,
            ids(late@) == hodgson_state(p, d, order, k as int).late,
            duration == hodgson_state(p, d, order, k as int).duration,
            given_up@ == complement(kept@),
            kept@.len() == n,
            given_up@.len() == n,
        decreases n - k,
    {
        let ghost before = hodgson_state(p, d, order, k as int);
        proof {
            lemma_hodgson_state(p, d, order, k as int);
            lemma_hodgson_state(p, d, order, k + 1);
            lemma_done_work_bound(p, before.kept, n as int);
            assert(order[k as int] == jobs@[k as int]);
            assert(0 <= order[k as int] < n);
        }
        let job = jobs[k];
        proof {
            let after = before.kept.update(job as int, true);
            assert(!before.kept[job as int]) by {
                if before.kept[job as int] {
                    let a = choose|a: int| 0 <= a < k && #[trigger] order[a] == job;
                    assert(order[a] != order[k as int]);
                }
            }
            assert(pending(before.kept, job as int));
            lemma_done_work_update(p, before.kept, job as int, n as int);
            lemma_done_work_bound(p, after, n as int);
            lemma_longest(p, after, n as int);
            assert(after[job as int]);
        }
        kept.set(job, true);
        given_up.set(job, false);
        duration = duration + processing_times[job];
        if duration > due_times[job] {
            match longest_kept(processing_times, &kept) {
                Some(x) => {
                    kept.set(x, false);
                    given_up.set(x, true);
                    duration = duration - processing_times[x];
                    late.push(x);
                    assert(ids(late@) =~= before.late.push(x as int));
                },
                None => {},
            }
        }
        assert(given_up@ =~= complement(kept@));
        k = k + 1;
    }
    let mut result = sorted_jobs(due_times, &given_up, false);
    let ghost front = ids(result@);
    let ghost end = hodgson_state(p, d, order, n as int);
    let mut a: usize = late.len();
    while a > 0
        invariant
            0 <= a <= late@.len(),
            ids(late@) == end.late,
            ids(result@) == front + end.late.reverse().take(late@.len() - a),
        decreases a,
    {
        a = a - 1;
        let ghost sofar = ids(result@);
        result.push(late[a]);
        proof {
            let back = end.late.reverse();
            let m = late@.len() - a - 1;
            assert(back[m] == end.late[a as int]);
            assert(back.take(m + 1) =~= back.take(m).push(back[m]));
            assert(ids(result@) =~= sofar.push(late@[a as int] as int));
            assert(ids(result@) =~= front + back.take(m + 1));
        }
    }
    proof {
        let back = end.late.reverse();
        assert(back.take(late@.len() as int) =~= back);
        let all = hodgson_order(p, d);
        assert(ids(result@) == all);
        lemma_hodgson_order(p, d);
        let zeros = zero_times(processing_times@.len());
        assert(jobs_in_range(all, n as int));
        lemma_finish_horizon(all, p, zeros, 0, n as int);
        lemma_span_work_bound(all, p, zeros, 0, n as int);
        lemma_list_schedule_valid(all, p, zeros);
        let runs = list_schedule(all, p, zeros);
        assert forall|j: int| 0 <= j < p.len() implies #[trigger] crate::schedule::runs_job(runs, j) by {
            assert(occurs(all, j));
            let k = choose|k: int| 0 <= k < all.len() && #[trigger] all[k] == j;
            assert(runs[k].job == j);
        }
        assert forall|k: int, l: int| 0 <= k < l < runs.len() implies (#[trigger] runs[k]).job != (
        #[trigger] runs[l]).job by {
            assert(all[k] != all[l]);
        }
        assert forall|k: int| 0 <= k < n - end.late.len() implies (#[trigger] runs[k]).lateness(d) <= 0 by {
            lemma_hodgson_keeps_on_time(p, d, k);
        }
        assert forall|other: Seq<Run>|
            #[trigger] runs_each_job_once(other, p) && well_ordered(other) && starts_after_zero(
                other,
            ) implies num_tardy_of(runs, d) <= num_tardy_of(other, d) by {
            crate::single_machine::tardy_bound::lemma_hodgson_optimal(p, d, other);
        }
    }
    MachineSchedule::from_order_ptimes(result.as_slice(), processing_times)
}

} // verus!
