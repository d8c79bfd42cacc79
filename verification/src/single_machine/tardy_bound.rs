//! Why Hodgson's algorithm keeps as many jobs on time as any schedule can.

use vstd::prelude::*;

use crate::schedule::{
    list_schedule, nonnegative, num_tardy_of, runs_each_job_once, runs_job, well_ordered, zero_times, Run,
};
use crate::selection::{key_before, lemma_ascending};
use crate::single_machine::lower_bound::{
    last_flagged, lemma_block_end, lemma_last_flagged, lemma_placed_work, placed, starts_after_zero,
};
use crate::single_machine::num_tardy::{
    all_on_time, complement, due_order, hodgson_order, hodgson_state, kept_until, lemma_done_work_subset,
    lemma_due_order, lemma_hodgson_keeps_on_time, lemma_hodgson_order, lemma_hodgson_state, lemma_longest,
    longest, seen,
};
use crate::single_machine::schrage_model::{done_work, lemma_done_work_update, pending, remaining};

verus! {

/// The number of flags that are set among the first `k`.
pub open spec fn count_set(flags: Seq<bool>, k: int) -> nat
    decreases k,
{
    if k <= 0 {
        0
    } else {
        count_set(flags, k - 1) + (if flags[k - 1] { 1nat } else { 0nat })
    }
}

pub proof fn lemma_count_update(flags: Seq<bool>, j: int, value: bool, k: int)
    requires
        0 <= k <= flags.len(),
        0 <= j < flags.len(),
    ensures
        count_set(flags.update(j, value), k) == count_set(flags, k) + (if j < k && value && !flags[j] {
            1int
        } else {
            0int
        }) - (if j < k && !value && flags[j] { 1int } else { 0int }),
    decreases k,
{
    if k > 0 {
        lemma_count_update(flags, j, value, k - 1);
    }
}

pub proof fn lemma_count_subset(fewer: Seq<bool>, more: Seq<bool>, k: int)
    requires
        0 <= k <= fewer.len(),
        fewer.len() == more.len(),
        forall|j: int| 0 <= j < fewer.len() && fewer[j] ==> more[j],
    ensures
        count_set(fewer, k) <= count_set(more, k),
        count_set(fewer, k) == count_set(more, k) ==> forall|j: int| 0 <= j < k ==> fewer[j] == more[j],
    decreases k,
{
    if k > 0 {
        lemma_count_subset(fewer, more, k - 1);
    }
}

pub proof fn lemma_count_none(flags: Seq<bool>, k: int)
    requires
        0 <= k <= flags.len(),
        forall|j: int| 0 <= j < flags.len() ==> !flags[j],
    ensures
        count_set(flags, k) == 0,
    decreases k,
{
    if k > 0 {
        lemma_count_none(flags, k - 1);
    }
}

/// The flags that are not set are those that remain.
pub proof fn lemma_count_remaining(flags: Seq<bool>)
    ensures
        count_set(flags, flags.len() as int) + remaining(flags) == flags.len(),
    decreases flags.len(),
{
    if flags.len() > 0 {
        let front = flags.drop_last();
        lemma_count_remaining(front);
        lemma_count_prefix(front, flags, front.len() as int);
    }
}

pub proof fn lemma_count_prefix(a: Seq<bool>, b: Seq<bool>, k: int)
    requires
        0 <= k <= a.len(),
        k <= b.len(),
        forall|i: int| 0 <= i < k ==> a[i] == b[i],
    ensures
        count_set(a, k) == count_set(b, k),
    decreases k,
{
    if k > 0 {
        lemma_count_prefix(a, b, k - 1);
    }
}

/// Whatever set of jobs can all be on time among the first `k` jobs in the
/// order of the due times, Hodgson's algorithm keeps as many of them with
/// no more work: a set of kept jobs of the same size whose total
/// processing time is no greater.
proof fn lemma_hodgson_dominates(p: Seq<int>, d: Seq<int>, chosen: Seq<bool>, k: int) -> (matched: Seq<bool>)
    requires
        p.len() == d.len(),
        nonnegative(p),
        0 <= k <= p.len(),
        chosen.len() == p.len(),
        all_on_time(p, d, chosen),
        forall|x: int| 0 <= x < p.len() && chosen[x] ==> seen(due_order(d), k, x),
    ensures
        matched.len() == p.len(),
        forall|x: int| 0 <= x < p.len() && matched[x] ==> hodgson_state(p, d, due_order(d), k).kept[x],
        count_set(matched, p.len() as int) == count_set(chosen, p.len() as int),
        done_work(p, matched, p.len() as int) <= done_work(p, chosen, p.len() as int),
    decreases k,
{
    let n = p.len() as int;
    let order = due_order(d);
    lemma_due_order(d);
    lemma_hodgson_state(p, d, order, k);
    let s = hodgson_state(p, d, order, k);
    if k <= 0 {
        assert forall|x: int| 0 <= x < n implies !chosen[x] by {
            if chosen[x] {
                assert(seen(order, k, x));
            }
        }
        chosen
    } else {
        lemma_hodgson_state(p, d, order, k - 1);
        let before = hodgson_state(p, d, order, k - 1);
        let j = order[k - 1];
        assert(0 <= j < n);
        let kept1 = before.kept.update(j, true);
        let duration1 = before.duration + p[j];
        assert(!before.kept[j]) by {
            if before.kept[j] {
                let a = choose|a: int| 0 <= a < k - 1 && #[trigger] order[a] == j;
                assert(order[a] != order[k - 1]);
            }
        }
        assert(pending(before.kept, j));
        lemma_done_work_update(p, before.kept, j, n);
        let fewer = chosen.update(j, false);
        assert forall|x: int| 0 <= x < n && fewer[x] implies seen(order, k - 1, x) by {
            assert(chosen[x] && x != j);
            let a = choose|a: int| 0 <= a < k && #[trigger] order[a] == x;
            assert(0 <= a < k - 1 && order[a] == x);
        }
        assert(all_on_time(p, d, fewer)) by {
            assert forall|e: int| 0 <= e < n && #[trigger] fewer[e] implies done_work(p, kept_until(fewer, d, e), n)
                <= d[e] by {
                assert(chosen[e]);
                lemma_done_work_subset(p, kept_until(fewer, d, e), kept_until(chosen, d, e), n);
            }
        }
        let sub = lemma_hodgson_dominates(p, d, fewer, k - 1);
        assert(!sub[j]);
        lemma_count_update(chosen, j, false, n);
        lemma_count_update(sub, j, true, n);
        let first = if chosen[j] { sub.update(j, true) } else { sub };
        if chosen[j] {
            assert(pending(sub, j));
            lemma_done_work_update(p, sub, j, n);
            assert(pending(fewer, j));
            lemma_done_work_update(p, fewer, j, n);
            assert(fewer.update(j, true) =~= chosen);
        } else {
            assert(fewer =~= chosen);
        }
        assert(count_set(first, n) == count_set(chosen, n));
        assert(done_work(p, first, n) <= done_work(p, chosen, n));
        assert forall|x: int| 0 <= x < n && first[x] implies kept1[x] by {
            if x != j {
                assert(sub[x]);
            }
        }
        if duration1 > d[j] {
            lemma_longest(p, kept1, n);
            let x = longest(p, kept1, n)->0;
            assert(kept1[j]);
            assert(s.kept == kept1.update(x, false));
            if !first[x] {
                first
            } else if exists|y: int| 0 <= y < n && kept1[y] && !first[y] {
                let y = choose|y: int| 0 <= y < n && kept1[y] && !first[y];
                let without = first.update(x, false);
                let swapped = without.update(y, true);
                lemma_count_update(first, x, false, n);
                lemma_count_update(without, y, true, n);
                assert(pending(without, x));
                lemma_done_work_update(p, without, x, n);
                assert(without.update(x, true) =~= first);
                assert(pending(without, y));
                lemma_done_work_update(p, without, y, n);
                assert(p[y] <= p[x]);
                swapped
            } else {
                // every kept job is matched: the matched jobs take longer than the last job allows
                assert(first =~= kept1);
                assert(done_work(p, first, n) == duration1);
                if chosen[j] {
                    assert(kept_until(chosen, d, j) =~= chosen) by {
                        assert forall|e: int| 0 <= e < n implies kept_until(chosen, d, j)[e] == chosen[e] by {
                            if chosen[e] && e != j {
                                assert(seen(order, k, e));
                                let a = choose|a: int| 0 <= a < k && #[trigger] order[a] == e;
                                lemma_ascending(d, Seq::new(d.len(), |i: int| false));
                                assert(key_before(d, order[a], order[k - 1]));
                            }
                        }
                    }
                    assert(done_work(p, chosen, n) <= d[j]);
                }
                assert(false);
                first
            }
        } else {
            first
        }
    }
}

/// The jobs that are on time in the schedule, as flags.
pub open spec fn on_time_jobs(other: Seq<Run>, d: Seq<int>, n: int) -> Seq<bool> {
    Seq::new(n as nat, |j: int| exists|k: int| 0 <= k < other.len() && (#[trigger] other[k]).job == j && other[k].lateness(d) <= 0)
}

/// The number of the first `k` runs that are late.
pub open spec fn late_runs(other: Seq<Run>, d: Seq<int>, k: int) -> nat
    decreases k,
{
    if k <= 0 {
        0
    } else {
        late_runs(other, d, k - 1) + (if other[k - 1].lateness(d) > 0 { 1nat } else { 0nat })
    }
}

proof fn lemma_late_runs(other: Seq<Run>, d: Seq<int>)
    ensures
        late_runs(other, d, other.len() as int) == num_tardy_of(other, d),
    decreases other.len(),
{
    if other.len() > 0 {
        let front = other.drop_last();
        lemma_late_runs(front, d);
        lemma_late_prefix(front, other, d, front.len() as int);
    }
}

proof fn lemma_late_prefix(a: Seq<Run>, b: Seq<Run>, d: Seq<int>, k: int)
    requires
        0 <= k <= a.len(),
        k <= b.len(),
        forall|i: int| 0 <= i < k ==> a[i] == b[i],
    ensures
        late_runs(a, d, k) == late_runs(b, d, k),
    decreases k,
{
    if k > 0 {
        lemma_late_prefix(a, b, d, k - 1);
    }
}

/// The jobs that are on time among those at the first `k` positions.
pub open spec fn on_time_placed(other: Seq<Run>, d: Seq<int>, n: int, k: int) -> Seq<bool> {
    Seq::new(
        n as nat,
        |j: int| exists|i: int| 0 <= i < k && (#[trigger] other[i]).job == j && other[i].lateness(d) <= 0,
    )
}

/// Of the first `k` runs of a schedule that runs each job once, those that
/// are not late are the jobs on time.
proof fn lemma_late_or_on_time(other: Seq<Run>, p: Seq<int>, d: Seq<int>, k: int)
    requires
        runs_each_job_once(other, p),
        0 <= k <= other.len(),
    ensures
        late_runs(other, d, k) + count_set(on_time_placed(other, d, p.len() as int, k), p.len() as int) == k,
    decreases k,
{
    let n = p.len() as int;
    if k > 0 {
        lemma_late_or_on_time(other, p, d, k - 1);
        let before = on_time_placed(other, d, n, k - 1);
        let after = on_time_placed(other, d, n, k);
        let j = other[k - 1].job;
        assert(0 <= j < n);
        assert(!before[j]) by {
            if before[j] {
                let i = choose|i: int| 0 <= i < k - 1 && (#[trigger] other[i]).job == j && other[i].lateness(d) <= 0;
                assert(other[i].job != other[k - 1].job);
            }
        }
        assert forall|x: int| 0 <= x < n && x != j implies after[x] == before[x] by {
            if after[x] {
                let i = choose|i: int| 0 <= i < k && (#[trigger] other[i]).job == x && other[i].lateness(d) <= 0;
                assert(0 <= i < k - 1 && other[i].job == x && other[i].lateness(d) <= 0);
            }
            if before[x] {
                let i = choose|i: int| 0 <= i < k - 1 && (#[trigger] other[i]).job == x && other[i].lateness(d) <= 0;
                assert(0 <= i < k && other[i].job == x && other[i].lateness(d) <= 0);
            }
        }
        if other[k - 1].lateness(d) <= 0 {
            assert(after[j]) by {
                assert(other[k - 1].job == j && other[k - 1].lateness(d) <= 0);
            }
            assert(after =~= before.update(j, true));
            lemma_count_update(before, j, true, n);
        } else {
            assert(!after[j]) by {
                if after[j] {
                    let i = choose|i: int| 0 <= i < k && (#[trigger] other[i]).job == j && other[i].lateness(d) <= 0;
                    if i < k - 1 {
                        assert(other[i].job != other[k - 1].job);
                    }
                }
            }
            assert(after =~= before);
        }
    } else {
        let none = on_time_placed(other, d, n, 0);
        assert forall|x: int| 0 <= x < n implies !none[x] by {}
        lemma_count_none(none, n);
    }
}

/// The jobs that are on time in a schedule can all be on time: run in the
/// order of their due times from time zero, each ends by its due time.
proof fn lemma_on_time_jobs(other: Seq<Run>, p: Seq<int>, d: Seq<int>)
    requires
        runs_each_job_once(other, p),
        well_ordered(other),
        starts_after_zero(other),
        p.len() == d.len(),
    ensures
        all_on_time(p, d, on_time_jobs(other, d, p.len() as int)),
{
    let n = p.len() as int;
    let chosen = on_time_jobs(other, d, n);
    assert forall|e: int| 0 <= e < n && #[trigger] chosen[e] implies done_work(p, kept_until(chosen, d, e), n) <= d[e] by {
        let flags = kept_until(chosen, d, e);
        assert forall|i: int| 0 <= i < other.len() && flags[(#[trigger] other[i]).job] implies other[i].start >= 0 by {}
        lemma_block_end(other, flags, 0, n);
        lemma_placed_work(other, p, flags, n);
        let all = crate::single_machine::lower_bound::both(flags, placed(other, n, n));
        assert(all =~= flags) by {
            assert forall|j: int| 0 <= j < n implies all[j] == flags[j] by {
                assert(runs_job(other, j));
                let k = choose|k: int| 0 <= k < other.len() && (#[trigger] other[k]).job == j;
                assert(other[k].job == j);
            }
        }
        let ke = choose|k: int| 0 <= k < other.len() && (#[trigger] other[k]).job == e && other[k].lateness(d) <= 0;
        assert(flags[other[ke].job]);
        lemma_last_flagged(other, flags, n, ke);
        let last = last_flagged(other, flags, n);
        let x = other[last].job;
        assert(flags[x]);
        assert(chosen[x]);
        let kx = choose|k: int| 0 <= k < other.len() && (#[trigger] other[k]).job == x && other[k].lateness(d) <= 0;
        if kx != last {
            if kx < last {
                assert(other[kx].job != other[last].job);
            } else {
                assert(other[last].job != other[kx].job);
            }
        }
        assert(other[last].lateness(d) <= 0);
        assert(d[x] <= d[e]);
    }
}

/// Where the first `m` runs are on time, at most the others are late.
proof fn lemma_late_after(runs: Seq<Run>, d: Seq<int>, m: int, k: int)
    requires
        0 <= m <= k <= runs.len(),
        forall|i: int| 0 <= i < m ==> (#[trigger] runs[i]).lateness(d) <= 0,
    ensures
        late_runs(runs, d, k) <= k - m,
    decreases k,
{
    if k > m {
        lemma_late_after(runs, d, m, k - 1);
    } else {
        lemma_none_late(runs, d, k);
    }
}

proof fn lemma_none_late(runs: Seq<Run>, d: Seq<int>, k: int)
    requires
        0 <= k <= runs.len(),
        forall|i: int| 0 <= i < k ==> (#[trigger] runs[i]).lateness(d) <= 0,
    ensures
        late_runs(runs, d, k) == 0,
    decreases k,
{
    if k > 0 {
        lemma_none_late(runs, d, k - 1);
    }
}

/// Hodgson's algorithm is exact: no schedule that runs each job once and in
/// one piece, one job at a time and none before time zero, has fewer late
/// jobs than the schedule it gives.
pub proof fn lemma_hodgson_optimal(p: Seq<int>, d: Seq<int>, other: Seq<Run>)
    requires
        p.len() == d.len(),
        nonnegative(p),
        runs_each_job_once(other, p),
        well_ordered(other),
        starts_after_zero(other),
    ensures
        num_tardy_of(list_schedule(hodgson_order(p, d), p, zero_times(p.len())), d) <= num_tardy_of(other, d),
{
    let n = p.len() as int;
    let order = due_order(d);
    let end = hodgson_state(p, d, order, n);
    let runs = list_schedule(hodgson_order(p, d), p, zero_times(p.len()));
    lemma_due_order(d);
    lemma_hodgson_state(p, d, order, n);
    lemma_hodgson_order(p, d);
    // the schedule of the algorithm: at most the jobs given up are late
    let m = n - end.late.len();
    assert forall|i: int| 0 <= i < m implies (#[trigger] runs[i]).lateness(d) <= 0 by {
        lemma_hodgson_keeps_on_time(p, d, i);
    }
    lemma_late_after(runs, d, m, n);
    lemma_late_runs(runs, d);
    // the other schedule: its jobs on time are matched by kept jobs
    let chosen = on_time_jobs(other, d, n);
    lemma_on_time_jobs(other, p, d);
    assert forall|x: int| 0 <= x < n && chosen[x] implies seen(order, n, x) by {
        assert(crate::single_machine::schrage_model::occurs(order, x));
        let a = choose|a: int| 0 <= a < order.len() && #[trigger] order[a] == x;
        assert(0 <= a < n && order[a] == x);
    }
    let matched = lemma_hodgson_dominates(p, d, chosen, n);
    lemma_count_subset(matched, end.kept, n);
    lemma_count_remaining(complement(end.kept));
    lemma_count_complement(end.kept, n);
    lemma_late_or_on_time(other, p, d, n);
    assert(on_time_placed(other, d, n, n) =~= chosen);
    lemma_late_runs(other, d);
}

pub proof fn lemma_count_complement(flags: Seq<bool>, k: int)
    requires
        0 <= k <= flags.len(),
    ensures
        count_set(flags, k) + count_set(complement(flags), k) == k,
    decreases k,
{
    if k > 0 {
        lemma_count_complement(flags, k - 1);
    }
}

/// Two sets of flags of which each job has exactly one leave as many jobs
/// unset together as there are jobs.
pub proof fn lemma_split_count(one: Seq<bool>, other: Seq<bool>)
    requires
        one.len() == other.len(),
        forall|j: int| 0 <= j < one.len() ==> one[j] != other[j],
    ensures
        remaining(one) + remaining(other) == one.len(),
{
    lemma_count_remaining(one);
    lemma_count_remaining(other);
    lemma_count_complement(one, one.len() as int);
    assert(complement(one) =~= other);
}

} // verus!
