//! Why the serial schedule heuristic runs every job where the precedence
//! constraints can be met.

use vstd::prelude::*;

use crate::schedule::Run;
use crate::serial_validity::{
    done_by, has_run, in_hand, is_run, lemma_completed_sound, lemma_done_later, lemma_idle, lemma_retire_sound,
    lemma_sound_later, lemma_start_valid, lemma_with_run, lemma_without, no_repeats, run_at, running_jobs, sound,
    with_run,
};
use crate::single_machine::tardy_bound::{count_set, lemma_count_subset, lemma_count_update};
use crate::unrelated_machines::{
    among, busy_beyond, empty_schedules, free_jobs, graph_completed, graph_running, idle_at, later_time,
    least_time, lemma_busy_beyond, lemma_later_time, lemma_picks, next_pick, released, retire, run,
    serial_schedules, time_table, wait, without, Graph, Shop,
};

verus! {

/// The precedence constraints can be met: every precedent is a job, no job
/// lists a precedent twice, and the jobs can be ranked so that every job
/// ranks above its precedents.
pub open spec fn orderly(precedents: Seq<Seq<int>>, rank: Seq<int>) -> bool {
    &&& rank.len() == precedents.len()
    &&& forall|j: int, t: int|
        0 <= j < precedents.len() && 0 <= t < precedents[j].len() ==> 0 <= #[trigger] precedents[j][t]
            < precedents.len() && rank[precedents[j][t]] < rank[j]
    &&& forall|j: int| 0 <= j < precedents.len() ==> no_repeats(#[trigger] precedents[j])
}

/// The jobs that have a run, as flags.
pub open spec fn started(schedules: Seq<Seq<Run>>, n: int) -> Seq<bool> {
    Seq::new(n as nat, |j: int| has_run(schedules, j))
}

/// Job `q` is among the running jobs.
pub open spec fn holds(running: Seq<(int, int)>, q: int) -> bool {
    exists|c: int| 0 <= c < running.len() && (#[trigger] running[c]).1 == q
}

/// What keeps the heuristic going, as far as the graph goes: of a job that
/// has no run, the list of precedents has no repeats and holds precedents of
/// the job only, each of which has no run or is running; and such a job is
/// available once the list is empty.
pub open spec fn lively(
    schedules: Seq<Seq<Run>>,
    precedents: Seq<Seq<int>>,
    g: Graph,
    running: Seq<(int, int)>,
) -> bool {
    let n = precedents.len() as int;
    &&& forall|j: int| 0 <= j < n && !has_run(schedules, j) ==> no_repeats(#[trigger] g.rows[j])
    &&& forall|j: int, a: int|
        0 <= j < n && !has_run(schedules, j) && 0 <= a < g.rows[j].len() ==> precedents[j].contains(
            #[trigger] g.rows[j][a],
        )
    &&& forall|j: int, a: int|
        0 <= j < n && !has_run(schedules, j) && 0 <= a < g.rows[j].len() && has_run(schedules, g.rows[j][a]) ==> holds(
            running,
            #[trigger] g.rows[j][a],
        )
    &&& forall|j: int| 0 <= j < n && !has_run(schedules, j) && (#[trigger] g.rows[j]).len() == 0 ==> g.available.contains(j)
}

/// Every running job keeps a machine busy until it completes.
pub open spec fn keeps_busy(running: Seq<(int, int)>, busy: Seq<int>) -> bool {
    forall|c: int| 0 <= c < running.len() ==> among(busy, busy.len() as int, (#[trigger] running[c]).0)
}

/// No running job is over by `time`.
pub open spec fn all_later(running: Seq<(int, int)>, time: int) -> bool {
    forall|c: int| 0 <= c < running.len() ==> (#[trigger] running[c]).0 > time
}

/// What `released` lists, the other way round: every other job below `k`
/// whose list of precedents was not empty and is without `job`.
proof fn lemma_released_all(rows: Seq<Seq<int>>, job: int, k: int, i: int)
    requires
        0 <= i < k,
        i != job,
        rows[i].len() > 0,
        without(rows[i], job).len() == 0,
    ensures
        released(rows, job, k).contains(i),
    decreases k,
{
    let all = released(rows, job, k);
    if i == k - 1 {
        assert(all[all.len() - 1] == i);
    } else {
        lemma_released_all(rows, job, k - 1, i);
        let before = released(rows, job, k - 1);
        let a = choose|a: int| 0 <= a < before.len() && before[a] == i;
        assert(all[a] == i);
    }
}

/// What `free_jobs` lists, the other way round: every job below `k`
/// without precedents.
proof fn lemma_free_all(rows: Seq<Seq<int>>, k: int, i: int)
    requires
        0 <= i < k,
        rows[i].len() == 0,
    ensures
        free_jobs(rows, k).contains(i),
    decreases k,
{
    let all = free_jobs(rows, k);
    if i == k - 1 {
        assert(all[all.len() - 1] == i);
    } else {
        lemma_free_all(rows, k - 1, i);
        let before = free_jobs(rows, k - 1);
        let a = choose|a: int| 0 <= a < before.len() && before[a] == i;
        assert(all[a] == i);
    }
}

/// Among the jobs below `k` that are not flagged, one of the lowest rank,
/// or -1 if all are flagged.
pub open spec fn lowest(flags: Seq<bool>, rank: Seq<int>, k: int) -> int
    decreases k,
{
    if k <= 0 {
        -1
    } else {
        let rest = lowest(flags, rank, k - 1);
        if !flags[k - 1] && (rest < 0 || rank[k - 1] < rank[rest]) {
            k - 1
        } else {
            rest
        }
    }
}

proof fn lemma_lowest(flags: Seq<bool>, rank: Seq<int>, k: int)
    requires
        0 <= k <= flags.len(),
    ensures
        -1 <= lowest(flags, rank, k) < k,
        lowest(flags, rank, k) < 0 ==> forall|j: int| 0 <= j < k ==> flags[j],
        lowest(flags, rank, k) >= 0 ==> !flags[lowest(flags, rank, k)] && forall|j: int|
            0 <= j < k && !flags[j] ==> rank[lowest(flags, rank, k)] <= rank[j],
    decreases k,
{
    if k > 0 {
        lemma_lowest(flags, rank, k - 1);
    }
}

proof fn lemma_count_all(flags: Seq<bool>, k: int)
    requires
        0 <= k <= flags.len(),
        forall|j: int| 0 <= j < k ==> flags[j],
    ensures
        count_set(flags, k) == k,
    decreases k,
{
    if k > 0 {
        lemma_count_all(flags, k - 1);
    }
}

proof fn lemma_count_full(flags: Seq<bool>, k: int)
    requires
        0 <= k <= flags.len(),
    ensures
        count_set(flags, k) <= k,
        count_set(flags, k) == k ==> forall|j: int| 0 <= j < k ==> flags[j],
    decreases k,
{
    if k > 0 {
        lemma_count_full(flags, k - 1);
    }
}

/// What `least_time` returns: the time at which one of the first `k`
/// machines is free, which none of them undercuts.
proof fn lemma_least_time(busy: Seq<int>, k: int)
    requires
        1 <= k <= busy.len(),
    ensures
        among(busy, k, least_time(busy, k)),
        forall|i: int| 0 <= i < k ==> least_time(busy, k) <= busy[i],
    decreases k,
{
    if k > 1 {
        lemma_least_time(busy, k - 1);
        let rest = least_time(busy, k - 1);
        let a = choose|a: int| 0 <= a < k - 1 && #[trigger] busy[a] == rest;
        assert(busy[a] == rest);
        assert(busy[k - 1] == busy[k - 1]);
    } else {
        assert(busy[0] == busy[0]);
    }
}

/// The jobs with runs are one more when a job without a run starts.
proof fn lemma_started_more(schedules: Seq<Seq<Run>>, machine: int, f: Run, n: int)
    requires
        0 <= machine < schedules.len(),
        0 <= f.job < n,
        !has_run(schedules, f.job),
    ensures
        started(with_run(schedules, machine, f), n) == started(schedules, n).update(f.job, true),
        count_set(started(with_run(schedules, machine, f), n), n) == count_set(started(schedules, n), n) + 1,
{
    let more = with_run(schedules, machine, f);
    lemma_with_run(schedules, machine, f);
    assert(started(more, n) =~= started(schedules, n).update(f.job, true)) by {
        assert forall|j: int| 0 <= j < n implies started(more, n)[j] == started(schedules, n).update(f.job, true)[j] by {
            if j != f.job {
                if has_run(schedules, j) {
                    let (i, k) = choose|i: int, k: int|
                        is_run(schedules, i, k) && (#[trigger] run_at(schedules, i, k)).job == j;
                    assert(is_run(more, i, k) && run_at(more, i, k).job == j);
                }
            }
        }
    }
    lemma_count_update(started(schedules, n), f.job, true, n);
}

/// The graph stays lively, and the jobs that go on running are not over,
/// when the running jobs that are over complete.
proof fn lemma_retire_lively(
    schedules: Seq<Seq<Run>>,
    precedents: Seq<Seq<int>>,
    g: Graph,
    running: Seq<(int, int)>,
    time: int,
    k: int,
)
    requires
        sound(schedules, precedents, g, time),
        running_jobs(schedules, precedents.len() as int, running),
        lively(schedules, precedents, g, running),
        0 <= k <= running.len(),
    ensures
        lively(
            schedules,
            precedents,
            retire(g, running, time, k).0,
            retire(g, running, time, k).1 + running.subrange(k, running.len() as int),
        ),
        all_later(retire(g, running, time, k).1, time),
        forall|c: int|
            0 <= c < retire(g, running, time, k).1.len() ==> running.contains(#[trigger] retire(g, running, time, k).1[c]),
    decreases k,
{
    let n = precedents.len() as int;
    let len = running.len() as int;
    if k > 0 {
        lemma_retire_lively(schedules, precedents, g, running, time, k - 1);
        lemma_retire_sound(schedules, precedents, g, running, time, k - 1);
        let before = retire(g, running, time, k - 1);
        let blockers = before.1 + running.subrange(k - 1, len);
        let c = running[k - 1];
        assert(blockers[before.1.len() as int] == c);
        assert(0 <= c.1 < n && done_by(schedules, c.1, c.0));
        let now = retire(g, running, time, k);
        let rest = now.1 + running.subrange(k, len);
        if c.0 <= time {
            let x = c.1;
            lemma_done_later(schedules, x, c.0, time);
            let h = before.0;
            let after = graph_completed(h, x);
            lemma_without(h.available, x);
            assert forall|j: int| 0 <= j < n && !has_run(schedules, j) implies no_repeats(#[trigger] after.rows[j]) && (
            forall|a: int|
                0 <= a < after.rows[j].len() ==> h.rows[j].contains(#[trigger] after.rows[j][a]) && after.rows[j][a]
                    != x) by {
                assert(j != x);
                assert(no_repeats(h.rows[j]));
                lemma_without(h.rows[j], x);
                assert forall|a: int| 0 <= a < after.rows[j].len() implies h.rows[j].contains(
                    #[trigger] after.rows[j][a],
                ) && after.rows[j][a] != x by {
                    assert(after.rows[j].contains(after.rows[j][a]));
                }
            }
            assert forall|j: int, a: int|
                0 <= j < n && !has_run(schedules, j) && 0 <= a < after.rows[j].len() implies precedents[j].contains(
                #[trigger] after.rows[j][a],
            ) by {
                let q = after.rows[j][a];
                assert(h.rows[j].contains(q));
                let b = choose|b: int| 0 <= b < h.rows[j].len() && h.rows[j][b] == q;
                assert(precedents[j].contains(h.rows[j][b]));
            }
            assert forall|j: int, a: int|
                0 <= j < n && !has_run(schedules, j) && 0 <= a < after.rows[j].len() && has_run(
                    schedules,
                    after.rows[j][a],
                ) implies holds(rest, #[trigger] after.rows[j][a]) by {
                let q = after.rows[j][a];
                assert(h.rows[j].contains(q) && q != x);
                let b = choose|b: int| 0 <= b < h.rows[j].len() && h.rows[j][b] == q;
                assert(holds(blockers, h.rows[j][b]));
                let w = choose|w: int| 0 <= w < blockers.len() && (#[trigger] blockers[w]).1 == q;
                if w < before.1.len() {
                    assert(rest[w] == blockers[w]);
                } else {
                    assert(w != before.1.len());
                    assert(rest[w - 1] == blockers[w]);
                }
            }
            assert forall|j: int| 0 <= j < n && !has_run(schedules, j) && (#[trigger] after.rows[j]).len()
                == 0 implies after.available.contains(j) by {
                assert(j != x);
                let kept = without(h.available, x);
                let freed = released(h.rows, x, h.rows.len() as int);
                if h.rows[j].len() == 0 {
                    assert(h.available.contains(j));
                    assert(kept.contains(j));
                    let a = choose|a: int| 0 <= a < kept.len() && kept[a] == j;
                    assert((kept + freed)[a] == j);
                } else {
                    lemma_released_all(h.rows, x, n, j);
                    let a = choose|a: int| 0 <= a < freed.len() && freed[a] == j;
                    assert((kept + freed)[kept.len() + a] == j);
                }
            }
        } else {
            assert(rest =~= blockers);
            assert forall|a: int| 0 <= a < now.1.len() implies running.contains(#[trigger] now.1[a]) && now.1[a].0
                > time by {
                if a < before.1.len() {
                    assert(now.1[a] == before.1[a]);
                } else {
                    assert(now.1[a] == running[k - 1]);
                }
            }
        }
    } else {
        assert(retire(g, running, time, 0).1 + running.subrange(0, len) =~= running);
    }
}

/// Where a job has no run yet and the constraints can be met, the
/// heuristic does not wait in vain: a job becomes available.
proof fn lemma_wait_goes_on(
    schedules: Seq<Seq<Run>>,
    precedents: Seq<Seq<int>>,
    rank: Seq<int>,
    g: Graph,
    running: Seq<(int, int)>,
    busy: Seq<int>,
    time: int,
)
    requires
        sound(schedules, precedents, g, time),
        running_jobs(schedules, precedents.len() as int, running),
        lively(schedules, precedents, g, running),
        keeps_busy(running, busy),
        all_later(running, time),
        orderly(precedents, rank),
        count_set(started(schedules, precedents.len() as int), precedents.len() as int) < precedents.len(),
    ensures
        wait(g, running, busy, time) is Some,
        ({
            let state = wait(g, running, busy, time)->0;
            &&& lively(schedules, precedents, state.0, state.1)
            &&& keeps_busy(state.1, busy)
            &&& all_later(state.1, state.2)
        }),
    decreases busy_beyond(busy, time, busy.len() as int),
{
    let n = precedents.len() as int;
    let m = busy.len() as int;
    if g.available.len() == 0 {
        let flags = started(schedules, n);
        lemma_lowest(flags, rank, n);
        let first = lowest(flags, rank, n);
        if first < 0 {
            lemma_count_all(flags, n);
        }
        assert(!has_run(schedules, first));
        if g.rows[first].len() == 0 {
            assert(g.available.contains(first));
        }
        let q = g.rows[first][0];
        assert(precedents[first].contains(q));
        let t = choose|t: int| 0 <= t < precedents[first].len() && precedents[first][t] == q;
        assert(0 <= precedents[first][t] < n && rank[precedents[first][t]] < rank[first]);
        assert(has_run(schedules, q)) by {
            if !has_run(schedules, q) {
                assert(!flags[q]);
            }
        }
        assert(holds(running, g.rows[first][0]));
        let c = choose|c: int| 0 <= c < running.len() && (#[trigger] running[c]).1 == q;
        assert(running[c].0 > time);
        assert(among(busy, m, running[c].0));
        let i = choose|i: int| 0 <= i < m && #[trigger] busy[i] == running[c].0;
        lemma_later_time(busy, time, m);
        let next = later_time(busy, time, m);
        assert(next is Some) by {
            if next is None {
                assert(busy[i] <= time);
            }
        }
        lemma_busy_beyond(busy, time, next->0, m);
        let w = choose|a: int| 0 <= a < m && #[trigger] busy[a] == next->0;
        assert(time < busy[w] <= next->0);
        lemma_sound_later(schedules, precedents, g, time, next->0);
        lemma_retire_sound(schedules, precedents, g, running, next->0, running.len() as int);
        lemma_retire_lively(schedules, precedents, g, running, next->0, running.len() as int);
        let after = retire(g, running, next->0, running.len() as int);
        assert(after.1 + running.subrange(running.len() as int, running.len() as int) =~= after.1);
        assert forall|a: int| 0 <= a < after.1.len() implies among(busy, m, (#[trigger] after.1[a]).0) by {
            assert(running.contains(after.1[a]));
            let b = choose|b: int| 0 <= b < running.len() && running[b] == after.1[a];
            assert(among(busy, m, running[b].0));
        }
        lemma_wait_goes_on(schedules, precedents, rank, after.0, after.1, busy, next->0);
    }
}

/// A machine that is not busy beyond `time` is idle at `time`.
proof fn lemma_idle_some(busy: Seq<int>, time: int, k: int, i: int)
    requires
        0 <= i < k,
        busy[i] <= time,
    ensures
        idle_at(busy, time, k).len() > 0,
    decreases k,
{
    if i < k - 1 {
        lemma_idle_some(busy, time, k - 1, i);
    }
}

/// What holds of the shop where the heuristic goes on to run every job.
pub open spec fn going(pt: Seq<Seq<int>>, precedents: Seq<Seq<int>>, shop: Shop, counter: int) -> bool {
    let n = precedents.len() as int;
    &&& in_hand(pt, precedents, shop)
    &&& lively(shop.schedules, precedents, shop.graph, shop.running)
    &&& keeps_busy(shop.running, shop.busy)
    &&& all_later(shop.running, shop.time)
    &&& count_set(started(shop.schedules, n), n) == counter
    &&& shop.graph.available.len() > 0
    &&& exists|i: int| 0 <= i < shop.busy.len() && #[trigger] shop.busy[i] <= shop.time
}

/// Where the constraints can be met, the heuristic goes on until every job
/// has a run.
proof fn lemma_run_complete(
    pt: Seq<Seq<int>>,
    precedents: Seq<Seq<int>>,
    rank: Seq<int>,
    shop: Shop,
    counter: int,
    n: int,
)
    requires
        n == precedents.len(),
        time_table(pt, n),
        orderly(precedents, rank),
        going(pt, precedents, shop, counter),
        0 <= counter < n,
    ensures
        forall|j: int| 0 <= j < n ==> has_run(run(pt, shop, counter, n), j),
    decreases n - counter,
{
    let m = shop.busy.len() as int;
    let idle = idle_at(shop.busy, shop.time, m);
    let g = shop.graph;
    let available = g.available;
    let free = choose|i: int| 0 <= i < shop.busy.len() && #[trigger] shop.busy[i] <= shop.time;
    lemma_idle_some(shop.busy, shop.time, m, free);
    let pick = next_pick(pt, idle, available);
    lemma_idle(shop.busy, shop.time, m);
    lemma_picks(pt, pt[idle[0]], idle, available, pick.1, available.len() as int);
    lemma_picks(pt, pt[idle[0]], idle, available, pick.1, idle.len() as int);
    assert(among(idle, idle.len() as int, pick.0)) by {
        if idle.len() == 1 {
            assert(idle[0] == pick.0);
        }
    }
    assert(among(available, available.len() as int, pick.1));
    let a = choose|a: int| 0 <= a < idle.len() && #[trigger] idle[a] == pick.0;
    assert(0 <= idle[a] < m && shop.busy[idle[a]] <= shop.time);
    let machine = pick.0;
    let job = pick.1;
    lemma_start_valid(pt, precedents, shop, machine, job);
    let f = Run { start: shop.time, job, duration: pick.2 };
    assert(pick.2 == pt[machine][job]);
    let old = shop.schedules;
    let schedules = with_run(old, machine, f);
    lemma_with_run(old, machine, f);
    let b = choose|b: int| 0 <= b < available.len() && #[trigger] available[b] == job;
    assert(g.rows[g.available[b]].len() == 0);
    assert(!has_run(old, job)) by {
        if has_run(old, job) {
            assert(g.rows[job] == seq![job]);
            assert(seq![job].len() == 1);
        }
    }
    lemma_started_more(old, machine, f, n);
    assert(idle.len() > 0 && available.len() > 0);
    if counter == n - 1 {
        lemma_count_full(started(schedules, n), n);
        assert(run(pt, shop, counter, n) == schedules);
        assert forall|j: int| 0 <= j < n implies has_run(run(pt, shop, counter, n), j) by {
            assert(started(schedules, n)[j]);
        }
    } else {
        let end = shop.time + pick.2;
        let busy = shop.busy.update(machine, end);
        let least = least_time(busy, busy.len() as int);
        let time = if least > shop.time { least } else { shop.time };
        let running = shop.running.push((end, job));
        let begun = graph_running(g, job);
        lemma_without(available, job);
        // the graph with the job running is lively
        assert forall|j: int| 0 <= j < n && !has_run(schedules, j) implies !has_run(old, j) && j != job
            && begun.rows[j] == g.rows[j] by {
            if has_run(old, j) {
                let (i, k) = choose|i: int, k: int| is_run(old, i, k) && (#[trigger] run_at(old, i, k)).job == j;
                assert(is_run(schedules, i, k) && run_at(schedules, i, k).job == j);
            }
        }
        assert forall|j: int, x: int|
            0 <= j < n && !has_run(schedules, j) && 0 <= x < begun.rows[j].len() && has_run(
                schedules,
                begun.rows[j][x],
            ) implies holds(running, #[trigger] begun.rows[j][x]) by {
            let q = begun.rows[j][x];
            assert(g.rows[j][x] == q);
            if q == job {
                assert(running[running.len() - 1].1 == job);
            } else {
                assert(has_run(old, q));
                assert(holds(shop.running, g.rows[j][x]));
                let c = choose|c: int| 0 <= c < shop.running.len() && (#[trigger] shop.running[c]).1 == q;
                assert(running[c] == shop.running[c]);
            }
        }
        assert forall|j: int| 0 <= j < n && !has_run(schedules, j) && (#[trigger] begun.rows[j]).len()
            == 0 implies begun.available.contains(j) by {
            assert(g.rows[j].len() == 0);
            assert(available.contains(j));
        }
        assert(lively(schedules, precedents, begun, running)) by {
            assert forall|j: int| 0 <= j < n && !has_run(schedules, j) implies no_repeats(#[trigger] begun.rows[j]) by {
                assert(no_repeats(g.rows[j]));
            }
            assert forall|j: int, x: int|
                0 <= j < n && !has_run(schedules, j) && 0 <= x < begun.rows[j].len() implies precedents[j].contains(
                #[trigger] begun.rows[j][x],
            ) by {
                assert(precedents[j].contains(g.rows[j][x]));
            }
        }
        // every running job keeps a machine busy
        assert forall|c: int| 0 <= c < running.len() implies among(busy, busy.len() as int, (#[trigger] running[c]).0) by {
            if c < shop.running.len() {
                assert(running[c] == shop.running[c]);
                assert(among(shop.busy, m, shop.running[c].0));
                let i = choose|i: int| 0 <= i < m && #[trigger] shop.busy[i] == shop.running[c].0;
                assert(shop.running[c].0 > shop.time);
                assert(busy[i] == shop.busy[i]);
            } else {
                assert(busy[machine] == end);
            }
        }
        lemma_least_time(busy, busy.len() as int);
        lemma_sound_later(schedules, precedents, begun, shop.time, time);
        lemma_retire_sound(schedules, precedents, begun, running, time, running.len() as int);
        lemma_retire_lively(schedules, precedents, begun, running, time, running.len() as int);
        let after = retire(begun, running, time, running.len() as int);
        assert(after.1 + running.subrange(running.len() as int, running.len() as int) =~= after.1);
        assert forall|c: int| 0 <= c < after.1.len() implies among(busy, busy.len() as int, (#[trigger] after.1[c]).0) by {
            assert(running.contains(after.1[c]));
            let x = choose|x: int| 0 <= x < running.len() && running[x] == after.1[c];
            assert(among(busy, busy.len() as int, running[x].0));
        }
        lemma_wait_goes_on(schedules, precedents, rank, after.0, after.1, busy, time);
        crate::serial_validity::lemma_wait_sound(schedules, precedents, after.0, after.1, busy, time);
        let ready = wait(after.0, after.1, busy, time);
        let state = ready->0;
        let next = Shop { time: state.2, graph: state.0, busy, running: state.1, schedules };
        let i = choose|i: int| 0 <= i < busy.len() && #[trigger] busy[i] == least;
        assert(busy[i] <= next.time);
        assert(in_hand(pt, precedents, next));
        assert(going(pt, precedents, next, counter + 1));
        lemma_run_complete(pt, precedents, rank, next, counter + 1, n);
        assert(run(pt, shop, counter, n) == run(pt, next, counter + 1, n));
    }
}

/// The serial schedule heuristic runs every job where the precedence
/// constraints can be met: where every precedent is a job, no job lists a
/// precedent twice, and the jobs can be ranked so that every job ranks
/// above its precedents.
pub proof fn lemma_serial_schedules_complete(pt: Seq<Seq<int>>, precedents: Seq<Seq<int>>, rank: Seq<int>, j: int)
    requires
        pt.len() > 0,
        precedents.len() == pt[0].len(),
        time_table(pt, pt[0].len() as int),
        orderly(precedents, rank),
        0 <= j < precedents.len(),
    ensures
        has_run(serial_schedules(pt, precedents), j),
{
    let n = pt[0].len() as int;
    let none = empty_schedules(pt.len());
    let g = Graph { available: free_jobs(precedents, n), rows: precedents };
    let shop = Shop {
        time: 0,
        graph: g,
        busy: Seq::new(pt.len(), |i: int| 0int),
        running: Seq::empty(),
        schedules: none,
    };
    assert forall|x: int| !has_run(none, x) by {
        if has_run(none, x) {
            let (i, k) = choose|i: int, k: int| is_run(none, i, k) && (#[trigger] run_at(none, i, k)).job == x;
            assert(false);
        }
    }
    assert forall|i: int| 0 <= i < none.len() implies crate::schedule::well_ordered(#[trigger] none[i]) by {}
    crate::unrelated_machines::lemma_free_jobs(precedents, n);
    crate::serial_validity::lemma_free(precedents, n);
    assert forall|x: int, t: int|
        0 <= x < n && !has_run(none, x) && 0 <= t < precedents[x].len() implies g.rows[x].contains(
        #[trigger] precedents[x][t],
    ) || done_by(none, precedents[x][t], 0) by {
        assert(precedents[x][t] == precedents[x][t]);
    }
    assert(in_hand(pt, precedents, shop));
    assert forall|x: int| 0 <= x < n && !has_run(none, x) && (#[trigger] g.rows[x]).len() == 0 implies g.available.contains(
        x,
    ) by {
        lemma_free_all(precedents, n, x);
    }
    assert forall|x: int, a: int| 0 <= x < n && 0 <= a < g.rows[x].len() implies precedents[x].contains(
        #[trigger] g.rows[x][a],
    ) by {
        assert(precedents[x][a] == g.rows[x][a]);
    }
    let flags = started(none, n);
    assert forall|x: int| 0 <= x < n implies !flags[x] by {}
    crate::single_machine::tardy_bound::lemma_count_none(flags, n);
    // the job of the lowest rank has no precedents
    lemma_lowest(flags, rank, n);
    let first = lowest(flags, rank, n);
    assert(first >= 0) by {
        if first < 0 {
            assert(flags[0]);
        }
    }
    if precedents[first].len() > 0 {
        let q = precedents[first][0];
        assert(0 <= precedents[first][0] < n && rank[precedents[first][0]] < rank[first]);
        assert(!flags[q]);
        assert(false);
    }
    lemma_free_all(precedents, n, first);
    assert(shop.busy[0] <= shop.time);
    assert(going(pt, precedents, shop, 0));
    lemma_run_complete(pt, precedents, rank, shop, 0, n);
}

} // verus!
