//! What the schedules of the serial schedule heuristic are good for: no
//! machine runs two jobs at once, no job runs twice, and no job starts
//! before the jobs it has to wait for have completed.

use vstd::prelude::*;

use crate::schedule::{well_ordered, Run};
use crate::unrelated_machines::{
    among, busy_beyond, completed_row, empty_schedules, fastest_machine, free_jobs, graph_completed, graph_of,
    graph_running, idle_at, later_time, least_time, lemma_busy_beyond, lemma_free_jobs, lemma_graph_steps,
    lemma_later_time, lemma_picks, next_pick, position_from, released, retire, run, serial_schedules, shortest_job,
    time_table, wait, widest_job, without, Graph, Shop,
};

verus! {

/// The `k`-th run of machine `i`.
pub open spec fn run_at(schedules: Seq<Seq<Run>>, i: int, k: int) -> Run {
    schedules[i][k]
}

/// Machine `i` has a `k`-th run.
pub open spec fn is_run(schedules: Seq<Seq<Run>>, i: int, k: int) -> bool {
    0 <= i < schedules.len() && 0 <= k < schedules[i].len()
}

/// Job `q` has a run that is over by `time`.
pub open spec fn done_by(schedules: Seq<Seq<Run>>, q: int, time: int) -> bool {
    exists|i: int, k: int|
        is_run(schedules, i, k) && (#[trigger] run_at(schedules, i, k)).job == q && run_at(schedules, i, k).end() <= time
}

/// Job `q` has a run.
pub open spec fn has_run(schedules: Seq<Seq<Run>>, q: int) -> bool {
    exists|i: int, k: int| is_run(schedules, i, k) && (#[trigger] run_at(schedules, i, k)).job == q
}

/// The schedules are valid for the times `pt` and the precedence
/// constraints `precedents`: every machine runs one job at a time, each for
/// the time the machine takes for it and none before time zero; no job
/// runs twice; and every job starts only when each of its precedents has a
/// run that is over.
pub open spec fn valid_schedules(schedules: Seq<Seq<Run>>, pt: Seq<Seq<int>>, precedents: Seq<Seq<int>>) -> bool {
    &&& schedules.len() == pt.len()
    &&& forall|i: int| 0 <= i < schedules.len() ==> well_ordered(#[trigger] schedules[i])
    &&& forall|i: int, k: int|
        is_run(schedules, i, k) ==> {
            let r = #[trigger] run_at(schedules, i, k);
            &&& 0 <= r.job < precedents.len()
            &&& r.duration == pt[i][r.job]
            &&& r.start >= 0
        }
    &&& forall|i: int, k: int, i2: int, k2: int|
        is_run(schedules, i, k) && is_run(schedules, i2, k2) && (i != i2 || k != k2) ==> (#[trigger] run_at(
            schedules,
            i,
            k,
        )).job != (#[trigger] run_at(schedules, i2, k2)).job
    &&& forall|i: int, k: int, t: int|
        is_run(schedules, i, k) && 0 <= t < precedents[run_at(schedules, i, k).job].len() ==> done_by(
            schedules,
            #[trigger] precedents[(#[trigger] run_at(schedules, i, k)).job][t],
            run_at(schedules, i, k).start,
        )
}

/// No item of the sequence occurs twice.
pub open spec fn no_repeats(s: Seq<int>) -> bool {
    forall|a: int, b: int| 0 <= a < b < s.len() ==> #[trigger] s[a] != #[trigger] s[b]
}

/// What holds of the graph while the heuristic runs: only jobs without
/// precedents left are available, and none twice; a job that has a run has
/// itself as its only precedent; and of a job that has no run every
/// precedent is still on its list or has a run that is over.
pub open spec fn sound(schedules: Seq<Seq<Run>>, precedents: Seq<Seq<int>>, g: Graph, time: int) -> bool {
    let n = precedents.len() as int;
    &&& graph_of(g, n)
    &&& no_repeats(g.available)
    &&& forall|a: int| 0 <= a < g.available.len() ==> g.rows[#[trigger] g.available[a]].len() == 0
    &&& forall|j: int| 0 <= j < n && has_run(schedules, j) ==> #[trigger] g.rows[j] == seq![j]
    &&& forall|j: int, t: int|
        0 <= j < n && !has_run(schedules, j) && 0 <= t < precedents[j].len() ==> g.rows[j].contains(
            #[trigger] precedents[j][t],
        ) || done_by(schedules, precedents[j][t], time)
}

/// Every running job is a job and has a run that is over when the job is
/// due to complete.
pub open spec fn running_jobs(schedules: Seq<Seq<Run>>, n: int, running: Seq<(int, int)>) -> bool {
    forall|c: int|
        0 <= c < running.len() ==> 0 <= (#[trigger] running[c]).1 < n && done_by(schedules, running[c].1, running[c].0)
}

/// Taking the first `x` out of a sequence leaves the other items in it,
/// and none that was not.
pub proof fn lemma_without(s: Seq<int>, x: int)
    ensures
        forall|y: int| y != x && s.contains(y) ==> without(s, x).contains(y),
        forall|a: int| 0 <= a < without(s, x).len() ==> s.contains(#[trigger] without(s, x)[a]),
        no_repeats(s) ==> no_repeats(without(s, x)) && !without(s, x).contains(x),
        without(s, x).len() <= s.len(),
{
    lemma_position(s, x, 0);
    let found = position_from(s, x, 0);
    let t = without(s, x);
    if found is Some {
        let i = found->0;
        assert forall|y: int| y != x && s.contains(y) implies t.contains(y) by {
            let a = choose|a: int| 0 <= a < s.len() && s[a] == y;
            if a == s.len() - 1 {
                assert(t[i] == y);
            } else {
                assert(t[a] == y);
            }
        }
        assert forall|a: int| 0 <= a < t.len() implies s.contains(#[trigger] t[a]) by {
            if a == i {
                assert(s[s.len() - 1] == t[a]);
            } else {
                assert(s[a] == t[a]);
            }
        }
        if no_repeats(s) {
            assert forall|a: int, b: int| 0 <= a < b < t.len() implies #[trigger] t[a] != #[trigger] t[b] by {
                let pa = if a == i { s.len() - 1 } else { a };
                let pb = if b == i { s.len() - 1 } else { b };
                assert(t[a] == s[pa] && t[b] == s[pb]);
                if pa < pb {
                    assert(s[pa] != s[pb]);
                } else {
                    assert(s[pb] != s[pa]);
                }
            }
            if t.contains(x) {
                let a = choose|a: int| 0 <= a < t.len() && t[a] == x;
                let pa = if a == i { s.len() - 1 } else { a };
                assert(t[a] == s[pa]);
                if pa < i {
                    assert(s[pa] != s[i]);
                } else {
                    assert(s[i] != s[pa]);
                }
            }
        }
    } else {
        lemma_position_none(s, x, 0);
    }
}

pub proof fn lemma_position(s: Seq<int>, x: int, i: int)
    requires
        0 <= i,
    ensures
        position_from(s, x, i) is Some ==> i <= position_from(s, x, i)->0 < s.len() && s[position_from(s, x, i)->0] == x,
    decreases s.len() - i,
{
    if i < s.len() && s[i] != x {
        lemma_position(s, x, i + 1);
    }
}

proof fn lemma_position_none(s: Seq<int>, x: int, i: int)
    requires
        0 <= i,
        position_from(s, x, i) is None,
    ensures
        forall|a: int| i <= a < s.len() ==> s[a] != x,
    decreases s.len() - i,
{
    if i < s.len() {
        lemma_position_none(s, x, i + 1);
    }
}

/// What `released` lists: the jobs below `k`, other than `job`, whose list
/// of precedents was not empty and is once `job` is taken off it; each
/// once, in the order of their indices.
pub proof fn lemma_released(rows: Seq<Seq<int>>, job: int, k: int)
    requires
        0 <= k,
    ensures
        forall|a: int|
            0 <= a < released(rows, job, k).len() ==> {
                let i = #[trigger] released(rows, job, k)[a];
                &&& 0 <= i < k
                &&& i != job
                &&& rows[i].len() > 0
                &&& without(rows[i], job).len() == 0
            },
        forall|a: int, b: int|
            0 <= a < b < released(rows, job, k).len() ==> #[trigger] released(rows, job, k)[a] < #[trigger] released(
                rows,
                job,
                k,
            )[b],
    decreases k,
{
    if k > 0 {
        lemma_released(rows, job, k - 1);
        let before = released(rows, job, k - 1);
        let all = released(rows, job, k);
        assert forall|a: int| 0 <= a < all.len() implies {
            let i = #[trigger] all[a];
            &&& 0 <= i < k
            &&& i != job
            &&& rows[i].len() > 0
            &&& without(rows[i], job).len() == 0
        } by {
            if a < before.len() {
                assert(all[a] == before[a]);
            }
        }
        assert forall|a: int, b: int| 0 <= a < b < all.len() implies #[trigger] all[a] < #[trigger] all[b] by {
            assert(all[a] == before[a]);
            if b < before.len() {
                assert(all[b] == before[b]);
            }
        }
    }
}

/// A run that is over is over later too.
pub proof fn lemma_done_later(schedules: Seq<Seq<Run>>, q: int, time: int, later: int)
    requires
        done_by(schedules, q, time),
        time <= later,
    ensures
        done_by(schedules, q, later),
        has_run(schedules, q),
{
    let (i, k) = choose|i: int, k: int|
        is_run(schedules, i, k) && (#[trigger] run_at(schedules, i, k)).job == q && run_at(schedules, i, k).end() <= time;
    assert(is_run(schedules, i, k) && run_at(schedules, i, k).job == q && run_at(schedules, i, k).end() <= later);
}

/// The graph stays sound as time goes by.
pub proof fn lemma_sound_later(schedules: Seq<Seq<Run>>, precedents: Seq<Seq<int>>, g: Graph, time: int, later: int)
    requires
        sound(schedules, precedents, g, time),
        time <= later,
    ensures
        sound(schedules, precedents, g, later),
{
    let n = precedents.len() as int;
    assert forall|j: int, t: int|
        0 <= j < n && !has_run(schedules, j) && 0 <= t < precedents[j].len() implies g.rows[j].contains(
        #[trigger] precedents[j][t],
    ) || done_by(schedules, precedents[j][t], later) by {
        if !g.rows[j].contains(precedents[j][t]) {
            lemma_done_later(schedules, precedents[j][t], time, later);
        }
    }
}

/// The graph stays sound when a job completes whose run is over.
pub proof fn lemma_completed_sound(schedules: Seq<Seq<Run>>, precedents: Seq<Seq<int>>, g: Graph, time: int, x: int)
    requires
        sound(schedules, precedents, g, time),
        0 <= x < precedents.len(),
        done_by(schedules, x, time),
    ensures
        sound(schedules, precedents, graph_completed(g, x), time),
{
    let n = precedents.len() as int;
    let after = graph_completed(g, x);
    lemma_graph_steps(g, x, n);
    lemma_done_later(schedules, x, time, time);
    assert(g.rows[x] == seq![x]);
    assert(seq![x].len() == 1);
    let kept = without(g.available, x);
    let freed = released(g.rows, x, n);
    lemma_without(g.available, x);
    lemma_released(g.rows, x, n);
    assert(after.available == kept + freed);
    assert forall|a: int| 0 <= a < after.available.len() implies after.rows[#[trigger] after.available[a]].len() == 0 by {
        let i = after.available[a];
        if a < kept.len() {
            assert(i == kept[a]);
            assert(g.available.contains(kept[a]));
            let b = choose|b: int| 0 <= b < g.available.len() && g.available[b] == i;
            assert(g.rows[g.available[b]].len() == 0);
            assert(position_from(g.rows[i], x, 0) is None);
        } else {
            assert(i == freed[a - kept.len()]);
        }
    }
    assert forall|a: int, b: int| 0 <= a < b < after.available.len() implies #[trigger] after.available[a]
        != #[trigger] after.available[b] by {
        if b < kept.len() {
            assert(after.available[a] == kept[a] && after.available[b] == kept[b]);
        } else if a < kept.len() {
            assert(after.available[a] == kept[a]);
            assert(after.available[b] == freed[b - kept.len()]);
            assert(g.available.contains(kept[a]));
            let c = choose|c: int| 0 <= c < g.available.len() && g.available[c] == kept[a];
            assert(g.rows[g.available[c]].len() == 0);
        } else {
            assert(after.available[a] == freed[a - kept.len()]);
            assert(after.available[b] == freed[b - kept.len()]);
        }
    }
    assert forall|j: int| 0 <= j < n && has_run(schedules, j) implies #[trigger] after.rows[j] == seq![j] by {
        if j != x {
            assert(g.rows[j] == seq![j]);
            let row = seq![j];
            assert(row[0] == j);
            assert(position_from(row, x, 1) is None);
            assert(position_from(row, x, 0) is None);
        }
    }
    assert forall|j: int, t: int|
        0 <= j < n && !has_run(schedules, j) && 0 <= t < precedents[j].len() implies after.rows[j].contains(
        #[trigger] precedents[j][t],
    ) || done_by(schedules, precedents[j][t], time) by {
        let q = precedents[j][t];
        assert(j != x);
        if q != x && !done_by(schedules, q, time) {
            assert(g.rows[j].contains(q));
            lemma_without(g.rows[j], x);
        }
    }
}

/// The graph stays sound, and the running jobs stay running jobs, when
/// those that are over complete.
pub proof fn lemma_retire_sound(
    schedules: Seq<Seq<Run>>,
    precedents: Seq<Seq<int>>,
    g: Graph,
    running: Seq<(int, int)>,
    time: int,
    k: int,
)
    requires
        sound(schedules, precedents, g, time),
        running_jobs(schedules, precedents.len() as int, running),
        0 <= k <= running.len(),
    ensures
        sound(schedules, precedents, retire(g, running, time, k).0, time),
        running_jobs(schedules, precedents.len() as int, retire(g, running, time, k).1),
    decreases k,
{
    if k > 0 {
        lemma_retire_sound(schedules, precedents, g, running, time, k - 1);
        let before = retire(g, running, time, k - 1);
        let c = running[k - 1];
        assert(0 <= c.1 < precedents.len() && done_by(schedules, c.1, c.0));
        if c.0 <= time {
            lemma_done_later(schedules, c.1, c.0, time);
            lemma_completed_sound(schedules, precedents, before.0, time, c.1);
        } else {
            let kept = before.1.push(c);
            assert forall|a: int| 0 <= a < kept.len() implies 0 <= (#[trigger] kept[a]).1 < precedents.len() && done_by(
                schedules,
                kept[a].1,
                kept[a].0,
            ) by {
                if a < before.1.len() {
                    assert(kept[a] == before.1[a]);
                }
            }
        }
    }
}

/// The graph is sound, and the running jobs are running jobs, when the
/// heuristic has waited for a job to be available.
pub proof fn lemma_wait_sound(
    schedules: Seq<Seq<Run>>,
    precedents: Seq<Seq<int>>,
    g: Graph,
    running: Seq<(int, int)>,
    busy: Seq<int>,
    time: int,
)
    requires
        sound(schedules, precedents, g, time),
        running_jobs(schedules, precedents.len() as int, running),
    ensures
        wait(g, running, busy, time) is Some ==> {
            let state = wait(g, running, busy, time)->0;
            &&& sound(schedules, precedents, state.0, state.2)
            &&& running_jobs(schedules, precedents.len() as int, state.1)
            &&& state.2 >= time
            &&& state.0.available.len() > 0
        },
    decreases busy_beyond(busy, time, busy.len() as int),
{
    if g.available.len() == 0 {
        let next = later_time(busy, time, busy.len() as int);
        if next is Some {
            lemma_later_time(busy, time, busy.len() as int);
            lemma_busy_beyond(busy, time, next->0, busy.len() as int);
            let w = choose|a: int| 0 <= a < busy.len() && #[trigger] busy[a] == next->0;
            assert(time < busy[w] <= next->0);
            lemma_sound_later(schedules, precedents, g, time, next->0);
            lemma_retire_sound(schedules, precedents, g, running, next->0, running.len() as int);
            let after = retire(g, running, next->0, running.len() as int);
            lemma_wait_sound(schedules, precedents, after.0, after.1, busy, next->0);
        }
    }
}

/// What holds of the shop while the heuristic runs: the schedules made so
/// far are valid and over on each machine by the time until which the
/// machine is busy, the time is not negative, the graph is sound, and the
/// running jobs are running jobs.
pub open spec fn in_hand(pt: Seq<Seq<int>>, precedents: Seq<Seq<int>>, shop: Shop) -> bool {
    &&& valid_schedules(shop.schedules, pt, precedents)
    &&& shop.busy.len() == pt.len()
    &&& forall|i: int, k: int|
        is_run(shop.schedules, i, k) ==> (#[trigger] run_at(shop.schedules, i, k)).end() <= shop.busy[i]
    &&& shop.time >= 0
    &&& sound(shop.schedules, precedents, shop.graph, shop.time)
    &&& running_jobs(shop.schedules, precedents.len() as int, shop.running)
}

/// What `idle_at` lists: machines below `k` that are not busy beyond `time`.
pub proof fn lemma_idle(busy: Seq<int>, time: int, k: int)
    requires
        0 <= k,
    ensures
        forall|a: int|
            0 <= a < idle_at(busy, time, k).len() ==> 0 <= #[trigger] idle_at(busy, time, k)[a] < k && busy[idle_at(
                busy,
                time,
                k,
            )[a]] <= time,
    decreases k,
{
    if k > 0 {
        lemma_idle(busy, time, k - 1);
        let before = idle_at(busy, time, k - 1);
        let all = idle_at(busy, time, k);
        assert forall|a: int| 0 <= a < all.len() implies 0 <= #[trigger] all[a] < k && busy[all[a]] <= time by {
            if a < before.len() {
                assert(all[a] == before[a]);
            }
        }
    }
}

/// The schedules with one more run on one machine.
pub open spec fn with_run(schedules: Seq<Seq<Run>>, machine: int, f: Run) -> Seq<Seq<Run>> {
    schedules.update(machine, schedules[machine].push(f))
}

/// A run more on a machine leaves the other runs where they are.
pub proof fn lemma_with_run(schedules: Seq<Seq<Run>>, machine: int, f: Run)
    requires
        0 <= machine < schedules.len(),
    ensures
        with_run(schedules, machine, f).len() == schedules.len(),
        forall|i: int, k: int|
            is_run(schedules, i, k) ==> is_run(with_run(schedules, machine, f), i, k) && #[trigger] run_at(
                with_run(schedules, machine, f),
                i,
                k,
            ) == run_at(schedules, i, k),
        is_run(with_run(schedules, machine, f), machine, schedules[machine].len() as int),
        run_at(with_run(schedules, machine, f), machine, schedules[machine].len() as int) == f,
        forall|i: int, k: int|
            is_run(with_run(schedules, machine, f), i, k) ==> is_run(schedules, i, k) || (i == machine && k
                == schedules[machine].len()),
        forall|q: int, time: int| done_by(schedules, q, time) ==> done_by(with_run(schedules, machine, f), q, time),
        forall|q: int| has_run(with_run(schedules, machine, f), q) ==> has_run(schedules, q) || q == f.job,
        has_run(with_run(schedules, machine, f), f.job),
        done_by(with_run(schedules, machine, f), f.job, f.end()),
{
    let more = with_run(schedules, machine, f);
    let len = schedules[machine].len() as int;
    assert forall|i: int, k: int| is_run(schedules, i, k) implies is_run(more, i, k) && #[trigger] run_at(more, i, k)
        == run_at(schedules, i, k) by {}
    assert(is_run(more, machine, len) && run_at(more, machine, len) == f);
    assert forall|q: int, time: int| done_by(schedules, q, time) implies done_by(more, q, time) by {
        let (i, k) = choose|i: int, k: int|
            is_run(schedules, i, k) && (#[trigger] run_at(schedules, i, k)).job == q && run_at(schedules, i, k).end()
                <= time;
        assert(is_run(more, i, k) && run_at(more, i, k).job == q && run_at(more, i, k).end() <= time);
    }
    assert forall|q: int| has_run(more, q) implies has_run(schedules, q) || q == f.job by {
        let (i, k) = choose|i: int, k: int| is_run(more, i, k) && (#[trigger] run_at(more, i, k)).job == q;
        if !(i == machine && k == len) {
            assert(is_run(schedules, i, k) && run_at(schedules, i, k).job == q);
        }
    }
}

/// Starting the next pick leaves the shop in hand: the schedules with the
/// new run are valid, and the graph with the job running is sound.
pub proof fn lemma_start_valid(pt: Seq<Seq<int>>, precedents: Seq<Seq<int>>, shop: Shop, machine: int, job: int)
    requires
        in_hand(pt, precedents, shop),
        time_table(pt, precedents.len() as int),
        0 <= machine < pt.len(),
        shop.busy[machine] <= shop.time,
        among(shop.graph.available, shop.graph.available.len() as int, job),
    ensures
        ({
            let f = Run { start: shop.time, job, duration: pt[machine][job] };
            let schedules = with_run(shop.schedules, machine, f);
            let busy = shop.busy.update(machine, f.end());
            &&& valid_schedules(schedules, pt, precedents)
            &&& forall|i: int, k: int| is_run(schedules, i, k) ==> (#[trigger] run_at(schedules, i, k)).end() <= busy[i]
            &&& sound(schedules, precedents, graph_running(shop.graph, job), shop.time)
            &&& running_jobs(schedules, precedents.len() as int, shop.running.push((f.end(), job)))
            &&& 0 <= job < precedents.len()
        }),
{
    let n = precedents.len() as int;
    let g = shop.graph;
    let old = shop.schedules;
    let f = Run { start: shop.time, job, duration: pt[machine][job] };
    let schedules = with_run(old, machine, f);
    let busy = shop.busy.update(machine, f.end());
    let len = old[machine].len() as int;
    let a = choose|a: int| 0 <= a < g.available.len() && #[trigger] g.available[a] == job;
    assert(0 <= g.available[a] < n);
    assert(g.rows[g.available[a]].len() == 0);
    assert(!has_run(old, job)) by {
        if has_run(old, job) {
            assert(g.rows[job] == seq![job]);
            assert(seq![job].len() == 1);
        }
    }
    assert(pt[machine][job] >= 0);
    lemma_with_run(old, machine, f);
    // every machine runs one job at a time
    assert forall|i: int| 0 <= i < schedules.len() implies well_ordered(#[trigger] schedules[i]) by {
        if i == machine {
            let runs = schedules[machine];
            assert(well_ordered(old[machine]));
            assert forall|k: int| 0 <= k < runs.len() implies (#[trigger] runs[k]).duration >= 0 by {
                if k < len {
                    assert(runs[k] == old[machine][k]);
                }
            }
            assert forall|k: int| 0 <= k < runs.len() - 1 implies #[trigger] runs[k].end() <= runs[k + 1].start by {
                assert(runs[k] == old[machine][k]);
                if k + 1 < len {
                    assert(runs[k + 1] == old[machine][k + 1]);
                } else {
                    assert(is_run(old, machine, k));
                    assert(run_at(old, machine, k).end() <= shop.busy[machine]);
                }
            }
        } else {
            assert(schedules[i] == old[i]);
        }
    }
    assert forall|i: int, k: int| is_run(schedules, i, k) implies {
        let r = #[trigger] run_at(schedules, i, k);
        &&& 0 <= r.job < precedents.len()
        &&& r.duration == pt[i][r.job]
        &&& r.start >= 0
        &&& r.end() <= busy[i]
    } by {
        if is_run(old, i, k) {
            assert(run_at(schedules, i, k) == run_at(old, i, k));
            assert(run_at(old, i, k).end() <= shop.busy[i]);
        }
    }
    assert forall|i: int, k: int, i2: int, k2: int|
        is_run(schedules, i, k) && is_run(schedules, i2, k2) && (i != i2 || k != k2) implies (#[trigger] run_at(
        schedules,
        i,
        k,
    )).job != (#[trigger] run_at(schedules, i2, k2)).job by {
        if is_run(old, i, k) && is_run(old, i2, k2) {
            assert(run_at(schedules, i, k) == run_at(old, i, k));
            assert(run_at(schedules, i2, k2) == run_at(old, i2, k2));
        } else if is_run(old, i, k) {
            assert(run_at(schedules, i, k) == run_at(old, i, k));
            assert(has_run(old, run_at(old, i, k).job));
        } else {
            assert(run_at(schedules, i2, k2) == run_at(old, i2, k2));
            assert(has_run(old, run_at(old, i2, k2).job));
        }
    }
    assert forall|i: int, k: int, t: int|
        is_run(schedules, i, k) && 0 <= t < precedents[run_at(schedules, i, k).job].len() implies done_by(
        schedules,
        #[trigger] precedents[(#[trigger] run_at(schedules, i, k)).job][t],
        run_at(schedules, i, k).start,
    ) by {
        if is_run(old, i, k) {
            assert(run_at(schedules, i, k) == run_at(old, i, k));
            assert(done_by(old, precedents[run_at(old, i, k).job][t], run_at(old, i, k).start));
        } else {
            assert(run_at(schedules, i, k) == f);
            assert(g.rows[job].contains(precedents[job][t]) || done_by(old, precedents[job][t], shop.time));
        }
    }
    // the graph with the job running
    let after = graph_running(g, job);
    lemma_graph_steps(g, job, n);
    lemma_without(g.available, job);
    assert forall|b: int| 0 <= b < after.available.len() implies after.rows[#[trigger] after.available[b]].len() == 0 by {
        let i = after.available[b];
        assert(g.available.contains(i));
        let c = choose|c: int| 0 <= c < g.available.len() && g.available[c] == i;
        assert(g.rows[g.available[c]].len() == 0);
        assert(after.available.contains(i));
    }
    assert forall|j: int| 0 <= j < n && has_run(schedules, j) implies #[trigger] after.rows[j] == seq![j] by {
        if j != job {
            assert(has_run(old, j));
            assert(g.rows[j] == seq![j]);
        }
    }
    assert forall|j: int, t: int|
        0 <= j < n && !has_run(schedules, j) && 0 <= t < precedents[j].len() implies after.rows[j].contains(
        #[trigger] precedents[j][t],
    ) || done_by(schedules, precedents[j][t], shop.time) by {
        assert(j != job);
        if has_run(old, j) {
            let (i, k) = choose|i: int, k: int| is_run(old, i, k) && (#[trigger] run_at(old, i, k)).job == j;
            assert(is_run(schedules, i, k) && run_at(schedules, i, k).job == j);
        }
        assert(g.rows[j].contains(precedents[j][t]) || done_by(old, precedents[j][t], shop.time));
    }
    let running = shop.running.push((f.end(), job));
    assert forall|c: int| 0 <= c < running.len() implies 0 <= (#[trigger] running[c]).1 < n && done_by(
        schedules,
        running[c].1,
        running[c].0,
    ) by {
        if c < shop.running.len() {
            assert(running[c] == shop.running[c]);
            assert(done_by(old, shop.running[c].1, shop.running[c].0));
        }
    }
}

/// The heuristic goes on from a shop in hand to valid schedules.
pub proof fn lemma_run_valid(pt: Seq<Seq<int>>, precedents: Seq<Seq<int>>, shop: Shop, counter: int, n: int)
    requires
        in_hand(pt, precedents, shop),
        n == precedents.len(),
        time_table(pt, n),
    ensures
        valid_schedules(run(pt, shop, counter, n), pt, precedents),
    decreases n - counter,
{
    let m = shop.busy.len() as int;
    let idle = idle_at(shop.busy, shop.time, m);
    let available = shop.graph.available;
    if !(counter >= n || idle.len() == 0 || available.len() == 0) {
        let pick = next_pick(pt, idle, available);
        lemma_idle(shop.busy, shop.time, m);
        lemma_picks(pt, pt[idle[0]], idle, available, pick.1, available.len() as int);
        lemma_picks(pt, pt[idle[0]], idle, available, pick.1, idle.len() as int);
        assert(among(idle, idle.len() as int, pick.0)) by {
            if idle.len() == 1 {
                assert(idle[0] == pick.0);
            }
        }
        assert(among(available, available.len() as int, pick.1));
        let a = choose|a: int| 0 <= a < idle.len() && #[trigger] idle[a] == pick.0;
        assert(0 <= idle[a] < m && shop.busy[idle[a]] <= shop.time);
        lemma_start_valid(pt, precedents, shop, pick.0, pick.1);
        let f = Run { start: shop.time, job: pick.1, duration: pick.2 };
        assert(pick.2 == pt[pick.0][pick.1]);
        let schedules = with_run(shop.schedules, pick.0, f);
        if counter != n - 1 {
            let end = shop.time + pick.2;
            let busy = shop.busy.update(pick.0, end);
            let free = least_time(busy, busy.len() as int);
            let time = if free > shop.time { free } else { shop.time };
            let running = shop.running.push((end, pick.1));
            let started = graph_running(shop.graph, pick.1);
            lemma_sound_later(schedules, precedents, started, shop.time, time);
            lemma_retire_sound(schedules, precedents, started, running, time, running.len() as int);
            let after = retire(started, running, time, running.len() as int);
            lemma_wait_sound(schedules, precedents, after.0, after.1, busy, time);
            let ready = wait(after.0, after.1, busy, time);
            if ready is Some {
                let state = ready->0;
                let next = Shop { time: state.2, graph: state.0, busy, running: state.1, schedules };
                lemma_run_valid(pt, precedents, next, counter + 1, n);
            }
        }
    }
}

/// The serial schedule heuristic gives valid schedules: every machine runs
/// one job at a time, each for the time the machine takes for it; no job
/// runs twice; and no job starts before each of its precedents has
/// completed.
pub proof fn lemma_serial_schedules_valid(pt: Seq<Seq<int>>, precedents: Seq<Seq<int>>)
    requires
        pt.len() > 0 ==> precedents.len() == pt[0].len() && time_table(pt, pt[0].len() as int),
    ensures
        valid_schedules(serial_schedules(pt, precedents), pt, precedents),
{
    if pt.len() == 0 {
    } else if pt[0].len() == 0 {
        let none = empty_schedules(pt.len());
        assert forall|i: int| 0 <= i < none.len() implies well_ordered(#[trigger] none[i]) by {}
    } else {
        let n = pt[0].len() as int;
        let none = empty_schedules(pt.len());
        let shop = Shop {
            time: 0,
            graph: Graph { available: free_jobs(precedents, n), rows: precedents },
            busy: Seq::new(pt.len(), |i: int| 0int),
            running: Seq::empty(),
            schedules: none,
        };
        assert forall|i: int| 0 <= i < none.len() implies well_ordered(#[trigger] none[i]) by {}
        assert forall|j: int| !has_run(none, j) by {
            if has_run(none, j) {
                let (i, k) = choose|i: int, k: int| is_run(none, i, k) && (#[trigger] run_at(none, i, k)).job == j;
                assert(false);
            }
        }
        lemma_free_jobs(precedents, n);
        lemma_free(precedents, n);
        assert forall|j: int, t: int|
            0 <= j < n && !has_run(none, j) && 0 <= t < precedents[j].len() implies shop.graph.rows[j].contains(
            #[trigger] precedents[j][t],
        ) || done_by(none, precedents[j][t], 0) by {
            assert(precedents[j][t] == precedents[j][t]);
        }
        lemma_run_valid(pt, precedents, shop, 0, n);
    }
}

/// What `free_jobs` lists: jobs without precedents, each once.
pub proof fn lemma_free(rows: Seq<Seq<int>>, k: int)
    requires
        0 <= k,
    ensures
        forall|a: int| 0 <= a < free_jobs(rows, k).len() ==> rows[#[trigger] free_jobs(rows, k)[a]].len() == 0,
        forall|a: int| 0 <= a < free_jobs(rows, k).len() ==> 0 <= #[trigger] free_jobs(rows, k)[a] < k,
        no_repeats(free_jobs(rows, k)),
    decreases k,
{
    if k > 0 {
        lemma_free(rows, k - 1);
        let before = free_jobs(rows, k - 1);
        let all = free_jobs(rows, k);
        assert forall|a: int| 0 <= a < all.len() implies rows[#[trigger] all[a]].len() == 0 && 0 <= all[a] < k by {
            if a < before.len() {
                assert(all[a] == before[a]);
            }
        }
        assert forall|a: int, b: int| 0 <= a < b < all.len() implies #[trigger] all[a] != #[trigger] all[b] by {
            assert(all[a] == before[a]);
            if b < before.len() {
                assert(all[b] == before[b]);
            }
        }
    }
}

} // verus!
