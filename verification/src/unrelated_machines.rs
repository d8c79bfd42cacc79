//! Unrelated parallel machines with precedence constraints.

use vstd::prelude::*;

use crate::schedule::{ids, int_rows, ints, JobRun, MachineSchedule, Run};
use crate::{Job, Machine, Time};

verus! {

/// The first position at or after `i` at which `x` stands in `s`.
pub open spec fn position_from(s: Seq<int>, x: int, i: int) -> Option<int>
    decreases s.len() - i,
{
    if i < 0 || i >= s.len() {
        None
    } else if s[i] == x {
        Some(i)
    } else {
        position_from(s, x, i + 1)
    }
}

/// The sequence without its first `x`, the last item having taken its
/// place; the sequence itself where `x` does not stand in it.
pub open spec fn without(s: Seq<int>, x: int) -> Seq<int> {
    match position_from(s, x, 0) {
        Some(i) => s.update(i, s.last()).drop_last(),
        None => s,
    }
}

/// The lists of precedents, as sequences of job indices.
pub open spec fn rows_view(rows: Seq<Vec<Job>>) -> Seq<Seq<int>> {
    Seq::new(rows.len(), |i: int| ids(rows[i]@))
}

/// The jobs with an index below `k` that have no precedents, in the order
/// of their indices.
pub open spec fn free_jobs(rows: Seq<Seq<int>>, k: int) -> Seq<int>
    decreases k,
{
    if k <= 0 {
        Seq::empty()
    } else if rows[k - 1].len() == 0 {
        free_jobs(rows, k - 1).push(k - 1)
    } else {
        free_jobs(rows, k - 1)
    }
}

/// The list of precedents of job `i` after job `job` has completed: the
/// completed job keeps itself as its only precedent, so that it never
/// becomes available again; any other list loses its first `job`.
pub open spec fn completed_row(rows: Seq<Seq<int>>, job: int, i: int) -> Seq<int> {
    if i == job {
        seq![job]
    } else {
        without(rows[i], job)
    }
}

/// The jobs with an index below `k` that become available when `job`
/// completes: those other jobs whose last precedent it was.
pub open spec fn released(rows: Seq<Seq<int>>, job: int, k: int) -> Seq<int>
    decreases k,
{
    if k <= 0 {
        Seq::empty()
    } else if k - 1 != job && rows[k - 1].len() > 0 && without(rows[k - 1], job).len() == 0 {
        released(rows, job, k - 1).push(k - 1)
    } else {
        released(rows, job, k - 1)
    }
}

/// The position of the first `x` among the items.
fn find(items: &Vec<Job>, x: Job) -> (result: Option<usize>)
    ensures
        result is Some <==> position_from(ids(items@), x as int, 0) is Some,
        result is Some ==> result->0 == position_from(ids(items@), x as int, 0)->0 && result->0 < items@.len(),
{
    let ghost s = ids(items@);
    let mut i: usize = 0;
    while i < items.len()
        invariant
            s == ids(items@),
            0 <= i <= items@.len(),
            position_from(s, x as int, 0) == position_from(s, x as int, i as int),
        decreases items@.len() - i,
    {
        assert(s[i as int] == items@[i as int]);
        if items[i] == x {
            return Some(i);
        }
        i = i + 1;
    }
    None
}

/// Removes the first `x` from the items, if there is one, by putting the
/// last item in its place.
fn remove_first(items: &mut Vec<Job>, x: Job)
    ensures
        ids(final(items)@) == without(ids(old(items)@), x as int),
{
    let ghost s = ids(items@);
    match find(items, x) {
        Some(i) => {
            items.swap_remove(i);
            assert(ids(items@) =~= s.update(i as int, s.last()).drop_last());
        },
        None => {},
    }
}

/// Which jobs can start: the precedence constraints of a set of jobs,
/// reduced as jobs run and complete.
pub struct PrecedenceGraph {
    pub available: Vec<Job>,
    pub precedents: Vec<Vec<Job>>,
}

impl PrecedenceGraph {
    /// The jobs that can start now.
    pub open spec fn available_view(&self) -> Seq<int> {
        ids(self.available@)
    }

    /// For each job, the jobs that still have to complete before it can start.
    pub open spec fn precedents_view(&self) -> Seq<Seq<int>> {
        rows_view(self.precedents@)
    }

    /// The jobs that can start now.
    pub fn available_jobs(&self) -> (result: &[Job])
        ensures
            result@ == self.available@,
    {
        self.available.as_slice()
    }

    /// Marks the job as completed: it stops being available, keeps itself
    /// as its only precedent, and is taken off the list of precedents of
    /// every other job; the jobs whose last precedent it was become
    /// available, in the order of their indices.
    pub fn mark_job_completed(&mut self, job: Job)
        requires
            job < old(self).precedents@.len(),
        ensures
            final(self).precedents@.len() == old(self).precedents@.len(),
            forall|i: int|
                0 <= i < old(self).precedents@.len() ==> #[trigger] final(self).precedents_view()[i] == completed_row(
                    old(self).precedents_view(),
                    job as int,
                    i,
                ),
            final(self).available_view() == without(old(self).available_view(), job as int) + released(
                old(self).precedents_view(),
                job as int,
                old(self).precedents@.len() as int,
            ),
    {
        let ghost rows = self.precedents_view();
        let ghost started = without(self.available_view(), job as int);
        self.mark_job_running(job);
        let n = self.precedents.len();
        let mut i: usize = 0;
        assert(self.available_view() + released(rows, job as int, 0) =~= self.available_view());
        while i < n
            invariant
                n == self.precedents@.len(),
                n == rows.len(),
                job < n,
                0 <= i <= n,
                self.available_view() == started + released(rows, job as int, i as int),
                forall|k: int| 0 <= k < i ==> #[trigger] self.precedents_view()[k] == completed_row(rows, job as int, k),
                forall|k: int|
                    i <= k < n ==> #[trigger] self.precedents_view()[k] == (if k == job {
                        seq![job as int]
                    } else {
                        rows[k]
                    }),
            decreases n - i,
        {
            let ghost before = self.precedents_view();
            let ghost listed = self.available_view();
            assert(before[i as int] == ids(self.precedents@[i as int]@));
            if i != job && !self.precedents[i].is_empty() {
                let row = &mut self.precedents[i];
                remove_first(row, job);
                let now_free = row.is_empty();
                if now_free {
                    self.available.push(i);
                    assert(self.available_view() =~= listed.push(i as int));
                }
                assert(self.precedents_view()[i as int] == ids(self.precedents@[i as int]@));
                assert forall|k: int| 0 <= k < n && k != i implies #[trigger] self.precedents_view()[k] == before[k] by {
                    assert(self.precedents_view()[k] == ids(self.precedents@[k]@));
                }
                assert(started + released(rows, job as int, i as int).push(i as int) =~= (started + released(
                    rows,
                    job as int,
                    i as int,
                )).push(i as int));
            } else {
                if i != job {
                    assert(rows[i as int].len() == 0);
                    assert(position_from(rows[i as int], job as int, 0) is None);
                }
            }
            i = i + 1;
        }
    }

    /// Marks the job as running: it stops being available, now and for
    /// ever, since it becomes its own and only precedent.
    pub fn mark_job_running(&mut self, job: Job)
        requires
            job < old(self).precedents@.len(),
        ensures
            final(self).available_view() == without(old(self).available_view(), job as int),
            final(self).precedents_view() == old(self).precedents_view().update(job as int, seq![job as int]),
            final(self).precedents@.len() == old(self).precedents@.len(),
    {
        let ghost rows = self.precedents_view();
        let ghost old_rows = self.precedents@;
        remove_first(&mut self.available, job);
        let row = &mut self.precedents[job];
        row.clear();
        row.push(job);
        assert(self.precedents_view() =~= rows.update(job as int, seq![job as int])) by {
            assert forall|k: int| 0 <= k < rows.len() implies #[trigger] self.precedents_view()[k] == rows.update(
                job as int,
                seq![job as int],
            )[k] by {
                if k == job {
                    assert(ids(self.precedents@[k]@) =~= seq![job as int]);
                } else {
                    assert(self.precedents@[k] == old_rows[k]);
                }
            }
        }
    }

    /// The graph of the given precedence constraints: `precedents[i]` are
    /// the jobs that have to complete before job `i` can start. The jobs
    /// without precedents are available, in the order of their indices.
    pub fn new(precedents: Vec<Vec<Job>>) -> (result: PrecedenceGraph)
        ensures
            result.precedents@ == precedents@,
            result.available_view() == free_jobs(rows_view(precedents@), precedents@.len() as int),
    {
        let ghost rows = rows_view(precedents@);
        let mut available: Vec<Job> = Vec::new();
        let mut i: usize = 0;
        assert(ids(available@) =~= free_jobs(rows, 0));
        while i < precedents.len()
            invariant
                rows == rows_view(precedents@),
                0 <= i <= precedents@.len(),
                ids(available@) == free_jobs(rows, i as int),
            decreases precedents@.len() - i,
        {
            let ghost listed = ids(available@);
            assert(rows[i as int] == ids(precedents@[i as int]@));
            if precedents[i].is_empty() {
                available.push(i);
                assert(ids(available@) =~= listed.push(i as int));
            }
            i = i + 1;
        }
        PrecedenceGraph { available, precedents }
    }
}

/// The machines with an index below `k` that are idle at `time`, in the
/// order of their indices.
pub open spec fn idle_at(busy: Seq<int>, time: int, k: int) -> Seq<int>
    decreases k,
{
    if k <= 0 {
        Seq::empty()
    } else if busy[k - 1] <= time {
        idle_at(busy, time, k - 1).push(k - 1)
    } else {
        idle_at(busy, time, k - 1)
    }
}

/// The total time of job `j` on the first `k` machines.
pub open spec fn time_sum(pt: Seq<Seq<int>>, j: int, k: int) -> int
    decreases k,
{
    if k <= 0 {
        0
    } else {
        time_sum(pt, j, k - 1) + pt[k - 1][j]
    }
}

/// The total of the squared times of job `j` on the first `k` machines.
pub open spec fn square_sum(pt: Seq<Seq<int>>, j: int, k: int) -> int
    decreases k,
{
    if k <= 0 {
        0
    } else {
        square_sum(pt, j, k - 1) + pt[k - 1][j] * pt[k - 1][j]
    }
}

/// The spread of the times of job `j` over the machines, as the heuristic
/// measures it while `k` machines are idle: the times' squared distances
/// from their total divided by `k`, added up and divided by `k`. This is
/// that value times the cube of `k`, which orders the jobs as the value
/// does and is an integer.
pub open spec fn spread(pt: Seq<Seq<int>>, j: int, k: int) -> int {
    let m = pt.len() as int;
    k * k * square_sum(pt, j, m) - (2 * k - m) * (time_sum(pt, j, m) * time_sum(pt, j, m))
}

/// Among the first `k` available jobs, the one with the shortest time on
/// the machine; of several, the one with the smallest index.
pub open spec fn shortest_job(row: Seq<int>, available: Seq<int>, k: int) -> int
    decreases k,
{
    if k <= 1 {
        available[0]
    } else {
        let rest = shortest_job(row, available, k - 1);
        let j = available[k - 1];
        if row[j] < row[rest] || (row[j] == row[rest] && j < rest) {
            j
        } else {
            rest
        }
    }
}

/// Among the first `k` available jobs, the one with the greatest spread;
/// of several, the one that stands last.
pub open spec fn widest_job(pt: Seq<Seq<int>>, available: Seq<int>, idle: int, k: int) -> int
    decreases k,
{
    if k <= 1 {
        available[0]
    } else {
        let rest = widest_job(pt, available, idle, k - 1);
        let j = available[k - 1];
        if spread(pt, j, idle) >= spread(pt, rest, idle) {
            j
        } else {
            rest
        }
    }
}

/// Among the first `k` idle machines, the one that is fastest for the
/// job; of several, the one that stands first.
pub open spec fn fastest_machine(pt: Seq<Seq<int>>, idle: Seq<int>, job: int, k: int) -> int
    decreases k,
{
    if k <= 1 {
        idle[0]
    } else {
        let rest = fastest_machine(pt, idle, job, k - 1);
        let i = idle[k - 1];
        if pt[i][job] < pt[rest][job] {
            i
        } else {
            rest
        }
    }
}

/// The machine and the job that the heuristic starts next, and how long
/// the job takes there. With a single idle machine the job is the one that
/// is shortest on it. With several the job is the one whose times spread
/// most over the machines, and the machine the idle one that is fastest
/// for it.
pub open spec fn next_pick(pt: Seq<Seq<int>>, idle: Seq<int>, available: Seq<int>) -> (int, int, int) {
    if idle.len() == 1 {
        let machine = idle[0];
        let job = shortest_job(pt[machine], available, available.len() as int);
        (machine, job, pt[machine][job])
    } else {
        let job = widest_job(pt, available, idle.len() as int, available.len() as int);
        let machine = fastest_machine(pt, idle, job, idle.len() as int);
        (machine, job, pt[machine][job])
    }
}

/// The largest number of machines and the largest time for which the
/// spread of a job can be told within the machine's integers.
pub open spec fn spread_machines() -> int {
    0x8000
}

pub open spec fn spread_time() -> int {
    0x7fff_ffff
}

/// The times are a table with one row for each machine and at least `n`
/// times in each row, none negative.
pub open spec fn time_table(pt: Seq<Seq<int>>, n: int) -> bool {
    forall|i: int, j: int| 0 <= i < pt.len() && 0 <= j < n ==> n <= pt[i].len() && 0 <= #[trigger] pt[i][j]
}

/// The spread of every job can be told: there are no more than
/// `spread_machines()` machines, and no time exceeds `spread_time()`.
pub open spec fn spread_ready(pt: Seq<Seq<int>>, n: int) -> bool {
    &&& pt.len() <= spread_machines()
    &&& forall|i: int, j: int| 0 <= i < pt.len() && 0 <= j < n ==> #[trigger] pt[i][j] <= spread_time()
}

proof fn lemma_product_bound(a: int, b: int, top_a: int, top_b: int)
    requires
        0 <= a <= top_a,
        0 <= b <= top_b,
    ensures
        0 <= a * b <= top_a * top_b,
{
    assert(0 <= a * b <= top_a * top_b) by (nonlinear_arith)
        requires
            0 <= a <= top_a,
            0 <= b <= top_b,
    ;
}

proof fn lemma_sums_bound(pt: Seq<Seq<int>>, n: int, j: int, k: int)
    requires
        time_table(pt, n),
        spread_ready(pt, n),
        0 <= j < n,
        0 <= k <= pt.len(),
    ensures
        0 <= time_sum(pt, j, k) <= k * 0x7fff_ffff,
        0 <= square_sum(pt, j, k) <= k * 0x3fff_ffff_0000_0001,
    decreases k,
{
    if k > 0 {
        lemma_sums_bound(pt, n, j, k - 1);
        let x = pt[k - 1][j];
        assert(0 <= x <= 0x7fff_ffff) by {
            assert(0 <= pt[k - 1][j]);
            assert(pt[k - 1][j] <= spread_time());
        }
        lemma_product_bound(x, x, 0x7fff_ffff, 0x7fff_ffff);
        assert(0x7fff_ffffint * 0x7fff_ffffint == 0x3fff_ffff_0000_0001int);
    }
}

/// The spread of the times of the job over the machines while `idle`
/// machines are idle.
fn spread_of(processing_times: &[Vec<Time>], job: Job, idle: usize, n: usize) -> (result: i128)
    requires
        time_table(int_rows(processing_times@), n as int),
        spread_ready(int_rows(processing_times@), n as int),
        0 <= job < n,
        0 <= idle <= processing_times@.len(),
    ensures
        result == spread(int_rows(processing_times@), job as int, idle as int),
{
    let ghost pt = int_rows(processing_times@);
    let m = processing_times.len();
    let mut sum: i128 = 0;
    let mut squares: i128 = 0;
    let mut i: usize = 0;
    while i < m
        invariant
            pt == int_rows(processing_times@),
            m == processing_times@.len(),
            time_table(pt, n as int),
            spread_ready(pt, n as int),
            0 <= job < n,
            0 <= i <= m,
            sum == time_sum(pt, job as int, i as int),
            squares == square_sum(pt, job as int, i as int),
        decreases m - i,
    {
        proof {
            lemma_sums_bound(pt, n as int, job as int, i as int);
            lemma_sums_bound(pt, n as int, job as int, i + 1);
            assert(n <= pt[i as int].len() && 0 <= pt[i as int][job as int]);
            assert(pt[i as int][job as int] <= spread_time());
            assert(pt[i as int][job as int] == processing_times@[i as int]@[job as int]);
            lemma_product_bound(pt[i as int][job as int], pt[i as int][job as int], 0x7fff_ffff, 0x7fff_ffff);
            assert(0x7fff_ffffint * 0x7fff_ffffint == 0x3fff_ffff_0000_0001int);
        }
        let time = processing_times[i][job] as i128;
        sum = sum + time;
        squares = squares + time * time;
        i = i + 1;
    }
    proof {
        lemma_sums_bound(pt, n as int, job as int, m as int);
        let s = time_sum(pt, job as int, m as int);
        let q = square_sum(pt, job as int, m as int);
        lemma_product_bound(idle as int, idle as int, 0x8000, 0x8000);
        lemma_product_bound(idle * idle, q, 0x4000_0000int, 0x1fff_ffff_8000_0000_8000int);
        lemma_product_bound(s, s, 0x3fff_ffff_8000int, 0x3fff_ffff_8000int);
        assert(0x8000int * 0x8000int == 0x4000_0000int);
        assert(0x4000_0000int * (0x8000int * 0x3fff_ffff_0000_0001int) < 0x1_0000_0000_0000_0000_0000_0000_0000int)
           ;
        assert((0x8000int * 0x7fff_ffffint) * (0x8000int * 0x7fff_ffffint) < 0x1000_0000_0000_0000_0000_0000int)
           ;
        assert(-0x8000 <= 2 * idle - m <= 0x1_0000);
        lemma_signed_product_bound(2 * idle - m, s * s, 0x1_0000, 0x1000_0000_0000_0000_0000_0000);
        assert(0x1_0000int * 0x1000_0000_0000_0000_0000_0000int == 0x1000_0000_0000_0000_0000_0000_0000int)
           ;
    }
    let k = idle as i128;
    let factor = 2 * k - (m as i128);
    let square = sum * sum;
    k * k * squares - factor * square
}

proof fn lemma_signed_product_bound(a: int, b: int, top_a: int, top_b: int)
    requires
        -top_a <= a <= top_a,
        0 <= b <= top_b,
    ensures
        -(top_a * top_b) <= a * b <= top_a * top_b,
{
    assert(-(top_a * top_b) <= a * b <= top_a * top_b) by (nonlinear_arith)
        requires
            -top_a <= a <= top_a,
            0 <= b <= top_b,
    ;
}

/// `x` is among the first `k` items.
pub open spec fn among(s: Seq<int>, k: int, x: int) -> bool {
    exists|a: int| 0 <= a < k && #[trigger] s[a] == x
}

/// What `shortest_job` and `widest_job` return is one of the available
/// jobs, and what `fastest_machine` returns one of the idle machines.
pub proof fn lemma_picks(pt: Seq<Seq<int>>, row: Seq<int>, idle: Seq<int>, available: Seq<int>, job: int, k: int)
    requires
        1 <= k,
    ensures
        k <= available.len() ==> among(available, k, shortest_job(row, available, k)),
        k <= available.len() ==> among(available, k, widest_job(pt, available, idle.len() as int, k)),
        k <= idle.len() ==> among(idle, k, fastest_machine(pt, idle, job, k)),
    decreases k,
{
    if k > 1 {
        lemma_picks(pt, row, idle, available, job, k - 1);
        if k <= available.len() {
            let short = shortest_job(row, available, k - 1);
            let a = choose|a: int| 0 <= a < k - 1 && #[trigger] available[a] == short;
            assert(available[a] == short);
            let wide = widest_job(pt, available, idle.len() as int, k - 1);
            let b = choose|a: int| 0 <= a < k - 1 && #[trigger] available[a] == wide;
            assert(available[b] == wide);
            assert(available[k - 1] == available[k - 1]);
        }
        if k <= idle.len() {
            let fast = fastest_machine(pt, idle, job, k - 1);
            let a = choose|a: int| 0 <= a < k - 1 && #[trigger] idle[a] == fast;
            assert(idle[a] == fast);
            assert(idle[k - 1] == idle[k - 1]);
        }
    } else {
        if k <= available.len() {
            assert(available[0] == available[0]);
        }
        if k <= idle.len() {
            assert(idle[0] == idle[0]);
        }
    }
}

/// The machine and the job that the heuristic starts next, and how long
/// the job takes there. With a single idle machine it is the available job
/// that is shortest on that machine (of several the one with the smallest
/// index). With several idle machines it is the available job whose times
/// spread most over the machines (of several the last), on the idle
/// machine that is fastest for it (of several the first).
pub fn serial_schedule_heuristic_pick_next(
    processing_times: &[Vec<Time>],
    idle_machines: &[Machine],
    available_jobs: &[Job],
) -> (result: (Machine, Job, Time))
    requires
        idle_machines@.len() > 0,
        available_jobs@.len() > 0,
        forall|a: int| 0 <= a < idle_machines@.len() ==> #[trigger] idle_machines@[a] < processing_times@.len(),
        forall|a: int| 0 <= a < available_jobs@.len() ==> #[trigger] available_jobs@[a] < processing_times@[0]@.len(),
        time_table(int_rows(processing_times@), processing_times@[0]@.len() as int),
        idle_machines@.len() <= processing_times@.len(),
        idle_machines@.len() > 1 ==> spread_ready(int_rows(processing_times@), processing_times@[0]@.len() as int),
    ensures
        (result.0 as int, result.1 as int, result.2 as int) == next_pick(
            int_rows(processing_times@),
            ids(idle_machines@),
            ids(available_jobs@),
        ),
        result.0 < processing_times@.len(),
        result.1 < processing_times@[0]@.len(),
        exists|a: int| 0 <= a < available_jobs@.len() && available_jobs@[a] == result.1,
        result.2 == processing_times@[result.0 as int]@[result.1 as int],
{
    let ghost pt = int_rows(processing_times@);
    let ghost idle = ids(idle_machines@);
    let ghost available = ids(available_jobs@);
    assert(idle_machines@[0] < processing_times@.len());
    let n = processing_times[0].len();
    assert(available_jobs@[0] < n);
    let count = available_jobs.len();
    let mut job = available_jobs[0];
    let machine;
    if idle_machines.len() == 1 {
        machine = idle_machines[0];
        assert(n <= pt[machine as int].len()) by {
            assert(0 <= pt[machine as int][0]);
        }
        let mut k: usize = 1;
        while k < count
            invariant
                pt == int_rows(processing_times@),
                available == ids(available_jobs@),
                count == available_jobs@.len(),
                machine < processing_times@.len(),
                n <= pt[machine as int].len(),
                forall|a: int| 0 <= a < available_jobs@.len() ==> #[trigger] available_jobs@[a] < n,
                1 <= k <= count,
                job < n,
                job == shortest_job(pt[machine as int], available, k as int),
            decreases count - k,
        {
            let other = available_jobs[k];
            assert(available[k as int] == other);
            assert(pt[machine as int][other as int] == processing_times@[machine as int]@[other as int]);
            assert(pt[machine as int][job as int] == processing_times@[machine as int]@[job as int]);
            let shorter = processing_times[machine][other] < processing_times[machine][job]
                || (processing_times[machine][other] == processing_times[machine][job] && other < job);
            if shorter {
                job = other;
            }
            k = k + 1;
        }
        proof {
            lemma_picks(pt, pt[machine as int], idle, available, job as int, count as int);
            assert(idle[0] == machine);
        }
    } else {
        let idle_count = idle_machines.len();
        let mut widest = spread_of(processing_times, job, idle_count, n);
        let mut k: usize = 1;
        while k < count
            invariant
                pt == int_rows(processing_times@),
                available == ids(available_jobs@),
                count == available_jobs@.len(),
                idle_count <= processing_times@.len(),
                n == processing_times@[0]@.len(),
                time_table(pt, n as int),
                spread_ready(pt, n as int),
                forall|a: int| 0 <= a < available_jobs@.len() ==> #[trigger] available_jobs@[a] < n,
                1 <= k <= count,
                job < n,
                job == widest_job(pt, available, idle_count as int, k as int),
                widest == spread(pt, job as int, idle_count as int),
            decreases count - k,
        {
            let other = available_jobs[k];
            assert(available[k as int] == other);
            let score = spread_of(processing_times, other, idle_count, n);
            if score >= widest {
                job = other;
                widest = score;
            }
            k = k + 1;
        }
        let mut fastest = idle_machines[0];
        assert(n <= pt[fastest as int].len()) by {
            assert(0 <= pt[fastest as int][0]);
        }
        let mut i: usize = 1;
        while i < idle_count
            invariant
                pt == int_rows(processing_times@),
                idle == ids(idle_machines@),
                idle_count == idle_machines@.len(),
                n == processing_times@[0]@.len(),
                time_table(pt, n as int),
                forall|a: int| 0 <= a < idle_machines@.len() ==> #[trigger] idle_machines@[a] < processing_times@.len(),
                1 <= i <= idle_count,
                job < n,
                fastest < processing_times@.len(),
                n <= pt[fastest as int].len(),
                fastest == fastest_machine(pt, idle, job as int, i as int),
            decreases idle_count - i,
        {
            let other = idle_machines[i];
            assert(idle[i as int] == other);
            assert(n <= pt[other as int].len()) by {
                assert(0 <= pt[other as int][0]);
            }
            assert(pt[other as int][job as int] == processing_times@[other as int]@[job as int]);
            assert(pt[fastest as int][job as int] == processing_times@[fastest as int]@[job as int]);
            if processing_times[other][job] < processing_times[fastest][job] {
                fastest = other;
            }
            i = i + 1;
        }
        machine = fastest;
        proof {
            lemma_picks(pt, pt[0], idle, available, job as int, count as int);
        }
    }
    proof {
        assert(pt[machine as int][job as int] == processing_times@[machine as int]@[job as int]);
        let a = choose|a: int| 0 <= a < count && #[trigger] available[a] == job as int;
        assert(available_jobs@[a] == job);
    }
    (machine, job, processing_times[machine][job])
}

/// The mathematical content of a [`PrecedenceGraph`]: the jobs that can
/// start, and for each job the jobs that still have to complete before it.
pub struct Graph {
    pub available: Seq<int>,
    pub rows: Seq<Seq<int>>,
}

impl View for PrecedenceGraph {
    type V = Graph;

    open spec fn view(&self) -> Graph {
        Graph { available: self.available_view(), rows: self.precedents_view() }
    }
}

/// The graph after the job has started.
pub open spec fn graph_running(g: Graph, job: int) -> Graph {
    Graph { available: without(g.available, job), rows: g.rows.update(job, seq![job]) }
}

/// The graph after the job has completed.
pub open spec fn graph_completed(g: Graph, job: int) -> Graph {
    Graph {
        available: without(g.available, job) + released(g.rows, job, g.rows.len() as int),
        rows: Seq::new(g.rows.len(), |i: int| completed_row(g.rows, job, i)),
    }
}

/// The running jobs as pairs of completion time and job.
pub open spec fn pairs(completions: Seq<(Time, Job)>) -> Seq<(int, int)> {
    Seq::new(completions.len(), |a: int| (completions[a].0 as int, completions[a].1 as int))
}

/// The graph and the running jobs after the first `k` running jobs have
/// been looked at: those that are over by `time` have completed, in their
/// order, and the others go on running.
pub open spec fn retire(g: Graph, completions: Seq<(int, int)>, time: int, k: int) -> (Graph, Seq<(int, int)>)
    decreases k,
{
    if k <= 0 {
        (g, Seq::empty())
    } else {
        let before = retire(g, completions, time, k - 1);
        let c = completions[k - 1];
        if c.0 <= time {
            (graph_completed(before.0, c.1), before.1)
        } else {
            (before.0, before.1.push(c))
        }
    }
}

/// The earliest time at which one of the first `k` machines is free.
pub open spec fn least_time(busy: Seq<int>, k: int) -> int
    decreases k,
{
    if k <= 1 {
        busy[0]
    } else {
        let rest = least_time(busy, k - 1);
        if busy[k - 1] < rest { busy[k - 1] } else { rest }
    }
}

/// The earliest time after `time` at which one of the first `k` machines
/// becomes free.
pub open spec fn later_time(busy: Seq<int>, time: int, k: int) -> Option<int>
    decreases k,
{
    if k <= 0 {
        None
    } else {
        let rest = later_time(busy, time, k - 1);
        if busy[k - 1] > time && (rest is None || busy[k - 1] < rest->0) {
            Some(busy[k - 1])
        } else {
            rest
        }
    }
}

/// The number of the first `k` machines that are busy beyond `time`.
pub open spec fn busy_beyond(busy: Seq<int>, time: int, k: int) -> nat
    decreases k,
{
    if k <= 0 {
        0
    } else {
        busy_beyond(busy, time, k - 1) + (if busy[k - 1] > time { 1nat } else { 0nat })
    }
}

/// The state of the shop while the heuristic runs.
pub struct Shop {
    pub time: int,
    pub graph: Graph,
    pub busy: Seq<int>,
    pub running: Seq<(int, int)>,
    pub schedules: Seq<Seq<Run>>,
}

/// The graph, the running jobs and the time once a job is available:
/// while none is, the time moves on to the next moment at which a machine
/// becomes free, and the jobs that are over by then complete. Nothing where
/// no job is available and no machine is busy any more.
pub open spec fn wait(g: Graph, running: Seq<(int, int)>, busy: Seq<int>, time: int) -> Option<
    (Graph, Seq<(int, int)>, int),
>
    decreases busy_beyond(busy, time, busy.len() as int),
    via wait_decreases
{
    if g.available.len() > 0 {
        Some((g, running, time))
    } else {
        let next = later_time(busy, time, busy.len() as int);
        if next is Some {
            let after = retire(g, running, next->0, running.len() as int);
            wait(after.0, after.1, busy, next->0)
        } else {
            None
        }
    }
}

#[via_fn]
proof fn wait_decreases(g: Graph, running: Seq<(int, int)>, busy: Seq<int>, time: int) {
    let next = later_time(busy, time, busy.len() as int);
    if next is Some {
        lemma_later_time(busy, time, busy.len() as int);
        lemma_busy_beyond(busy, time, next->0, busy.len() as int);
    }
}

/// What `later_time` returns: nothing exactly when none of the first `k`
/// machines is busy beyond `time`, else the time at which such a machine
/// becomes free, which none of them undercuts.
pub proof fn lemma_later_time(busy: Seq<int>, time: int, k: int)
    requires
        0 <= k <= busy.len(),
    ensures
        later_time(busy, time, k) is None ==> forall|i: int| 0 <= i < k ==> busy[i] <= time,
        later_time(busy, time, k) is Some ==> {
            let t = later_time(busy, time, k)->0;
            &&& t > time
            &&& among(busy, k, t)
            &&& forall|i: int| 0 <= i < k && busy[i] > time ==> t <= busy[i]
        },
    decreases k,
{
    if k > 0 {
        lemma_later_time(busy, time, k - 1);
        let rest = later_time(busy, time, k - 1);
        if busy[k - 1] > time && (rest is None || busy[k - 1] < rest->0) {
            assert(busy[k - 1] == busy[k - 1]);
        } else if rest is Some {
            let a = choose|a: int| 0 <= a < k - 1 && #[trigger] busy[a] == rest->0;
            assert(busy[a] == rest->0);
        }
    }
}

/// When the time moves on to the moment at which a busy machine becomes
/// free, fewer machines are busy beyond it.
pub proof fn lemma_busy_beyond(busy: Seq<int>, time: int, later: int, k: int)
    requires
        0 <= k <= busy.len(),
        time <= later,
    ensures
        busy_beyond(busy, later, k) <= busy_beyond(busy, time, k),
        (exists|i: int| 0 <= i < k && time < #[trigger] busy[i] <= later) ==> busy_beyond(busy, later, k)
            < busy_beyond(busy, time, k),
    decreases k,
{
    if k > 0 {
        lemma_busy_beyond(busy, time, later, k - 1);
        if exists|i: int| 0 <= i < k && time < #[trigger] busy[i] <= later {
            let w = choose|i: int| 0 <= i < k && time < #[trigger] busy[i] <= later;
            if w < k - 1 {
                assert(time < busy[w] <= later);
            }
        }
    }
}

/// The schedules of the machines when the heuristic has run on from the
/// given state, `counter` of the `n` jobs having started before.
///
/// The heuristic stops when all jobs have started, and also when no machine
/// is idle or no job available. Else the next pick starts now on its
/// machine. Unless it was the last job, the time then moves on to the moment
/// at which a machine is free, the jobs that are over by then complete, and
/// the heuristic waits until a job is available; it stops where none ever is.
pub open spec fn run(pt: Seq<Seq<int>>, shop: Shop, counter: int, n: int) -> Seq<Seq<Run>>
    decreases n - counter,
{
    let idle = idle_at(shop.busy, shop.time, shop.busy.len() as int);
    if counter >= n || idle.len() == 0 || shop.graph.available.len() == 0 {
        shop.schedules
    } else {
        let pick = next_pick(pt, idle, shop.graph.available);
        let end = shop.time + pick.2;
        let schedules = shop.schedules.update(
            pick.0,
            shop.schedules[pick.0].push(Run { start: shop.time, job: pick.1, duration: pick.2 }),
        );
        if counter == n - 1 {
            schedules
        } else {
            let busy = shop.busy.update(pick.0, end);
            let free = least_time(busy, busy.len() as int);
            let time = if free > shop.time { free } else { shop.time };
            let running = shop.running.push((end, pick.1));
            let after = retire(graph_running(shop.graph, pick.1), running, time, running.len() as int);
            let ready = wait(after.0, after.1, busy, time);
            if ready is Some {
                let state = ready->0;
                run(
                    pt,
                    Shop { time: state.2, graph: state.0, busy, running: state.1, schedules },
                    counter + 1,
                    n,
                )
            } else {
                schedules
            }
        }
    }
}

/// A schedule without runs for each of `m` machines.
pub open spec fn empty_schedules(m: nat) -> Seq<Seq<Run>> {
    Seq::new(m, |i: int| Seq::<Run>::empty())
}

/// The schedules that the serial schedule heuristic gives, one for each
/// machine: none without machines, empty ones without jobs.
pub open spec fn serial_schedules(pt: Seq<Seq<int>>, precedents: Seq<Seq<int>>) -> Seq<Seq<Run>> {
    if pt.len() == 0 {
        Seq::empty()
    } else if pt[0].len() == 0 {
        empty_schedules(pt.len())
    } else {
        run(
            pt,
            Shop {
                time: 0,
                graph: Graph { available: free_jobs(precedents, precedents.len() as int), rows: precedents },
                busy: Seq::new(pt.len(), |i: int| 0int),
                running: Seq::empty(),
                schedules: empty_schedules(pt.len()),
            },
            0,
            pt[0].len() as int,
        )
    }
}

/// The schedules of the machines, as sequences of runs.
pub open spec fn schedule_views(schedules: Seq<MachineSchedule>) -> Seq<Seq<Run>> {
    Seq::new(schedules.len(), |i: int| schedules[i]@)
}

/// The graph is one of `n` jobs in which only jobs can be available.
pub open spec fn graph_of(g: Graph, n: int) -> bool {
    &&& g.rows.len() == n
    &&& forall|a: int| 0 <= a < g.available.len() ==> 0 <= #[trigger] g.available[a] < n
}

pub proof fn lemma_without_items(s: Seq<int>, x: int, n: int)
    requires
        forall|a: int| 0 <= a < s.len() ==> 0 <= #[trigger] s[a] < n,
    ensures
        forall|a: int| 0 <= a < without(s, x).len() ==> 0 <= #[trigger] without(s, x)[a] < n,
{
    lemma_position(s, x, 0);
    let found = position_from(s, x, 0);
    if found is Some {
        let t = without(s, x);
        assert forall|a: int| 0 <= a < t.len() implies 0 <= #[trigger] t[a] < n by {
            if a == found->0 {
                assert(t[a] == s[s.len() - 1]);
            } else {
                assert(t[a] == s[a]);
            }
        }
    }
}

proof fn lemma_position(s: Seq<int>, x: int, i: int)
    requires
        0 <= i,
    ensures
        position_from(s, x, i) is Some ==> i <= position_from(s, x, i)->0 < s.len(),
    decreases s.len() - i,
{
    if i < s.len() && s[i] != x {
        lemma_position(s, x, i + 1);
    }
}

pub proof fn lemma_released_items(rows: Seq<Seq<int>>, job: int, k: int)
    requires
        0 <= k,
    ensures
        forall|a: int| 0 <= a < released(rows, job, k).len() ==> 0 <= #[trigger] released(rows, job, k)[a] < k,
    decreases k,
{
    if k > 0 {
        lemma_released_items(rows, job, k - 1);
        let before = released(rows, job, k - 1);
        let all = released(rows, job, k);
        assert forall|a: int| 0 <= a < all.len() implies 0 <= #[trigger] all[a] < k by {
            if a < before.len() {
                assert(all[a] == before[a]);
            }
        }
    }
}

pub proof fn lemma_graph_steps(g: Graph, job: int, n: int)
    requires
        graph_of(g, n),
        0 <= job < n,
    ensures
        graph_of(graph_running(g, job), n),
        graph_of(graph_completed(g, job), n),
{
    lemma_without_items(g.available, job, n);
    lemma_released_items(g.rows, job, n);
}

pub proof fn lemma_retire(g: Graph, completions: Seq<(int, int)>, time: int, k: int, n: int)
    requires
        graph_of(g, n),
        0 <= k <= completions.len(),
        forall|a: int| 0 <= a < completions.len() ==> 0 <= (#[trigger] completions[a]).1 < n,
    ensures
        graph_of(retire(g, completions, time, k).0, n),
        forall|a: int|
            0 <= a < retire(g, completions, time, k).1.len() ==> 0 <= (#[trigger] retire(
                g,
                completions,
                time,
                k,
            ).1[a]).1 < n,
    decreases k,
{
    if k > 0 {
        lemma_retire(g, completions, time, k - 1, n);
        let before = retire(g, completions, time, k - 1);
        let c = completions[k - 1];
        assert(0 <= c.1 < n);
        lemma_graph_steps(before.0, c.1, n);
    }
}

/// The machines that are idle at `time`, in the order of their indices.
fn idle_machines(busy: &Vec<Time>, time: Time) -> (result: Vec<Machine>)
    ensures
        ids(result@) == idle_at(ints(busy@), time as int, busy@.len() as int),
        result@.len() <= busy@.len(),
        forall|a: int| 0 <= a < result@.len() ==> #[trigger] result@[a] < busy@.len(),
{
    let ghost b = ints(busy@);
    let mut result: Vec<Machine> = Vec::new();
    let mut i: usize = 0;
    assert(ids(result@) =~= idle_at(b, time as int, 0));
    while i < busy.len()
        invariant
            b == ints(busy@),
            0 <= i <= busy@.len(),
            ids(result@) == idle_at(b, time as int, i as int),
            result@.len() <= i,
            forall|a: int| 0 <= a < result@.len() ==> #[trigger] result@[a] < busy@.len(),
        decreases busy@.len() - i,
    {
        let ghost listed = ids(result@);
        assert(b[i as int] == busy@[i as int]);
        if busy[i] <= time {
            result.push(i);
            assert(ids(result@) =~= listed.push(i as int));
        }
        i = i + 1;
    }
    result
}

/// The earliest time at which a machine is free.
fn earliest_free(busy: &Vec<Time>) -> (result: Time)
    requires
        busy@.len() > 0,
    ensures
        result == least_time(ints(busy@), busy@.len() as int),
        exists|i: int| 0 <= i < busy@.len() && #[trigger] busy@[i] == result,
{
    let ghost b = ints(busy@);
    let mut least = busy[0];
    let mut i: usize = 1;
    let ghost mut at: int = 0;
    while i < busy.len()
        invariant
            b == ints(busy@),
            1 <= i <= busy@.len(),
            least == least_time(b, i as int),
            0 <= at < busy@.len(),
            busy@[at] == least,
        decreases busy@.len() - i,
    {
        assert(b[i as int] == busy@[i as int]);
        if busy[i] < least {
            least = busy[i];
            proof {
                at = i as int;
            }
        }
        i = i + 1;
    }
    least
}

/// The earliest time after `time` at which a machine becomes free.
fn next_free(busy: &Vec<Time>, time: Time) -> (result: Option<Time>)
    ensures
        result is Some <==> later_time(ints(busy@), time as int, busy@.len() as int) is Some,
        result is Some ==> result->0 == later_time(ints(busy@), time as int, busy@.len() as int)->0,
        result is Some ==> exists|i: int| 0 <= i < busy@.len() && #[trigger] busy@[i] == result->0,
{
    let ghost b = ints(busy@);
    let mut next: Option<Time> = None;
    let mut i: usize = 0;
    while i < busy.len()
        invariant
            b == ints(busy@),
            0 <= i <= busy@.len(),
            next is Some <==> later_time(b, time as int, i as int) is Some,
            next is Some ==> next->0 == later_time(b, time as int, i as int)->0,
            next is Some ==> exists|a: int| 0 <= a < busy@.len() && #[trigger] busy@[a] == next->0,
        decreases busy@.len() - i,
    {
        assert(b[i as int] == busy@[i as int]);
        if busy[i] > time {
            match next {
                Some(t) => {
                    if busy[i] < t {
                        next = Some(busy[i]);
                    }
                },
                None => {
                    next = Some(busy[i]);
                },
            }
        }
        i = i + 1;
    }
    next
}

/// Lets the running jobs that are over by `time` complete, in their order,
/// and keeps the others.
fn retire_running(pg: &mut PrecedenceGraph, running: &mut Vec<(Time, Job)>, time: Time)
    requires
        forall|a: int| 0 <= a < old(running)@.len() ==> (#[trigger] old(running)@[a]).1 < old(pg).precedents@.len(),
    ensures
        final(pg)@ == retire(old(pg)@, pairs(old(running)@), time as int, old(running)@.len() as int).0,
        pairs(final(running)@) == retire(old(pg)@, pairs(old(running)@), time as int, old(running)@.len() as int).1,
        final(pg).precedents@.len() == old(pg).precedents@.len(),
        forall|a: int| 0 <= a < final(running)@.len() ==> (#[trigger] final(running)@[a]).1 < old(pg).precedents@.len(),
{
    let ghost g = pg@;
    let ghost all = pairs(running@);
    let ghost n = pg.precedents@.len();
    let mut kept: Vec<(Time, Job)> = Vec::new();
    let mut k: usize = 0;
    assert(pairs(kept@) =~= retire(g, all, time as int, 0).1);
    while k < running.len()
        invariant
            all == pairs(running@),
            n == pg.precedents@.len(),
            0 <= k <= running@.len(),
            forall|a: int| 0 <= a < running@.len() ==> (#[trigger] running@[a]).1 < n,
            forall|a: int| 0 <= a < kept@.len() ==> (#[trigger] kept@[a]).1 < n,
            pg@ == retire(g, all, time as int, k as int).0,
            pairs(kept@) == retire(g, all, time as int, k as int).1,
        decreases running@.len() - k,
    {
        let c = running[k];
        let ghost before = pg@;
        let ghost listed = pairs(kept@);
        assert(all[k as int] == (c.0 as int, c.1 as int));
        assert(running@[k as int].1 < n);
        if c.0 <= time {
            pg.mark_job_completed(c.1);
            assert(pg@.rows =~= graph_completed(before, c.1 as int).rows);
        } else {
            kept.push(c);
            assert(pairs(kept@) =~= listed.push((c.0 as int, c.1 as int)));
        }
        k = k + 1;
    }
    *running = kept;
}

/// Each time is small enough for `n` of them in a row to end within the
/// range of the time type.
pub open spec fn times_fit(pt: Seq<Seq<int>>, n: int) -> bool {
    forall|i: int, j: int| 0 <= i < pt.len() && 0 <= j < n ==> #[trigger] pt[i][j] <= (isize::MAX as int) / n
}

proof fn lemma_budget(counter: int, n: int, cap: int)
    requires
        0 <= counter < n,
        cap == (isize::MAX as int) / n,
    ensures
        0 <= counter * cap,
        (counter + 1) * cap == counter * cap + cap,
        (counter + 1) * cap <= isize::MAX,
        0 <= cap,
{
    assert(0 <= cap && n * cap <= isize::MAX) by (nonlinear_arith)
        requires
            0 < n,
            cap == (isize::MAX as int) / n,
    ;
    assert(0 <= counter * cap && (counter + 1) * cap == counter * cap + cap && (counter + 1) * cap <= n * cap)
        by (nonlinear_arith)
        requires
            0 <= counter < n,
            0 <= cap,
    ;
}

/// The serial schedule heuristic for unrelated parallel machines with
/// precedence constraints under the makespan objective.
///
/// `processing_times[i][j]` is the time that machine `i` takes for job `j`,
/// and `precedents[j]` are the jobs that have to complete before job `j`
/// can start. Whenever a machine is idle and a job available, the heuristic
/// starts a job: with one idle machine the job that is shortest on it, with
/// several the job whose times spread most over the machines, on the idle
/// machine that is fastest for it. The spread is compared exactly. The
/// result holds one schedule for each machine; the schedules are valid: no
/// machine runs two jobs at once, no job runs twice, and no job starts
/// before its precedents have completed. Every job runs where the
/// precedence constraints can be met; where they let no further job
/// become available, the schedules made so far are returned.
pub fn serial_schedule_heuristic(processing_times: &[Vec<Time>], precedents: Vec<Vec<Job>>) -> (result: Vec<
    MachineSchedule,
>)
    requires
        processing_times@.len() > 0 ==> precedents@.len() == processing_times@[0]@.len(),
        processing_times@.len() > 0 ==> time_table(int_rows(processing_times@), processing_times@[0]@.len() as int),
        processing_times@.len() > 0 ==> times_fit(int_rows(processing_times@), processing_times@[0]@.len() as int),
        processing_times@.len() > 1 ==> spread_ready(int_rows(processing_times@), processing_times@[0]@.len() as int),
    ensures
        schedule_views(result@) == serial_schedules(int_rows(processing_times@), rows_view(precedents@)),
        crate::serial_validity::valid_schedules(
            schedule_views(result@),
            int_rows(processing_times@),
            rows_view(precedents@),
        ),
        forall|rank: Seq<int>, j: int|
            processing_times@.len() > 0 && #[trigger] crate::serial_progress::orderly(rows_view(precedents@), rank) && 0
                <= j < precedents@.len() ==> #[trigger] crate::serial_validity::has_run(schedule_views(result@), j),
{
    let ghost pt = int_rows(processing_times@);
    let ghost prec = rows_view(precedents@);
    proof {
        crate::serial_validity::lemma_serial_schedules_valid(pt, prec);
        assert forall|rank: Seq<int>, j: int|
            pt.len() > 0 && #[trigger] crate::serial_progress::orderly(prec, rank) && 0 <= j
                < prec.len() implies #[trigger] crate::serial_validity::has_run(serial_schedules(pt, prec), j) by {
            crate::serial_progress::lemma_serial_schedules_complete(pt, prec, rank, j);
        }
    }
    let m = processing_times.len();
    let mut schedules: Vec<MachineSchedule> = Vec::new();
    if m == 0 {
        assert(schedule_views(schedules@) =~= serial_schedules(pt, prec));
        return schedules;
    }
    let n = processing_times[0].len();
    assert(pt[0].len() == n);
    let mut busy: Vec<Time> = Vec::new();
    let mut i: usize = 0;
    while i < m
        invariant
            0 <= i <= m,
            schedules@.len() == i,
            busy@.len() == i,
            forall|a: int| 0 <= a < i ==> (#[trigger] schedules@[a])@ == Seq::<Run>::empty(),
            forall|a: int| 0 <= a < i ==> #[trigger] busy@[a] == 0,
        decreases m - i,
    {
        let machine = MachineSchedule::new();
        schedules.push(machine);
        busy.push(0);
        i = i + 1;
    }
    assert(schedule_views(schedules@) =~= empty_schedules(pt.len()));
    if n == 0 {
        return schedules;
    }
    let mut time: Time = 0;
    let mut pg = PrecedenceGraph::new(precedents);
    let mut running: Vec<(Time, Job)> = Vec::new();
    let ghost cap = (isize::MAX as int) / (n as int);
    proof {
        assert(ints(busy@) =~= Seq::new(pt.len(), |i: int| 0int));
        assert(pairs(running@) =~= Seq::<(int, int)>::empty());
        lemma_free_jobs(prec, n as int);
        lemma_budget(0, n as int, cap);
    }
    let mut counter: usize = 0;
    while counter < n
        invariant
            pt == int_rows(processing_times@),
            prec == rows_view(precedents@),
            crate::serial_validity::valid_schedules(serial_schedules(pt, prec), pt, prec),
            forall|rank: Seq<int>, j: int|
                #[trigger] crate::serial_progress::orderly(prec, rank) && 0 <= j
                    < prec.len() ==> #[trigger] crate::serial_validity::has_run(serial_schedules(pt, prec), j),
            m == processing_times@.len(),
            m > 0,
            n == processing_times@[0]@.len(),
            n > 0,
            cap == (isize::MAX as int) / (n as int),
            time_table(pt, n as int),
            times_fit(pt, n as int),
            m > 1 ==> spread_ready(pt, n as int),
            0 <= counter <= n,
            pg.precedents@.len() == n,
            graph_of(pg@, n as int),
            busy@.len() == m,
            schedules@.len() == m,
            forall|a: int| 0 <= a < m ==> 0 <= #[trigger] busy@[a] <= counter * cap,
            0 <= time <= counter * cap,
            counter * cap <= isize::MAX,
            forall|a: int| 0 <= a < running@.len() ==> (#[trigger] running@[a]).1 < n,
            run(
                pt,
                Shop {
                    time: time as int,
                    graph: pg@,
                    busy: ints(busy@),
                    running: pairs(running@),
                    schedules: schedule_views(schedules@),
                },
                counter as int,
                n as int,
            ) == serial_schedules(pt, prec),
        decreases n - counter,
    {
        let ghost shop = Shop {
            time: time as int,
            graph: pg@,
            busy: ints(busy@),
            running: pairs(running@),
            schedules: schedule_views(schedules@),
        };
        let idle = idle_machines(&busy, time);
        let ghost idle_view = idle_at(shop.busy, shop.time, shop.busy.len() as int);
        assert(ids(idle@) == idle_view);
        assert(idle@.len() == idle_view.len());
        assert(pg.available@.len() == shop.graph.available.len());
        if idle.len() == 0 || pg.available.len() == 0 {
            assert(run(pt, shop, counter as int, n as int) == shop.schedules);
            return schedules;
        }
        proof {
            lemma_budget(counter as int, n as int, cap);
            assert forall|a: int| 0 <= a < pg.available@.len() implies #[trigger] pg.available@[a]
                < processing_times@[0]@.len() by {
                assert(0 <= pg@.available[a] < n);
            }
        }
        let (machine, job, duration) = serial_schedule_heuristic_pick_next(
            processing_times,
            idle.as_slice(),
            pg.available_jobs(),
        );
        proof {
            assert(n <= pt[machine as int].len() && 0 <= pt[machine as int][job as int]);
            assert(pt[machine as int][job as int] <= cap);
            assert(pt[machine as int][job as int] == processing_times@[machine as int]@[job as int]);
        }
        let end = time + duration;
        let ghost views = schedule_views(schedules@);
        let ghost old_schedules = schedules@;
        let slot = &mut schedules[machine];
        slot.schedule.push(JobRun { time, job, duration });
        proof {
            let f = Run { start: time as int, job: job as int, duration: duration as int };
            assert(schedules@[machine as int]@ =~= views[machine as int].push(f));
            assert(schedule_views(schedules@) =~= views.update(machine as int, views[machine as int].push(f))) by {
                assert forall|a: int| 0 <= a < m implies #[trigger] schedule_views(schedules@)[a] == views.update(
                    machine as int,
                    views[machine as int].push(f),
                )[a] by {
                    if a != machine {
                        assert(schedules@[a] == old_schedules[a]);
                    }
                }
            }
        }
        let ghost pick = next_pick(pt, idle_view, shop.graph.available);
        let ghost made = shop.schedules.update(
            pick.0,
            shop.schedules[pick.0].push(Run { start: shop.time, job: pick.1, duration: pick.2 }),
        );
        assert(pick == (machine as int, job as int, duration as int));
        assert(schedule_views(schedules@) == made);
        if counter == n - 1 {
            assert(run(pt, shop, counter as int, n as int) == made);
            return schedules;
        }
        let ghost before = pg@;
        let ghost listed = pairs(running@);
        let ghost was_busy = ints(busy@);
        pg.mark_job_running(job);
        running.push((end, job));
        busy.set(machine, end);
        let free = earliest_free(&busy);
        if free > time {
            time = free;
        }
        proof {
            assert(pg@ == graph_running(before, job as int));
            lemma_graph_steps(before, job as int, n as int);
            assert(pairs(running@) =~= listed.push((end as int, job as int)));
            assert(ints(busy@) =~= was_busy.update(machine as int, end as int));
            lemma_retire(pg@, pairs(running@), time as int, running@.len() as int, n as int);
            assert forall|a: int| 0 <= a < pairs(running@).len() implies 0 <= (#[trigger] pairs(running@)[a]).1 < n by {
                assert(running@[a].1 < n);
            }
        }
        retire_running(&mut pg, &mut running, time);
        let ghost start_graph = pg@;
        let ghost start_running = pairs(running@);
        let ghost start_time = time as int;
        let mut stuck = false;
        while pg.available.len() == 0
            invariant_except_break
                !stuck,
            invariant
                n == pg.precedents@.len(),
                graph_of(pg@, n as int),
                busy@.len() == m,
                forall|a: int| 0 <= a < m ==> 0 <= #[trigger] busy@[a] <= (counter + 1) * cap,
                0 <= time <= (counter + 1) * cap,
                forall|a: int| 0 <= a < running@.len() ==> (#[trigger] running@[a]).1 < n,
                wait(pg@, pairs(running@), ints(busy@), time as int) == wait(
                    start_graph,
                    start_running,
                    ints(busy@),
                    start_time,
                ),
            ensures
                n == pg.precedents@.len(),
                graph_of(pg@, n as int),
                0 <= time <= (counter + 1) * cap,
                forall|a: int| 0 <= a < running@.len() ==> (#[trigger] running@[a]).1 < n,
                stuck ==> wait(start_graph, start_running, ints(busy@), start_time) is None,
                !stuck ==> wait(start_graph, start_running, ints(busy@), start_time) == Some(
                    (pg@, pairs(running@), time as int),
                ),
            decreases busy_beyond(ints(busy@), time as int, m as int),
        {
            proof {
                lemma_later_time(ints(busy@), time as int, m as int);
            }
            match next_free(&busy, time) {
                Some(t) => {
                    proof {
                        lemma_busy_beyond(ints(busy@), time as int, t as int, m as int);
                        let w = choose|a: int| 0 <= a < m && #[trigger] ints(busy@)[a] == t as int;
                        assert(time < ints(busy@)[w] <= t);
                        assert(busy@[w] == t);
                        lemma_retire(pg@, pairs(running@), t as int, running@.len() as int, n as int);
                        assert forall|a: int| 0 <= a < pairs(running@).len() implies 0 <= (#[trigger] pairs(
                            running@,
                        )[a]).1 < n by {
                            assert(running@[a].1 < n);
                        }
                    }
                    time = t;
                    retire_running(&mut pg, &mut running, time);
                },
                None => {
                    stuck = true;
                    break;
                },
            }
        }
        proof {
            let busy1 = shop.busy.update(pick.0, shop.time + pick.2);
            assert(ints(busy@) == busy1);
            let free1 = least_time(busy1, busy1.len() as int);
            let time1 = if free1 > shop.time { free1 } else { shop.time };
            assert(start_time == time1);
            let running1 = shop.running.push((shop.time + pick.2, pick.1));
            let after = retire(graph_running(shop.graph, pick.1), running1, time1, running1.len() as int);
            assert(start_graph == after.0);
            assert(start_running == after.1);
            let ready = wait(after.0, after.1, busy1, time1);
            if stuck {
                assert(ready is None);
                assert(run(pt, shop, counter as int, n as int) == made);
            } else {
                assert(ready == Some((pg@, pairs(running@), time as int)));
                assert(run(pt, shop, counter as int, n as int) == run(
                    pt,
                    Shop {
                        time: time as int,
                        graph: pg@,
                        busy: busy1,
                        running: pairs(running@),
                        schedules: made,
                    },
                    counter + 1,
                    n as int,
                ));
            }
        }
        if stuck {
            return schedules;
        }
        proof {
            lemma_budget(counter as int, n as int, cap);
        }
        counter = counter + 1;
    }
    schedules
}

/// The jobs without precedents are jobs.
pub proof fn lemma_free_jobs(rows: Seq<Seq<int>>, k: int)
    requires
        0 <= k,
    ensures
        forall|a: int| 0 <= a < free_jobs(rows, k).len() ==> 0 <= #[trigger] free_jobs(rows, k)[a] < k,
    decreases k,
{
    if k > 0 {
        lemma_free_jobs(rows, k - 1);
        let before = free_jobs(rows, k - 1);
        let all = free_jobs(rows, k);
        assert forall|a: int| 0 <= a < all.len() implies 0 <= #[trigger] all[a] < k by {
            if a < before.len() {
                assert(all[a] == before[a]);
            }
        }
    }
}

} // verus!
