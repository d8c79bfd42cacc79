//! Schedules on one machine and on several: the runs they are made of and the
//! quantities derived from them.

use vstd::prelude::*;

use crate::{Job, Time};

verus! {

/// The integer values of a sequence of machine integers.
pub open spec fn ints(v: Seq<Time>) -> Seq<int> {
    Seq::new(v.len(), |i: int| v[i] as int)
}

/// The job ids of a sequence of indices, as integers.
pub open spec fn ids(v: Seq<Job>) -> Seq<int> {
    Seq::new(v.len(), |i: int| v[i] as int)
}

/// The mathematical content of a [`JobRun`].
pub struct Run {
    pub start: int,
    pub job: int,
    pub duration: int,
}

impl Run {
    /// The time at which the run ends.
    pub open spec fn end(self) -> int {
        self.start + self.duration
    }

    /// How long after the job's due time the run ends (negative when early).
    pub open spec fn lateness(self, due: Seq<int>) -> int {
        self.start + self.duration - due[self.job]
    }
}

/// A job with an assigned starting time and duration.
#[derive(Debug, Clone, Copy, PartialEq, Eq, Structural)]
pub struct JobRun {
    pub time: Time,
    pub job: Job,
    pub duration: Time,
}

impl View for JobRun {
    type V = Run;

    open spec fn view(&self) -> Run {
        Run { start: self.time as int, job: self.job as int, duration: self.duration as int }
    }
}

/// A schedule of jobs on a single machine: its runs in the order in which the
/// machine executes them. With preemption a job may own several runs.
#[derive(Debug, Clone, PartialEq, Eq)]
pub struct MachineSchedule {
    pub schedule: Vec<JobRun>,
}

impl View for MachineSchedule {
    type V = Seq<Run>;

    open spec fn view(&self) -> Seq<Run> {
        run_views(self.schedule@)
    }
}

/// The mathematical content of a sequence of runs.
pub open spec fn run_views(runs: Seq<JobRun>) -> Seq<Run> {
    Seq::new(runs.len(), |i: int| runs[i]@)
}

/// The time at which the machine falls idle after the first `k` jobs of
/// `order`, when each job starts as soon as it is released and its
/// predecessor has finished, the machine being free from time `clock` on.
pub open spec fn finish_from(clock: int, order: Seq<int>, p: Seq<int>, r: Seq<int>, k: int) -> int
    decreases k,
{
    if k <= 0 {
        clock
    } else {
        let j = order[k - 1];
        let before = finish_from(clock, order, p, r, k - 1);
        (if before >= r[j] { before } else { r[j] }) + p[j]
    }
}

/// The start of the `k`-th job of `order` under the same rule.
pub open spec fn start_from(clock: int, order: Seq<int>, p: Seq<int>, r: Seq<int>, k: int) -> int {
    let before = finish_from(clock, order, p, r, k);
    if before >= r[order[k]] { before } else { r[order[k]] }
}

/// The non-preemptive schedule that runs the jobs in the given order, each
/// as early as its release time and its predecessor allow, from time zero.
pub open spec fn list_schedule(order: Seq<int>, p: Seq<int>, r: Seq<int>) -> Seq<Run> {
    Seq::new(
        order.len(),
        |k: int| Run { start: start_from(0, order, p, r, k), job: order[k], duration: p[order[k]] },
    )
}

/// The makespan of a sequence of runs: the end of its last run, zero if there is none.
pub open spec fn makespan_of(runs: Seq<Run>) -> int {
    if runs.len() == 0 { 0 } else { runs.last().end() }
}


/// The greatest lateness over the runs, each run measured on its own against
/// its job's due time. For a job split by preemption the last fragment gives
/// the job's lateness, the earlier fragments being less late. Meaningful for
/// a non-empty sequence only.
pub open spec fn max_lateness_of(runs: Seq<Run>, due: Seq<int>) -> int
    decreases runs.len(),
{
    if runs.len() <= 1 {
        runs[0].lateness(due)
    } else {
        let rest = max_lateness_of(runs.drop_last(), due);
        let last = runs.last().lateness(due);
        if rest >= last { rest } else { last }
    }
}

/// The number of runs that end after their job's due time.
pub open spec fn num_tardy_of(runs: Seq<Run>, due: Seq<int>) -> nat
    decreases runs.len(),
{
    if runs.len() == 0 {
        0
    } else {
        num_tardy_of(runs.drop_last(), due) + (if runs.last().lateness(due) > 0 { 1nat } else { 0nat })
    }
}

/// Every job of `order` is an index into the per-job arrays of length `n`.
pub open spec fn jobs_in_range(order: Seq<int>, n: int) -> bool {
    forall|k: int| 0 <= k < order.len() ==> 0 <= #[trigger] order[k] < n
}

/// No processing time is negative.
pub open spec fn nonnegative(p: Seq<int>) -> bool {
    forall|j: int| 0 <= j < p.len() ==> #[trigger] p[j] >= 0
}

/// The identity order on `n` jobs.
pub open spec fn identity_order(n: nat) -> Seq<int> {
    Seq::new(n, |i: int| i)
}

/// `n` release times of zero.
pub open spec fn zero_times(n: nat) -> Seq<int> {
    Seq::new(n, |i: int| 0int)
}

/// The maximum lateness is attained by one of the runs and exceeded by none.
pub proof fn lemma_max_lateness(runs: Seq<Run>, due: Seq<int>)
    requires
        runs.len() > 0,
    ensures
        exists|i: int| 0 <= i < runs.len() && #[trigger] runs[i].lateness(due) == max_lateness_of(runs, due),
        forall|i: int| 0 <= i < runs.len() ==> #[trigger] runs[i].lateness(due) <= max_lateness_of(runs, due),
    decreases runs.len(),
{
    if runs.len() <= 1 {
        assert(runs[0].lateness(due) == max_lateness_of(runs, due));
    } else {
        let rest = runs.drop_last();
        lemma_max_lateness(rest, due);
        let w = choose|i: int| 0 <= i < rest.len() && #[trigger] rest[i].lateness(due) == max_lateness_of(rest, due);
        assert(rest[w] == runs[w]);
        if max_lateness_of(rest, due) >= runs.last().lateness(due) {
            assert(runs[w].lateness(due) == max_lateness_of(runs, due));
        } else {
            assert(runs[runs.len() - 1].lateness(due) == max_lateness_of(runs, due));
        }
        assert forall|i: int| 0 <= i < runs.len() implies #[trigger] runs[i].lateness(due) <= max_lateness_of(runs, due) by {
            if i < rest.len() {
                assert(rest[i] == runs[i]);
            }
        }
    }
}

/// With non-negative processing times the machine never falls idle earlier
/// by running more jobs, and never before the clock it started from.
pub proof fn lemma_finish_monotone(clock: int, order: Seq<int>, p: Seq<int>, r: Seq<int>, i: int, k: int)
    requires
        0 <= i <= k <= order.len(),
        jobs_in_range(order, p.len() as int),
        nonnegative(p),
    ensures
        clock <= finish_from(clock, order, p, r, i) <= finish_from(clock, order, p, r, k),
    decreases k,
{
    if i < k {
        lemma_finish_monotone(clock, order, p, r, i, k - 1);
        assert(p[order[k - 1]] >= 0);
    } else if k > 0 {
        lemma_finish_monotone(clock, order, p, r, i - 1, k - 1);
        assert(p[order[k - 1]] >= 0);
    }
}

/// The finish time after `k` jobs depends on the first `k` jobs only.
pub proof fn lemma_finish_prefix(clock: int, a: Seq<int>, b: Seq<int>, p: Seq<int>, r: Seq<int>, k: int)
    requires
        0 <= k <= a.len(),
        k <= b.len(),
        forall|i: int| 0 <= i < k ==> a[i] == b[i],
    ensures
        finish_from(clock, a, p, r, k) == finish_from(clock, b, p, r, k),
    decreases k,
{
    if k > 0 {
        lemma_finish_prefix(clock, a, b, p, r, k - 1);
    }
}

/// A list schedule keeps the machine to one job at a time and starts no job
/// before its release time; each run lasts its job's processing time.
pub proof fn lemma_list_schedule_valid(order: Seq<int>, p: Seq<int>, r: Seq<int>)
    requires
        jobs_in_range(order, p.len() as int),
        nonnegative(p),
    ensures
        well_ordered(list_schedule(order, p, r)),
        respects_release(list_schedule(order, p, r), r),
        forall|k: int| 0 <= k < order.len() ==> #[trigger] list_schedule(order, p, r)[k].job == order[k]
            && list_schedule(order, p, r)[k].duration == p[order[k]],
{
    let s = list_schedule(order, p, r);
    assert forall|k: int| 0 <= k < s.len() - 1 implies #[trigger] s[k].end() <= s[k + 1].start by {
        assert(s[k].end() == finish_from(0, order, p, r, k + 1));
    }
    assert forall|k: int| 0 <= k < s.len() implies (#[trigger] s[k]).duration >= 0 by {
        assert(p[order[k]] >= 0);
    }
}

/// Consecutive runs do not overlap and no run has a negative duration.
pub open spec fn well_ordered(runs: Seq<Run>) -> bool {
    &&& forall|k: int| 0 <= k < runs.len() ==> (#[trigger] runs[k]).duration >= 0
    &&& forall|k: int| 0 <= k < runs.len() - 1 ==> #[trigger] runs[k].end() <= runs[k + 1].start
}

/// No run starts before its job is released.
pub open spec fn respects_release(runs: Seq<Run>, r: Seq<int>) -> bool {
    forall|k: int| 0 <= k < runs.len() ==> (#[trigger] runs[k]).start >= r[runs[k].job]
}

/// Job `j` is run by one of the runs.
pub open spec fn runs_job(runs: Seq<Run>, j: int) -> bool {
    exists|k: int| 0 <= k < runs.len() && (#[trigger] runs[k]).job == j
}

/// The runs are a schedule without preemption of the jobs whose processing
/// times are `p`: each job has exactly one run, which lasts the job's
/// processing time.
pub open spec fn runs_each_job_once(runs: Seq<Run>, p: Seq<int>) -> bool {
    &&& runs.len() == p.len()
    &&& forall|k: int|
        0 <= k < runs.len() ==> 0 <= (#[trigger] runs[k]).job < p.len() && runs[k].duration == p[runs[k].job]
    &&& forall|k: int, l: int| 0 <= k < l < runs.len() ==> (#[trigger] runs[k]).job != (#[trigger] runs[l]).job
    &&& forall|j: int| 0 <= j < p.len() ==> #[trigger] runs_job(runs, j)
}

/// The runs are a valid non-preemptive schedule of the instance: one job at
/// a time, none before its release time, each job once and in one piece.
pub open spec fn feasible(runs: Seq<Run>, p: Seq<int>, r: Seq<int>) -> bool {
    &&& well_ordered(runs)
    &&& respects_release(runs, r)
    &&& runs_each_job_once(runs, p)
}

/// The makespan of a sequence of runs: the end of the last run, zero if
/// there is none.
pub fn runs_makespan(runs: &Vec<JobRun>) -> (result: Time)
    requires
        runs@.len() > 0 ==> isize::MIN <= run_views(runs@).last().end() <= isize::MAX,
    ensures
        result == makespan_of(run_views(runs@)),
{
    let n = runs.len();
    if n == 0 {
        0
    } else {
        let run = runs[n - 1];
        run.time + run.duration
    }
}

/// The maximum lateness of a non-empty sequence of runs under the given due
/// times.
pub fn runs_max_lateness(runs: &Vec<JobRun>, due_times: &[Time]) -> (result: Time)
    requires
        runs@.len() > 0,
        forall|k: int| 0 <= k < runs@.len() ==> 0 <= (#[trigger] run_views(runs@)[k]).job < due_times@.len(),
        forall|k: int|
            0 <= k < runs@.len() ==> isize::MIN <= (#[trigger] run_views(runs@)[k]).lateness(ints(due_times@))
                <= isize::MAX,
        forall|k: int| 0 <= k < runs@.len() ==> isize::MIN <= (#[trigger] run_views(runs@)[k]).end() <= isize::MAX,
    ensures
        result == max_lateness_of(run_views(runs@), ints(due_times@)),
        exists|k: int| 0 <= k < runs@.len() && #[trigger] run_views(runs@)[k].lateness(ints(due_times@)) == result,
        forall|k: int| 0 <= k < runs@.len() ==> #[trigger] run_views(runs@)[k].lateness(ints(due_times@)) <= result,
{
    let ghost all = run_views(runs@);
    let ghost due = ints(due_times@);
    let n = runs.len();
    assert(all[0].job < due_times@.len());
    let first = runs[0];
    assert(first@ == all[0]);
    let mut best: Time = first.time + first.duration - due_times[first.job];
    let mut i: usize = 1;
    assert(all.take(1).drop_last() =~= all.take(0));
    while i < n
        invariant
            n == runs@.len(),
            all == run_views(runs@),
            due == ints(due_times@),
            1 <= i <= n,
            forall|k: int| 0 <= k < all.len() ==> 0 <= (#[trigger] all[k]).job < due_times@.len(),
            forall|k: int| 0 <= k < all.len() ==> isize::MIN <= (#[trigger] all[k]).lateness(due) <= isize::MAX,
            forall|k: int| 0 <= k < all.len() ==> isize::MIN <= (#[trigger] all[k]).end() <= isize::MAX,
            best == max_lateness_of(all.take(i as int), due),
        decreases n - i,
    {
        assert(all[i as int].job < due_times@.len());
        let run = runs[i];
        assert(run@ == all[i as int]);
        let late = run.time + run.duration - due_times[run.job];
        proof {
            assert(all.take(i as int + 1).drop_last() =~= all.take(i as int));
            assert(all.take(i as int + 1).last() == all[i as int]);
        }
        if late > best {
            best = late;
        }
        i = i + 1;
    }
    proof {
        assert(all.take(n as int) =~= all);
        lemma_max_lateness(all, due);
    }
    best
}

/// The number of runs that end after their job's due time.
pub fn runs_num_tardy(runs: &Vec<JobRun>, due_times: &[Time]) -> (result: usize)
    requires
        forall|k: int| 0 <= k < runs@.len() ==> 0 <= (#[trigger] run_views(runs@)[k]).job < due_times@.len(),
        forall|k: int| 0 <= k < runs@.len() ==> isize::MIN <= (#[trigger] run_views(runs@)[k]).end() <= isize::MAX,
    ensures
        result == num_tardy_of(run_views(runs@), ints(due_times@)),
{
    let ghost all = run_views(runs@);
    let ghost due = ints(due_times@);
    let n = runs.len();
    let mut count: usize = 0;
    let mut i: usize = 0;
    assert(all.take(0) =~= Seq::<Run>::empty());
    while i < n
        invariant
            n == runs@.len(),
            all == run_views(runs@),
            due == ints(due_times@),
            0 <= i <= n,
            forall|k: int| 0 <= k < all.len() ==> 0 <= (#[trigger] all[k]).job < due_times@.len(),
            forall|k: int| 0 <= k < all.len() ==> isize::MIN <= (#[trigger] all[k]).end() <= isize::MAX,
            count == num_tardy_of(all.take(i as int), due),
            count <= i,
        decreases n - i,
    {
        assert(all[i as int].job < due_times@.len());
        let run = runs[i];
        assert(run@ == all[i as int]);
        proof {
            assert(all.take(i as int + 1).drop_last() =~= all.take(i as int));
            assert(all.take(i as int + 1).last() == all[i as int]);
        }
        if run.time + run.duration > due_times[run.job] {
            count = count + 1;
        }
        i = i + 1;
    }
    proof {
        assert(all.take(n as int) =~= all);
    }
    count
}

impl MachineSchedule {
    /// A schedule without runs.
    pub fn new() -> (result: MachineSchedule)
        ensures
            result@ == Seq::<Run>::empty(),
    {
        let result = MachineSchedule { schedule: Vec::new() };
        assert(result@ =~= Seq::<Run>::empty());
        result
    }

    /// The schedule that runs the jobs in index order, back to back from
    /// time zero.
    pub fn from_ptimes(ptimes: &[Time]) -> (result: MachineSchedule)
        requires
            nonnegative(ints(ptimes@)),
            finish_from(0, identity_order(ptimes@.len()), ints(ptimes@), zero_times(ptimes@.len()), ptimes@.len() as int)
                <= isize::MAX,
        ensures
            result@ == list_schedule(identity_order(ptimes@.len()), ints(ptimes@), zero_times(ptimes@.len())),
    {
        let n = ptimes.len();
        let ghost order = identity_order(ptimes@.len());
        let ghost p = ints(ptimes@);
        let ghost r = zero_times(ptimes@.len());
        let mut time: Time = 0;
        let mut schedule: Vec<JobRun> = Vec::new();
        let mut i: usize = 0;
        while i < n
            invariant
                n == ptimes@.len(),
                order == identity_order(ptimes@.len()),
                p == ints(ptimes@),
                r == zero_times(ptimes@.len()),
                nonnegative(p),
                finish_from(0, order, p, r, n as int) <= isize::MAX,
                0 <= i <= n,
                time == finish_from(0, order, p, r, i as int),
                time >= 0,
                schedule@.len() == i,
                forall|k: int| 0 <= k < i ==> (#[trigger] schedule@[k])@ == list_schedule(order, p, r)[k],
            decreases n - i,
        {
            proof {
                lemma_finish_monotone(0, order, p, r, i as int + 1, n as int);
                assert(p[i as int] >= 0);
                assert(order[i as int] == i);
            }
            let d = ptimes[i];
            schedule.push(JobRun { time, job: i, duration: d });
            time = time + d;
            i = i + 1;
        }
        let result = MachineSchedule { schedule };
        assert(result@ =~= list_schedule(order, p, r));
        result
    }

    /// The schedule that runs the jobs in the given order, back to back from
    /// time zero.
    pub fn from_order_ptimes(order: &[Job], ptimes: &[Time]) -> (result: MachineSchedule)
        requires
            jobs_in_range(ids(order@), ptimes@.len() as int),
            nonnegative(ints(ptimes@)),
            finish_from(0, ids(order@), ints(ptimes@), zero_times(ptimes@.len()), order@.len() as int) <= isize::MAX,
        ensures
            result@ == list_schedule(ids(order@), ints(ptimes@), zero_times(ptimes@.len())),
    {
        let n = ptimes.len();
        let mut zeros: Vec<Time> = Vec::new();
        let mut i: usize = 0;
        while i < n
            invariant
                0 <= i <= n,
                zeros@.len() == i,
                forall|k: int| 0 <= k < i ==> #[trigger] zeros@[k] == 0,
            decreases n - i,
        {
            zeros.push(0);
            i = i + 1;
        }
        assert(ints(zeros@) =~= zero_times(ptimes@.len()));
        MachineSchedule::from_order_ptimes_releasetimes(order, ptimes, zeros.as_slice())
    }

    /// The schedule that runs the jobs in index order, each as early as its
    /// release time and its predecessor allow.
    pub fn from_ptimes_releasetimes(ptimes: &[Time], release_times: &[Time]) -> (result: MachineSchedule)
        requires
            ptimes@.len() <= release_times@.len(),
            nonnegative(ints(ptimes@)),
            finish_from(0, identity_order(ptimes@.len()), ints(ptimes@), ints(release_times@), ptimes@.len() as int)
                <= isize::MAX,
        ensures
            result@ == list_schedule(identity_order(ptimes@.len()), ints(ptimes@), ints(release_times@)),
    {
        let n = ptimes.len();
        let mut order: Vec<Job> = Vec::new();
        let mut i: usize = 0;
        while i < n
            invariant
                0 <= i <= n,
                order@.len() == i,
                forall|k: int| 0 <= k < i ==> #[trigger] order@[k] == k,
            decreases n - i,
        {
            order.push(i);
            i = i + 1;
        }
        assert(ids(order@) =~= identity_order(ptimes@.len()));
        MachineSchedule::from_order_ptimes_releasetimes(order.as_slice(), ptimes, release_times)
    }

    /// The schedule that runs the jobs in the given order, each as early as
    /// its release time and its predecessor allow: the `k`-th job of the
    /// order starts at the later of its release time and the end of the job
    /// before it (time zero for the first).
    pub fn from_order_ptimes_releasetimes(order: &[Job], ptimes: &[Time], release_times: &[Time]) -> (result:
        MachineSchedule)
        requires
            jobs_in_range(ids(order@), ptimes@.len() as int),
            jobs_in_range(ids(order@), release_times@.len() as int),
            nonnegative(ints(ptimes@)),
            finish_from(0, ids(order@), ints(ptimes@), ints(release_times@), order@.len() as int) <= isize::MAX,
        ensures
            result@ == list_schedule(ids(order@), ints(ptimes@), ints(release_times@)),
    {
        let n = order.len();
        let ghost o = ids(order@);
        let ghost p = ints(ptimes@);
        let ghost r = ints(release_times@);
        let mut time: Time = 0;
        let mut schedule: Vec<JobRun> = Vec::new();
        let mut k: usize = 0;
        while k < n
            invariant
                n == order@.len(),
                o == ids(order@),
                p == ints(ptimes@),
                r == ints(release_times@),
                jobs_in_range(o, p.len() as int),
                jobs_in_range(o, r.len() as int),
                nonnegative(p),
                finish_from(0, o, p, r, n as int) <= isize::MAX,
                0 <= k <= n,
                time == finish_from(0, o, p, r, k as int),
                time >= 0,
                schedule@.len() == k,
                forall|i: int| 0 <= i < k ==> (#[trigger] schedule@[i])@ == list_schedule(o, p, r)[i],
            decreases n - k,
        {
            proof {
                lemma_finish_monotone(0, o, p, r, k as int + 1, n as int);
                assert(0 <= o[k as int] < p.len());
                assert(0 <= o[k as int] < r.len());
                assert(p[o[k as int]] >= 0);
            }
            let job = order[k];
            let release = release_times[job];
            let start = if time >= release { time } else { release };
            schedule.push(JobRun { time: start, job, duration: ptimes[job] });
            time = start + ptimes[job];
            k = k + 1;
        }
        let result = MachineSchedule { schedule };
        assert(result@ =~= list_schedule(o, p, r));
        result
    }

    /// The makespan: the end of the last run, zero for an empty schedule.
    pub fn makespan(&self) -> (result: Time)
        requires
            self@.len() > 0 ==> isize::MIN <= self@.last().end() <= isize::MAX,
        ensures
            result == makespan_of(self@),
    {
        assert(self@.len() == self.schedule@.len());
        runs_makespan(&self.schedule)
    }

    /// The maximum lateness under the given due times: the greatest value of
    /// end minus due time over the runs. The schedule must not be empty.
    pub fn max_lateness(&self, due_times: &[Time]) -> (result: Time)
        requires
            self@.len() > 0,
            forall|k: int| 0 <= k < self@.len() ==> 0 <= (#[trigger] self@[k]).job < due_times@.len(),
            forall|k: int|
                0 <= k < self@.len() ==> isize::MIN <= (#[trigger] self@[k]).lateness(ints(due_times@)) <= isize::MAX,
            forall|k: int| 0 <= k < self@.len() ==> isize::MIN <= (#[trigger] self@[k]).end() <= isize::MAX,
        ensures
            result == max_lateness_of(self@, ints(due_times@)),
            exists|k: int| 0 <= k < self@.len() && #[trigger] self@[k].lateness(ints(due_times@)) == result,
            forall|k: int| 0 <= k < self@.len() ==> #[trigger] self@[k].lateness(ints(due_times@)) <= result,
    {
        assert(self@.len() == self.schedule@.len());
        runs_max_lateness(&self.schedule, due_times)
    }

    /// The number of runs that end after their job's due time.
    pub fn num_tardy(&self, due_times: &[Time]) -> (result: usize)
        requires
            forall|k: int| 0 <= k < self@.len() ==> 0 <= (#[trigger] self@[k]).job < due_times@.len(),
            forall|k: int| 0 <= k < self@.len() ==> isize::MIN <= (#[trigger] self@[k]).end() <= isize::MAX,
        ensures
            result == num_tardy_of(self@, ints(due_times@)),
    {
        assert(self@.len() == self.schedule@.len());
        runs_num_tardy(&self.schedule, due_times)
    }
}

/// A schedule of jobs on several machines: one schedule per machine.
#[derive(Debug, Clone, PartialEq, Eq)]
pub struct MultiMachineSchedule {
    pub machine_schedules: Vec<MachineSchedule>,
}

impl View for MultiMachineSchedule {
    type V = Seq<Seq<Run>>;

    open spec fn view(&self) -> Seq<Seq<Run>> {
        Seq::new(self.machine_schedules@.len(), |i: int| self.machine_schedules@[i]@)
    }
}

/// The greatest makespan over the machines, zero if there is no machine.
pub open spec fn multi_makespan_of(machines: Seq<Seq<Run>>) -> int
    decreases machines.len(),
{
    if machines.len() == 0 {
        0
    } else if machines.len() == 1 {
        makespan_of(machines[0])
    } else {
        let rest = multi_makespan_of(machines.drop_last());
        let last = makespan_of(machines.last());
        if rest >= last { rest } else { last }
    }
}

/// The processing times of each machine, as integers.
pub open spec fn int_rows(ptimes: Seq<Vec<Time>>) -> Seq<Seq<int>> {
    Seq::new(ptimes.len(), |i: int| ints(ptimes[i]@))
}

/// The state of a flow shop in which every machine runs the jobs in the
/// given order and a job goes from machine to machine: the time at which
/// machine `i` is free after its first `k` jobs, and for each job the time
/// at which it last left a machine (zero before it has run anywhere).
pub open spec fn flow_state(order: Seq<int>, ptimes: Seq<Seq<int>>, i: int, k: int) -> (int, Seq<int>)
    decreases i, k,
{
    if k <= 0 {
        if i <= 0 {
            (0, zero_times(ptimes[0].len()))
        } else {
            (0, flow_state(order, ptimes, i - 1, order.len() as int).1)
        }
    } else {
        let before = flow_state(order, ptimes, i, k - 1);
        let j = order[k - 1];
        let start = if before.0 >= before.1[j] { before.0 } else { before.1[j] };
        (start + ptimes[i][j], before.1.update(j, start + ptimes[i][j]))
    }
}

/// The `k`-th run of machine `i` in that flow shop: the job starts when the
/// machine is free and the job has left the machine before.
pub open spec fn flow_run(order: Seq<int>, ptimes: Seq<Seq<int>>, i: int, k: int) -> Run {
    let before = flow_state(order, ptimes, i, k);
    let j = order[k];
    Run { start: if before.0 >= before.1[j] { before.0 } else { before.1[j] }, job: j, duration: ptimes[i][j] }
}

/// The schedules of all machines of that flow shop.
pub open spec fn flow_schedule(order: Seq<int>, ptimes: Seq<Seq<int>>) -> Seq<Seq<Run>> {
    Seq::new(ptimes.len(), |i: int| Seq::new(order.len(), |k: int| flow_run(order, ptimes, i, k)))
}

impl MultiMachineSchedule {
    /// The makespan: the greatest makespan of any machine, zero if there is
    /// no machine.
    pub fn makespan(&self) -> (result: Time)
        requires
            forall|i: int|
                0 <= i < self@.len() && (#[trigger] self@[i]).len() > 0 ==> isize::MIN <= self@[i].last().end()
                    <= isize::MAX,
        ensures
            result == multi_makespan_of(self@),
    {
        let ghost machines = self@;
        let m = self.machine_schedules.len();
        if m == 0 {
            return 0;
        }
        assert(machines[0] == self.machine_schedules@[0]@);
        let mut best = self.machine_schedules[0].makespan();
        let mut i: usize = 1;
        assert(machines.take(1)[0] == machines[0]);
        while i < m
            invariant
                m == self.machine_schedules@.len(),
                machines == self@,
                1 <= i <= m,
                forall|k: int|
                    0 <= k < machines.len() && (#[trigger] machines[k]).len() > 0 ==> isize::MIN
                        <= machines[k].last().end() <= isize::MAX,
                best == multi_makespan_of(machines.take(i as int)),
            decreases m - i,
        {
            assert(machines[i as int] == self.machine_schedules@[i as int]@);
            let here = self.machine_schedules[i].makespan();
            proof {
                assert(machines.take(i as int + 1).drop_last() =~= machines.take(i as int));
                assert(machines.take(i as int + 1).last() == machines[i as int]);
            }
            if here > best {
                best = here;
            }
            i = i + 1;
        }
        proof {
            assert(machines.take(m as int) =~= machines);
        }
        best
    }

    /// A schedule with no machines.
    pub fn new() -> (result: MultiMachineSchedule)
        ensures
            result@ == Seq::<Seq<Run>>::empty(),
    {
        let result = MultiMachineSchedule { machine_schedules: Vec::new() };
        assert(result@ =~= Seq::<Seq<Run>>::empty());
        result
    }

    /// The flow-shop schedule in which every machine runs the jobs in the
    /// given order and each job visits the machines 0, 1, 2, ... in turn:
    /// a job starts on a machine as soon as the machine has finished the
    /// job before it and the job has left the machine before.
    /// `ptimes[i][j]` is the time that machine `i` takes for job `j`.
    pub fn from_order_ptimes(order: &[Job], ptimes: &[Vec<Time>]) -> (result: MultiMachineSchedule)
        requires
            forall|i: int|
                0 <= i < ptimes@.len() ==> jobs_in_range(ids(order@), (#[trigger] int_rows(ptimes@)[i]).len() as int)
                    && nonnegative(int_rows(ptimes@)[i]),
            forall|i: int, k: int|
                0 <= i < ptimes@.len() && 0 <= k <= order@.len() ==> (#[trigger] flow_state(
                    ids(order@),
                    int_rows(ptimes@),
                    i,
                    k,
                )).0 <= isize::MAX,
        ensures
            result@ == flow_schedule(ids(order@), int_rows(ptimes@)),
    {
        let ghost o = ids(order@);
        let ghost pt = int_rows(ptimes@);
        let m = ptimes.len();
        let mut result = MultiMachineSchedule { machine_schedules: Vec::new() };
        if m == 0 {
            assert(result@ =~= flow_schedule(o, pt));
            return result;
        }
        let n = ptimes[0].len();
        let len = order.len();
        assert(pt[0].len() == n);
        let mut ready_times: Vec<Time> = Vec::new();
        while ready_times.len() < n
            invariant
                ready_times@.len() <= n,
                forall|j: int| 0 <= j < ready_times@.len() ==> #[trigger] ready_times@[j] == 0,
            decreases n - ready_times@.len(),
        {
            ready_times.push(0);
        }
        assert(ints(ready_times@) =~= zero_times(pt[0].len()));
        let mut i: usize = 0;
        while i < m
            invariant
                o == ids(order@),
                pt == int_rows(ptimes@),
                m == ptimes@.len(),
                len == order@.len(),
                n == pt[0].len(),
                0 <= i <= m,
                forall|a: int|
                    0 <= a < ptimes@.len() ==> jobs_in_range(o, (#[trigger] pt[a]).len() as int) && nonnegative(pt[a]),
                forall|a: int, k: int|
                    0 <= a < ptimes@.len() && 0 <= k <= order@.len() ==> (#[trigger] flow_state(o, pt, a, k)).0
                        <= isize::MAX,
                ready_times@.len() == n,
                forall|j: int| 0 <= j < n ==> 0 <= #[trigger] ready_times@[j],
                i < m ==> ints(ready_times@) == flow_state(o, pt, i as int, 0).1,
                result.machine_schedules@.len() == i,
                forall|a: int|
                    0 <= a < i ==> (#[trigger] result.machine_schedules@[a])@ == Seq::new(
                        order@.len(),
                        |k: int| flow_run(o, pt, a, k),
                    ),
            decreases m - i,
        {
            let mut time: Time = 0;
            let mut schedule: Vec<JobRun> = Vec::new();
            let mut k: usize = 0;
            assert(jobs_in_range(o, pt[i as int].len() as int) && nonnegative(pt[i as int]));
            assert(jobs_in_range(o, pt[0].len() as int));
            while k < len
                invariant
                    o == ids(order@),
                    pt == int_rows(ptimes@),
                    m == ptimes@.len(),
                    len == order@.len(),
                    n == pt[0].len(),
                    0 <= i < m,
                    0 <= k <= len,
                    jobs_in_range(o, pt[i as int].len() as int),
                    jobs_in_range(o, n as int),
                    nonnegative(pt[i as int]),
                    forall|a: int, b: int|
                        0 <= a < ptimes@.len() && 0 <= b <= order@.len() ==> (#[trigger] flow_state(o, pt, a, b)).0
                            <= isize::MAX,
                    ready_times@.len() == n,
                    forall|j: int| 0 <= j < n ==> 0 <= #[trigger] ready_times@[j],
                    0 <= time,
                    (time as int, ints(ready_times@)) == flow_state(o, pt, i as int, k as int),
                    schedule@.len() == k,
                    forall|b: int| 0 <= b < k ==> (#[trigger] schedule@[b])@ == flow_run(o, pt, i as int, b),
                decreases len - k,
            {
                let j = order[k];
                proof {
                    assert(o[k as int] == j);
                    assert(0 <= o[k as int] < pt[i as int].len());
                    assert(0 <= o[k as int] < n);
                    assert(pt[i as int][j as int] >= 0);
                    assert(pt[i as int][j as int] == ptimes@[i as int]@[j as int]);
                    assert(ints(ready_times@)[j as int] == ready_times@[j as int]);
                    assert(flow_state(o, pt, i as int, k + 1).0 <= isize::MAX);
                }
                let ready = ready_times[j];
                let start = if time >= ready { time } else { ready };
                let duration = ptimes[i][j];
                let ghost before = ints(ready_times@);
                schedule.push(JobRun { time: start, job: j, duration });
                time = start + duration;
                ready_times.set(j, time);
                assert(ints(ready_times@) =~= before.update(j as int, time as int));
                k = k + 1;
            }
            let machine = MachineSchedule { schedule };
            assert(machine@ =~= Seq::new(order@.len(), |b: int| flow_run(o, pt, i as int, b)));
            result.machine_schedules.push(machine);
            i = i + 1;
        }
        assert(result@ =~= flow_schedule(o, pt));
        result
    }
}

} // verus!
