//! Schedules of whole jobs on a single machine, without preemption.

use vstd::prelude::*;

pub use crate::schedule::JobRun;
use crate::schedule::{
    finish_from, identity_order, ids, ints, jobs_in_range, list_schedule, makespan_of, max_lateness_of, nonnegative,
    run_views, runs_makespan, runs_max_lateness, zero_times, MachineSchedule, Run,
};
use crate::{Job, Time};

verus! {

/// A schedule of jobs on a single machine without preemption: its runs in
/// the order in which the machine executes them.
#[derive(Debug, Clone, PartialEq, Eq)]
pub struct JobSchedule {
    pub schedule: Vec<JobRun>,
}

impl View for JobSchedule {
    type V = Seq<Run>;

    open spec fn view(&self) -> Seq<Run> {
        run_views(self.schedule@)
    }
}

impl JobSchedule {
    /// The schedule that runs the jobs in index order, back to back from
    /// time zero.
    pub fn from_durations(durations: &[Time]) -> (result: JobSchedule)
        requires
            nonnegative(ints(durations@)),
            finish_from(
                0,
                identity_order(durations@.len()),
                ints(durations@),
                zero_times(durations@.len()),
                durations@.len() as int,
            ) <= isize::MAX,
        ensures
            result@ == list_schedule(identity_order(durations@.len()), ints(durations@), zero_times(durations@.len())),
    {
        JobSchedule { schedule: MachineSchedule::from_ptimes(durations).schedule }
    }

    /// A schedule without runs.
    pub fn new() -> (result: JobSchedule)
        ensures
            result@ == Seq::<Run>::empty(),
    {
        let result = JobSchedule { schedule: Vec::new() };
        assert(result@ =~= Seq::<Run>::empty());
        result
    }

    /// The schedule that runs the jobs in index order, each as early as its
    /// release time and its predecessor allow.
    pub fn from_durations_releasetimes(durations: &[Time], release_times: &[Time]) -> (result: JobSchedule)
        requires
            durations@.len() <= release_times@.len(),
            nonnegative(ints(durations@)),
            finish_from(
                0,
                identity_order(durations@.len()),
                ints(durations@),
                ints(release_times@),
                durations@.len() as int,
            ) <= isize::MAX,
        ensures
            result@ == list_schedule(identity_order(durations@.len()), ints(durations@), ints(release_times@)),
    {
        JobSchedule { schedule: MachineSchedule::from_ptimes_releasetimes(durations, release_times).schedule }
    }

    /// The schedule that runs the jobs in the given order, each as early as
    /// its release time and its predecessor allow: the `k`-th job of the
    /// order starts at the later of its release time and the end of the job
    /// before it (time zero for the first).
    pub fn from_order_durations_releasetimes(order: &[Job], durations: &[Time], release_times: &[Time]) -> (result:
        JobSchedule)
        requires
            jobs_in_range(ids(order@), durations@.len() as int),
            jobs_in_range(ids(order@), release_times@.len() as int),
            nonnegative(ints(durations@)),
            finish_from(0, ids(order@), ints(durations@), ints(release_times@), order@.len() as int) <= isize::MAX,
        ensures
            result@ == list_schedule(ids(order@), ints(durations@), ints(release_times@)),
    {
        JobSchedule {
            schedule: MachineSchedule::from_order_ptimes_releasetimes(order, durations, release_times).schedule,
        }
    }

    /// The makespan: the end of the last run, zero for an empty schedule.
    pub fn makespan(&self) -> (result: Time)
        requires
            self@.len() > 0 ==> isize::MIN <= self@.last().end() <= isize::MAX,
        ensures
            result == makespan_of(self@),
    {
        assert(self@.len() == self.schedule@.len());
        runs_makespan(&self.schedule)
    }

    /// The maximum lateness under the given due times: the greatest value of
    /// end minus due time over the runs. The schedule must not be empty.
    pub fn lateness(&self, due_times: &[Time]) -> (result: Time)
        requires
            self@.len() > 0,
            forall|k: int| 0 <= k < self@.len() ==> 0 <= (#[trigger] self@[k]).job < due_times@.len(),
            forall|k: int|
                0 <= k < self@.len() ==> isize::MIN <= (#[trigger] self@[k]).lateness(ints(due_times@)) <= isize::MAX,
            forall|k: int| 0 <= k < self@.len() ==> isize::MIN <= (#[trigger] self@[k]).end() <= isize::MAX,
        ensures
            result == max_lateness_of(self@, ints(due_times@)),
            exists|k: int| 0 <= k < self@.len() && #[trigger] self@[k].lateness(ints(due_times@)) == result,
            forall|k: int| 0 <= k < self@.len() ==> #[trigger] self@[k].lateness(ints(due_times@)) <= result,
    {
        assert(self@.len() == self.schedule@.len());
        runs_max_lateness(&self.schedule, due_times)
    }
}

} // verus!
