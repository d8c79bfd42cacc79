use schedulib::schedule::{JobRun, MachineSchedule, MultiMachineSchedule};

fn example_schedule_1() -> MachineSchedule {
    MachineSchedule::from_ptimes_releasetimes(&vec![5, 6, 7, 3, 6, 2], &vec![10, 13, 11, 30, 0, 30])
}

#[test]
fn schedule_test_makespan_1() {
    assert_eq!(example_schedule_1().makespan(), 41);
}

#[test]
fn schedule_test_lateness_1() {
    let due_times = vec![19, 20, 24, 35, 17, 38];
    assert_eq!(example_schedule_1().max_lateness(&due_times), 22)
}

fn example_schedule_2() -> MachineSchedule {
    MachineSchedule::from_ptimes_releasetimes(&vec![6, 5, 6, 7, 4, 3, 2], &vec![0, 10, 13, 11, 20, 30, 30])
}

#[test]
fn schedule_test_makespan_2() {
    assert_eq!(example_schedule_2().makespan(), 37);
}

#[test]
fn schedule_test_lateness_2() {
    let due_times = vec![17, 17, 26, 35, 34, 38, 40];
    assert_eq!(example_schedule_2().max_lateness(&due_times), -2);
}

// schedule with preemptions:
fn example_schedule_3() -> MachineSchedule {
    let schedule = vec![
        JobRun { time: 0, job: 0, duration: 5 },
        JobRun { time: 5, job: 1, duration: 8 },
        JobRun { time: 13, job: 0, duration: 9 },
        JobRun { time: 42, job: 2, duration: 10 },
    ];
    MachineSchedule { schedule }
}

#[test]
fn schedule_test_makespan_3() {
    assert_eq!(example_schedule_3().makespan(), 42 + 10);
}

#[test]
fn schedule_test_lateness_3() {
    let due_times = vec![20, 15, 52];
    assert_eq!(example_schedule_3().max_lateness(&due_times), 13 + 9 - 20);
}

// schedule with preemptions:
fn example_schedule_4() -> MachineSchedule {
    let schedule = vec![
        JobRun { time: 3, job: 0, duration: 13 },
        JobRun { time: 16, job: 1, duration: 8 },
        JobRun { time: 24, job: 0, duration: 7 },
    ];
    MachineSchedule { schedule }
}

#[test]
fn schedule_test_schedule_makespan_2() {
    assert_eq!(example_schedule_4().makespan(), 24 + 7);
}

#[test]
fn schedule_test_schedule_lateness_2() {
    let due_times = vec![25, 24];
    assert_eq!(example_schedule_4().max_lateness(&due_times), 24 + 7 - 25);
}

#[test]
fn machine_schedule_from_durations_runs_back_to_back() {
    let result = MachineSchedule::from_ptimes(&vec![3, 0, 4]);
    assert_eq!(
        result.schedule,
        vec![
            JobRun { time: 0, job: 0, duration: 3 },
            JobRun { time: 3, job: 1, duration: 0 },
            JobRun { time: 3, job: 2, duration: 4 },
        ]
    );
    assert_eq!(result.makespan(), 7);
}

#[test]
fn machine_schedule_new_is_empty() {
    let result = MachineSchedule::new();
    assert!(result.schedule.is_empty());
    assert_eq!(result.makespan(), 0);
}

#[test]
fn machine_schedule_from_order_waits_for_releases() {
    let result = MachineSchedule::from_order_ptimes_releasetimes(&vec![1, 0], &vec![2, 3], &vec![0, 5]);
    assert_eq!(
        result.schedule,
        vec![JobRun { time: 5, job: 1, duration: 3 }, JobRun { time: 8, job: 0, duration: 2 }]
    );
}

#[test]
fn test_multischedule_from_order_ptimes() {
    let ptimes = vec![vec![9, 1, 9, 4], vec![6, 3, 5, 5]];
    let order = vec![2, 1, 3, 0];
    let result = MultiMachineSchedule::from_order_ptimes(&order, &ptimes);
    assert_eq!(result.machine_schedules[0], MachineSchedule::from_order_ptimes(&order, &ptimes[0]));
    assert_eq!(result.machine_schedules[1].schedule[3].time, 23);
}

#[test]
fn multischedule_makespan_is_the_latest_machine() {
    let ptimes = vec![vec![9, 1, 9, 4], vec![6, 3, 5, 5]];
    let order = vec![2, 1, 3, 0];
    let result = MultiMachineSchedule::from_order_ptimes(&order, &ptimes);
    assert_eq!(result.machine_schedules[0].makespan(), 23);
    assert_eq!(result.makespan(), 29);
    assert_eq!(MultiMachineSchedule::new().makespan(), 0);
}

#[test]
fn multischedule_without_machines_is_empty() {
    let ptimes: Vec<Vec<isize>> = vec![];
    let result = MultiMachineSchedule::from_order_ptimes(&vec![0, 1], &ptimes);
    assert!(result.machine_schedules.is_empty());
}

#[test]
fn num_tardy_counts_late_runs() {
    let schedule = MachineSchedule::from_ptimes(&vec![4, 4, 4]);
    assert_eq!(schedule.num_tardy(&vec![4, 7, 12]), 1);
    assert_eq!(schedule.num_tardy(&vec![3, 7, 11]), 3);
    assert_eq!(schedule.num_tardy(&vec![4, 8, 12]), 0);
    assert_eq!(MachineSchedule::new().num_tardy(&vec![]), 0);
}

#[test]
fn from_order_ptimes_ignores_release_times() {
    let result = MachineSchedule::from_order_ptimes(&vec![2, 0, 1], &vec![1, 2, 3]);
    assert_eq!(
        result.schedule,
        vec![
            JobRun { time: 0, job: 2, duration: 3 },
            JobRun { time: 3, job: 0, duration: 1 },
            JobRun { time: 4, job: 1, duration: 2 },
        ]
    );
}

#[test]
fn negative_release_times_start_at_zero() {
    let result = MachineSchedule::from_ptimes_releasetimes(&vec![2, 2], &vec![-5, -1]);
    assert_eq!(
        result.schedule,
        vec![JobRun { time: 0, job: 0, duration: 2 }, JobRun { time: 2, job: 1, duration: 2 }]
    );
    assert_eq!(result.max_lateness(&vec![-3, 10]), 5);
}
