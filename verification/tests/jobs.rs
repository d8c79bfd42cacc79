use schedulib::jobs::{JobRun, JobSchedule};

fn example_schedule_1() -> JobSchedule {
    JobSchedule::from_durations_releasetimes(&vec![5, 6, 7, 3, 6, 2], &vec![10, 13, 11, 30, 0, 30])
}

#[test]
fn jobs_test_makespan_1() {
    assert_eq!(example_schedule_1().makespan(), 41);
}

#[test]
fn jobs_test_lateness_1() {
    let due_times = vec![19, 20, 24, 35, 17, 38];
    assert_eq!(example_schedule_1().lateness(&due_times), 22)
}

fn example_schedule_2() -> JobSchedule {
    JobSchedule::from_durations_releasetimes(&vec![6, 5, 6, 7, 4, 3, 2], &vec![0, 10, 13, 11, 20, 30, 30])
}

#[test]
fn jobs_test_makespan_2() {
    assert_eq!(example_schedule_2().makespan(), 37);
}

#[test]
fn jobs_test_lateness_2() {
    let due_times = vec![17, 17, 26, 35, 34, 38, 40];
    assert_eq!(example_schedule_2().lateness(&due_times), -2);
}

// schedule with preemptions:
fn example_schedule_3() -> JobSchedule {
    let schedule = vec![
        JobRun { time: 0, job: 0, duration: 5 },
        JobRun { time: 5, job: 1, duration: 8 },
        JobRun { time: 13, job: 0, duration: 9 },
        JobRun { time: 42, job: 2, duration: 10 },
    ];
    JobSchedule { schedule }
}

#[test]
fn jobs_test_makespan_3() {
    assert_eq!(example_schedule_3().makespan(), 42 + 10);
}

#[test]
fn jobs_test_lateness_3() {
    let due_times = vec![20, 15, 52];
    assert_eq!(example_schedule_3().lateness(&due_times), 13 + 9 - 20);
}

// schedule with preemptions:
fn example_schedule_4() -> JobSchedule {
    let schedule = vec![
        JobRun { time: 3, job: 0, duration: 13 },
        JobRun { time: 16, job: 1, duration: 8 },
        JobRun { time: 24, job: 0, duration: 7 },
    ];
    JobSchedule { schedule }
}

#[test]
fn jobs_test_schedule_makespan_2() {
    assert_eq!(example_schedule_4().makespan(), 24 + 7);
}

#[test]
fn jobs_test_schedule_lateness_2() {
    let due_times = vec![25, 24];
    assert_eq!(example_schedule_4().lateness(&due_times), 24 + 7 - 25);
}

#[test]
fn job_schedule_from_durations_runs_back_to_back() {
    let result = JobSchedule::from_durations(&vec![3, 0, 4]);
    assert_eq!(
        result.schedule,
        vec![
            JobRun { time: 0, job: 0, duration: 3 },
            JobRun { time: 3, job: 1, duration: 0 },
            JobRun { time: 3, job: 2, duration: 4 },
        ]
    );
    assert_eq!(result.makespan(), 7);
}

#[test]
fn job_schedule_new_is_empty() {
    let result = JobSchedule::new();
    assert!(result.schedule.is_empty());
    assert_eq!(result.makespan(), 0);
}

#[test]
fn job_schedule_from_order_waits_for_releases() {
    let result = JobSchedule::from_order_durations_releasetimes(&vec![1, 0], &vec![2, 3], &vec![0, 5]);
    assert_eq!(
        result.schedule,
        vec![JobRun { time: 5, job: 1, duration: 3 }, JobRun { time: 8, job: 0, duration: 2 }]
    );
}
