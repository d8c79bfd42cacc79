use schedulib::schedule::JobRun;
use schedulib::unrelated_machines::{
    serial_schedule_heuristic, serial_schedule_heuristic_pick_next, PrecedenceGraph,
};

#[test]
fn test_precedence_graph() {
    let prec = vec![vec![1], vec![], vec![1], vec![0, 2], vec![2]];
    let mut pg = PrecedenceGraph::new(prec);
    assert_eq!(pg.available_jobs(), vec![1]);

    pg.mark_job_completed(1);
    let mut result = pg.available_jobs().to_vec();
    result.sort();
    assert_eq!(result, vec![0, 2]);

    pg.mark_job_completed(2);
    let mut result = pg.available_jobs().to_vec();
    result.sort();
    assert_eq!(result, vec![0, 4]);

    pg.mark_job_completed(0);
    let mut result = pg.available_jobs().to_vec();
    result.sort();
    assert_eq!(result, vec![3, 4]);
}

#[test]
fn running_job_never_becomes_available_again() {
    let mut pg = PrecedenceGraph::new(vec![vec![], vec![0], vec![]]);
    assert_eq!(pg.available_jobs(), vec![0, 2]);
    pg.mark_job_running(0);
    assert_eq!(pg.available_jobs(), vec![2]);
    pg.mark_job_completed(0);
    assert_eq!(pg.available_jobs(), vec![2, 1]);
    pg.mark_job_completed(2);
    assert_eq!(pg.available_jobs(), vec![1]);
}

#[test]
fn test_serial_schedule_heuristic() {
    let p = vec![
        vec![4, 4, 9, 2, 3, 2], // processing times on machine 0
        vec![6, 4, 3, 3, 7, 5], // processing times on machine 2
    ];
    let prec = vec![
        vec![3], // jobs required for job 0
        vec![0, 5],
        vec![4],
        vec![],
        vec![],
        vec![],
    ];
    let schedules = serial_schedule_heuristic(&p, prec);
    // optimal makespan is actually 12
    // (run jobs 3, 5, 4, 1 on machine 0)
    assert!(schedules.iter().map(|s| s.makespan()).max().unwrap() <= 13);
}

#[test]
fn test_serial_schedule_heuristic_2() {
    // this is the example given in doi:10.4304/jsw.6.6.1146-1153
    let p = vec![vec![3, 4, 8, 2, 5, 9, 3], vec![9, 5, 2, 6, 10, 4, 8]];
    let prec = vec![vec![], vec![], vec![0], vec![], vec![], vec![1], vec![2]];
    let schedules = serial_schedule_heuristic(&p, prec);
    assert_eq!(schedules.iter().map(|s| s.makespan()).max().unwrap(), 13);
}

#[test]
fn serial_schedule_runs_every_job_once_after_its_precedents() {
    let p = vec![vec![3, 4, 8, 2, 5, 9, 3], vec![9, 5, 2, 6, 10, 4, 8]];
    let prec = vec![vec![], vec![], vec![0], vec![], vec![], vec![1], vec![2]];
    let schedules = serial_schedule_heuristic(&p, prec.clone());
    assert_eq!(schedules.len(), 2);
    let mut start = vec![-1; 7];
    let mut end = vec![-1; 7];
    for (machine, schedule) in schedules.iter().enumerate() {
        for pair in schedule.schedule.windows(2) {
            assert!(pair[0].time + pair[0].duration <= pair[1].time);
        }
        for run in schedule.schedule.iter() {
            assert_eq!(start[run.job], -1);
            assert_eq!(run.duration, p[machine][run.job]);
            start[run.job] = run.time;
            end[run.job] = run.time + run.duration;
        }
    }
    for job in 0..7 {
        assert!(start[job] >= 0);
        for before in prec[job].iter() {
            assert!(end[*before] <= start[job]);
        }
    }
}

#[test]
fn serial_schedule_on_one_machine_takes_the_shortest_job() {
    let p = vec![vec![5, 2, 2, 7]];
    let schedules = serial_schedule_heuristic(&p, vec![vec![], vec![], vec![], vec![]]);
    assert_eq!(
        schedules[0].schedule,
        vec![
            JobRun { time: 0, job: 1, duration: 2 },
            JobRun { time: 2, job: 2, duration: 2 },
            JobRun { time: 4, job: 0, duration: 5 },
            JobRun { time: 9, job: 3, duration: 7 },
        ]
    );
}

#[test]
fn serial_schedule_without_machines_or_jobs() {
    let none: Vec<Vec<isize>> = vec![];
    assert!(serial_schedule_heuristic(&none, vec![]).is_empty());
    let idle = vec![vec![], vec![]];
    let schedules = serial_schedule_heuristic(&idle, vec![]);
    assert_eq!(schedules.len(), 2);
    assert!(schedules.iter().all(|s| s.schedule.is_empty()));
}

#[test]
fn serial_schedule_stops_where_the_constraints_are_cyclic() {
    // job 1 and job 2 wait for each other
    let p = vec![vec![1, 1, 1]];
    let schedules = serial_schedule_heuristic(&p, vec![vec![], vec![2], vec![1]]);
    assert_eq!(schedules[0].schedule, vec![JobRun { time: 0, job: 0, duration: 1 }]);
}

#[test]
fn pick_next_prefers_the_widest_spread_and_the_fastest_machine() {
    // with both machines idle: the spreads of the jobs' times are 0, 4.5 and 0.5
    let p = vec![vec![4, 1, 3], vec![4, 4, 2]];
    assert_eq!(serial_schedule_heuristic_pick_next(&p, &[0, 1], &[0, 1, 2]), (0, 1, 1));
    // of equal spreads the last job wins, of equally fast machines the first
    let q = vec![vec![2, 2], vec![2, 2]];
    assert_eq!(serial_schedule_heuristic_pick_next(&q, &[0, 1], &[0, 1]), (0, 1, 2));
    // a single idle machine takes its shortest job, the smaller index of equals
    assert_eq!(serial_schedule_heuristic_pick_next(&p, &[1], &[0, 1, 2]), (1, 2, 2));
    assert_eq!(serial_schedule_heuristic_pick_next(&p, &[1], &[1, 0]), (1, 0, 4));
}
