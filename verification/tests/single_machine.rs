use schedulib::schedule::{JobRun, MachineSchedule};
use schedulib::single_machine::num_tardy::schedule_hodgson;
use schedulib::single_machine::releasetimes_maxlateness::preemptive;
use schedulib::single_machine::{carlier, critical_path, edd_preemptive, schrage};
use schedulib::Job;
use schedulib::Time;

fn example_1() -> (Vec<Time>, Vec<Time>, Vec<Time>) {
    (
        //    0   1   2   3   4   5   6
        vec![5, 6, 7, 4, 3, 6, 1],        // processing
        vec![10, 13, 11, 20, 30, 0, 31],  // release
        vec![15, 25, 32, 24, 36, 17, 33], // due
    )
}

fn example_2() -> (Vec<Time>, Vec<Time>, Vec<Time>) {
    (
        //    0    1    2    3   4    5   6
        vec![5, 6, 7, 4, 3, 6, 2],          // processing
        vec![10, 13, 11, 20, 30, 0, 30],    // release
        vec![-7, -26, -24, -21, -8, -17, 0], // due
    )
}

fn example_3() -> (Vec<Time>, Vec<Time>, Vec<Time>) {
    (
        //    0    1    2    3    4    5    6    7    8    9
        vec![4, 2, 5, 6, 3, 9, 2, 4, 1, 3],           // processing
        vec![20, 25, 38, 12, 24, 4, 21, 6, 37, 20],   // release
        vec![35, 34, 44, 32, 27, 25, 29, 31, 40, 44], // due
    )
}

#[test]
fn test_schrage_1() {
    let (p, r, d) = example_1();
    let expected_result = MachineSchedule::from_order_ptimes_releasetimes(&vec![5, 0, 1, 3, 2, 6, 4], &p, &r);
    let result = schrage(&p, &r, &d);
    assert_eq!(result, expected_result);
}

#[test]
fn test_critical_path() {
    let (p, r, d) = example_1();
    let schedule = MachineSchedule::from_ptimes_releasetimes(&p, &r);
    assert_eq!(critical_path(&schedule, &d), (0, 5));
}

#[test]
fn test_critical_path_2() {
    let (p, r, d) = example_2();
    let schedule = MachineSchedule::from_order_ptimes_releasetimes(&vec![5, 0, 1, 2, 3, 4, 6], &p, &r);
    assert_eq!(critical_path(&schedule, &d), (1, 4));
}

#[test]
fn test_schrage_2() {
    let (p, r, d) = example_2();
    let schedule = schrage(&p, &r, &d);
    let expected_result = MachineSchedule::from_order_ptimes_releasetimes(&vec![5, 0, 1, 2, 3, 4, 6], &p, &r);
    assert_eq!(schedule, expected_result);
}

#[test]
fn test_carlier_example_2() {
    let (p, r, d) = example_2();
    let schedule = carlier(&p, &r, &d);
    let expected_result = MachineSchedule::from_order_ptimes_releasetimes(&vec![5, 2, 1, 3, 0, 4, 6], &p, &r);
    assert_eq!(schedule, expected_result);
}

#[test]
fn test_carlier_example_3() {
    let (p, r, d) = example_3();
    let schedule = carlier(&p, &r, &d);
    assert_eq!(schedule.max_lateness(&d), 0);
}

#[test]
fn schrage_starts_match_the_order() {
    let (p, r, d) = example_1();
    let result = schrage(&p, &r, &d);
    let starts: Vec<Time> = result.schedule.iter().map(|run| run.time).collect();
    assert_eq!(starts, vec![0, 10, 15, 21, 25, 32, 33]);
    assert_eq!(result.schedule[0], JobRun { time: 0, job: 5, duration: 6 });
    // job 3 runs from 21 to 25 and is due at 24
    assert_eq!(result.max_lateness(&d), 1);
    assert_eq!(result.num_tardy(&d), 1);
    assert_eq!(result.makespan(), 36);
}

fn example_1_preemptive_runs() -> Vec<JobRun> {
    vec![
        JobRun { time: 0, job: 5, duration: 6 },
        JobRun { time: 10, job: 0, duration: 5 },
        JobRun { time: 15, job: 1, duration: 5 },
        JobRun { time: 20, job: 3, duration: 4 },
        JobRun { time: 24, job: 1, duration: 1 },
        JobRun { time: 25, job: 2, duration: 7 },
        JobRun { time: 32, job: 6, duration: 1 },
        JobRun { time: 33, job: 4, duration: 3 },
    ]
}

#[test]
fn single_machine_test_edd_preemptive_1() {
    let (p, r, d) = example_1();
    let expected_result = MachineSchedule { schedule: example_1_preemptive_runs() };
    let result = edd_preemptive(p, &r, &d);
    assert_eq!(result, expected_result);
}

#[test]
fn preemptive_test_edd_preemptive_1() {
    let (p, r, d) = example_1();
    let expected_result = MachineSchedule { schedule: example_1_preemptive_runs() };
    let result = preemptive::edd_preemptive(p, &r, &d);
    assert_eq!(result, expected_result);
}

#[test]
fn test_hodgson_example_1() {
    let p = vec![10, 6, 3, 1, 4, 8, 7, 6];
    let d = vec![35, 20, 11, 8, 6, 26, 28, 9];
    let expected_order = vec![4, 3, 2, 1, 6, 0]; // the remaining two can be in arbitrary order
    let result = schedule_hodgson(&p, &d);
    let order: Vec<Job> = result.schedule.iter().map(|&jr| jr.job).collect();
    assert_eq!(order[..6], expected_order);
}

#[test]
fn hodgson_puts_the_late_jobs_last() {
    let p = vec![10, 6, 3, 1, 4, 8, 7, 6];
    let d = vec![35, 20, 11, 8, 6, 26, 28, 9];
    let result = schedule_hodgson(&p, &d);
    let order: Vec<Job> = result.schedule.iter().map(|&jr| jr.job).collect();
    assert_eq!(order, vec![4, 3, 2, 1, 6, 0, 5, 7]);
    assert_eq!(result.num_tardy(&d), 2);
    assert_eq!(result.makespan(), 45);
}

#[test]
fn hodgson_keeps_everything_that_fits() {
    let result = schedule_hodgson(&vec![2, 2, 2], &vec![6, 2, 4]);
    let order: Vec<Job> = result.schedule.iter().map(|&jr| jr.job).collect();
    assert_eq!(order, vec![1, 2, 0]);
    assert_eq!(result.num_tardy(&vec![6, 2, 4]), 0);
}

#[test]
fn schrage_breaks_ties_by_length_then_index() {
    // all released at once and due at once: longest first, then the smaller index
    let p = vec![2, 5, 5, 1];
    let r = vec![0, 0, 0, 0];
    let d = vec![9, 9, 9, 9];
    let result = schrage(&p, &r, &d);
    let order: Vec<Job> = result.schedule.iter().map(|run| run.job).collect();
    assert_eq!(order, vec![1, 2, 0, 3]);
}

#[test]
fn schrage_waits_for_the_first_release() {
    let result = schrage(&vec![3, 2], &vec![7, 4], &vec![20, 20]);
    assert_eq!(
        result.schedule,
        vec![JobRun { time: 4, job: 1, duration: 2 }, JobRun { time: 7, job: 0, duration: 3 }]
    );
}

#[test]
fn empty_instance_gives_empty_schedules() {
    let none: Vec<Time> = vec![];
    assert!(schrage(&none, &none, &none).schedule.is_empty());
    assert!(carlier(&none, &none, &none).schedule.is_empty());
    assert!(edd_preemptive(vec![], &none, &none).schedule.is_empty());
    assert!(schedule_hodgson(&none, &none).schedule.is_empty());
}

#[test]
fn carlier_beats_schrage_on_example_2() {
    let (p, r, d) = example_2();
    let heuristic = schrage(&p, &r, &d).max_lateness(&d);
    let exact = carlier(&p, &r, &d).max_lateness(&d);
    assert_eq!(heuristic, 53);
    assert_eq!(exact, 50);
    assert!(exact < heuristic);
}

fn is_valid(schedule: &MachineSchedule, r: &[Time]) -> bool {
    let runs = &schedule.schedule;
    runs.iter().all(|run| run.time >= r[run.job])
        && runs.windows(2).all(|pair| pair[0].time + pair[0].duration <= pair[1].time)
}

fn time_per_job(schedule: &MachineSchedule, n: usize) -> Vec<Time> {
    let mut total = vec![0; n];
    for run in schedule.schedule.iter() {
        total[run.job] += run.duration;
    }
    total
}

#[test]
fn schedules_are_valid_and_account_for_every_job() {
    for (p, r, d) in [example_1(), example_2(), example_3()] {
        let n = p.len();
        let heuristic = schrage(&p, &r, &d);
        let exact = carlier(&p, &r, &d);
        let relaxed = edd_preemptive(p.clone(), &r, &d);
        for schedule in [&heuristic, &exact] {
            assert!(is_valid(schedule, &r));
            assert_eq!(schedule.schedule.len(), n);
            assert_eq!(time_per_job(schedule, n), p);
        }
        assert!(is_valid(&relaxed, &r));
        assert_eq!(time_per_job(&relaxed, n), p);
    }
}

#[test]
fn lateness_is_ordered_preemptive_exact_heuristic() {
    for (p, r, d) in [example_1(), example_2(), example_3()] {
        let heuristic = schrage(&p, &r, &d).max_lateness(&d);
        let exact = carlier(&p, &r, &d).max_lateness(&d);
        let relaxed = edd_preemptive(p.clone(), &r, &d).max_lateness(&d);
        assert!(relaxed <= exact);
        assert!(exact <= heuristic);
    }
}

#[test]
fn equal_release_times_make_schrage_exact() {
    let p = vec![4, 2, 5, 6, 3];
    let r = vec![7, 7, 7, 7, 7];
    let d = vec![12, 30, 11, 25, 16];
    let heuristic = schrage(&p, &r, &d);
    let exact = carlier(&p, &r, &d);
    assert_eq!(heuristic, exact);
    assert_eq!(heuristic.max_lateness(&d), exact.max_lateness(&d));
    let order: Vec<Job> = heuristic.schedule.iter().map(|run| run.job).collect();
    assert_eq!(order, vec![2, 0, 4, 3, 1]);
}

#[test]
fn carlier_gives_the_same_schedule_twice() {
    let (p, r, d) = example_2();
    assert_eq!(carlier(&p, &r, &d), carlier(&p, &r, &d));
}

#[test]
fn shifting_release_and_due_times_shifts_the_schedule() {
    let (p, r, d) = example_2();
    let shift = 17;
    let r2: Vec<Time> = r.iter().map(|t| t + shift).collect();
    let d2: Vec<Time> = d.iter().map(|t| t + shift).collect();
    for (plain, moved) in [(schrage(&p, &r, &d), schrage(&p, &r2, &d2)), (carlier(&p, &r, &d), carlier(&p, &r2, &d2))] {
        assert_eq!(plain.schedule.len(), moved.schedule.len());
        for (a, b) in plain.schedule.iter().zip(moved.schedule.iter()) {
            assert_eq!(a.job, b.job);
            assert_eq!(a.duration, b.duration);
            assert_eq!(a.time + shift, b.time);
        }
        assert_eq!(plain.max_lateness(&d), moved.max_lateness(&d2));
    }
}

#[test]
fn preemptive_rule_breaks_ties_by_the_larger_index() {
    let result = edd_preemptive(vec![2, 2], &vec![0, 0], &vec![5, 5]);
    assert_eq!(
        result.schedule,
        vec![JobRun { time: 0, job: 1, duration: 2 }, JobRun { time: 2, job: 0, duration: 2 }]
    );
}

#[test]
fn preemptive_rule_continues_an_interrupted_job() {
    // job 1 arrives while job 0 runs, but is due later: job 0 goes on in one run
    let result = edd_preemptive(vec![5, 2], &vec![0, 3], &vec![6, 20]);
    assert_eq!(
        result.schedule,
        vec![JobRun { time: 0, job: 0, duration: 5 }, JobRun { time: 5, job: 1, duration: 2 }]
    );
}

fn example_200() -> (Vec<Time>, Vec<Time>, Vec<Time>) {
    (
        vec![
        13, 17, 6, 2, 16, 29, 22, 24, 25, 11, 27, 16, 25, 25, 5, 16, 24, 13, 4, 29,
        24, 13, 3, 19, 5, 4, 12, 4, 27, 23, 22, 20, 19, 8, 3, 9, 15, 24, 3, 26,
        29, 21, 3, 19, 27, 4, 3, 7, 2, 15, 5, 18, 14, 27, 6, 25, 27, 8, 24, 4,
        12, 11, 19, 4, 22, 29, 10, 29, 10, 18, 13, 16, 1, 29, 4, 3, 20, 10, 19, 23,
        14, 14, 1, 3, 20, 16, 10, 28, 16, 3, 13, 4, 26, 26, 12, 20, 15, 12, 8, 5,
        17, 21, 12, 23, 21, 24, 27, 18, 1, 11, 11, 27, 25, 4, 7, 15, 5, 7, 26, 17,
        17, 2, 6, 2, 19, 23, 10, 13, 6, 16, 22, 1, 20, 23, 5, 1, 25, 10, 14, 22,
        28, 4, 22, 23, 4, 28, 22, 12, 4, 16, 5, 8, 25, 2, 22, 9, 12, 27, 22, 7,
        7, 13, 4, 18, 10, 23, 21, 4, 4, 8, 1, 8, 15, 22, 18, 25, 28, 26, 3, 9,
        28, 24, 21, 29, 10, 22, 11, 7, 16, 2, 21, 14, 8, 16, 12, 22, 7, 20, 25, 10,
        ],
        vec![
        1324, 449, 1941, 2398, 2922, 1915, 380, 2894, 1224, 2735, 2531, 2362, 689, 2607, 1856, 1136, 2105, 2140, 1313, 293,
        2294, 2191, 1440, 183, 1343, 35, 2041, 480, 146, 2406, 1396, 2736, 1818, 1975, 105, 2251, 606, 2220, 1081, 2734,
        519, 2052, 81, 1276, 1778, 325, 2556, 2459, 529, 1998, 2141, 886, 2659, 2864, 2943, 2574, 1800, 2191, 2500, 2474,
        2305, 1984, 2654, 1824, 973, 2557, 2839, 1876, 1652, 1107, 589, 1327, 900, 242, 119, 2453, 699, 776, 2742, 1774,
        2595, 2111, 1221, 349, 1725, 1864, 1285, 2831, 2461, 1581, 2880, 1325, 664, 1750, 2427, 470, 703, 2169, 1928, 2257,
        2969, 2239, 252, 557, 139, 463, 1099, 2593, 2759, 2222, 2318, 2411, 115, 174, 2408, 2038, 2342, 1487, 1595, 790,
        454, 1797, 2893, 653, 674, 642, 477, 2817, 1798, 2140, 2586, 1302, 599, 2004, 2227, 1868, 1143, 631, 1818, 2835,
        48, 1084, 2183, 2097, 2028, 1015, 898, 142, 453, 2764, 2065, 2904, 1062, 138, 895, 124, 1988, 332, 1878, 560,
        1121, 1992, 693, 544, 1168, 889, 2793, 1665, 380, 1824, 477, 69, 2688, 2863, 1991, 2295, 1702, 2534, 1816, 996,
        1935, 48, 2886, 239, 632, 623, 2703, 2559, 1471, 2924, 629, 1258, 596, 1913, 1749, 1927, 1500, 2332, 824, 2924,
        ],
        vec![
        2843, 1751, 1729, 2279, 1523, 1534, 2497, 2193, 1617, 2090, 1996, 2029, 1728, 2885, 1777, 2237, 2251, 2193, 1960, 2115,
        2088, 1998, 2886, 1985, 1826, 1572, 2946, 2644, 2229, 2271, 1933, 2504, 1964, 2027, 2900, 1531, 2703, 2159, 1750, 1780,
        2855, 1607, 2635, 1899, 1904, 2415, 2574, 2457, 2982, 1608, 1849, 2306, 2413, 2231, 1560, 2623, 2200, 2959, 2625, 2215,
        2302, 1726, 2871, 2131, 2843, 1605, 2148, 2020, 2821, 2664, 1707, 2709, 1820, 2587, 2158, 2461, 1973, 2722, 2946, 1840,
        1625, 2765, 2525, 1506, 1903, 1613, 1877, 2741, 1619, 2253, 2238, 1666, 2975, 1532, 2103, 2203, 2938, 2438, 2740, 2313,
        2226, 1784, 1570, 1540, 2351, 2786, 2272, 1562, 2166, 1536, 2719, 1731, 1984, 2005, 2648, 2726, 2575, 1810, 1558, 2596,
        2596, 2622, 2375, 2962, 1559, 2124, 1784, 2796, 1940, 2426, 1906, 1725, 2389, 1793, 1517, 2600, 1586, 2411, 1947, 2168,
        1826, 2876, 2893, 2576, 2797, 2817, 1814, 1774, 2335, 1847, 2454, 1795, 2096, 1507, 1827, 1936, 2902, 1611, 1549, 1664,
        2775, 2013, 2999, 2109, 2184, 1556, 2324, 2197, 1745, 2041, 2278, 2102, 2106, 2964, 2124, 2463, 2845, 1509, 1793, 2566,
        1803, 1667, 1731, 1663, 2298, 2850, 1779, 2441, 2272, 1745, 1606, 2256, 2932, 2665, 2432, 2944, 2078, 2008, 2527, 2920,
        ],
    )
}

#[test]
fn carlier_solves_two_hundred_jobs() {
    let (p, r, d) = example_200();
    let schedule = carlier(&p, &r, &d);
    assert_eq!(schedule.max_lateness(&d), 1415);
    assert!(is_valid(&schedule, &r));
    assert_eq!(time_per_job(&schedule, p.len()), p);
}
