use schedulib::flow_shop::johnson;
use schedulib::schedule::{MachineSchedule, MultiMachineSchedule};
use schedulib::single_machine::num_tardy::schedule_hodgson;
use schedulib::single_machine::{carlier, edd_preemptive, schrage};
use schedulib::{Job, Time};

fn permutations(n: usize) -> Vec<Vec<Job>> {
    if n == 0 {
        return vec![vec![]];
    }
    let mut all = Vec::new();
    for shorter in permutations(n - 1) {
        for at in 0..n {
            let mut order = shorter.clone();
            order.insert(at, n - 1);
            all.push(order);
        }
    }
    all
}

fn instances() -> Vec<(Vec<Time>, Vec<Time>, Vec<Time>)> {
    vec![
        (vec![5, 6, 7, 4, 3, 6], vec![10, 13, 11, 20, 30, 0], vec![15, 25, 32, 24, 36, 17]),
        (vec![5, 6, 7, 4, 3, 6], vec![10, 13, 11, 20, 30, 0], vec![-7, -26, -24, -21, -8, -17]),
        (vec![4, 2, 5, 6, 3], vec![0, 3, 1, 9, 9], vec![9, 6, 30, 16, 14]),
        (vec![3, 3, 3, 3], vec![0, 0, 0, 0], vec![5, 5, 9, 9]),
        (vec![2, 0, 7, 1, 4], vec![6, 6, 0, 2, 2], vec![8, 6, 9, 5, 30]),
        (vec![10, 1, 1, 1], vec![0, 1, 2, 3], vec![14, 3, 4, 5]),
    ]
}

#[test]
fn carlier_is_as_good_as_the_best_order() {
    for (p, r, d) in instances() {
        let best = permutations(p.len())
            .iter()
            .map(|order| MachineSchedule::from_order_ptimes_releasetimes(order, &p, &r).max_lateness(&d))
            .min()
            .unwrap();
        assert_eq!(carlier(&p, &r, &d).max_lateness(&d), best);
        assert!(schrage(&p, &r, &d).max_lateness(&d) >= best);
        assert!(edd_preemptive(p.clone(), &r, &d).max_lateness(&d) <= best);
    }
}

#[test]
fn hodgson_has_as_few_late_jobs_as_the_best_order() {
    for (p, _, d) in instances() {
        let due: Vec<Time> = d.iter().map(|t| t.abs()).collect();
        let best = permutations(p.len())
            .iter()
            .map(|order| MachineSchedule::from_order_ptimes(order, &p).num_tardy(&due))
            .min()
            .unwrap();
        assert_eq!(schedule_hodgson(&p, &due).num_tardy(&due), best);
    }
}

#[test]
fn johnson_is_as_fast_as_the_best_order() {
    let shops = vec![
        vec![vec![3, 2, 1, 6, 4], vec![4, 1, 5, 2, 4]],
        vec![vec![5, 5, 5, 1], vec![1, 2, 9, 9]],
        vec![vec![2, 2, 2], vec![2, 2, 2]],
        vec![vec![7, 1, 8, 3, 3, 4], vec![2, 9, 1, 3, 5, 4]],
    ];
    for ptimes in shops {
        let n = ptimes[0].len();
        let best = permutations(n)
            .iter()
            .map(|order| MultiMachineSchedule::from_order_ptimes(order, &ptimes).makespan())
            .min()
            .unwrap();
        let order = johnson(&ptimes);
        assert_eq!(MultiMachineSchedule::from_order_ptimes(&order, &ptimes).makespan(), best);
    }
}
