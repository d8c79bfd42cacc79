use schedulib::flow_shop::{dannenbring, johnson, partition_in_place};
use schedulib::schedule::MultiMachineSchedule;
use schedulib::Time;

fn example_1() -> Vec<Vec<Time>> {
    vec![vec![3, 2, 1], vec![4, 1, 5]]
}

#[test]
fn test_johnson_example_1() {
    let result = johnson(&example_1());
    let expected = vec![2, 0, 1];
    assert_eq!(result, expected);
}

#[test]
fn test_partition_in_place() {
    let mut container = vec![3, 4, 7, 1, 0, 2, 0, 4];
    let is_even: fn(&i32) -> bool = |x| x % 2 == 0;
    let k = partition_in_place(&mut container, is_even);
    container[..k].sort_unstable();
    container[k..].sort_unstable();
    assert_eq!(container, vec![0, 0, 2, 4, 4, 1, 3, 7]);
}

fn example_2() -> Vec<Vec<Time>> {
    vec![vec![3, 4, 10], vec![11, 1, 5], vec![7, 9, 13], vec![10, 12, 2]]
    // the optimal flow shop schedule is given by the permutation 0, 3, 2, 1
}

#[test]
fn test_dannenbring_example_2() {
    let ptimes = example_2();
    let result = dannenbring(&ptimes);
    let schedule = MultiMachineSchedule::from_order_ptimes(&result, &ptimes);
    assert!(schedule.makespan() <= 40);
    assert!(schedule.makespan() >= 39); // this is the optimal solution
}

#[test]
fn partition_counts_the_items_that_satisfy_the_predicate() {
    let mut all_even = vec![2, 4, 6];
    assert_eq!(partition_in_place(&mut all_even, |x: &i32| x % 2 == 0), 3);
    let mut none_even = vec![1, 3];
    assert_eq!(partition_in_place(&mut none_even, |x: &i32| x % 2 == 0), 0);
    let mut empty: Vec<i32> = vec![];
    assert_eq!(partition_in_place(&mut empty, |x: &i32| x % 2 == 0), 0);
    let mut mixed = vec![1, 2, 3, 4, 5];
    let k = partition_in_place(&mut mixed, |x: &i32| *x > 2);
    assert_eq!(k, 3);
    assert!(mixed[..k].iter().all(|x| *x > 2));
    assert!(mixed[k..].iter().all(|x| *x <= 2));
}

#[test]
fn johnson_orders_each_group_and_breaks_ties_by_index() {
    // first group (no longer on machine 0): jobs 0, 2, 3 by ascending time on machine 0
    // second group: jobs 1, 4 by descending time on machine 1
    let ptimes = vec![vec![2, 9, 2, 1, 7], vec![2, 3, 5, 1, 6]];
    assert_eq!(johnson(&ptimes), vec![3, 0, 2, 4, 1]);
    let all_first = vec![vec![1, 1, 1], vec![5, 5, 5]];
    assert_eq!(johnson(&all_first), vec![0, 1, 2]);
    let none: Vec<Vec<Time>> = vec![vec![], vec![]];
    assert!(johnson(&none).is_empty());
}

#[test]
fn dannenbring_weights_the_machines() {
    // weights towards the early machines: 3*3+2*11+7 = 38, 3*4+2*1+9 = 23, 3*10+2*5+13 = 53
    // weights towards the late machines: 3+2*11+3*7 = 46, 4+2*1+3*9 = 33, 10+2*5+3*13 = 59
    let ptimes = vec![vec![3, 4, 10], vec![11, 1, 5], vec![7, 9, 13]];
    assert_eq!(dannenbring(&ptimes), vec![1, 0, 2]);
    let none: Vec<Vec<Time>> = vec![];
    assert!(dannenbring(&none).is_empty());
}
