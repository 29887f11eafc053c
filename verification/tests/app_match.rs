use active_app_volume::app_match::{candidates, focused_pids};
use std::collections::HashMap;

#[test]
fn exact_pid_precedes_sorted_descendants_and_excludes_unrelated_processes() {
    let table = HashMap::from([(90, 10), (5, 90), (30, 10), (70, 1)]);
    assert_eq!(candidates(10, &table), vec![10, 5, 30, 90]);
    assert_eq!(candidates(999, &table), vec![999]);
    assert!(focused_pids(0, &table).is_empty());
}

#[test]
fn cycles_and_deep_trees_do_not_recurse_or_duplicate_candidates() {
    assert_eq!(
        candidates(10, &HashMap::from([(10, 20), (20, 10)])),
        vec![10, 20]
    );
    let table = (2..=10_000).map(|pid| (pid, pid - 1)).collect();
    assert_eq!(candidates(1, &table), (1..=10_000).collect::<Vec<_>>());
}

#[test]
fn focused_pids_lists_the_window_process_and_its_tree() {
    let table = HashMap::from([(200, 100), (300, 200), (150, 100), (400, 1)]);
    assert_eq!(focused_pids(100, &table), vec![100, 150, 200, 300]);
    assert_eq!(focused_pids(300, &table), vec![300]);
    assert_eq!(focused_pids(0, &HashMap::new()), Vec::<u32>::new());
}

#[test]
fn a_process_below_itself_is_not_listed_twice() {
    // 7 is its own parent; 8 hangs below it.
    let table = HashMap::from([(7, 7), (8, 7)]);
    assert_eq!(candidates(7, &table), vec![7, 8]);
}

#[test]
fn descendants_come_out_ascending_whatever_the_tree_shape() {
    let table = HashMap::from([(9, 1), (3, 9), (8, 3), (2, 1), (6, 2), (4, 6)]);
    assert_eq!(candidates(1, &table), vec![1, 2, 3, 4, 6, 8, 9]);
    assert_eq!(candidates(2, &table), vec![2, 4, 6]);
}
