use systems::garbage_collector::mark_reachable;

#[test]
fn mark_keeps_rooted_and_frees_unrooted() {
    // Two lone objects: the first rooted, the second not.
    let children: Vec<Vec<usize>> = vec![vec![], vec![]];
    assert_eq!(mark_reachable(&children, &vec![true, false]), vec![true, false]);
}

#[test]
fn mark_follows_chains_of_handles() {
    // 0 -> 1 -> 2, 3 -> 0; only 0 is rooted.
    let children: Vec<Vec<usize>> = vec![vec![1], vec![2], vec![], vec![0]];
    let rooted = vec![true, false, false, false];
    assert_eq!(mark_reachable(&children, &rooted), vec![true, true, true, false]);
}

#[test]
fn mark_leaves_unrooted_cycles_unmarked() {
    // 0 <-> 1 form a cycle nothing roots; 2 is rooted and holds itself.
    let children: Vec<Vec<usize>> = vec![vec![1], vec![0], vec![2]];
    let rooted = vec![false, false, true];
    assert_eq!(mark_reachable(&children, &rooted), vec![false, false, true]);
}

#[test]
fn mark_reaches_a_cycle_through_a_root() {
    // The root 3 holds 1, which sits on the cycle 0 -> 1 -> 2 -> 0; 4 holds 3 but is unrooted.
    let children: Vec<Vec<usize>> = vec![vec![1], vec![2], vec![0], vec![1, 1], vec![3]];
    let rooted = vec![false, false, false, true, false];
    assert_eq!(mark_reachable(&children, &rooted), vec![true, true, true, true, false]);
}

#[test]
fn mark_on_an_empty_heap() {
    let children: Vec<Vec<usize>> = vec![];
    assert!(mark_reachable(&children, &vec![]).is_empty());
}
