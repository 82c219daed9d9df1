use rumor::graph::{find_cycle, reachable};

#[test]
fn a_cycle_is_found_with_the_way_to_it() {
    let adj = vec![vec![1], vec![2], vec![1]];
    assert_eq!(find_cycle(&adj), Some(vec![0, 1, 2, 1]));
    assert_eq!(find_cycle(&[vec![0]]), Some(vec![0, 0]));
}

#[test]
fn a_diamond_is_no_cycle() {
    let adj = vec![vec![1, 2], vec![3], vec![3], vec![]];
    assert_eq!(find_cycle(&adj), None);
    assert_eq!(find_cycle(&[]), None);
}

#[test]
fn everything_behind_a_mark_is_reached() {
    let adj = vec![vec![1], vec![2], vec![], vec![2]];
    assert_eq!(reachable(&adj, &[true, false, false, false]), vec![true, true, true, false]);
    assert_eq!(reachable(&adj, &[false, false, false, true]), vec![false, false, true, true]);
    assert_eq!(reachable(&adj, &[false; 4]), vec![false; 4]);
}
