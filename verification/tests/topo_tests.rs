use vofa_next::topo::topo_sort;

#[test]
fn topo_sort_chain_in_index_order() {
    assert_eq!(topo_sort(3, &vec![(0, 1), (1, 2)]), Some(vec![0, 1, 2]));
}

#[test]
fn topo_sort_visits_upstream_first() {
    assert_eq!(topo_sort(3, &vec![(2, 0), (1, 0)]), Some(vec![2, 1, 0]));
}

#[test]
fn topo_sort_isolated_nodes_and_empty_graph() {
    assert_eq!(topo_sort(0, &vec![]), Some(vec![]));
    assert_eq!(topo_sort(2, &vec![]), Some(vec![0, 1]));
}

#[test]
fn topo_sort_detects_cycles() {
    assert_eq!(topo_sort(2, &vec![(0, 1), (1, 0)]), None);
    assert_eq!(topo_sort(1, &vec![(0, 0)]), None);
    assert_eq!(topo_sort(4, &vec![(0, 1), (1, 2), (2, 3), (3, 1)]), None);
}
