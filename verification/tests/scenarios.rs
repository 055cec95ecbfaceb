use incremental_cc::scheduler::Scheduler;

fn sorted(mut v: Vec<(u64, u64)>) -> Vec<(u64, u64)> {
    v.sort_unstable();
    v
}

#[test]
fn chain_of_three_with_isolated_node() {
    // Edges {(1,2),(2,3)}: one component of size 3. Node 4 has no
    // edges, so it never receives a label and is excluded entirely.
    let mut s = Scheduler::new();
    s.submit_update(1, 2, 1);
    s.submit_update(2, 3, 1);
    s.advance_epoch();
    s.poll_until_stable();
    let dist = s.read_component_size_distribution().unwrap();
    assert_eq!(sorted(dist), vec![(3, 1)]);
    let labels = s.read_node_labels().unwrap();
    assert_eq!(sorted(labels.clone()), vec![(1, 1), (2, 1), (3, 1)]);
    assert!(labels.iter().all(|&(n, _)| n != 4));
}

#[test]
fn delete_edge_isolates_node() {
    // Starting from {(1,2),(2,3)}, deleting (2,3) leaves one
    // component of size 2; node 3 becomes isolated and is excluded
    // from the output (the exclusion policy for isolated nodes).
    let mut s = Scheduler::new();
    s.submit_update(1, 2, 1);
    s.submit_update(2, 3, 1);
    s.advance_epoch();
    s.poll_until_stable();
    s.submit_update(2, 3, -1);
    s.advance_epoch();
    s.poll_until_stable();
    let dist = s.read_component_size_distribution().unwrap();
    assert_eq!(sorted(dist), vec![(2, 1)]);
    let labels = s.read_node_labels().unwrap();
    assert_eq!(sorted(labels), vec![(1, 1), (2, 1)]);
}

#[test]
fn two_disjoint_triangles() {
    // Two separate 3-cycles: two components of size 3.
    let mut s = Scheduler::new();
    for &(a, b) in &[(1u64, 2u64), (2, 3), (3, 1), (4, 5), (5, 6), (6, 4)] {
        s.submit_update(a, b, 1);
    }
    s.advance_epoch();
    s.poll_until_stable();
    let dist = s.read_component_size_distribution().unwrap();
    assert_eq!(sorted(dist), vec![(3, 2)]);
    let labels = s.read_node_labels().unwrap();
    assert_eq!(
        sorted(labels),
        vec![(1, 1), (2, 1), (3, 1), (4, 4), (5, 4), (6, 4)]
    );
}

#[test]
fn star_takes_least_member_as_label() {
    // A star centred on a high node id: the least member labels the
    // component, and the component has all four nodes.
    let mut s = Scheduler::new();
    s.submit_update(10, 2, 1);
    s.submit_update(10, 3, 1);
    s.submit_update(10, 4, 1);
    s.advance_epoch();
    s.poll_until_stable();
    let labels = s.read_node_labels().unwrap();
    assert_eq!(sorted(labels), vec![(2, 2), (3, 2), (4, 2), (10, 2)]);
    let dist = s.read_component_size_distribution().unwrap();
    assert_eq!(sorted(dist), vec![(4, 1)]);
}

#[test]
fn merge_two_components_by_one_edge() {
    // Two pairs merge into one component of four when a bridging edge
    // arrives in a later epoch.
    let mut s = Scheduler::new();
    s.submit_update(5, 6, 1);
    s.submit_update(8, 9, 1);
    s.advance_epoch();
    s.poll_until_stable();
    assert_eq!(
        sorted(s.read_component_size_distribution().unwrap()),
        vec![(2, 2)]
    );
    s.submit_update(6, 8, 1);
    s.advance_epoch();
    s.poll_until_stable();
    assert_eq!(
        sorted(s.read_component_size_distribution().unwrap()),
        vec![(4, 1)]
    );
    assert_eq!(
        sorted(s.read_node_labels().unwrap()),
        vec![(5, 5), (6, 5), (8, 5), (9, 5)]
    );
}
