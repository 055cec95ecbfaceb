use incremental_cc::aggregate::{component_sizes, count_values, size_distribution};
use incremental_cc::components::connected_components;
use incremental_cc::delta::DeltaCollection;

#[test]
fn tally_counts_occurrences() {
    let t = count_values(&vec![5u64, 5, 7, 5]);
    assert_eq!(t, vec![(5, 3), (7, 1)]);
    let empty = count_values(&vec![]);
    assert_eq!(empty, vec![]);
}

#[test]
fn grouping_chain() {
    // Labels for two components: three nodes labelled 1, two
    // labelled 4; grouped once by label, then by size.
    let labels = vec![(1u64, 1u64), (2, 1), (3, 1), (4, 4), (5, 4)];
    let sizes = component_sizes(&labels);
    assert_eq!(sizes, vec![(1, 3), (4, 2)]);
    let dist = size_distribution(&sizes);
    assert_eq!(dist, vec![(3, 1), (2, 1)]);
}

#[test]
fn components_of_plain_edge_list() {
    let labels = connected_components(&vec![(1u64, 2u64), (2, 3)]);
    assert_eq!(labels, vec![(1, 1), (2, 1), (3, 1)]);
    let none = connected_components(&vec![]);
    assert_eq!(none, vec![]);
}

#[test]
fn labels_never_exceed_their_node() {
    // Monotonic decrease: every node starts as its own candidate and
    // candidates only ever shrink, so no final label exceeds its node.
    let labels = connected_components(&vec![(9u64, 4u64), (4, 7), (2, 9), (30, 40)]);
    assert!(labels.iter().all(|&(n, l)| l <= n));
    for &(n, l) in &labels {
        if n == 30 || n == 40 {
            assert_eq!(l, 30);
        } else {
            assert_eq!(l, 2);
        }
    }
}

#[test]
fn endpoints_of_each_edge_share_a_label() {
    // Component partition invariant on a concrete graph.
    let edges = vec![(5u64, 3u64), (3, 11), (20, 21), (11, 5)];
    let labels = connected_components(&edges);
    let label_of = |n: u64| labels.iter().find(|&&(m, _)| m == n).unwrap().1;
    for &(a, b) in &edges {
        assert_eq!(label_of(a), label_of(b));
    }
}

#[test]
fn multiplicities_cancel() {
    let mut c = DeltaCollection::new();
    c.insert(1, 2, 1, 0);
    c.insert(1, 2, -1, 0);
    assert_eq!(c.current_edges(0), vec![]);
    c.insert(1, 2, 1, 0);
    c.insert(1, 2, 1, 0);
    c.insert(1, 2, -1, 0);
    assert_eq!(c.current_edges(0), vec![(1, 2)]);
}

#[test]
fn presence_respects_the_epoch() {
    let mut c = DeltaCollection::new();
    c.insert(1, 2, 1, 5);
    assert_eq!(c.current_edges(0), vec![]);
    assert_eq!(c.current_edges(4), vec![]);
    assert_eq!(c.current_edges(5), vec![(1, 2)]);
    c.insert(1, 2, -1, 9);
    assert_eq!(c.current_edges(8), vec![(1, 2)]);
    assert_eq!(c.current_edges(9), vec![]);
}
