use incremental_cc::scheduler::{ReadError, Scheduler};

#[test]
fn read_before_any_epoch_is_rejected() {
    let s = Scheduler::new();
    assert_eq!(
        s.read_component_size_distribution(),
        Err(ReadError::StabilityViolation)
    );
    assert_eq!(s.read_node_labels(), Err(ReadError::StabilityViolation));
}

#[test]
fn read_while_pending_is_rejected() {
    let mut s = Scheduler::new();
    s.submit_update(1, 2, 1);
    s.advance_epoch();
    // The epoch is declared stable but its re-evaluation has not run:
    // reading now would return stale data, so it is rejected.
    assert_eq!(
        s.read_component_size_distribution(),
        Err(ReadError::StabilityViolation)
    );
    s.poll_until_stable();
    assert!(s.read_component_size_distribution().is_ok());
}

#[test]
fn stability_follows_the_frontier() {
    let mut s = Scheduler::new();
    assert!(!s.is_stable(0));
    s.advance_epoch();
    assert!(s.is_stable(0));
    assert!(!s.is_stable(1));
    s.advance_epoch();
    assert!(s.is_stable(1));
}

#[test]
fn idle_step_changes_nothing() {
    let mut s = Scheduler::new();
    s.submit_update(1, 2, 1);
    s.advance_epoch();
    s.poll_until_stable();
    let before = s.read_node_labels().unwrap();
    assert!(s.step());
    assert!(s.step());
    assert_eq!(s.read_node_labels().unwrap(), before);
}

#[test]
fn reconvergence_without_updates_produces_zero_deltas() {
    // Idempotence of convergence: closing an epoch with no new
    // updates re-runs the fixpoint on a converged labelling, and the
    // re-evaluation emits zero NodeLabel deltas.
    let mut s = Scheduler::new();
    s.submit_update(1, 2, 1);
    s.submit_update(2, 3, 1);
    s.advance_epoch();
    s.poll_until_stable();
    let before = s.read_node_labels().unwrap();
    let dist_before = s.read_component_size_distribution().unwrap();
    s.advance_epoch();
    s.poll_until_stable();
    assert_eq!(s.last_deltas, 0);
    assert_eq!(s.read_node_labels().unwrap(), before);
    assert_eq!(s.read_component_size_distribution().unwrap(), dist_before);
}

#[test]
fn insert_then_delete_is_an_inverse() {
    // Inserting an edge and deleting it in the next epoch restores
    // the exact labelling and distribution from before either update.
    let mut s = Scheduler::new();
    s.submit_update(1, 2, 1);
    s.submit_update(2, 3, 1);
    s.submit_update(7, 8, 1);
    s.advance_epoch();
    s.poll_until_stable();
    let labels_before = s.read_node_labels().unwrap();
    let dist_before = s.read_component_size_distribution().unwrap();
    s.submit_update(3, 7, 1);
    s.advance_epoch();
    s.poll_until_stable();
    assert_ne!(s.read_component_size_distribution().unwrap(), dist_before);
    s.submit_update(3, 7, -1);
    s.advance_epoch();
    s.poll_until_stable();
    assert_eq!(s.read_node_labels().unwrap(), labels_before);
    assert_eq!(s.read_component_size_distribution().unwrap(), dist_before);
}

#[test]
fn updates_above_the_read_epoch_are_invisible() {
    // An update submitted at the open epoch does not disturb the
    // stable output of the last closed epoch.
    let mut s = Scheduler::new();
    s.submit_update(1, 2, 1);
    s.advance_epoch();
    s.poll_until_stable();
    let before = s.read_component_size_distribution().unwrap();
    s.submit_update(100, 200, 1);
    assert_eq!(s.read_component_size_distribution().unwrap(), before);
}

#[test]
fn update_order_within_an_epoch_is_irrelevant() {
    // Updates of one epoch reduce by commutative summation and
    // minimum selection, so their submission order cannot matter.
    let batch = [(3u64, 9u64, 1i8), (1, 2, 1), (9, 1, 1), (3, 9, -1), (5, 6, 1)];
    let mut s1 = Scheduler::new();
    for &(a, b, d) in batch.iter() {
        s1.submit_update(a, b, d);
    }
    s1.advance_epoch();
    s1.poll_until_stable();
    let mut s2 = Scheduler::new();
    for &(a, b, d) in batch.iter().rev() {
        s2.submit_update(a, b, d);
    }
    s2.advance_epoch();
    s2.poll_until_stable();
    let mut d1 = s1.read_component_size_distribution().unwrap();
    let mut d2 = s2.read_component_size_distribution().unwrap();
    d1.sort_unstable();
    d2.sort_unstable();
    assert_eq!(d1, d2);
    let mut l1 = s1.read_node_labels().unwrap();
    let mut l2 = s2.read_node_labels().unwrap();
    l1.sort_unstable();
    l2.sort_unstable();
    assert_eq!(l1, l2);
}
