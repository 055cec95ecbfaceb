use incremental_cc::components::connected_components;
use incremental_cc::scheduler::Scheduler;
use std::collections::{HashMap, HashSet};

fn next_rand(state: &mut u64) -> u64 {
    // xorshift64: a fixed pseudo-random stream for a repeatable graph
    let mut x = *state;
    x ^= x << 13;
    x ^= x >> 7;
    x ^= x << 17;
    *state = x;
    x
}

#[test]
fn rewiring_touches_only_affected_components() {
    // Scalability: on a sparse random graph, one edge rewiring (a
    // delete plus an insert) produces label deltas confined to the
    // components the rewired edges touch, not across the whole graph.
    let node_count: u64 = 400;
    let edge_count: usize = 160;
    let mut state: u64 = 0x9e3779b97f4a7c15;
    let mut edges: Vec<(u64, u64)> = Vec::new();
    let mut seen: HashSet<(u64, u64)> = HashSet::new();
    while edges.len() < edge_count {
        let a = next_rand(&mut state) % node_count;
        let b = next_rand(&mut state) % node_count;
        if a != b && seen.insert((a, b)) && !seen.contains(&(b, a)) {
            edges.push((a, b));
        }
    }
    let mut s = Scheduler::new();
    for &(a, b) in &edges {
        s.submit_update(a, b, 1);
    }
    s.advance_epoch();
    s.poll_until_stable();
    let old_labels: HashMap<u64, u64> =
        s.read_node_labels().unwrap().into_iter().collect();

    // Rewire: delete the first edge, insert a fresh one.
    let (da, db) = edges[0];
    let mut na = next_rand(&mut state) % node_count;
    let mut nb = next_rand(&mut state) % node_count;
    while na == nb || seen.contains(&(na, nb)) || seen.contains(&(nb, na)) {
        na = next_rand(&mut state) % node_count;
        nb = next_rand(&mut state) % node_count;
    }
    s.submit_update(da, db, -1);
    s.submit_update(na, nb, 1);
    s.advance_epoch();
    s.poll_until_stable();
    let new_labels: HashMap<u64, u64> =
        s.read_node_labels().unwrap().into_iter().collect();

    // The components affected by the rewiring, in the old and the new
    // labelling: those of the deleted edge's endpoints and those of
    // the inserted edge's endpoints.
    let mut dirty_old: HashSet<u64> = HashSet::new();
    for n in [da, db, na, nb] {
        if let Some(&l) = old_labels.get(&n) {
            dirty_old.insert(l);
        }
    }
    let mut dirty_new: HashSet<u64> = HashSet::new();
    for n in [da, db, na, nb] {
        if let Some(&l) = new_labels.get(&n) {
            dirty_new.insert(l);
        }
    }

    let mut changed: u64 = 0;
    for (&n, &l) in &new_labels {
        match old_labels.get(&n) {
            Some(&lo) if lo == l => {}
            _ => {
                changed += 1;
                assert!(
                    dirty_new.contains(&l)
                        || old_labels.get(&n).map_or(false, |lo| dirty_old.contains(lo)),
                    "delta outside the affected components"
                );
            }
        }
    }
    for (&n, &lo) in &old_labels {
        if !new_labels.contains_key(&n) {
            changed += 1;
            assert!(dirty_old.contains(&lo));
        }
    }
    assert_eq!(s.last_deltas, changed as u128);

    // The affected region is small against the graph: deltas are
    // bounded by the affected components' total size, far below the
    // number of labelled nodes.
    let affected: usize = old_labels.values().filter(|l| dirty_old.contains(l)).count()
        + new_labels.values().filter(|l| dirty_new.contains(l)).count();
    assert!(s.last_deltas <= affected as u128);
    assert!((s.last_deltas as usize) < old_labels.len() / 4);
}

#[test]
fn incremental_reevaluation_matches_fresh_recompute() {
    // After several epochs of churn the incrementally maintained
    // labelling is identical to a from-scratch computation over the
    // same cumulative edge set.
    let node_count: u64 = 50;
    let mut state: u64 = 0x2545f4914f6cdd1d;
    let mut s = Scheduler::new();
    let mut live: Vec<(u64, u64)> = Vec::new();
    for _ in 0..40 {
        let a = next_rand(&mut state) % node_count;
        let b = next_rand(&mut state) % node_count;
        if a != b {
            s.submit_update(a, b, 1);
            live.push((a, b));
        }
    }
    s.advance_epoch();
    s.poll_until_stable();
    for round in 0..5 {
        let victim = live.remove((next_rand(&mut state) as usize) % live.len());
        s.submit_update(victim.0, victim.1, -1);
        let a = next_rand(&mut state) % node_count;
        let b = next_rand(&mut state) % node_count;
        if a != b {
            s.submit_update(a, b, 1);
            live.push((a, b));
        }
        s.advance_epoch();
        s.poll_until_stable();
        let labels = s.read_node_labels().unwrap();
        let es = s.log.current_edges(round + 1);
        assert_eq!(labels, connected_components(&es));
    }
}
