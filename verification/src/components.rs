//! The connected-components algorithm: seeding, the call into the
//! fixpoint operator, and the theorems that a converged labelling
//! assigns every incident node the least node identifier of its
//! component — and nothing else.

use crate::fixpoint::{
    at_fixpoint, lemma_connects_incident, lemma_incident_has_key, lemma_seeds_distinct,
    propagate_labels, seeds_wf, stable_labels,
};
use crate::labels::{
    distinct_keys, has_key, label_deltas, label_of, lemma_label_at, lemma_label_deltas_self,
    lookup_index,
};
use crate::reach::{
    add_node, connects, incident, is_path, lemma_node_seq_contains, lemma_reach_refl,
    lemma_reach_step, lemma_reach_trans, node_seq, reach,
};
use vstd::prelude::*;

verus! {

/// The characteristic property of the algorithm's output: one entry
/// per incident node, in canonical order, and every node's label is
/// the least node identifier reachable from it. Isolated nodes carry
/// no entry at all.
pub open spec fn min_labels(es: Seq<(u64, u64)>, ls: Seq<(u64, u64)>) -> bool {
    &&& ls.len() == node_seq(es).len()
    &&& forall|i: int| 0 <= i < ls.len() ==> (#[trigger] ls[i]).0 == node_seq(es)[i]
    &&& forall|i: int| 0 <= i < ls.len() ==> reach(es, (#[trigger] ls[i]).0, ls[i].1)
    &&& forall|i: int, m: u64|
        0 <= i < ls.len() && #[trigger] reach(es, ls[i].0, m) ==> (#[trigger] ls[i]).1 <= m
}

/// Along a path, a labelling at fixpoint is constant.
proof fn lemma_path_label(
    es: Seq<(u64, u64)>,
    ls: Seq<(u64, u64)>,
    p: Seq<u64>,
    a: u64,
    b: u64,
)
    requires
        distinct_keys(ls),
        ls.len() == node_seq(es).len(),
        forall|i: int| 0 <= i < ls.len() ==> (#[trigger] ls[i]).0 == node_seq(es)[i],
        at_fixpoint(es, ls),
        is_path(es, p, a, b),
        has_key(ls, a),
    ensures
        has_key(ls, b),
        label_of(ls, b) == label_of(ls, a),
    decreases p.len(),
{
    if p.len() == 1 {
        assert(a == b);
    } else {
        let c = p[1];
        let z: int = 0;
        assert(connects(es, p[z], p[z + 1]));
        assert(connects(es, a, c));
        lemma_connects_incident(es, a, c);
        lemma_incident_has_key(es, ls, c);
        assert(label_of(ls, c) <= label_of(ls, a));
        assert(connects(es, c, a));
        assert(label_of(ls, a) <= label_of(ls, c));
        let p2 = p.subrange(1, p.len() as int);
        assert(is_path(es, p2, c, b)) by {
            assert(p2[0] == p[1]);
            assert(p2[p2.len() - 1] == p[p.len() - 1]);
            assert forall|i: int| 0 <= i < p2.len() - 1 implies #[trigger] connects(
                es,
                p2[i],
                p2[i + 1],
            ) by {
                assert(connects(es, p[i + 1], p[i + 1 + 1]));
                assert(p2[i] == p[i + 1]);
                assert(p2[i + 1] == p[i + 2]);
            }
        }
        lemma_path_label(es, ls, p2, c, b);
    }
}

/// A stabilized run of the fixpoint has computed exactly the least
/// reachable node identifier for every incident node.
pub proof fn lemma_stable_is_min(es: Seq<(u64, u64)>, ls: Seq<(u64, u64)>)
    requires
        stable_labels(es, ls),
    ensures
        min_labels(es, ls),
{
    lemma_seeds_distinct(es, ls);
    assert forall|i: int, m: u64|
        0 <= i < ls.len() && #[trigger] reach(es, ls[i].0, m) implies (#[trigger] ls[i]).1
        <= m by {
        let n = ls[i].0;
        lemma_label_at(ls, i);
        let p = choose|p: Seq<u64>| is_path(es, p, n, m);
        lemma_path_label(es, ls, p, n, m);
        let k = choose|k: int| 0 <= k < ls.len() && (#[trigger] ls[k]).0 == m;
        lemma_label_at(ls, k);
        assert(label_of(ls, m) == ls[k].1);
        assert(ls[k].1 <= ls[k].0);
    }
}

/// The converged labelling is unique: any two labellings that both
/// assign least reachable identifiers are equal entry for entry.
pub proof fn lemma_min_labels_unique(es: Seq<(u64, u64)>, l1: Seq<(u64, u64)>, l2: Seq<(u64, u64)>)
    requires
        min_labels(es, l1),
        min_labels(es, l2),
    ensures
        l1 == l2,
{
    assert forall|i: int| 0 <= i < l1.len() implies l1[i] == l2[i] by {
        assert(l1[i].0 == node_seq(es)[i] && l2[i].0 == node_seq(es)[i]);
        assert(reach(es, l1[i].0, l1[i].1));
        assert(reach(es, l2[i].0, l2[i].1));
        assert(l1[i].1 <= l2[i].1);
        assert(l2[i].1 <= l1[i].1);
    }
    assert(l1 =~= l2);
}

/// Idempotence of convergence: re-running the fixpoint over an
/// unchanged edge set maps a converged labelling to itself, so the
/// re-evaluation emits zero NodeLabel deltas.
pub proof fn lemma_fixpoint_idempotent(
    es: Seq<(u64, u64)>,
    converged: Seq<(u64, u64)>,
    rerun: Seq<(u64, u64)>,
)
    requires
        min_labels(es, converged),
        stable_labels(es, rerun),
    ensures
        rerun == converged,
        label_deltas(converged, rerun) == 0,
{
    lemma_stable_is_min(es, rerun);
    lemma_min_labels_unique(es, converged, rerun);
    lemma_seeds_distinct(es, rerun);
    lemma_label_deltas_self(rerun);
}

/// Component partition invariant: after convergence the two endpoints
/// of every present edge carry the same label.
pub proof fn lemma_component_partition(
    es: Seq<(u64, u64)>,
    ls: Seq<(u64, u64)>,
    a: u64,
    b: u64,
)
    requires
        min_labels(es, ls),
        connects(es, a, b),
    ensures
        has_key(ls, a),
        has_key(ls, b),
        label_of(ls, a) == label_of(ls, b),
{
    lemma_connects_incident(es, a, b);
    lemma_incident_has_key(es, ls, a);
    lemma_incident_has_key(es, ls, b);
    let ia = choose|i: int| 0 <= i < ls.len() && (#[trigger] ls[i]).0 == a;
    let ib = choose|i: int| 0 <= i < ls.len() && (#[trigger] ls[i]).0 == b;
    lemma_seeds_distinct(es, ls);
    lemma_label_at(ls, ia);
    lemma_label_at(ls, ib);
    lemma_reach_step(es, b, a);
    lemma_reach_trans(es, b, a, ls[ia].1);
    assert(ls[ib].1 <= ls[ia].1);
    lemma_reach_step(es, a, b);
    lemma_reach_trans(es, a, b, ls[ib].1);
    assert(ls[ia].1 <= ls[ib].1);
}

/// A node carries a label after convergence exactly when it is an
/// endpoint of some edge: isolated nodes are excluded from the output.
pub proof fn lemma_labels_cover(es: Seq<(u64, u64)>, ls: Seq<(u64, u64)>, n: u64)
    requires
        min_labels(es, ls),
    ensures
        has_key(ls, n) <==> incident(es, n),
{
    lemma_node_seq_contains(es, n);
    if incident(es, n) {
        lemma_incident_has_key(es, ls, n);
    }
    if has_key(ls, n) {
        let i = choose|i: int| 0 <= i < ls.len() && (#[trigger] ls[i]).0 == n;
        assert(node_seq(es)[i] == n);
        assert(node_seq(es).contains(n));
    }
}

/// Does `v` hold `n`?
fn contains_node(v: &Vec<u64>, n: u64) -> (b: bool)
    ensures
        b == v@.contains(n),
{
    let mut i: usize = 0;
    while i < v.len()
        invariant
            i <= v@.len(),
            forall|j: int| 0 <= j < i ==> v@[j] != n,
        decreases v@.len() - i,
    {
        if v[i] == n {
            assert(v@[i as int] == n);
            return true;
        }
        i = i + 1;
    }
    false
}

/// Collect the incident nodes of the edge list, in canonical order.
fn collect_nodes(es: &Vec<(u64, u64)>) -> (nodes: Vec<u64>)
    ensures
        nodes@ == node_seq(es@),
{
    let mut nodes: Vec<u64> = Vec::new();
    let mut j: usize = 0;
    while j < es.len()
        invariant
            j <= es@.len(),
            nodes@ == node_seq(es@.subrange(0, j as int)),
        decreases es@.len() - j,
    {
        let ghost pre = es@.subrange(0, j as int);
        let e = es[j];
        if !contains_node(&nodes, e.0) {
            nodes.push(e.0);
        }
        let ghost mid = nodes@;
        proof {
            assert(mid == add_node(node_seq(pre), e.0));
        }
        if !contains_node(&nodes, e.1) {
            nodes.push(e.1);
        }
        proof {
            let cur = es@.subrange(0, j as int + 1);
            assert(cur.drop_last() =~= pre);
            assert(cur.last() == e);
            assert(nodes@ == add_node(mid, e.1));
        }
        j = j + 1;
    }
    proof {
        assert(es@.subrange(0, es@.len() as int) =~= es@);
    }
    nodes
}

/// Along a path of the edge list, a least-label assignment is
/// constant: every step stays within one component.
proof fn lemma_min_path_const(
    es: Seq<(u64, u64)>,
    ls: Seq<(u64, u64)>,
    p: Seq<u64>,
    a: u64,
    b: u64,
)
    requires
        min_labels(es, ls),
        is_path(es, p, a, b),
        has_key(ls, a),
    ensures
        has_key(ls, b),
        label_of(ls, b) == label_of(ls, a),
    decreases p.len(),
{
    if p.len() == 1 {
        assert(a == b);
    } else {
        let c = p[1];
        let z: int = 0;
        assert(connects(es, p[z], p[z + 1]));
        lemma_component_partition(es, ls, a, c);
        let p2 = p.subrange(1, p.len() as int);
        assert(is_path(es, p2, c, b)) by {
            assert(p2[0] == p[1]);
            assert(p2[p2.len() - 1] == p[p.len() - 1]);
            assert forall|i: int| 0 <= i < p2.len() - 1 implies #[trigger] connects(
                es,
                p2[i],
                p2[i + 1],
            ) by {
                assert(connects(es, p[i + 1], p[i + 1 + 1]));
                assert(p2[i] == p[i + 1]);
                assert(p2[i + 1] == p[i + 2]);
            }
        }
        lemma_min_path_const(es, ls, p2, c, b);
    }
}

/// A component label is dirty across an edge-set change if some edge
/// of the old list has disappeared from the new one while its
/// endpoints carried that label: the component may have split, so its
/// labels cannot be carried over.
pub open spec fn dirty_label(
    es_old: Seq<(u64, u64)>,
    es_new: Seq<(u64, u64)>,
    ls: Seq<(u64, u64)>,
    l: u64,
) -> bool {
    exists|j: int|
        0 <= j < es_old.len() && !connects(es_new, (#[trigger] es_old[j]).0, es_old[j].1)
            && label_of(ls, es_old[j].0) == l
}

/// Bounded form of `dirty_label`, for scanning the old edge list.
spec fn dirty_label_upto(
    es_old: Seq<(u64, u64)>,
    es_new: Seq<(u64, u64)>,
    ls: Seq<(u64, u64)>,
    l: u64,
    k: int,
) -> bool {
    exists|j: int|
        0 <= j < k && j < es_old.len() && !connects(es_new, (#[trigger] es_old[j]).0, es_old[j].1)
            && label_of(ls, es_old[j].0) == l
}

/// A node of a clean component keeps its reachability witness across
/// the change: a least-label path never leaves the component, and a
/// clean component lost no edge.
proof fn lemma_clean_reach_transfer(
    es_old: Seq<(u64, u64)>,
    es_new: Seq<(u64, u64)>,
    ls: Seq<(u64, u64)>,
    n: u64,
    l: u64,
)
    requires
        min_labels(es_old, ls),
        has_key(ls, n),
        label_of(ls, n) == l,
        reach(es_old, n, l),
        !dirty_label(es_old, es_new, ls, l),
    ensures
        reach(es_new, n, l),
{
    let p = choose|p: Seq<u64>| is_path(es_old, p, n, l);
    assert forall|i: int| 0 <= i < p.len() - 1 implies #[trigger] connects(
        es_new,
        p[i],
        p[i + 1],
    ) by {
        assert(connects(es_old, p[i], p[i + 1]));
        let j = choose|j: int|
            0 <= j < es_old.len() && (es_old[j] == (p[i], p[i + 1]) || es_old[j] == (
            p[i + 1],
            p[i],
            ));
        // the labels of both step endpoints equal l, via the path prefixes
        let pre1 = p.subrange(0, i + 1);
        assert(is_path(es_old, pre1, n, p[i])) by {
            assert(pre1[0] == p[0]);
            assert(pre1[pre1.len() - 1] == p[i]);
            assert forall|k: int| 0 <= k < pre1.len() - 1 implies #[trigger] connects(
                es_old,
                pre1[k],
                pre1[k + 1],
            ) by {
                assert(connects(es_old, p[k], p[k + 1]));
                assert(pre1[k] == p[k]);
                assert(pre1[k + 1] == p[k + 1]);
            }
        }
        lemma_min_path_const(es_old, ls, pre1, n, p[i]);
        let pre2 = p.subrange(0, i + 2);
        assert(is_path(es_old, pre2, n, p[i + 1])) by {
            assert(pre2[0] == p[0]);
            assert(pre2[pre2.len() - 1] == p[i + 1]);
            assert forall|k: int| 0 <= k < pre2.len() - 1 implies #[trigger] connects(
                es_old,
                pre2[k],
                pre2[k + 1],
            ) by {
                assert(connects(es_old, p[k], p[k + 1]));
                assert(pre2[k] == p[k]);
                assert(pre2[k + 1] == p[k + 1]);
            }
        }
        lemma_min_path_const(es_old, ls, pre2, n, p[i + 1]);
        if !connects(es_new, es_old[j].0, es_old[j].1) {
            // this step's edge would have been deleted, making l dirty
            assert(es_old[j].0 == p[i] || es_old[j].0 == p[i + 1]);
            assert(label_of(ls, es_old[j].0) == l);
            assert(dirty_label(es_old, es_new, ls, l));
        }
        if es_old[j] == (p[i], p[i + 1]) {
            assert(connects(es_new, p[i], p[i + 1]));
        } else {
            assert(connects(es_new, p[i + 1], p[i]));
            lemma_connects_incident(es_new, p[i + 1], p[i]);
        }
    }
    assert(is_path(es_new, p, n, l));
}

/// Does some edge of `es` join `a` and `b`, in either orientation?
fn connects_in(es: &Vec<(u64, u64)>, a: u64, b: u64) -> (r: bool)
    ensures
        r == connects(es@, a, b),
{
    let mut i: usize = 0;
    while i < es.len()
        invariant
            i <= es@.len(),
            forall|j: int| 0 <= j < i ==> #[trigger] es@[j] != (a, b) && es@[j] != (b, a),
        decreases es@.len() - i,
    {
        let e = es[i];
        if (e.0 == a && e.1 == b) || (e.0 == b && e.1 == a) {
            proof {
                assert(es@[i as int] == (a, b) || es@[i as int] == (b, a));
            }
            return true;
        }
        i = i + 1;
    }
    proof {
        if connects(es@, a, b) {
            let j = choose|j: int|
                0 <= j < es@.len() && (es@[j] == (a, b) || es@[j] == (b, a));
            assert(es@[j] != (a, b) && es@[j] != (b, a));
        }
    }
    false
}

/// The labels of the components that lost an edge in the change from
/// `es_old` to `es_new`.
fn dirty_labels(
    es_old: &Vec<(u64, u64)>,
    es_new: &Vec<(u64, u64)>,
    ls: &Vec<(u64, u64)>,
) -> (dl: Vec<u64>)
    requires
        min_labels(es_old@, ls@),
    ensures
        forall|l: u64| #[trigger] dl@.contains(l) <==> dirty_label(es_old@, es_new@, ls@, l),
{
    proof {
        lemma_seeds_distinct(es_old@, ls@);
    }
    let mut dl: Vec<u64> = Vec::new();
    let mut j: usize = 0;
    while j < es_old.len()
        invariant
            j <= es_old@.len(),
            min_labels(es_old@, ls@),
            distinct_keys(ls@),
            forall|l: u64|
                #[trigger] dl@.contains(l) <==> dirty_label_upto(
                    es_old@,
                    es_new@,
                    ls@,
                    l,
                    j as int,
                ),
        decreases es_old@.len() - j,
    {
        let ghost dl0 = dl@;
        let e = es_old[j];
        if !connects_in(es_new, e.0, e.1) {
            proof {
                assert(incident(es_old@, e.0)) by {
                    assert((es_old@[j as int]).0 == e.0);
                }
                lemma_incident_has_key(es_old@, ls@, e.0);
            }
            let k = lookup_index(ls, e.0);
            let lab = ls[k].1;
            dl.push(lab);
            proof {
                assert(label_of(ls@, e.0) == lab);
                assert forall|l: u64| #[trigger] dl@.contains(l) <==> dirty_label_upto(
                    es_old@,
                    es_new@,
                    ls@,
                    l,
                    j as int + 1,
                ) by {
                    if dl@.contains(l) {
                        let t = choose|t: int| 0 <= t < dl@.len() && dl@[t] == l;
                        if t < dl0.len() {
                            assert(dl0[t] == l);
                            assert(dl0.contains(l));
                        } else {
                            assert(l == lab);
                            assert(!connects(es_new@, (es_old@[j as int]).0, es_old@[j as int].1));
                        }
                    }
                    if dirty_label_upto(es_old@, es_new@, ls@, l, j as int + 1) {
                        let t = choose|t: int|
                            0 <= t < j + 1 && t < es_old@.len() && !connects(
                                es_new@,
                                (#[trigger] es_old@[t]).0,
                                es_old@[t].1,
                            ) && label_of(ls@, es_old@[t].0) == l;
                        if t < j {
                            assert(dirty_label_upto(es_old@, es_new@, ls@, l, j as int));
                            assert(dl0.contains(l));
                            let u = choose|u: int| 0 <= u < dl0.len() && dl0[u] == l;
                            assert(dl@[u] == l);
                        } else {
                            assert(l == lab);
                            assert(dl@[dl@.len() - 1] == lab);
                        }
                    }
                }
            }
        } else {
            proof {
                assert forall|l: u64| #[trigger] dl@.contains(l) <==> dirty_label_upto(
                    es_old@,
                    es_new@,
                    ls@,
                    l,
                    j as int + 1,
                ) by {
                    if dirty_label_upto(es_old@, es_new@, ls@, l, j as int + 1) {
                        let t = choose|t: int|
                            0 <= t < j + 1 && t < es_old@.len() && !connects(
                                es_new@,
                                (#[trigger] es_old@[t]).0,
                                es_old@[t].1,
                            ) && label_of(ls@, es_old@[t].0) == l;
                        assert(t < j);
                        assert(dirty_label_upto(es_old@, es_new@, ls@, l, j as int));
                    }
                }
            }
        }
        j = j + 1;
    }
    proof {
        assert forall|l: u64| #[trigger] dl@.contains(l) <==> dirty_label(
            es_old@,
            es_new@,
            ls@,
            l,
        ) by {
            assert(dl@.contains(l) <==> dirty_label_upto(
                es_old@,
                es_new@,
                ls@,
                l,
                es_old@.len() as int,
            ));
        }
    }
    dl
}

/// The seed a node receives when re-evaluating after a change: its
/// old label if it had one and that label's component lost no edge,
/// otherwise itself.
pub open spec fn seed_value(
    es_old: Seq<(u64, u64)>,
    es_new: Seq<(u64, u64)>,
    ls: Seq<(u64, u64)>,
    n: u64,
) -> u64 {
    if has_key(ls, n) && !dirty_label(es_old, es_new, ls, label_of(ls, n)) {
        label_of(ls, n)
    } else {
        n
    }
}

/// Build the seeds and the initial worklist for re-evaluating the
/// fixpoint after the edge set changed from `es_old` (with converged
/// labelling `ls_old`) to `es_new`. Nodes of unaffected components
/// keep their labels and stay off the worklist; reseeded and newly
/// incident nodes, and the endpoints of new edges, are pending.
pub fn incremental_seeds(
    es_old: &Vec<(u64, u64)>,
    es_new: &Vec<(u64, u64)>,
    ls_old: &Vec<(u64, u64)>,
) -> (r: (Vec<(u64, u64)>, Vec<u64>))
    requires
        min_labels(es_old@, ls_old@),
    ensures
        seeds_wf(es_new@, r.0@),
        forall|t: int|
            0 <= t < r.0@.len() ==> (#[trigger] r.0@[t]).1 == seed_value(
                es_old@,
                es_new@,
                ls_old@,
                r.0@[t].0,
            ),
        forall|t: int| 0 <= t < r.1@.len() ==> has_key(r.0@, #[trigger] r.1@[t]),
        forall|a: u64, b: u64|
            #[trigger] connects(es_new@, a, b) ==> label_of(r.0@, b) <= label_of(r.0@, a)
                || r.1@.contains(a),
{
    proof {
        lemma_seeds_distinct(es_old@, ls_old@);
    }
    let dl = dirty_labels(es_old, es_new, ls_old);
    let nodes = collect_nodes(es_new);
    let mut seeds: Vec<(u64, u64)> = Vec::new();
    let mut wl: Vec<u64> = Vec::new();
    let mut i: usize = 0;
    while i < nodes.len()
        invariant
            i <= nodes@.len(),
            nodes@ == node_seq(es_new@),
            min_labels(es_old@, ls_old@),
            distinct_keys(ls_old@),
            forall|l: u64|
                #[trigger] dl@.contains(l) <==> dirty_label(es_old@, es_new@, ls_old@, l),
            seeds@.len() == i,
            forall|t: int| 0 <= t < i ==> (#[trigger] seeds@[t]).0 == nodes@[t],
            forall|t: int|
                0 <= t < i ==> (#[trigger] seeds@[t]).1 == seed_value(
                    es_old@,
                    es_new@,
                    ls_old@,
                    seeds@[t].0,
                ),
            forall|t: int|
                0 <= t < i ==> reach(es_new@, (#[trigger] seeds@[t]).0, seeds@[t].1),
            forall|t: int| 0 <= t < i ==> (#[trigger] seeds@[t]).1 <= seeds@[t].0,
            forall|t: int| 0 <= t < wl@.len() ==> has_key(seeds@, #[trigger] wl@[t]),
            forall|t: int|
                0 <= t < i ==> ((has_key(ls_old@, (#[trigger] seeds@[t]).0) && !dirty_label(
                    es_old@,
                    es_new@,
                    ls_old@,
                    label_of(ls_old@, seeds@[t].0),
                )) || wl@.contains(seeds@[t].0)),
        decreases nodes@.len() - i,
    {
        let ghost seeds0 = seeds@;
        let ghost wl0 = wl@;
        let n = nodes[i];
        let mut kept = false;
        let mut lab: u64 = n;
        match crate::labels::find_key(ls_old, n) {
            Some(k) => {
                proof {
                    lemma_label_at(ls_old@, k as int);
                }
                let l = ls_old[k].1;
                if !contains_node(&dl, l) {
                    kept = true;
                    lab = l;
                    proof {
                        assert(reach(es_old@, n, l));
                        lemma_clean_reach_transfer(es_old@, es_new@, ls_old@, n, l);
                        lemma_reach_refl(es_old@, n);
                        assert(l <= n);
                    }
                }
            },
            None => {},
        }
        seeds.push((n, lab));
        if !kept {
            wl.push(n);
            proof {
                lemma_reach_refl(es_new@, n);
            }
        }
        proof {
            assert(seeds@[i as int] == (n, lab));
            assert forall|t: int| 0 <= t < wl@.len() implies has_key(
                seeds@,
                #[trigger] wl@[t],
            ) by {
                if t < wl0.len() {
                    assert(wl@[t] == wl0[t]);
                    assert(has_key(seeds0, wl0[t]));
                    let u = choose|u: int| 0 <= u < seeds0.len() && (#[trigger] seeds0[u]).0 == wl0[t];
                    assert(seeds@[u].0 == wl0[t]);
                } else {
                    assert(wl@[t] == n);
                }
            }
            assert forall|t: int|
                0 <= t < i + 1 implies ((has_key(ls_old@, (#[trigger] seeds@[t]).0)
                && !dirty_label(
                es_old@,
                es_new@,
                ls_old@,
                label_of(ls_old@, seeds@[t].0),
            )) || wl@.contains(seeds@[t].0)) by {
                if t < i {
                    assert(seeds@[t] == seeds0[t]);
                    if wl0.contains(seeds0[t].0) {
                        let u = choose|u: int| 0 <= u < wl0.len() && wl0[u] == seeds0[t].0;
                        assert(wl@[u] == seeds0[t].0);
                    }
                } else {
                    if !kept {
                        assert(wl@[wl@.len() - 1] == n);
                    }
                }
            }
        }
        i = i + 1;
    }
    // endpoints of edges the old list did not have are pending too
    let mut j: usize = 0;
    while j < es_new.len()
        invariant
            j <= es_new@.len(),
            nodes@ == node_seq(es_new@),
            min_labels(es_old@, ls_old@),
            distinct_keys(ls_old@),
            seeds@.len() == nodes@.len(),
            forall|t: int| 0 <= t < seeds@.len() ==> (#[trigger] seeds@[t]).0 == nodes@[t],
            forall|t: int|
                0 <= t < seeds@.len() ==> (#[trigger] seeds@[t]).1 == seed_value(
                    es_old@,
                    es_new@,
                    ls_old@,
                    seeds@[t].0,
                ),
            forall|t: int|
                0 <= t < seeds@.len() ==> reach(es_new@, (#[trigger] seeds@[t]).0, seeds@[t].1),
            forall|t: int| 0 <= t < seeds@.len() ==> (#[trigger] seeds@[t]).1 <= seeds@[t].0,
            forall|t: int| 0 <= t < wl@.len() ==> has_key(seeds@, #[trigger] wl@[t]),
            forall|t: int|
                0 <= t < seeds@.len() ==> ((has_key(ls_old@, (#[trigger] seeds@[t]).0)
                    && !dirty_label(
                    es_old@,
                    es_new@,
                    ls_old@,
                    label_of(ls_old@, seeds@[t].0),
                )) || wl@.contains(seeds@[t].0)),
            forall|t: int|
                0 <= t < j ==> (connects(es_old@, (#[trigger] es_new@[t]).0, es_new@[t].1) || (
                wl@.contains(es_new@[t].0) && wl@.contains(es_new@[t].1))),
        decreases es_new@.len() - j,
    {
        let ghost wl0 = wl@;
        let e = es_new[j];
        if !connects_in(es_old, e.0, e.1) {
            proof {
                assert(incident(es_new@, e.0)) by {
                    assert((es_new@[j as int]).0 == e.0);
                }
                assert(incident(es_new@, e.1)) by {
                    assert((es_new@[j as int]).1 == e.1);
                }
                lemma_incident_has_key(es_new@, seeds@, e.0);
                lemma_incident_has_key(es_new@, seeds@, e.1);
            }
            wl.push(e.0);
            wl.push(e.1);
        }
        proof {
            assert forall|x: u64| wl0.contains(x) implies wl@.contains(x) by {
                let u = choose|u: int| 0 <= u < wl0.len() && wl0[u] == x;
                assert(wl@[u] == x);
            }
            if !connects(es_old@, e.0, e.1) {
                assert(wl@[wl@.len() - 2] == e.0);
                assert(wl@[wl@.len() - 1] == e.1);
            }
            assert forall|t: int| 0 <= t < wl@.len() implies has_key(
                seeds@,
                #[trigger] wl@[t],
            ) by {
                if t < wl0.len() {
                    assert(wl@[t] == wl0[t]);
                }
            }
        }
        j = j + 1;
    }
    proof {
        lemma_seeds_distinct(es_new@, seeds@);
        assert(seeds_wf(es_new@, seeds@));
        assert forall|a: u64, b: u64| #[trigger] connects(es_new@, a, b) implies label_of(
            seeds@,
            b,
        ) <= label_of(seeds@, a) || wl@.contains(a) by {
            let t = choose|t: int|
                0 <= t < es_new@.len() && (es_new@[t] == (a, b) || es_new@[t] == (b, a));
            if connects(es_old@, (es_new@[t]).0, es_new@[t].1) {
                // the edge survived from the old list: both endpoints
                // carried the same old label
                assert(connects(es_old@, a, b)) by {
                    if es_new@[t] == (b, a) {
                        lemma_connects_incident(es_old@, b, a);
                    }
                }
                lemma_component_partition(es_old@, ls_old@, a, b);
                lemma_connects_incident(es_new@, a, b);
                lemma_incident_has_key(es_new@, seeds@, a);
                lemma_incident_has_key(es_new@, seeds@, b);
                let ia = choose|u: int| 0 <= u < seeds@.len() && (#[trigger] seeds@[u]).0 == a;
                let ib = choose|u: int| 0 <= u < seeds@.len() && (#[trigger] seeds@[u]).0 == b;
                lemma_label_at(seeds@, ia);
                lemma_label_at(seeds@, ib);
                let l = label_of(ls_old@, a);
                if dirty_label(es_old@, es_new@, ls_old@, l) {
                    // both components were reseeded; a is pending
                    assert(wl@.contains(a));
                } else {
                    assert(seeds@[ia].1 == l);
                    assert(seeds@[ib].1 == l);
                }
            } else {
                // a genuinely new edge: both endpoints are pending
                assert(wl@.contains(es_new@[t].0) && wl@.contains(es_new@[t].1));
                assert(es_new@[t].0 == a || es_new@[t].1 == a);
            }
        }
    }
    (seeds, wl)
}

/// Compute the connected components of the given edge list: one
/// `(node, label)` record per incident node, whose label is the least
/// node identifier of its component. Initially every incident node
/// proposes itself as its own component's label (the least endpoint of
/// each edge thereby seeds the propagation, exactly as any other
/// proposal it would win against); the fixpoint then spreads the least
/// proposal through each component.
pub fn connected_components(edges: &Vec<(u64, u64)>) -> (labels: Vec<(u64, u64)>)
    ensures
        min_labels(edges@, labels@),
        stable_labels(edges@, labels@),
{
    let nodes = collect_nodes(edges);
    let mut seeds: Vec<(u64, u64)> = Vec::new();
    let mut i: usize = 0;
    while i < nodes.len()
        invariant
            i <= nodes@.len(),
            seeds@.len() == i,
            forall|k: int| 0 <= k < i ==> #[trigger] seeds@[k] == (nodes@[k], nodes@[k]),
        decreases nodes@.len() - i,
    {
        let n = nodes[i];
        seeds.push((n, n));
        i = i + 1;
    }
    proof {
        assert forall|k: int| 0 <= k < seeds@.len() implies reach(
            edges@,
            (#[trigger] seeds@[k]).0,
            seeds@[k].1,
        ) by {
            lemma_reach_refl(edges@, seeds@[k].0);
        }
        assert(seeds_wf(edges@, seeds@));
    }
    let out = propagate_labels(edges, &seeds);
    proof {
        lemma_stable_is_min(edges@, out@);
    }
    out
}

} // verus!
