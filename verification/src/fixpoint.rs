//! The iterative fixpoint operator: least-label propagation over the
//! symmetrized edge list, driven by a worklist of nodes whose label
//! still has to be broadcast. Broadcast admission follows label
//! magnitude: among the pending nodes, one whose current label is
//! numerically least is re-broadcast first, so late, high-valued
//! labels are reconsidered at the lowest rate.

use crate::labels::{
    distinct_keys, has_key, label_of, lemma_label_at, lemma_sum_update, lookup_index, sum_labels,
};
use crate::reach::{
    connects, incident, lemma_node_seq_contains, lemma_node_seq_distinct, lemma_reach_step,
    lemma_reach_trans, node_seq, reach,
};
use vstd::pervasive::VecAdditionalExecFns;
use vstd::prelude::*;

verus! {

/// A well-formed seeding of the fixpoint: one entry per incident node,
/// in the canonical order, each carrying a label that is a node of its
/// own component and no larger than the node itself.
pub open spec fn seeds_wf(es: Seq<(u64, u64)>, s: Seq<(u64, u64)>) -> bool {
    &&& s.len() == node_seq(es).len()
    &&& forall|i: int| 0 <= i < s.len() ==> (#[trigger] s[i]).0 == node_seq(es)[i]
    &&& forall|i: int| 0 <= i < s.len() ==> reach(es, (#[trigger] s[i]).0, s[i].1)
    &&& forall|i: int| 0 <= i < s.len() ==> (#[trigger] s[i]).1 <= s[i].0
}

/// No propagation step can lower any label further: along every edge,
/// in both directions, the target's label is no larger than the
/// source's.
pub open spec fn at_fixpoint(es: Seq<(u64, u64)>, ls: Seq<(u64, u64)>) -> bool {
    forall|a: u64, b: u64| #[trigger] connects(es, a, b) ==> label_of(ls, b) <= label_of(ls, a)
}

/// A converged run of the fixpoint: a well-formed labelling on which
/// propagation has stabilized.
pub open spec fn stable_labels(es: Seq<(u64, u64)>, ls: Seq<(u64, u64)>) -> bool {
    &&& seeds_wf(es, ls)
    &&& at_fixpoint(es, ls)
}

pub proof fn lemma_seeds_distinct(es: Seq<(u64, u64)>, s: Seq<(u64, u64)>)
    requires
        s.len() == node_seq(es).len(),
        forall|i: int| 0 <= i < s.len() ==> (#[trigger] s[i]).0 == node_seq(es)[i],
    ensures
        distinct_keys(s),
{
    lemma_node_seq_distinct(es);
    assert forall|i: int, j: int| 0 <= i < j < s.len() implies (#[trigger] s[i]).0 != (
    #[trigger] s[j]).0 by {
        assert(node_seq(es)[i] != node_seq(es)[j]);
    }
}

pub proof fn lemma_incident_has_key(es: Seq<(u64, u64)>, s: Seq<(u64, u64)>, n: u64)
    requires
        s.len() == node_seq(es).len(),
        forall|i: int| 0 <= i < s.len() ==> (#[trigger] s[i]).0 == node_seq(es)[i],
        incident(es, n),
    ensures
        has_key(s, n),
{
    lemma_node_seq_contains(es, n);
    let i = choose|i: int| 0 <= i < node_seq(es).len() && node_seq(es)[i] == n;
    assert(s[i].0 == n);
}

pub proof fn lemma_connects_incident(es: Seq<(u64, u64)>, a: u64, b: u64)
    requires
        connects(es, a, b),
    ensures
        incident(es, a),
        incident(es, b),
        connects(es, b, a),
{
    let t = choose|t: int| 0 <= t < es.len() && (es[t] == (a, b) || es[t] == (b, a));
    assert((es[t]).0 == a || (es[t]).1 == a);
    assert((es[t]).0 == b || (es[t]).1 == b);
}

/// How label_of and the key structure change when one entry's label is
/// rewritten in place.
pub proof fn lemma_update_value(s: Seq<(u64, u64)>, i: int, v: u64)
    requires
        distinct_keys(s),
        0 <= i < s.len(),
    ensures
        distinct_keys(s.update(i, (s[i].0, v))),
        forall|n: u64| has_key(s.update(i, (s[i].0, v)), n) <==> has_key(s, n),
        label_of(s.update(i, (s[i].0, v)), s[i].0) == v,
        forall|n: u64|
            has_key(s, n) && n != s[i].0 ==> label_of(s.update(i, (s[i].0, v)), n) == label_of(
                s,
                n,
            ),
{
    let t = s.update(i, (s[i].0, v));
    assert forall|a: int, b: int| 0 <= a < b < t.len() implies (#[trigger] t[a]).0 != (
    #[trigger] t[b]).0 by {
        assert(t[a].0 == s[a].0 && t[b].0 == s[b].0);
    }
    assert forall|n: u64| has_key(t, n) <==> has_key(s, n) by {
        if has_key(t, n) {
            let j = choose|j: int| 0 <= j < t.len() && (#[trigger] t[j]).0 == n;
            assert(s[j].0 == n);
        }
        if has_key(s, n) {
            let j = choose|j: int| 0 <= j < s.len() && (#[trigger] s[j]).0 == n;
            assert(t[j].0 == n);
        }
    }
    lemma_label_at(t, i);
    assert forall|n: u64| has_key(s, n) && n != s[i].0 implies label_of(t, n) == label_of(
        s,
        n,
    ) by {
        let j = choose|j: int| 0 <= j < s.len() && (#[trigger] s[j]).0 == n;
        lemma_label_at(s, j);
        lemma_label_at(t, j);
        assert(t[j] == s[j]);
    }
}

/// The running state of one fixpoint evaluation is well formed: the
/// labelling keeps one entry per incident node in canonical order,
/// labels bound by the seeds, sound (a label is a node of its own
/// component) and self-bounded, and every pending node is keyed.
pub open spec fn state_wf(
    es: Seq<(u64, u64)>,
    seeds: Seq<(u64, u64)>,
    ls: Seq<(u64, u64)>,
    wl: Seq<u64>,
) -> bool {
    &&& ls.len() == seeds.len()
    &&& forall|i: int|
        0 <= i < ls.len() ==> (#[trigger] ls[i]).0 == seeds[i].0 && ls[i].1 <= seeds[i].1
    &&& distinct_keys(ls)
    &&& forall|i: int| 0 <= i < ls.len() ==> reach(es, (#[trigger] ls[i]).0, ls[i].1)
    &&& forall|i: int| 0 <= i < ls.len() ==> (#[trigger] ls[i]).1 <= ls[i].0
    &&& forall|t: int| 0 <= t < wl.len() ==> has_key(ls, #[trigger] wl[t])
}

/// Every edge whose source is not the node currently broadcasting is
/// already settled or has its source pending.
pub open spec fn worklist_covers_except(
    es: Seq<(u64, u64)>,
    ls: Seq<(u64, u64)>,
    wl: Seq<u64>,
    u: u64,
) -> bool {
    forall|a: u64, b: u64|
        #[trigger] connects(es, a, b) && a != u ==> label_of(ls, b) <= label_of(ls, a)
            || wl.contains(a)
}

/// Offer label `lu` (the label being broadcast by `u`) to the
/// neighbour `m`; if it improves on `m`'s label, adopt it and put `m`
/// back on the worklist.
fn relax(
    es: &Vec<(u64, u64)>,
    Ghost(seeds): Ghost<Seq<(u64, u64)>>,
    labels: &mut Vec<(u64, u64)>,
    wl: &mut Vec<u64>,
    u: u64,
    lu: u64,
    m: u64,
) -> (ch: bool)
    requires
        seeds_wf(es@, seeds),
        state_wf(es@, seeds, old(labels)@, old(wl)@),
        connects(es@, u, m),
        reach(es@, u, lu),
        has_key(old(labels)@, u),
        label_of(old(labels)@, u) == lu,
        worklist_covers_except(es@, old(labels)@, old(wl)@, u),
    ensures
        state_wf(es@, seeds, final(labels)@, final(wl)@),
        final(labels)@.len() == old(labels)@.len(),
        forall|i: int|
            0 <= i < final(labels)@.len() ==> (#[trigger] final(labels)@[i]).0 == old(labels)@[i].0
                && final(labels)@[i].1 <= old(labels)@[i].1,
        label_of(final(labels)@, u) == lu,
        label_of(final(labels)@, m) <= lu,
        forall|n: u64|
            has_key(old(labels)@, n) && label_of(old(labels)@, n) <= lu ==> label_of(
                final(labels)@,
                n,
            ) <= lu,
        worklist_covers_except(es@, final(labels)@, final(wl)@, u),
        forall|n: u64| has_key(final(labels)@, n) <==> has_key(old(labels)@, n),
        forall|x: u64| old(wl)@.contains(x) ==> final(wl)@.contains(x),
        ch ==> sum_labels(final(labels)@) < sum_labels(old(labels)@),
        !ch ==> final(labels)@ == old(labels)@ && final(wl)@ == old(wl)@,
{
    let ghost pre = labels@;
    let ghost wlpre = wl@;
    proof {
        lemma_connects_incident(es@, u, m);
        lemma_incident_has_key(es@, pre, m);
    }
    let mi = lookup_index(labels, m);
    if lu < labels[mi].1 {
        proof {
            lemma_sum_update(pre, mi as int, (m, lu));
            lemma_update_value(pre, mi as int, lu);
            lemma_reach_step(es@, m, u);
            lemma_reach_trans(es@, m, u, lu);
        }
        labels.set(mi, (m, lu));
        wl.push(m);
        proof {
            let post = labels@;
            assert(post == pre.update(mi as int, (m, lu)));
            assert forall|x: u64| wlpre.contains(x) implies wl@.contains(x) by {
                let t = choose|t: int| 0 <= t < wlpre.len() && wlpre[t] == x;
                assert(wl@[t] == x);
            }
            assert(wl@.contains(m)) by {
                assert(wl@[wl@.len() - 1] == m);
            }
            assert forall|i: int| 0 <= i < post.len() implies reach(
                es@,
                (#[trigger] post[i]).0,
                post[i].1,
            ) by {
                if i == mi {
                    assert(post[i] == (m, lu));
                } else {
                    assert(post[i] == pre[i]);
                }
            }
            assert forall|t: int| 0 <= t < wl@.len() implies has_key(post, #[trigger] wl@[t]) by {
                if t < wlpre.len() {
                    assert(has_key(pre, wl@[t]));
                } else {
                    assert(wl@[t] == m);
                    assert(has_key(pre, m));
                }
            }
            assert(label_of(post, u) == lu) by {
                if u == m {
                    assert(label_of(post, m) == lu);
                } else {
                    assert(label_of(post, u) == label_of(pre, u));
                }
            }
            assert forall|n: u64|
                has_key(pre, n) && label_of(pre, n) <= lu implies label_of(post, n) <= lu by {
                if n == m {
                    assert(label_of(post, n) == lu);
                } else {
                    assert(label_of(post, n) == label_of(pre, n));
                }
            }
            assert forall|a: u64, b: u64|
                #[trigger] connects(es@, a, b) && a != u implies label_of(post, b) <= label_of(
                post,
                a,
            ) || wl@.contains(a) by {
                lemma_connects_incident(es@, a, b);
                lemma_incident_has_key(es@, pre, a);
                lemma_incident_has_key(es@, pre, b);
                if a == m {
                    assert(wl@.contains(a));
                } else {
                    assert(label_of(post, a) == label_of(pre, a));
                    if label_of(pre, b) <= label_of(pre, a) {
                        if b == m {
                            assert(label_of(post, b) == lu);
                            assert(lu < label_of(pre, b)) by {
                                lemma_label_at(pre, mi as int);
                            }
                        } else {
                            assert(label_of(post, b) == label_of(pre, b));
                        }
                    } else {
                        assert(wlpre.contains(a));
                    }
                }
            }
            assert(label_of(post, m) <= lu);
            assert(lu <= m) by {
                lemma_label_at(pre, mi as int);
            }
        }
        true
    } else {
        proof {
            lemma_label_at(pre, mi as int);
            assert(label_of(pre, m) == pre[mi as int].1);
        }
        false
    }
}

/// Among the pending nodes, pick one whose current label is least:
/// the admission rule that broadcasts low labels first.
fn select_broadcast(labels: &Vec<(u64, u64)>, wl: &Vec<u64>) -> (idx: usize)
    requires
        wl@.len() > 0,
        distinct_keys(labels@),
        forall|j: int| 0 <= j < wl@.len() ==> has_key(labels@, #[trigger] wl@[j]),
    ensures
        idx < wl@.len(),
        forall|j: int|
            0 <= j < wl@.len() ==> label_of(labels@, wl@[idx as int]) <= label_of(
                labels@,
                #[trigger] wl@[j],
            ),
{
    let mut best: usize = 0;
    let i0 = lookup_index(labels, wl[0]);
    let mut best_label: u64 = labels[i0].1;
    let mut j: usize = 1;
    while j < wl.len()
        invariant
            1 <= j <= wl@.len(),
            best < wl@.len(),
            distinct_keys(labels@),
            forall|k: int| 0 <= k < wl@.len() ==> has_key(labels@, #[trigger] wl@[k]),
            best_label == label_of(labels@, wl@[best as int]),
            forall|k: int| 0 <= k < j ==> best_label <= label_of(labels@, #[trigger] wl@[k]),
        decreases wl@.len() - j,
    {
        let jj = lookup_index(labels, wl[j]);
        let lj = labels[jj].1;
        if lj < best_label {
            best = j;
            best_label = lj;
        }
        j = j + 1;
    }
    best
}

/// Run least-label propagation to its fixpoint, seeded from `seeds`
/// and starting from the given worklist of nodes whose label has yet
/// to be broadcast. Every edge whose source is absent from the
/// worklist must already be settled, so a small worklist re-evaluates
/// only the perturbed region. Each round broadcasts one pending
/// node's label across its incident edges; a neighbour whose label
/// strictly drops re-enters the worklist. Labels never increase, and
/// the run terminates because every label is drawn from the finite
/// domain of node identifiers and only ever decreases.
pub fn propagate_from(
    es: &Vec<(u64, u64)>,
    seeds: &Vec<(u64, u64)>,
    wl: Vec<u64>,
) -> (out: Vec<(u64, u64)>)
    requires
        seeds_wf(es@, seeds@),
        forall|t: int| 0 <= t < wl@.len() ==> has_key(seeds@, #[trigger] wl@[t]),
        forall|a: u64, b: u64|
            #[trigger] connects(es@, a, b) ==> label_of(seeds@, b) <= label_of(seeds@, a)
                || wl@.contains(a),
    ensures
        stable_labels(es@, out@),
        out@.len() == seeds@.len(),
        forall|i: int|
            0 <= i < out@.len() ==> (#[trigger] out@[i]).0 == seeds@[i].0 && out@[i].1
                <= seeds@[i].1,
{
    let mut wl = wl;
    proof {
        lemma_seeds_distinct(es@, seeds@);
    }
    let mut labels: Vec<(u64, u64)> = Vec::new();
    let mut i: usize = 0;
    while i < seeds.len()
        invariant
            i <= seeds@.len(),
            labels@ == seeds@.subrange(0, i as int),
        decreases seeds@.len() - i,
    {
        let p = seeds[i];
        labels.push(p);
        proof {
            assert(labels@ =~= seeds@.subrange(0, i as int + 1));
        }
        i = i + 1;
    }
    proof {
        assert(labels@ =~= seeds@);
    }
    while wl.len() > 0
        invariant
            seeds_wf(es@, seeds@),
            state_wf(es@, seeds@, labels@, wl@),
            forall|a: u64, b: u64|
                #[trigger] connects(es@, a, b) ==> label_of(labels@, b) <= label_of(labels@, a)
                    || wl@.contains(a),
        decreases sum_labels(labels@), wl@.len(),
    {
        let ghost labels0 = labels@;
        let ghost wl0 = wl@;
        let idx = select_broadcast(&labels, &wl);
        let u = wl[idx];
        let _ = wl.swap_remove(idx);
        let ghost wl1 = wl@;
        proof {
            // removing one pending entry keeps every other pending node listed
            assert forall|x: u64| wl0.contains(x) && x != u implies wl1.contains(x) by {
                let t = choose|t: int| 0 <= t < wl0.len() && wl0[t] == x;
                if t == wl0.len() - 1 {
                    assert(wl1[idx as int] == x);
                } else {
                    assert(wl1[t] == x);
                }
            }
            assert forall|j: int| 0 <= j < wl1.len() implies has_key(
                labels@,
                #[trigger] wl1[j],
            ) by {
                if j == idx {
                    assert(wl1[j] == wl0[wl0.len() - 1]);
                } else {
                    assert(wl1[j] == wl0[j]);
                }
            }
        }
        let ui = lookup_index(&labels, u);
        let lu = labels[ui].1;
        proof {
            assert(reach(es@, u, lu));
            assert(label_of(labels@, u) == lu);
        }
        let mut changed = false;
        let mut j: usize = 0;
        while j < es.len()
            invariant
                j <= es@.len(),
                seeds_wf(es@, seeds@),
                state_wf(es@, seeds@, labels@, wl@),
                reach(es@, u, lu),
                has_key(labels@, u),
                label_of(labels@, u) == lu,
                worklist_covers_except(es@, labels@, wl@, u),
                forall|t: int|
                    0 <= t < j ==> ((#[trigger] es@[t]).0 == u ==> label_of(labels@, es@[t].1)
                        <= lu),
                forall|t: int|
                    0 <= t < j ==> ((#[trigger] es@[t]).1 == u ==> label_of(labels@, es@[t].0)
                        <= lu),
                changed ==> sum_labels(labels@) < sum_labels(labels0),
                !changed ==> labels@ == labels0 && wl@ == wl1,
                sum_labels(labels@) <= sum_labels(labels0),
            decreases es@.len() - j,
        {
            let e = es[j];
            let ghost lpre = labels@;
            if e.0 == u {
                proof {
                    assert(connects(es@, u, e.1)) by {
                        assert(es@[j as int] == (u, e.1));
                    }
                }
                let ch = relax(es, Ghost(seeds@), &mut labels, &mut wl, u, lu, e.1);
                if ch {
                    changed = true;
                }
            }
            let ghost lmid = labels@;
            if e.1 == u {
                proof {
                    assert(connects(es@, u, e.0)) by {
                        assert(es@[j as int] == (e.0, u));
                    }
                }
                let ch2 = relax(es, Ghost(seeds@), &mut labels, &mut wl, u, lu, e.0);
                if ch2 {
                    changed = true;
                }
            }
            proof {
                if e.0 == u {
                    // the first relax settled e.1 and the second, if it
                    // ran, only lowered labels further
                    assert(has_key(lmid, e.1)) by {
                        assert(incident(es@, e.1)) by {
                            assert(connects(es@, u, e.1)) by {
                                assert(es@[j as int] == (u, e.1));
                            }
                            lemma_connects_incident(es@, u, e.1);
                        }
                        lemma_incident_has_key(es@, lmid, e.1);
                    }
                    assert(label_of(labels@, e.1) <= lu);
                }
                if e.1 == u {
                    assert(label_of(labels@, e.0) <= lu);
                }
                assert forall|t: int|
                    0 <= t < j + 1 && (#[trigger] es@[t]).0 == u implies label_of(
                    labels@,
                    es@[t].1,
                ) <= lu by {
                    if t < j && es@[t].0 == u {
                        assert(has_key(lpre, es@[t].1)) by {
                            assert(incident(es@, es@[t].1)) by {
                                assert(connects(es@, u, es@[t].1)) by {
                                    assert(es@[t] == (u, es@[t].1));
                                }
                                lemma_connects_incident(es@, u, es@[t].1);
                            }
                            lemma_incident_has_key(es@, lpre, es@[t].1);
                        }
                        assert(has_key(lmid, es@[t].1));
                        assert(label_of(lpre, es@[t].1) <= lu);
                    } else if t == j {
                        assert(es@[t] == e);
                    }
                }
                assert forall|t: int|
                    0 <= t < j + 1 && (#[trigger] es@[t]).1 == u implies label_of(
                    labels@,
                    es@[t].0,
                ) <= lu by {
                    if t < j && es@[t].1 == u {
                        assert(has_key(lpre, es@[t].0)) by {
                            assert(incident(es@, es@[t].0)) by {
                                assert(connects(es@, u, es@[t].0)) by {
                                    assert(es@[t] == (es@[t].0, u));
                                }
                                lemma_connects_incident(es@, u, es@[t].0);
                            }
                            lemma_incident_has_key(es@, lpre, es@[t].0);
                        }
                        assert(has_key(lmid, es@[t].0));
                        assert(label_of(lpre, es@[t].0) <= lu);
                    } else if t == j {
                        assert(es@[t] == e);
                    }
                }
            }
            j = j + 1;
        }
        proof {
            // after the full sweep, every neighbour of u sits at or
            // below u's label, so u itself no longer needs attention
            assert forall|a: u64, b: u64|
                #[trigger] connects(es@, a, b) implies label_of(labels@, b) <= label_of(labels@, a)
                || wl@.contains(a) by {
                if a == u {
                    let t = choose|t: int|
                        0 <= t < es@.len() && (es@[t] == (a, b) || es@[t] == (b, a));
                    assert(label_of(labels@, b) <= lu);
                }
            }
        }
    }
    proof {
        assert forall|a: u64, b: u64| #[trigger] connects(es@, a, b) implies label_of(
            labels@,
            b,
        ) <= label_of(labels@, a) by {
            assert(!wl@.contains(a));
        }
    }
    labels
}

/// Run least-label propagation to its fixpoint from scratch: every
/// seeded node is pending at the start.
pub fn propagate_labels(es: &Vec<(u64, u64)>, seeds: &Vec<(u64, u64)>) -> (out: Vec<(u64, u64)>)
    requires
        seeds_wf(es@, seeds@),
    ensures
        stable_labels(es@, out@),
        out@.len() == seeds@.len(),
        forall|i: int|
            0 <= i < out@.len() ==> (#[trigger] out@[i]).0 == seeds@[i].0 && out@[i].1
                <= seeds@[i].1,
{
    let mut wl: Vec<u64> = Vec::new();
    let mut k: usize = 0;
    while k < seeds.len()
        invariant
            k <= seeds@.len(),
            wl@.len() == k,
            forall|j: int| 0 <= j < k ==> wl@[j] == (#[trigger] seeds@[j]).0,
        decreases seeds@.len() - k,
    {
        let p = seeds[k];
        wl.push(p.0);
        k = k + 1;
    }
    proof {
        assert forall|j: int| 0 <= j < wl@.len() implies has_key(seeds@, #[trigger] wl@[j]) by {
            assert(seeds@[j].0 == wl@[j]);
        }
        assert forall|a: u64, b: u64| #[trigger] connects(es@, a, b) implies wl@.contains(a) by {
            lemma_connects_incident(es@, a, b);
            lemma_node_seq_contains(es@, a);
            let i = choose|i: int| 0 <= i < node_seq(es@).len() && node_seq(es@)[i] == a;
            assert(wl@[i] == seeds@[i].0);
            assert(wl@[i] == a);
        }
    }
    propagate_from(es, seeds, wl)
}

} // verus!
