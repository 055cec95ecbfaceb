//! Spec-level model of the undirected graph: edge connectivity,
//! walks, reachability, and the canonical sequence of incident nodes.

use vstd::prelude::*;

verus! {

/// The symmetrized edge relation: some edge of `es` joins `a` and `b`,
/// in either orientation.
pub open spec fn connects(es: Seq<(u64, u64)>, a: u64, b: u64) -> bool {
    exists|i: int| 0 <= i < es.len() && (es[i] == (a, b) || es[i] == (b, a))
}

/// `p` is a walk from `a` to `b` along present edges.
pub open spec fn is_path(es: Seq<(u64, u64)>, p: Seq<u64>, a: u64, b: u64) -> bool {
    &&& p.len() >= 1
    &&& p[0] == a
    &&& p[p.len() - 1] == b
    &&& forall|i: int| 0 <= i < p.len() - 1 ==> #[trigger] connects(es, p[i], p[i + 1])
}

/// `b` lies in the connected component of `a`.
pub open spec fn reach(es: Seq<(u64, u64)>, a: u64, b: u64) -> bool {
    exists|p: Seq<u64>| is_path(es, p, a, b)
}

/// `n` is an endpoint of some edge of `es`.
pub open spec fn incident(es: Seq<(u64, u64)>, n: u64) -> bool {
    exists|i: int| 0 <= i < es.len() && ((#[trigger] es[i]).0 == n || es[i].1 == n)
}

/// Append `n` to `s` unless it is already there.
pub open spec fn add_node(s: Seq<u64>, n: u64) -> Seq<u64> {
    if s.contains(n) {
        s
    } else {
        s.push(n)
    }
}

/// The canonical sequence of incident nodes: each edge's endpoints in
/// order of first appearance.
pub open spec fn node_seq(es: Seq<(u64, u64)>) -> Seq<u64>
    decreases es.len(),
{
    if es.len() == 0 {
        Seq::empty()
    } else {
        add_node(add_node(node_seq(es.drop_last()), es.last().0), es.last().1)
    }
}

/// No value appears twice in `s`.
pub open spec fn distinct_seq(s: Seq<u64>) -> bool {
    forall|i: int, j: int| 0 <= i < j < s.len() ==> s[i] != s[j]
}

pub proof fn lemma_reach_refl(es: Seq<(u64, u64)>, a: u64)
    ensures
        reach(es, a, a),
{
    let p = seq![a];
    assert(is_path(es, p, a, a));
}

pub proof fn lemma_reach_step(es: Seq<(u64, u64)>, a: u64, b: u64)
    requires
        connects(es, a, b),
    ensures
        reach(es, a, b),
{
    let p = seq![a, b];
    assert(p[0] == a);
    assert(p[p.len() - 1] == b);
    assert(forall|i: int| 0 <= i < p.len() - 1 ==> #[trigger] connects(es, p[i], p[i + 1])) by {
        assert(connects(es, p[0], p[1]));
    }
    assert(is_path(es, p, a, b));
}

pub proof fn lemma_reach_trans(es: Seq<(u64, u64)>, a: u64, b: u64, c: u64)
    requires
        reach(es, a, b),
        reach(es, b, c),
    ensures
        reach(es, a, c),
{
    let p1 = choose|p: Seq<u64>| is_path(es, p, a, b);
    let p2 = choose|p: Seq<u64>| is_path(es, p, b, c);
    if p2.len() == 1 {
        assert(b == c);
        assert(is_path(es, p1, a, c));
    } else {
        let q = p1 + p2.subrange(1, p2.len() as int);
        assert(q.len() == p1.len() + p2.len() - 1);
        assert(q[0] == p1[0]);
        assert(q[q.len() - 1] == p2[p2.len() - 1]);
        assert(forall|i: int| 0 <= i < q.len() - 1 ==> #[trigger] connects(es, q[i], q[i + 1])) by {
            assert forall|i: int| 0 <= i < q.len() - 1 implies #[trigger] connects(
                es,
                q[i],
                q[i + 1],
            ) by {
                if i < p1.len() - 1 {
                    assert(q[i] == p1[i]);
                    assert(q[i + 1] == p1[i + 1]);
                    assert(connects(es, p1[i], p1[i + 1]));
                } else if i == p1.len() - 1 {
                    assert(q[i] == p1[p1.len() - 1]);
                    assert(q[i + 1] == p2.subrange(1, p2.len() as int)[0]);
                    assert(q[i + 1] == p2[1]);
                    assert(connects(es, p2[0], p2[1]));
                } else {
                    let j = i - p1.len();
                    assert(q[i] == p2.subrange(1, p2.len() as int)[j]);
                    assert(q[i] == p2[j + 1]);
                    assert(q[i + 1] == p2[j + 2]);
                    assert(connects(es, p2[j + 1], p2[j + 2]));
                }
            }
        }
        assert(is_path(es, q, a, c));
    }
}

proof fn lemma_push_contains(s: Seq<u64>, x: u64, n: u64)
    ensures
        s.push(x).contains(n) <==> (s.contains(n) || n == x),
{
    if s.contains(n) {
        let i = choose|i: int| 0 <= i < s.len() && s[i] == n;
        assert(s.push(x)[i] == n);
    }
    if n == x {
        assert(s.push(x)[s.len() as int] == n);
    }
    if s.push(x).contains(n) {
        let i = choose|i: int| 0 <= i < s.push(x).len() && s.push(x)[i] == n;
        if i < s.len() {
            assert(s[i] == n);
        }
    }
}

pub proof fn lemma_add_node_contains(s: Seq<u64>, x: u64, n: u64)
    ensures
        add_node(s, x).contains(n) <==> (s.contains(n) || n == x),
{
    if s.contains(x) {
        assert(add_node(s, x) == s);
    } else {
        lemma_push_contains(s, x, n);
    }
}

pub proof fn lemma_node_seq_contains(es: Seq<(u64, u64)>, n: u64)
    ensures
        node_seq(es).contains(n) <==> incident(es, n),
    decreases es.len(),
{
    if es.len() == 0 {
        assert(!node_seq(es).contains(n));
        assert(!incident(es, n));
    } else {
        let prev = es.drop_last();
        let e = es.last();
        lemma_node_seq_contains(prev, n);
        lemma_add_node_contains(node_seq(prev), e.0, n);
        lemma_add_node_contains(add_node(node_seq(prev), e.0), e.1, n);
        assert(incident(es, n) <==> (incident(prev, n) || n == e.0 || n == e.1)) by {
            if incident(prev, n) {
                let i = choose|i: int|
                    0 <= i < prev.len() && ((#[trigger] prev[i]).0 == n || prev[i].1 == n);
                assert(es[i] == prev[i]);
                assert(incident(es, n));
            }
            if n == e.0 || n == e.1 {
                assert(es[es.len() - 1] == e);
                assert(incident(es, n));
            }
            if incident(es, n) {
                let i = choose|i: int|
                    0 <= i < es.len() && ((#[trigger] es[i]).0 == n || es[i].1 == n);
                if i < es.len() - 1 {
                    assert(prev[i] == es[i]);
                    assert(incident(prev, n));
                } else {
                    assert(es[i] == e);
                }
            }
        }
    }
}

proof fn lemma_add_node_distinct(s: Seq<u64>, x: u64)
    requires
        distinct_seq(s),
    ensures
        distinct_seq(add_node(s, x)),
{
    if s.contains(x) {
    } else {
        let t = s.push(x);
        assert forall|i: int, j: int| 0 <= i < j < t.len() implies t[i] != t[j] by {
            if j < s.len() {
                assert(t[i] == s[i] && t[j] == s[j]);
            } else {
                assert(t[j] == x);
                assert(t[i] == s[i]);
                assert(!s.contains(x));
                if s[i] == x {
                    assert(s.contains(x));
                }
            }
        }
    }
}

pub proof fn lemma_node_seq_distinct(es: Seq<(u64, u64)>)
    ensures
        distinct_seq(node_seq(es)),
    decreases es.len(),
{
    if es.len() == 0 {
    } else {
        lemma_node_seq_distinct(es.drop_last());
        lemma_add_node_distinct(node_seq(es.drop_last()), es.last().0);
        lemma_add_node_distinct(add_node(node_seq(es.drop_last()), es.last().0), es.last().1);
    }
}

} // verus!
