//! The delta collection: an append-only log of signed edge updates,
//! each tagged with the epoch at which it takes effect. An edge is
//! present at an epoch exactly when the sum of the multiplicities
//! recorded for it at that epoch or before is positive.

use vstd::prelude::*;

verus! {

/// One recorded update: edge `(a, b)` changed by `delta` (+1 insert,
/// -1 delete) at `epoch`.
#[derive(Clone, Copy, PartialEq, Eq, Structural, Debug)]
pub struct EdgeUpdate {
    pub a: u64,
    pub b: u64,
    pub delta: i8,
    pub epoch: u64,
}

/// The cumulative multiplicity of edge `x` as of epoch `ep`: the sum
/// of all recorded deltas for `x` whose epoch is at or below `ep`.
pub open spec fn net_count(log: Seq<EdgeUpdate>, ep: u64, x: (u64, u64)) -> int
    decreases log.len(),
{
    if log.len() == 0 {
        0
    } else {
        net_count(log.drop_last(), ep, x) + if log.last().epoch <= ep && (
        log.last().a,
        log.last().b,
        ) == x {
            log.last().delta as int
        } else {
            0
        }
    }
}

/// Presence: positive cumulative multiplicity.
pub open spec fn edge_present(log: Seq<EdgeUpdate>, ep: u64, x: (u64, u64)) -> bool {
    net_count(log, ep, x) > 0
}

/// The distinct edges mentioned by the log at or below `ep`, in order
/// of first mention.
pub open spec fn candidates(log: Seq<EdgeUpdate>, ep: u64) -> Seq<(u64, u64)>
    decreases log.len(),
{
    if log.len() == 0 {
        Seq::empty()
    } else {
        let rest = candidates(log.drop_last(), ep);
        let e = (log.last().a, log.last().b);
        if log.last().epoch <= ep && !rest.contains(e) {
            rest.push(e)
        } else {
            rest
        }
    }
}

/// The candidates that are actually present.
pub open spec fn keep_present(
    cands: Seq<(u64, u64)>,
    log: Seq<EdgeUpdate>,
    ep: u64,
) -> Seq<(u64, u64)>
    decreases cands.len(),
{
    if cands.len() == 0 {
        Seq::empty()
    } else {
        let rest = keep_present(cands.drop_last(), log, ep);
        if edge_present(log, ep, cands.last()) {
            rest.push(cands.last())
        } else {
            rest
        }
    }
}

/// The edge set of the graph as of epoch `ep`, as a sequence in order
/// of first mention.
pub open spec fn present_edges(log: Seq<EdgeUpdate>, ep: u64) -> Seq<(u64, u64)> {
    keep_present(candidates(log, ep), log, ep)
}

proof fn lemma_absent_candidate_zero(log: Seq<EdgeUpdate>, ep: u64, x: (u64, u64))
    requires
        !candidates(log, ep).contains(x),
    ensures
        net_count(log, ep, x) == 0,
    decreases log.len(),
{
    if log.len() > 0 {
        let rest = candidates(log.drop_last(), ep);
        let e = (log.last().a, log.last().b);
        if log.last().epoch <= ep && !rest.contains(e) {
            assert(forall|i: int|
                0 <= i < rest.len() ==> rest.push(e)[i] == #[trigger] rest[i]);
            assert forall|y: (u64, u64)| rest.contains(y) implies rest.push(e).contains(y) by {
                let i = choose|i: int| 0 <= i < rest.len() && rest[i] == y;
                assert(rest.push(e)[i] == y);
            }
            assert(rest.push(e)[rest.len() as int] == e);
            assert(rest.push(e).contains(e));
            assert(!rest.contains(x));
            assert(x != e);
        } else {
            assert(!rest.contains(x));
            if log.last().epoch <= ep {
                assert(rest.contains(e));
                assert(x != e);
            }
        }
        lemma_absent_candidate_zero(log.drop_last(), ep, x);
    }
}

proof fn lemma_keep_present_contains(
    cands: Seq<(u64, u64)>,
    log: Seq<EdgeUpdate>,
    ep: u64,
    x: (u64, u64),
)
    ensures
        keep_present(cands, log, ep).contains(x) <==> (cands.contains(x) && edge_present(
            log,
            ep,
            x,
        )),
    decreases cands.len(),
{
    if cands.len() == 0 {
    } else {
        let rest = keep_present(cands.drop_last(), log, ep);
        lemma_keep_present_contains(cands.drop_last(), log, ep, x);
        if edge_present(log, ep, cands.last()) {
            assert forall|y: (u64, u64)| rest.contains(y) implies rest.push(
                cands.last(),
            ).contains(y) by {
                let i = choose|i: int| 0 <= i < rest.len() && rest[i] == y;
                assert(rest.push(cands.last())[i] == y);
            }
            assert(rest.push(cands.last())[rest.len() as int] == cands.last());
            if rest.push(cands.last()).contains(x) {
                let i = choose|i: int|
                    0 <= i < rest.push(cands.last()).len() && rest.push(cands.last())[i] == x;
                if i < rest.len() {
                    assert(rest.contains(x));
                }
            }
        }
        if cands.contains(x) {
            let i = choose|i: int| 0 <= i < cands.len() && cands[i] == x;
            if i < cands.len() - 1 {
                assert(cands.drop_last()[i] == x);
                assert(cands.drop_last().contains(x));
            }
        }
        if cands.drop_last().contains(x) {
            let i = choose|i: int|
                0 <= i < cands.drop_last().len() && cands.drop_last()[i] == x;
            assert(cands[i] == x);
        }
        if x == cands.last() {
            assert(cands[cands.len() - 1] == x);
        }
    }
}

/// Presence characterizes membership of the present-edge sequence.
pub proof fn lemma_present_iff(log: Seq<EdgeUpdate>, ep: u64, x: (u64, u64))
    ensures
        present_edges(log, ep).contains(x) <==> net_count(log, ep, x) > 0,
{
    lemma_keep_present_contains(candidates(log, ep), log, ep, x);
    if net_count(log, ep, x) > 0 && !candidates(log, ep).contains(x) {
        lemma_absent_candidate_zero(log, ep, x);
    }
}

/// A record taking effect after `ep` does not change the net count as
/// of `ep`.
proof fn lemma_net_push(log: Seq<EdgeUpdate>, r: EdgeUpdate, ep: u64, x: (u64, u64))
    ensures
        net_count(log.push(r), ep, x) == net_count(log, ep, x) + if r.epoch <= ep && (r.a, r.b)
            == x {
            r.delta as int
        } else {
            0
        },
{
    assert(log.push(r).drop_last() =~= log);
    assert(log.push(r).last() == r);
}

proof fn lemma_candidates_push(log: Seq<EdgeUpdate>, r: EdgeUpdate, ep: u64)
    ensures
        candidates(log.push(r), ep) == if r.epoch <= ep && !candidates(log, ep).contains(
            (r.a, r.b),
        ) {
            candidates(log, ep).push((r.a, r.b))
        } else {
            candidates(log, ep)
        },
{
    assert(log.push(r).drop_last() =~= log);
    assert(log.push(r).last() == r);
}

proof fn lemma_keep_present_net_agree(
    cands: Seq<(u64, u64)>,
    log1: Seq<EdgeUpdate>,
    log2: Seq<EdgeUpdate>,
    ep: u64,
)
    requires
        forall|x: (u64, u64)| net_count(log1, ep, x) == net_count(log2, ep, x),
    ensures
        keep_present(cands, log1, ep) == keep_present(cands, log2, ep),
    decreases cands.len(),
{
    if cands.len() > 0 {
        lemma_keep_present_net_agree(cands.drop_last(), log1, log2, ep);
        assert(net_count(log1, ep, cands.last()) == net_count(log2, ep, cands.last()));
    }
}

/// A record tagged with a later epoch leaves the edge set as of `ep`
/// untouched.
pub proof fn lemma_present_unaffected(log: Seq<EdgeUpdate>, r: EdgeUpdate, ep: u64)
    requires
        r.epoch > ep,
    ensures
        present_edges(log.push(r), ep) == present_edges(log, ep),
{
    lemma_candidates_push(log, r, ep);
    assert forall|x: (u64, u64)| net_count(log.push(r), ep, x) == net_count(log, ep, x) by {
        lemma_net_push(log, r, ep, x);
    }
    lemma_keep_present_net_agree(candidates(log, ep), log.push(r), log, ep);
}

/// Inserting an edge and then deleting it again, both at or below
/// `ep`, leaves the edge set as of `ep` exactly as it was.
pub proof fn lemma_insert_delete_present(
    log: Seq<EdgeUpdate>,
    a: u64,
    b: u64,
    t1: u64,
    t2: u64,
    ep: u64,
)
    requires
        t1 <= ep,
        t2 <= ep,
    ensures
        present_edges(
            log.push(EdgeUpdate { a, b, delta: 1i8, epoch: t1 }).push(
                EdgeUpdate { a, b, delta: (-1) as i8, epoch: t2 },
            ),
            ep,
        ) == present_edges(log, ep),
{
    let r1 = EdgeUpdate { a, b, delta: 1i8, epoch: t1 };
    let r2 = EdgeUpdate { a, b, delta: (-1) as i8, epoch: t2 };
    let log1 = log.push(r1);
    let log2 = log1.push(r2);
    let e = (a, b);
    assert forall|x: (u64, u64)| net_count(log2, ep, x) == net_count(log, ep, x) by {
        lemma_net_push(log, r1, ep, x);
        lemma_net_push(log1, r2, ep, x);
    }
    lemma_candidates_push(log, r1, ep);
    lemma_candidates_push(log1, r2, ep);
    let c0 = candidates(log, ep);
    let c2 = candidates(log2, ep);
    if c0.contains(e) {
        assert(c2 == c0);
        lemma_keep_present_net_agree(c0, log2, log, ep);
    } else {
        assert(candidates(log1, ep) == c0.push(e));
        assert(c0.push(e)[c0.len() as int] == e);
        assert(c0.push(e).contains(e));
        assert(c2 == c0.push(e));
        lemma_absent_candidate_zero(log, ep, e);
        assert(net_count(log2, ep, e) == 0);
        assert(keep_present(c0.push(e), log2, ep) == keep_present(c0, log2, ep)) by {
            assert(c0.push(e).drop_last() =~= c0);
            assert(c0.push(e).last() == e);
        }
        lemma_keep_present_net_agree(c0, log2, log, ep);
    }
}

/// The delta collection itself: the log of updates, which is only ever
/// appended to.
pub struct DeltaCollection {
    pub records: Vec<EdgeUpdate>,
}

impl DeltaCollection {
    /// An empty history.
    pub fn new() -> (c: Self)
        ensures
            c.records@.len() == 0,
    {
        DeltaCollection { records: Vec::new() }
    }

    /// Record a signed count for an edge at an epoch.
    pub fn insert(&mut self, a: u64, b: u64, delta: i8, epoch: u64)
        requires
            delta == 1 || delta == -1,
        ensures
            final(self).records@ == old(self).records@.push(EdgeUpdate { a, b, delta, epoch }),
    {
        self.records.push(EdgeUpdate { a, b, delta, epoch });
    }

    /// Materialize the cumulative edge multiset as of epoch `ep`: every
    /// edge whose recorded multiplicities sum to a positive count.
    pub fn current_edges(&self, ep: u64) -> (es: Vec<(u64, u64)>)
        ensures
            es@ == present_edges(self.records@, ep),
    {
        let log = &self.records;
        let mut cands: Vec<(u64, u64)> = Vec::new();
        let mut j: usize = 0;
        while j < log.len()
            invariant
                j <= log@.len(),
                cands@ == candidates(log@.subrange(0, j as int), ep),
            decreases log@.len() - j,
        {
            let ghost pre = log@.subrange(0, j as int);
            let r = log[j];
            if r.epoch <= ep && !contains_edge(&cands, (r.a, r.b)) {
                cands.push((r.a, r.b));
            }
            proof {
                let cur = log@.subrange(0, j as int + 1);
                assert(cur.drop_last() =~= pre);
                assert(cur.last() == log@[j as int]);
            }
            j = j + 1;
        }
        proof {
            assert(log@.subrange(0, log@.len() as int) =~= log@);
        }
        let mut out: Vec<(u64, u64)> = Vec::new();
        let mut i: usize = 0;
        while i < cands.len()
            invariant
                i <= cands@.len(),
                cands@ == candidates(log@, ep),
                out@ == keep_present(cands@.subrange(0, i as int), log@, ep),
            decreases cands@.len() - i,
        {
            let x = cands[i];
            let n = net_of(log, ep, x);
            if n > 0 {
                out.push(x);
            }
            proof {
                let pre = cands@.subrange(0, i as int);
                let cur = cands@.subrange(0, i as int + 1);
                assert(cur.drop_last() =~= pre);
                assert(cur.last() == cands@[i as int]);
            }
            i = i + 1;
        }
        proof {
            assert(cands@.subrange(0, cands@.len() as int) =~= cands@);
        }
        out
    }
}

/// Does `v` hold the edge `x`?
fn contains_edge(v: &Vec<(u64, u64)>, x: (u64, u64)) -> (b: bool)
    ensures
        b == v@.contains(x),
{
    let mut i: usize = 0;
    while i < v.len()
        invariant
            i <= v@.len(),
            forall|j: int| 0 <= j < i ==> v@[j] != x,
        decreases v@.len() - i,
    {
        if v[i].0 == x.0 && v[i].1 == x.1 {
            assert(v@[i as int] == x);
            return true;
        }
        i = i + 1;
    }
    false
}

/// Sum the recorded multiplicities of `x` at or below `ep`.
fn net_of(log: &Vec<EdgeUpdate>, ep: u64, x: (u64, u64)) -> (n: i128)
    ensures
        n == net_count(log@, ep, x),
{
    let mut acc: i128 = 0;
    let mut k: usize = 0;
    while k < log.len()
        invariant
            k <= log@.len(),
            acc == net_count(log@.subrange(0, k as int), ep, x),
            -128 * (k as i128) <= acc <= 128 * (k as i128),
        decreases log@.len() - k,
    {
        let r = log[k];
        proof {
            let pre = log@.subrange(0, k as int);
            let cur = log@.subrange(0, k as int + 1);
            assert(cur.drop_last() =~= pre);
            assert(cur.last() == log@[k as int]);
        }
        if r.epoch <= ep && r.a == x.0 && r.b == x.1 {
            proof {
                assert((r.a, r.b) == x);
            }
            acc = acc + (r.delta as i128);
        }
        k = k + 1;
    }
    proof {
        assert(log@.subrange(0, log@.len() as int) =~= log@);
    }
    acc
}

} // verus!
