//! The aggregation stage: group the converged NodeLabel set by label
//! to obtain component sizes, then group the sizes to obtain, for each
//! distinct size, how many components have it.

use crate::fixpoint::lemma_update_value;
use crate::labels::{distinct_keys, has_key, key_index, lemma_label_at};
use vstd::prelude::*;

verus! {

/// How many times `v` occurs in `s`.
pub open spec fn count_occ(s: Seq<u64>, v: u64) -> nat
    decreases s.len(),
{
    if s.len() == 0 {
        0
    } else {
        (count_occ(s.drop_last(), v) + if s.last() == v {
            1nat
        } else {
            0nat
        }) as nat
    }
}

pub proof fn lemma_count_occ_le(s: Seq<u64>, v: u64)
    ensures
        count_occ(s, v) <= s.len(),
    decreases s.len(),
{
    if s.len() > 0 {
        lemma_count_occ_le(s.drop_last(), v);
    }
}

/// Add one occurrence of `v` to a running tally.
pub open spec fn bump(t: Seq<(u64, u64)>, v: u64) -> Seq<(u64, u64)> {
    if has_key(t, v) {
        t.update(key_index(t, v), (v, (t[key_index(t, v)].1 + 1) as u64))
    } else {
        t.push((v, 1))
    }
}

/// The tally of a sequence: one `(value, count)` entry per distinct
/// value, in order of first occurrence.
pub open spec fn tally(s: Seq<u64>) -> Seq<(u64, u64)>
    decreases s.len(),
{
    if s.len() == 0 {
        Seq::empty()
    } else {
        bump(tally(s.drop_last()), s.last())
    }
}

/// What a tally means: its keys are exactly the values that occur, its
/// counts are their occurrence counts, and no key repeats.
pub proof fn lemma_tally_counts(s: Seq<u64>)
    requires
        s.len() <= u64::MAX,
    ensures
        distinct_keys(tally(s)),
        tally(s).len() <= s.len(),
        forall|v: u64| has_key(tally(s), v) <==> count_occ(s, v) > 0,
        forall|i: int|
            0 <= i < tally(s).len() ==> (#[trigger] tally(s)[i]).1 == count_occ(s, tally(s)[i].0),
    decreases s.len(),
{
    if s.len() == 0 {
    } else {
        let prev = s.drop_last();
        let t0 = tally(prev);
        let v = s.last();
        let t = tally(s);
        lemma_tally_counts(prev);
        assert forall|w: u64| count_occ(s, w) == count_occ(prev, w) + if w == v {
            1int
        } else {
            0int
        } by {}
        if has_key(t0, v) {
            let k = key_index(t0, v);
            assert(0 <= k < t0.len() && t0[k].0 == v) by {
                let k2 = choose|i: int| 0 <= i < t0.len() && (#[trigger] t0[i]).0 == v;
                assert(t0[k2].0 == v);
            }
            lemma_label_at(t0, k);
            assert(t0[k].1 == count_occ(prev, v));
            lemma_count_occ_le(prev, v);
            assert(count_occ(prev, v) < u64::MAX);
            lemma_update_value(t0, k, (t0[k].1 + 1) as u64);
            assert(t =~= t0.update(k, (v, (t0[k].1 + 1) as u64)));
            assert forall|w: u64| has_key(t, w) <==> count_occ(s, w) > 0 by {
                assert(has_key(t, w) <==> has_key(t0, w));
            }
            assert forall|i: int| 0 <= i < t.len() implies (#[trigger] t[i]).1 == count_occ(
                s,
                t[i].0,
            ) by {
                if i == k {
                } else {
                    assert(t[i] == t0[i]);
                    assert(t0[i].0 != v) by {
                        if t0[i].0 == v {
                            assert(t0[i].0 == t0[k].0);
                        }
                    }
                }
            }
        } else {
            assert(count_occ(prev, v) == 0);
            assert(t =~= t0.push((v, 1)));
            assert(distinct_keys(t)) by {
                assert forall|i: int, j: int| 0 <= i < j < t.len() implies (#[trigger] t[i]).0 != (
                #[trigger] t[j]).0 by {
                    if j == t.len() - 1 {
                        assert(t[j].0 == v);
                        assert(t[i] == t0[i]);
                        if t0[i].0 == v {
                            assert(has_key(t0, v));
                        }
                    } else {
                        assert(t[i] == t0[i] && t[j] == t0[j]);
                    }
                }
            }
            assert forall|w: u64| has_key(t, w) <==> count_occ(s, w) > 0 by {
                if has_key(t, w) {
                    let i = choose|i: int| 0 <= i < t.len() && (#[trigger] t[i]).0 == w;
                    if i < t0.len() {
                        assert(t0[i].0 == w);
                        assert(has_key(t0, w));
                    } else {
                        assert(w == v);
                    }
                }
                if count_occ(s, w) > 0 {
                    if w == v {
                        assert(t[t.len() - 1].0 == v);
                        assert(has_key(t, v));
                    } else {
                        assert(count_occ(prev, w) > 0);
                        assert(has_key(t0, w));
                        let i = choose|i: int| 0 <= i < t0.len() && (#[trigger] t0[i]).0 == w;
                        assert(t[i].0 == w);
                        assert(has_key(t, w));
                    }
                }
            }
            assert forall|i: int| 0 <= i < t.len() implies (#[trigger] t[i]).1 == count_occ(
                s,
                t[i].0,
            ) by {
                if i == t.len() - 1 {
                    assert(t[i] == (v, 1u64));
                } else {
                    assert(t[i] == t0[i]);
                    assert(t0[i].0 != v) by {
                        if t0[i].0 == v {
                            assert(has_key(t0, v));
                        }
                    }
                }
            }
        }
    }
}

/// Tally the values of a sequence: the grouping core of the
/// aggregation stage.
pub fn count_values(values: &Vec<u64>) -> (t: Vec<(u64, u64)>)
    ensures
        t@ == tally(values@),
{
    let mut t: Vec<(u64, u64)> = Vec::new();
    let mut i: usize = 0;
    while i < values.len()
        invariant
            i <= values@.len(),
            t@ == tally(values@.subrange(0, i as int)),
        decreases values@.len() - i,
    {
        let ghost pres = values@.subrange(0, i as int);
        let ghost pret = t@;
        let v = values[i];
        proof {
            lemma_tally_counts(pres);
            let cur = values@.subrange(0, i as int + 1);
            assert(cur.drop_last() =~= pres);
            assert(cur.last() == values@[i as int]);
        }
        match crate::labels::find_key(&t, v) {
            Some(k) => {
                proof {
                    lemma_label_at(pret, k as int);
                    lemma_count_occ_le(pres, v);
                }
                let c = t[k].1;
                t.set(k, (v, c + 1));
                proof {
                    assert(t@ == bump(pret, v));
                }
            },
            None => {
                t.push((v, 1));
                proof {
                    assert(t@ == bump(pret, v));
                }
            },
        }
        i = i + 1;
    }
    proof {
        assert(values@.subrange(0, values@.len() as int) =~= values@);
    }
    t
}

/// The values (second components) of a pair sequence.
pub open spec fn values_of(s: Seq<(u64, u64)>) -> Seq<u64> {
    s.map_values(|p: (u64, u64)| p.1)
}

/// Per-component sizes of a labelling: for each distinct label, the
/// number of nodes carrying it.
pub open spec fn sizes_of(ls: Seq<(u64, u64)>) -> Seq<(u64, u64)> {
    tally(values_of(ls))
}

/// The component-size distribution of a labelling: for each distinct
/// component size, the number of components with that size.
pub open spec fn distribution_of(ls: Seq<(u64, u64)>) -> Seq<(u64, u64)> {
    tally(values_of(sizes_of(ls)))
}

/// Extract the second components.
pub fn project_values(s: &Vec<(u64, u64)>) -> (vals: Vec<u64>)
    ensures
        vals@ == values_of(s@),
{
    let mut vals: Vec<u64> = Vec::new();
    let mut i: usize = 0;
    while i < s.len()
        invariant
            i <= s@.len(),
            vals@ == s@.subrange(0, i as int).map_values(|p: (u64, u64)| p.1),
        decreases s@.len() - i,
    {
        let p = s[i];
        vals.push(p.1);
        proof {
            assert(vals@ =~= s@.subrange(0, i as int + 1).map_values(|p: (u64, u64)| p.1));
        }
        i = i + 1;
    }
    proof {
        assert(s@.subrange(0, s@.len() as int) =~= s@);
    }
    vals
}

/// Group a converged labelling by label: one `(label, size)` entry per
/// component.
pub fn component_sizes(labels: &Vec<(u64, u64)>) -> (sizes: Vec<(u64, u64)>)
    ensures
        sizes@ == sizes_of(labels@),
{
    let vals = project_values(labels);
    count_values(&vals)
}

/// Group component sizes: one `(size, count)` entry per distinct size.
pub fn size_distribution(sizes: &Vec<(u64, u64)>) -> (dist: Vec<(u64, u64)>)
    ensures
        dist@ == tally(values_of(sizes@)),
{
    let vals = project_values(sizes);
    count_values(&vals)
}

} // verus!
