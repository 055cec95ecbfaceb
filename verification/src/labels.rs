//! The NodeLabel working set: a vector of `(node, label)` pairs with
//! distinct node keys, its spec-level view, the measure used to prove
//! termination of the fixpoint, and the delta count between two
//! labellings.

use vstd::prelude::*;

verus! {

/// No node key appears twice.
pub open spec fn distinct_keys(s: Seq<(u64, u64)>) -> bool {
    forall|i: int, j: int| 0 <= i < j < s.len() ==> (#[trigger] s[i]).0 != (#[trigger] s[j]).0
}

/// `n` carries a label in `s`.
pub open spec fn has_key(s: Seq<(u64, u64)>, n: u64) -> bool {
    exists|i: int| 0 <= i < s.len() && (#[trigger] s[i]).0 == n
}

/// The position of `n`'s entry (meaningful only when `has_key` holds
/// and keys are distinct).
pub open spec fn key_index(s: Seq<(u64, u64)>, n: u64) -> int {
    choose|i: int| 0 <= i < s.len() && (#[trigger] s[i]).0 == n
}

/// The label that `s` assigns to `n`.
pub open spec fn label_of(s: Seq<(u64, u64)>, n: u64) -> u64 {
    s[key_index(s, n)].1
}

pub proof fn lemma_label_at(s: Seq<(u64, u64)>, i: int)
    requires
        distinct_keys(s),
        0 <= i < s.len(),
    ensures
        key_index(s, s[i].0) == i,
        label_of(s, s[i].0) == s[i].1,
        has_key(s, s[i].0),
{
    let n = s[i].0;
    assert(has_key(s, n));
    let j = key_index(s, n);
    assert(0 <= j < s.len() && s[j].0 == n);
    if j < i {
        assert(s[j].0 != s[i].0);
    } else if i < j {
        assert(s[i].0 != s[j].0);
    }
}

/// The sum of all labels: the termination measure of the fixpoint.
pub open spec fn sum_labels(s: Seq<(u64, u64)>) -> nat
    decreases s.len(),
{
    if s.len() == 0 {
        0
    } else {
        (sum_labels(s.drop_last()) + s.last().1) as nat
    }
}

pub proof fn lemma_sum_update(s: Seq<(u64, u64)>, i: int, p: (u64, u64))
    requires
        0 <= i < s.len(),
    ensures
        sum_labels(s.update(i, p)) + s[i].1 == sum_labels(s) + p.1,
    decreases s.len(),
{
    let t = s.update(i, p);
    if i == s.len() - 1 {
        assert(t.drop_last() =~= s.drop_last());
        assert(t.last() == p);
    } else {
        assert(t.drop_last() =~= s.drop_last().update(i, p));
        assert(t.last() == s.last());
        lemma_sum_update(s.drop_last(), i, p);
    }
}

/// Find the entry of node `n`, if any.
pub fn find_key(s: &Vec<(u64, u64)>, n: u64) -> (r: Option<usize>)
    ensures
        match r {
            Some(i) => i < s@.len() && s@[i as int].0 == n,
            None => !has_key(s@, n),
        },
{
    let mut i: usize = 0;
    while i < s.len()
        invariant
            i <= s@.len(),
            forall|j: int| 0 <= j < i ==> (#[trigger] s@[j]).0 != n,
        decreases s@.len() - i,
    {
        if s[i].0 == n {
            return Some(i);
        }
        i = i + 1;
    }
    None
}

/// Find the entry of node `n`, which must be present.
pub fn lookup_index(s: &Vec<(u64, u64)>, n: u64) -> (i: usize)
    requires
        distinct_keys(s@),
        has_key(s@, n),
    ensures
        i < s@.len(),
        s@[i as int].0 == n,
        key_index(s@, n) == i,
        label_of(s@, n) == s@[i as int].1,
{
    let r = find_key(s, n);
    match r {
        Some(i) => {
            proof {
                lemma_label_at(s@, i as int);
            }
            i
        },
        None => {
            // unreachable: the key is present by precondition
            proof {
                assert(false);
            }
            0
        },
    }
}

/// How many entries of `a` are absent from `b` or carry a different
/// label there.
pub open spec fn count_changed_in(a: Seq<(u64, u64)>, b: Seq<(u64, u64)>) -> nat
    decreases a.len(),
{
    if a.len() == 0 {
        0
    } else {
        count_changed_in(a.drop_last(), b) + if !has_key(b, a.last().0) || label_of(
            b,
            a.last().0,
        ) != a.last().1 {
            1nat
        } else {
            0nat
        }
    }
}

/// How many entries of `a` have no entry at all in `b`.
pub open spec fn count_missing_from(a: Seq<(u64, u64)>, b: Seq<(u64, u64)>) -> nat
    decreases a.len(),
{
    if a.len() == 0 {
        0
    } else {
        count_missing_from(a.drop_last(), b) + if !has_key(b, a.last().0) {
            1nat
        } else {
            0nat
        }
    }
}

/// The number of NodeLabel deltas between an old and a new labelling:
/// entries of the new one that appeared or changed, plus entries of the
/// old one that were retracted.
pub open spec fn label_deltas(old_ls: Seq<(u64, u64)>, new_ls: Seq<(u64, u64)>) -> nat {
    count_changed_in(new_ls, old_ls) + count_missing_from(old_ls, new_ls)
}

proof fn lemma_count_changed_self(a: Seq<(u64, u64)>, b: Seq<(u64, u64)>)
    requires
        distinct_keys(b),
        forall|i: int| 0 <= i < a.len() ==> b.contains(#[trigger] a[i]),
    ensures
        count_changed_in(a, b) == 0,
    decreases a.len(),
{
    if a.len() > 0 {
        assert(b.contains(a[a.len() - 1]));
        let j = choose|j: int| 0 <= j < b.len() && b[j] == a.last();
        lemma_label_at(b, j);
        lemma_count_changed_self(a.drop_last(), b);
    }
}

proof fn lemma_count_missing_self(a: Seq<(u64, u64)>, b: Seq<(u64, u64)>)
    requires
        forall|i: int| 0 <= i < a.len() ==> has_key(b, (#[trigger] a[i]).0),
    ensures
        count_missing_from(a, b) == 0,
    decreases a.len(),
{
    if a.len() > 0 {
        assert(has_key(b, a[a.len() - 1].0));
        lemma_count_missing_self(a.drop_last(), b);
    }
}

/// A labelling differs from itself in no entry: re-emitting it
/// produces zero deltas.
pub proof fn lemma_label_deltas_self(s: Seq<(u64, u64)>)
    requires
        distinct_keys(s),
    ensures
        label_deltas(s, s) == 0,
{
    assert forall|i: int| 0 <= i < s.len() implies s.contains(#[trigger] s[i]) by {}
    assert forall|i: int| 0 <= i < s.len() implies has_key(s, (#[trigger] s[i]).0) by {
        lemma_label_at(s, i);
    }
    lemma_count_changed_self(s, s);
    lemma_count_missing_self(s, s);
}

/// Count the NodeLabel deltas between two labellings.
pub fn count_label_deltas(old_ls: &Vec<(u64, u64)>, new_ls: &Vec<(u64, u64)>) -> (r: u128)
    requires
        distinct_keys(old_ls@),
    ensures
        r == label_deltas(old_ls@, new_ls@),
{
    let mut changed: u64 = 0;
    let mut i: usize = 0;
    while i < new_ls.len()
        invariant
            distinct_keys(old_ls@),
            i <= new_ls@.len(),
            changed == count_changed_in(new_ls@.subrange(0, i as int), old_ls@),
            changed <= i,
        decreases new_ls@.len() - i,
    {
        let (n, l) = new_ls[i];
        let differs = match find_key(old_ls, n) {
            Some(j) => {
                proof {
                    lemma_label_at(old_ls@, j as int);
                }
                old_ls[j].1 != l
            },
            None => true,
        };
        proof {
            let pre = new_ls@.subrange(0, i as int);
            let cur = new_ls@.subrange(0, i as int + 1);
            assert(cur.drop_last() =~= pre);
            assert(cur.last() == new_ls@[i as int]);
        }
        if differs {
            changed = changed + 1;
        }
        i = i + 1;
    }
    proof {
        assert(new_ls@.subrange(0, new_ls@.len() as int) =~= new_ls@);
    }
    let mut missing: u64 = 0;
    let mut k: usize = 0;
    while k < old_ls.len()
        invariant
            k <= old_ls@.len(),
            missing == count_missing_from(old_ls@.subrange(0, k as int), new_ls@),
            missing <= k,
        decreases old_ls@.len() - k,
    {
        let (n, _) = old_ls[k];
        let absent = match find_key(new_ls, n) {
            Some(_) => false,
            None => true,
        };
        proof {
            let pre = old_ls@.subrange(0, k as int);
            let cur = old_ls@.subrange(0, k as int + 1);
            assert(cur.drop_last() =~= pre);
            assert(cur.last() == old_ls@[k as int]);
        }
        if absent {
            missing = missing + 1;
        }
        k = k + 1;
    }
    proof {
        assert(old_ls@.subrange(0, old_ls@.len() as int) =~= old_ls@);
    }
    (changed as u128) + (missing as u128)
}

} // verus!
