//! The mappings table in increasing key order.
use std::collections::BTreeMap;

use vstd::prelude::*;
use vstd::std_specs::cmp::OrdSpec;
use vstd::std_specs::iter::IteratorSpec;

verus! {

/// Every element is below every later one.
pub open spec fn strictly_increasing(s: Seq<u64>) -> bool {
    forall|i: int, j: int| 0 <= i < j < s.len() ==> s[i] < s[j]
}

/// The keys of `m` in increasing order.
pub open spec fn sorted_keys<V>(m: Map<u64, V>) -> Seq<u64> {
    choose|s: Seq<u64>| strictly_increasing(s) && s.to_set() == m.dom()
}

/// The values of `m` in increasing order of their keys.
pub open spec fn ordered_values<V>(m: Map<u64, V>) -> Seq<V> {
    sorted_keys(m).map_values(|k: u64| m[k])
}

/// Two strictly increasing sequences with the same elements are equal.
pub proof fn lemma_sorted_unique(a: Seq<u64>, b: Seq<u64>)
    requires
        strictly_increasing(a),
        strictly_increasing(b),
        a.to_set() == b.to_set(),
    ensures
        a == b,
    decreases a.len(),
{
    broadcast use vstd::seq_lib::group_seq_properties;

    if a.len() == 0 {
        if b.len() > 0 {
            assert(b.to_set().contains(b[0]));
        }
        assert(a =~= b);
    } else if b.len() == 0 {
        assert(a.to_set().contains(a[0]));
    } else {
        assert(b.to_set().contains(a[0]));
        assert(a.to_set().contains(b[0]));
        let ja = choose|j: int| 0 <= j < b.len() && b[j] == a[0];
        let jb = choose|j: int| 0 <= j < a.len() && a[j] == b[0];
        assert(b[0] <= a[0]);
        assert(a[0] <= b[0]);
        let a2 = a.drop_first();
        let b2 = b.drop_first();
        assert forall|x: u64| a2.to_set().contains(x) implies b2.to_set().contains(x) by {
            let i = choose|i: int| 0 <= i < a2.len() && a2[i] == x;
            assert(a[i + 1] == x);
            assert(b.to_set().contains(x));
            let j = choose|j: int| 0 <= j < b.len() && b[j] == x;
            assert(j != 0);
            assert(b2[j - 1] == x);
        }
        assert forall|x: u64| b2.to_set().contains(x) implies a2.to_set().contains(x) by {
            let i = choose|i: int| 0 <= i < b2.len() && b2[i] == x;
            assert(b[i + 1] == x);
            assert(a.to_set().contains(x));
            let j = choose|j: int| 0 <= j < a.len() && a[j] == x;
            assert(j != 0);
            assert(a2[j - 1] == x);
        }
        assert(a2.to_set() =~= b2.to_set());
        lemma_sorted_unique(a2, b2);
        assert(a.len() == b.len());
        assert forall|i: int| 0 <= i < a.len() implies a[i] == b[i] by {
            if i > 0 {
                assert(a[i] == a2[i - 1]);
                assert(b[i] == b2[i - 1]);
            }
        }
        assert(a =~= b);
    }
}

/// A strictly increasing sequence holding exactly the keys of `m` is
/// `sorted_keys(m)`.
pub proof fn lemma_sorted_keys_is<V>(m: Map<u64, V>, s: Seq<u64>)
    requires
        strictly_increasing(s),
        s.to_set() == m.dom(),
    ensures
        sorted_keys(m) == s,
{
    let t = sorted_keys(m);
    assert(strictly_increasing(t) && t.to_set() == m.dom());
    lemma_sorted_unique(s, t);
}

/// The values of `m` in increasing order of their keys.
pub fn ordered_refs<V>(m: &BTreeMap<u64, V>) -> (r: Vec<&V>)
    ensures
        r@.len() == ordered_values(m@).len(),
        forall|i: int| 0 <= i < r@.len() ==> *r@[i] == ordered_values(m@)[i],
{
    broadcast use vstd::std_specs::btree::group_btree_axioms;
    broadcast use vstd::laws_cmp::group_laws_cmp;

    assert(vstd::laws_cmp::obeys_cmp::<u64>());
    assert(vstd::std_specs::btree::key_obeys_cmp_spec::<u64>());
    let mut r: Vec<&V> = Vec::new();
    let iter = m.iter();
    let ghost all = iter.remaining();
    assert(vstd::std_specs::btree::increasing_seq(all.map_values(|kv: (&u64, &V)| *kv.0)));
    for kv in it: iter
        invariant
            all == it.seq(),
            r@.len() == it.index(),
            forall|i: int| 0 <= i < r@.len() ==> *r@[i] == *all[i].1,
    {
        r.push(kv.1);
    }
    let ghost keys = all.map_values(|kv: (&u64, &V)| *kv.0);
    assert(strictly_increasing(keys)) by {
        assert forall|i: int, j: int| 0 <= i < j < keys.len() implies keys[i] < keys[j] by {
            assert(keys[i].cmp_spec(&keys[j]) is Less);
        }
    }
    assert(keys.to_set() =~= m@.dom()) by {
        assert forall|k: u64| keys.to_set().contains(k) implies m@.dom().contains(k) by {
            let i = choose|i: int| 0 <= i < keys.len() && keys[i] == k;
            assert(m@.contains_key(*all[i].0));
        }
        assert forall|k: u64| m@.dom().contains(k) implies keys.to_set().contains(k) by {
            assert(all.contains((&k, &m@[k])));
            let i = choose|i: int| 0 <= i < all.len() && all[i] == (&k, &m@[k]);
            assert(keys[i] == k);
        }
    }
    proof {
        lemma_sorted_keys_is(m@, keys);
    }
    r
}

/// `u64` keys follow the comparison laws that the `BTreeMap` contracts assume.
pub proof fn lemma_u64_keys_ordered()
    ensures
        vstd::laws_cmp::obeys_cmp::<u64>(),
{
    broadcast use vstd::laws_cmp::group_laws_cmp;

}

/// The keys of `m` in increasing order.
pub fn ordered_keys<V>(m: &BTreeMap<u64, V>) -> (r: Vec<u64>)
    ensures
        r@ == sorted_keys(m@),
        strictly_increasing(r@),
        r@.to_set() == m@.dom(),
{
    broadcast use vstd::std_specs::btree::group_btree_axioms;
    broadcast use vstd::laws_cmp::group_laws_cmp;

    assert(vstd::laws_cmp::obeys_cmp::<u64>());
    assert(vstd::std_specs::btree::key_obeys_cmp_spec::<u64>());
    let mut r: Vec<u64> = Vec::new();
    let iter = m.iter();
    let ghost all = iter.remaining();
    assert(vstd::std_specs::btree::increasing_seq(all.map_values(|kv: (&u64, &V)| *kv.0)));
    for kv in it: iter
        invariant
            all == it.seq(),
            r@.len() == it.index(),
            forall|i: int| 0 <= i < r@.len() ==> r@[i] == *all[i].0,
    {
        r.push(*kv.0);
    }
    let ghost keys = all.map_values(|kv: (&u64, &V)| *kv.0);
    assert(strictly_increasing(keys)) by {
        assert forall|i: int, j: int| 0 <= i < j < keys.len() implies keys[i] < keys[j] by {
            assert(keys[i].cmp_spec(&keys[j]) is Less);
        }
    }
    assert(keys.to_set() =~= m@.dom()) by {
        assert forall|k: u64| keys.to_set().contains(k) implies m@.dom().contains(k) by {
            let i = choose|i: int| 0 <= i < keys.len() && keys[i] == k;
            assert(m@.contains_key(*all[i].0));
        }
        assert forall|k: u64| m@.dom().contains(k) implies keys.to_set().contains(k) by {
            assert(all.contains((&k, &m@[k])));
            let i = choose|i: int| 0 <= i < all.len() && all[i] == (&k, &m@[k]);
            assert(keys[i] == k);
        }
    }
    proof {
        lemma_sorted_keys_is(m@, keys);
    }
    assert(r@ =~= keys);
    r
}

} // verus!
