//! Association lists: sequences of (key, value) pairs with distinct keys,
//! read as finite maps.
use vstd::prelude::*;

verus! {

/// The keys of `s` are pairwise distinct.
pub open spec fn keys_distinct<K, V>(s: Seq<(K, V)>) -> bool {
    forall|i: int, j: int| 0 <= i < j < s.len() ==> #[trigger] s[i].0 != #[trigger] s[j].0
}

/// The map that an association list describes (the first pair of a key
/// wins if keys repeat).
pub open spec fn assoc_map<K, V>(s: Seq<(K, V)>) -> Map<K, V> {
    Map::new(
        |k: K| exists|i: int| 0 <= i < s.len() && s[i].0 == k,
        |k: K| s[choose|i: int| 0 <= i < s.len() && s[i].0 == k].1,
    )
}

pub proof fn lemma_assoc_index<K, V>(s: Seq<(K, V)>, i: int)
    requires
        keys_distinct(s),
        0 <= i < s.len(),
    ensures
        assoc_map(s).dom().contains(s[i].0),
        assoc_map(s)[s[i].0] == s[i].1,
{
    let k = s[i].0;
    assert(s[i].0 == k);
    let j = choose|j: int| 0 <= j < s.len() && s[j].0 == k;
    if j != i {
        if j < i {
            assert(s[j].0 != s[i].0);
        } else {
            assert(s[i].0 != s[j].0);
        }
    }
}

pub proof fn lemma_assoc_dom<K, V>(s: Seq<(K, V)>, k: K) -> (i: int)
    requires
        assoc_map(s).dom().contains(k),
    ensures
        0 <= i < s.len(),
        s[i].0 == k,
{
    choose|i: int| 0 <= i < s.len() && s[i].0 == k
}

pub proof fn lemma_assoc_absent<K, V>(s: Seq<(K, V)>, k: K)
    requires
        forall|i: int| 0 <= i < s.len() ==> s[i].0 != k,
    ensures
        !assoc_map(s).dom().contains(k),
{
}

/// Setting the value at position `i` updates the map at that key.
pub proof fn lemma_assoc_set<K, V>(s: Seq<(K, V)>, i: int, v: V)
    requires
        keys_distinct(s),
        0 <= i < s.len(),
    ensures
        keys_distinct(s.update(i, (s[i].0, v))),
        assoc_map(s.update(i, (s[i].0, v))) == assoc_map(s).insert(s[i].0, v),
{
    let t = s.update(i, (s[i].0, v));
    assert forall|a: int, b: int| 0 <= a < b < t.len() implies #[trigger] t[a].0 != #[trigger] t[b].0 by {
        assert(s[a].0 != s[b].0);
    }
    let m1 = assoc_map(t);
    let m2 = assoc_map(s).insert(s[i].0, v);
    assert forall|k: K| #[trigger] m1.dom().contains(k) == m2.dom().contains(k) by {
        if m1.dom().contains(k) {
            let a = lemma_assoc_dom(t, k);
            assert(s[a].0 == k);
        }
        if m2.dom().contains(k) && k != s[i].0 {
            let a = lemma_assoc_dom(s, k);
            assert(t[a].0 == k);
        }
        if k == s[i].0 {
            assert(t[i].0 == k);
        }
    }
    assert forall|k: K| m1.dom().contains(k) implies #[trigger] m1[k] == m2[k] by {
        let a = lemma_assoc_dom(t, k);
        lemma_assoc_index(t, a);
        if k != s[i].0 {
            assert(s[a].0 == k);
            lemma_assoc_index(s, a);
        }
    }
    assert(m1 =~= m2);
}

/// Dropping the pair at position `i` removes its key.
pub proof fn lemma_assoc_remove<K, V>(s: Seq<(K, V)>, i: int)
    requires
        keys_distinct(s),
        0 <= i < s.len(),
    ensures
        keys_distinct(s.remove(i)),
        assoc_map(s.remove(i)) == assoc_map(s).remove(s[i].0),
{
    let t = s.remove(i);
    assert forall|a: int| 0 <= a < t.len() implies #[trigger] t[a] == s[if a < i { a } else { a + 1 }] by {}
    assert forall|a: int, b: int| 0 <= a < b < t.len() implies #[trigger] t[a].0 != #[trigger] t[b].0 by {
        let sa = if a < i { a } else { a + 1 };
        let sb = if b < i { b } else { b + 1 };
        assert(t[a] == s[sa] && t[b] == s[sb]);
        assert(s[sa].0 != s[sb].0);
    }
    let m1 = assoc_map(t);
    let m2 = assoc_map(s).remove(s[i].0);
    assert forall|k: K| #[trigger] m1.dom().contains(k) == m2.dom().contains(k) by {
        if m1.dom().contains(k) {
            let a = lemma_assoc_dom(t, k);
            let sa = if a < i { a } else { a + 1 };
            assert(t[a] == s[sa]);
            assert(s[sa].0 != s[i].0);
            assert(assoc_map(s).dom().contains(k));
        }
        if m2.dom().contains(k) {
            let a = lemma_assoc_dom(s, k);
            assert(a != i);
            let ta = if a < i { a } else { a - 1 };
            assert(t[ta] == s[a]);
        }
    }
    assert forall|k: K| m1.dom().contains(k) implies #[trigger] m1[k] == m2[k] by {
        let a = lemma_assoc_dom(t, k);
        lemma_assoc_index(t, a);
        let sa = if a < i { a } else { a + 1 };
        assert(t[a] == s[sa]);
        lemma_assoc_index(s, sa);
    }
    assert(m1 =~= m2);
}

/// Appending a pair with a new key inserts it.
pub proof fn lemma_assoc_push<K, V>(s: Seq<(K, V)>, k: K, v: V)
    requires
        keys_distinct(s),
        !assoc_map(s).dom().contains(k),
    ensures
        keys_distinct(s.push((k, v))),
        assoc_map(s.push((k, v))) == assoc_map(s).insert(k, v),
{
    let t = s.push((k, v));
    assert forall|a: int, b: int| 0 <= a < b < t.len() implies #[trigger] t[a].0 != #[trigger] t[b].0 by {
        if b < s.len() {
            assert(s[a].0 != s[b].0);
        } else {
            assert(s[a].0 == t[a].0);
            if s[a].0 == k {
                assert(assoc_map(s).dom().contains(k));
            }
        }
    }
    let m1 = assoc_map(t);
    let m2 = assoc_map(s).insert(k, v);
    assert forall|u: K| #[trigger] m1.dom().contains(u) == m2.dom().contains(u) by {
        if m1.dom().contains(u) && u != k {
            let a = lemma_assoc_dom(t, u);
            assert(a < s.len());
            assert(s[a].0 == u);
        }
        if m2.dom().contains(u) && u != k {
            let a = lemma_assoc_dom(s, u);
            assert(t[a].0 == u);
        }
        if u == k {
            assert(t[s.len() as int].0 == k);
        }
    }
    assert forall|u: K| m1.dom().contains(u) implies #[trigger] m1[u] == m2[u] by {
        let a = lemma_assoc_dom(t, u);
        lemma_assoc_index(t, a);
        if u != k {
            assert(a < s.len());
            lemma_assoc_index(s, a);
        } else {
            lemma_assoc_index(t, s.len() as int);
        }
    }
    assert(m1 =~= m2);
}

} // verus!
