//! Association sequences: the mathematical model shared by the store and
//! table types. A sequence of key/value pairs with pairwise-distinct keys is
//! viewed as a map; the lemmas here relate the sequence edits the exec code
//! performs to insert and remove on that map.

use vstd::prelude::*;

verus! {

/// The map described by a key/value pair sequence.
pub open spec fn assoc_view<K, V>(s: Seq<(K, V)>) -> Map<K, V> {
    Map::new(
        |k: K| exists|i: int| 0 <= i < s.len() && s[i].0 == k,
        |k: K| s[choose|i: int| 0 <= i < s.len() && s[i].0 == k].1,
    )
}

/// Keys appear at most once.
pub open spec fn assoc_wf<K, V>(s: Seq<(K, V)>) -> bool {
    forall|i: int, j: int| 0 <= i < j < s.len() ==> s[i].0 != s[j].0
}

pub proof fn lemma_assoc_empty<K, V>()
    ensures
        assoc_view(Seq::<(K, V)>::empty()) == Map::<K, V>::empty(),
{
    assert(assoc_view(Seq::<(K, V)>::empty()) =~= Map::<K, V>::empty());
}

/// With distinct keys, the entry at any index gives the map's value at its key.
pub proof fn lemma_assoc_value<K, V>(s: Seq<(K, V)>, i: int)
    requires
        assoc_wf(s),
        0 <= i < s.len(),
    ensures
        assoc_view(s).contains_key(s[i].0),
        assoc_view(s)[s[i].0] == s[i].1,
{
    let k = s[i].0;
    assert(exists|j: int| 0 <= j < s.len() && s[j].0 == k);
    let j = choose|j: int| 0 <= j < s.len() && s[j].0 == k;
    if j < i {
        assert(s[j].0 != s[i].0);
    } else if i < j {
        assert(s[i].0 != s[j].0);
    }
}

/// Appending a pair whose key is absent inserts it into the map.
pub proof fn lemma_assoc_push_new<K, V>(s: Seq<(K, V)>, e: (K, V))
    requires
        assoc_wf(s),
        forall|i: int| 0 <= i < s.len() ==> s[i].0 != e.0,
    ensures
        assoc_wf(s.push(e)),
        assoc_view(s.push(e)) == assoc_view(s).insert(e.0, e.1),
{
    let t = s.push(e);
    assert forall|a: int, b: int| 0 <= a < b < t.len() implies t[a].0 != t[b].0 by {
        if b < s.len() {
        } else {
            assert(t[b] == e && t[a] == s[a]);
        }
    }
    let m = assoc_view(s).insert(e.0, e.1);
    assert forall|k: K| assoc_view(t).contains_key(k) implies m.contains_key(k) by {
        let i = choose|i: int| 0 <= i < t.len() && t[i].0 == k;
        if i < s.len() {
            assert(s[i].0 == k);
        }
    }
    assert forall|k: K| m.contains_key(k) implies assoc_view(t).contains_key(k) by {
        if k == e.0 {
            assert(t[s.len() as int].0 == k);
        } else {
            let i = choose|i: int| 0 <= i < s.len() && s[i].0 == k;
            assert(t[i].0 == k);
        }
    }
    assert forall|k: K| #[trigger] assoc_view(t).contains_key(k) implies assoc_view(t)[k] == m[k] by {
        if k == e.0 {
            lemma_assoc_value(t, s.len() as int);
        } else {
            let i = choose|i: int| 0 <= i < s.len() && s[i].0 == k;
            lemma_assoc_value(s, i);
            assert(t[i].0 == k);
            lemma_assoc_value(t, i);
        }
    }
    assert(assoc_view(t) =~= m);
}

/// Removing the entry at an index removes its key from the map.
pub proof fn lemma_assoc_remove<K, V>(s: Seq<(K, V)>, i: int)
    requires
        assoc_wf(s),
        0 <= i < s.len(),
    ensures
        assoc_wf(s.remove(i)),
        assoc_view(s.remove(i)) == assoc_view(s).remove(s[i].0),
{
    let t = s.remove(i);
    let k0 = s[i].0;
    assert forall|a: int, b: int| 0 <= a < b < t.len() implies t[a].0 != t[b].0 by {
        let a0 = if a < i { a } else { a + 1 };
        let b0 = if b < i { b } else { b + 1 };
        assert(t[a] == s[a0] && t[b] == s[b0]);
    }
    let m = assoc_view(s).remove(k0);
    assert forall|k: K| assoc_view(t).contains_key(k) implies m.contains_key(k) by {
        let j = choose|j: int| 0 <= j < t.len() && t[j].0 == k;
        let j0 = if j < i { j } else { j + 1 };
        assert(t[j] == s[j0]);
        assert(s[j0].0 == k);
        if j0 < i {
            assert(s[j0].0 != s[i].0);
        } else {
            assert(s[i].0 != s[j0].0);
        }
    }
    assert forall|k: K| m.contains_key(k) implies assoc_view(t).contains_key(k) by {
        let j = choose|j: int| 0 <= j < s.len() && s[j].0 == k;
        if j < i {
            assert(t[j].0 == k);
        } else {
            assert(j != i);
            assert(t[j - 1] == s[j]);
            assert(t[j - 1].0 == k);
        }
    }
    assert forall|k: K| #[trigger] assoc_view(t).contains_key(k) implies assoc_view(t)[k] == m[k] by {
        let j = choose|j: int| 0 <= j < t.len() && t[j].0 == k;
        let j0 = if j < i { j } else { j + 1 };
        assert(t[j] == s[j0]);
        lemma_assoc_value(t, j);
        lemma_assoc_value(s, j0);
    }
    assert(assoc_view(t) =~= m);
}

/// Replacing the entry holding a key (remove it, append the new pair)
/// updates the map at that key.
pub proof fn lemma_assoc_upsert<K, V>(s: Seq<(K, V)>, i: int, e: (K, V))
    requires
        assoc_wf(s),
        0 <= i < s.len(),
        s[i].0 == e.0,
    ensures
        assoc_wf(s.remove(i).push(e)),
        assoc_view(s.remove(i).push(e)) == assoc_view(s).insert(e.0, e.1),
{
    lemma_assoc_remove(s, i);
    let t = s.remove(i);
    assert forall|j: int| 0 <= j < t.len() implies t[j].0 != e.0 by {
        let j0 = if j < i { j } else { j + 1 };
        assert(t[j] == s[j0]);
        if j0 < i {
            assert(s[j0].0 != s[i].0);
        } else {
            assert(s[i].0 != s[j0].0);
        }
    }
    lemma_assoc_push_new(t, e);
    assert(assoc_view(s).remove(e.0).insert(e.0, e.1) =~= assoc_view(s).insert(e.0, e.1));
}

} // verus!
