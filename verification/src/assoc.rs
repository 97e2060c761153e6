//! A sequence of keys beside a sequence of values, read as a map.
//!
//! The tables of this crate are vectors of rows in which no key occurs twice.
//! Their contracts speak of maps; the lemmas here carry a change to the rows
//! over to the map.

use vstd::prelude::*;

verus! {

/// The map that sends each key to the value at the key's position.
pub open spec fn assoc<K, V>(keys: Seq<K>, vals: Seq<V>) -> Map<K, V> {
    Map::new(|k: K| keys.contains(k), |k: K| vals[keys.index_of(k)])
}

/// The key at position `i` is mapped to the value at position `i`.
pub proof fn lemma_assoc_at<K, V>(keys: Seq<K>, vals: Seq<V>, i: int)
    requires
        keys.no_duplicates(),
        0 <= i < keys.len(),
    ensures
        keys.contains(keys[i]),
        keys.index_of(keys[i]) == i,
        assoc(keys, vals).contains_key(keys[i]),
        assoc(keys, vals)[keys[i]] == vals[i],
{
    assert(keys.contains(keys[i]));
    let j = keys.index_of(keys[i]);
    assert(0 <= j < keys.len() && keys[j] == keys[i]);
}

/// A new key put in at position `i` is an insertion into the map.
pub proof fn lemma_assoc_insert<K, V>(keys: Seq<K>, vals: Seq<V>, i: int, k: K, v: V)
    requires
        keys.no_duplicates(),
        keys.len() == vals.len(),
        !keys.contains(k),
        0 <= i <= keys.len(),
    ensures
        keys.insert(i, k).no_duplicates(),
        assoc(keys.insert(i, k), vals.insert(i, v)) == assoc(keys, vals).insert(k, v),
{
    let keys2 = keys.insert(i, k);
    let vals2 = vals.insert(i, v);
    assert forall|p: int, q: int| 0 <= p < keys2.len() && 0 <= q < keys2.len() && p != q implies keys2[p]
        != keys2[q] by {
        let p0 = if p < i { p } else { p - 1 };
        let q0 = if q < i { q } else { q - 1 };
        if p == i {
            assert(keys2[q] == keys[q0]);
        } else if q == i {
            assert(keys2[p] == keys[p0]);
        } else {
            assert(keys2[p] == keys[p0]);
            assert(keys2[q] == keys[q0]);
        }
    }
    let m1 = assoc(keys2, vals2);
    let m2 = assoc(keys, vals).insert(k, v);
    assert forall|x: K| m1.contains_key(x) <==> m2.contains_key(x) by {
        if keys2.contains(x) {
            let p = keys2.index_of(x);
            if p != i {
                let p0 = if p < i { p } else { p - 1 };
                assert(keys[p0] == x);
            } else {
                assert(keys2[i] == k);
            }
        }
        if keys.contains(x) {
            let p0 = keys.index_of(x);
            let p = if p0 < i { p0 } else { p0 + 1 };
            assert(keys2[p] == x);
        }
        if x == k {
            assert(keys2[i] == x);
        }
    }
    assert forall|x: K| m1.contains_key(x) implies m1[x] == m2[x] by {
        let p = keys2.index_of(x);
        lemma_assoc_at(keys2, vals2, p);
        if p == i {
            assert(keys2[i] == k);
        } else {
            let p0 = if p < i { p } else { p - 1 };
            assert(keys[p0] == x);
            lemma_assoc_at(keys, vals, p0);
        }
    }
    assert(m1 =~= m2);
}

/// A new value at position `i` is an insertion under the key that stands there.
pub proof fn lemma_assoc_update<K, V>(keys: Seq<K>, vals: Seq<V>, i: int, v: V)
    requires
        keys.no_duplicates(),
        keys.len() == vals.len(),
        0 <= i < keys.len(),
    ensures
        assoc(keys, vals.update(i, v)) == assoc(keys, vals).insert(keys[i], v),
{
    let m1 = assoc(keys, vals.update(i, v));
    let m2 = assoc(keys, vals).insert(keys[i], v);
    lemma_assoc_at(keys, vals, i);
    assert forall|x: K| m1.contains_key(x) implies m1[x] == m2[x] by {
        let p = keys.index_of(x);
        lemma_assoc_at(keys, vals, p);
        lemma_assoc_at(keys, vals.update(i, v), p);
    }
    assert(m1 =~= m2);
}

/// Taking out position `i` removes the key that stood there from the map.
pub proof fn lemma_assoc_remove<K, V>(keys: Seq<K>, vals: Seq<V>, i: int)
    requires
        keys.no_duplicates(),
        keys.len() == vals.len(),
        0 <= i < keys.len(),
    ensures
        keys.remove(i).no_duplicates(),
        !keys.remove(i).contains(keys[i]),
        assoc(keys.remove(i), vals.remove(i)) == assoc(keys, vals).remove(keys[i]),
{
    let keys2 = keys.remove(i);
    let vals2 = vals.remove(i);
    assert forall|p: int, q: int| 0 <= p < keys2.len() && 0 <= q < keys2.len() && p != q implies keys2[p]
        != keys2[q] by {
        let p0 = if p < i { p } else { p + 1 };
        let q0 = if q < i { q } else { q + 1 };
        assert(keys2[p] == keys[p0]);
        assert(keys2[q] == keys[q0]);
    }
    if keys2.contains(keys[i]) {
        let p = keys2.index_of(keys[i]);
        let p0 = if p < i { p } else { p + 1 };
        assert(keys2[p] == keys[p0]);
    }
    let m1 = assoc(keys2, vals2);
    let m2 = assoc(keys, vals).remove(keys[i]);
    assert forall|x: K| m1.contains_key(x) <==> m2.contains_key(x) by {
        if keys2.contains(x) {
            let p = keys2.index_of(x);
            let p0 = if p < i { p } else { p + 1 };
            assert(keys2[p] == keys[p0]);
        }
        if keys.contains(x) && x != keys[i] {
            let p0 = keys.index_of(x);
            let p = if p0 < i { p0 } else { p0 - 1 };
            assert(keys2[p] == x);
        }
    }
    assert forall|x: K| m1.contains_key(x) implies m1[x] == m2[x] by {
        let p = keys2.index_of(x);
        lemma_assoc_at(keys2, vals2, p);
        let p0 = if p < i { p } else { p + 1 };
        assert(keys2[p] == keys[p0]);
        lemma_assoc_at(keys, vals, p0);
    }
    assert(m1 =~= m2);
}

} // verus!
