//! Ghost view of a sequence of (key, value) pairs as a finite map.
//!
//! Both the persistent map and the in-memory store hold their entries as a
//! vector of pairs; these helpers interpret such a vector as a `Map` and
//! relate the vector operations to the map operations.

use vstd::prelude::*;

verus! {

/// The map described by a sequence of pairs; a later entry wins over an
/// earlier one with the same key.
pub open spec fn map_of<A, B>(s: Seq<(A, B)>) -> Map<A, B>
    decreases s.len(),
{
    if s.len() == 0 {
        Map::empty()
    } else {
        map_of(s.drop_last()).insert(s.last().0, s.last().1)
    }
}

/// No two entries of the sequence share a key.
pub open spec fn unique_keys<A, B>(s: Seq<(A, B)>) -> bool {
    forall|i: int, j: int| 0 <= i < j < s.len() ==> s[i].0 != s[j].0
}

/// A key is in the map exactly when some entry holds it.
pub proof fn lemma_map_of_contains<A, B>(s: Seq<(A, B)>, a: A)
    ensures
        map_of(s).contains_key(a) <==> (exists|i: int| 0 <= i < s.len() && s[i].0 == a),
    decreases s.len(),
{
    if s.len() > 0 {
        lemma_map_of_contains(s.drop_last(), a);
        if s.last().0 == a {
            assert(s[s.len() - 1].0 == a);
        } else if map_of(s).contains_key(a) {
            let i = choose|i: int| 0 <= i < s.drop_last().len() && s.drop_last()[i].0 == a;
            assert(s[i].0 == a);
        } else if exists|i: int| 0 <= i < s.len() && s[i].0 == a {
            let i = choose|i: int| 0 <= i < s.len() && s[i].0 == a;
            assert(s.drop_last()[i].0 == a);
        }
    }
}

/// With unique keys, the entry at an index gives the map's value at its key.
pub proof fn lemma_map_of_index<A, B>(s: Seq<(A, B)>, i: int)
    requires
        unique_keys(s),
        0 <= i < s.len(),
    ensures
        map_of(s).contains_key(s[i].0),
        map_of(s)[s[i].0] == s[i].1,
    decreases s.len(),
{
    if i < s.len() - 1 {
        assert(unique_keys(s.drop_last())) by {
            assert(forall|p: int, q: int|
                0 <= p < q < s.drop_last().len() ==> s.drop_last()[p] == s[p] && s.drop_last()[q]
                    == s[q]);
        }
        lemma_map_of_index(s.drop_last(), i);
        assert(s.drop_last()[i] == s[i]);
        assert(s.last().0 != s[i].0);
    }
}

/// With unique keys, the map has exactly one entry per pair.
pub proof fn lemma_map_of_len<A, B>(s: Seq<(A, B)>)
    requires
        unique_keys(s),
    ensures
        map_of(s).dom().finite(),
        map_of(s).dom().len() == s.len(),
    decreases s.len(),
{
    if s.len() == 0 {
        assert(map_of(s).dom() =~= Set::<A>::empty());
    } else {
        let d = s.drop_last();
        assert(unique_keys(d)) by {
            assert(forall|p: int, q: int| 0 <= p < q < d.len() ==> d[p] == s[p] && d[q] == s[q]);
        }
        lemma_map_of_len(d);
        lemma_map_of_contains(d, s.last().0);
        assert(forall|i: int| 0 <= i < d.len() ==> d[i] == s[i]);
        assert(!map_of(d).contains_key(s.last().0));
        assert(map_of(s).dom() =~= map_of(d).dom().insert(s.last().0));
    }
}

/// Removing the entry at an index removes exactly its key from the map.
pub proof fn lemma_map_of_remove<A, B>(s: Seq<(A, B)>, i: int)
    requires
        unique_keys(s),
        0 <= i < s.len(),
    ensures
        unique_keys(s.remove(i)),
        map_of(s.remove(i)) == map_of(s).remove(s[i].0),
    decreases s.len(),
{
    assert(unique_keys(s.remove(i))) by {
        assert(forall|p: int, q: int|
            0 <= p < q < s.remove(i).len() ==> s.remove(i)[p] == (if p < i {
                s[p]
            } else {
                s[p + 1]
            }) && s.remove(i)[q] == (if q < i {
                s[q]
            } else {
                s[q + 1]
            }));
    }
    if i == s.len() - 1 {
        let d = s.drop_last();
        assert(unique_keys(d)) by {
            assert(forall|p: int, q: int| 0 <= p < q < d.len() ==> d[p] == s[p] && d[q] == s[q]);
        }
        lemma_map_of_contains(d, s.last().0);
        assert(forall|j: int| 0 <= j < d.len() ==> d[j] == s[j]);
        assert(!map_of(d).contains_key(s.last().0));
        assert(s.remove(i) =~= d);
        assert(map_of(s.remove(i)) =~= map_of(s).remove(s[i].0));
    } else {
        let d = s.drop_last();
        assert(unique_keys(d)) by {
            assert(forall|p: int, q: int| 0 <= p < q < d.len() ==> d[p] == s[p] && d[q] == s[q]);
        }
        lemma_map_of_remove(d, i);
        assert(d[i] == s[i]);
        assert(s.remove(i).drop_last() =~= d.remove(i));
        assert(s.remove(i).last() == s.last());
        assert(s.remove(i).len() > 0);
        assert(map_of(s.remove(i)) == map_of(d.remove(i)).insert(s.last().0, s.last().1));
        assert(s.last().0 != s[i].0);
        assert(map_of(d.remove(i)).insert(s.last().0, s.last().1) =~= map_of(d).insert(
            s.last().0,
            s.last().1,
        ).remove(s[i].0).insert(s.last().0, s.last().1)) by {
            assert(map_of(d.remove(i)) == map_of(d).remove(s[i].0));
        }
        assert(map_of(s.remove(i)) =~= map_of(s).remove(s[i].0));
    }
}

/// Replacing the value at an index replaces exactly its key's value in the
/// map.
pub proof fn lemma_map_of_update<A, B>(s: Seq<(A, B)>, i: int, b: B)
    requires
        unique_keys(s),
        0 <= i < s.len(),
    ensures
        unique_keys(s.update(i, (s[i].0, b))),
        map_of(s.update(i, (s[i].0, b))) == map_of(s).insert(s[i].0, b),
    decreases s.len(),
{
    let u = s.update(i, (s[i].0, b));
    assert(unique_keys(u)) by {
        assert(forall|p: int| 0 <= p < u.len() ==> u[p].0 == s[p].0);
    }
    if i == s.len() - 1 {
        assert(u.drop_last() =~= s.drop_last());
        assert(u.last() == (s[i].0, b));
        assert(map_of(u) =~= map_of(s).insert(s[i].0, b));
    } else {
        let d = s.drop_last();
        assert(unique_keys(d)) by {
            assert(forall|p: int, q: int| 0 <= p < q < d.len() ==> d[p] == s[p] && d[q] == s[q]);
        }
        lemma_map_of_update(d, i, b);
        assert(d[i] == s[i]);
        assert(u.drop_last() =~= d.update(i, (s[i].0, b)));
        assert(u.last() == s.last());
        assert(s.last().0 != s[i].0);
        assert(map_of(u) == map_of(d).insert(s[i].0, b).insert(s.last().0, s.last().1));
        assert(map_of(u) =~= map_of(s).insert(s[i].0, b));
    }
}

/// With unique keys, the map can also be unfolded from the front.
pub proof fn lemma_map_of_first<A, B>(s: Seq<(A, B)>)
    requires
        unique_keys(s),
        s.len() > 0,
    ensures
        map_of(s) == map_of(s.drop_first()).insert(s[0].0, s[0].1),
        unique_keys(s.drop_first()),
        !map_of(s.drop_first()).contains_key(s[0].0),
    decreases s.len(),
{
    let t = s.drop_first();
    assert(unique_keys(t)) by {
        assert(forall|p: int, q: int| 0 <= p < q < t.len() ==> t[p] == s[p + 1] && t[q] == s[q + 1]);
    }
    lemma_map_of_contains(t, s[0].0);
    assert(forall|j: int| 0 <= j < t.len() ==> t[j] == s[j + 1]);
    assert(!map_of(t).contains_key(s[0].0));
    if s.len() == 1 {
        assert(s.drop_last() =~= t);
        assert(s.last() == s[0]);
    } else {
        let d = s.drop_last();
        assert(unique_keys(d)) by {
            assert(forall|p: int, q: int| 0 <= p < q < d.len() ==> d[p] == s[p] && d[q] == s[q]);
        }
        assert(d.len() > 0);
        lemma_map_of_first(d);
        assert(d[0] == s[0]);
        assert(d.drop_first() =~= t.drop_last());
        assert(t.len() > 0);
        assert(map_of(t) == map_of(t.drop_last()).insert(t.last().0, t.last().1));
        assert(t.last() == s.last());
        assert(map_of(s) == map_of(d).insert(s.last().0, s.last().1));
        assert(map_of(d) == map_of(t.drop_last()).insert(s[0].0, s[0].1));
        assert(s.last().0 != s[0].0);
        assert(map_of(t.drop_last()).insert(s[0].0, s[0].1).insert(s.last().0, s.last().1)
            =~= map_of(t.drop_last()).insert(s.last().0, s.last().1).insert(s[0].0, s[0].1));
        assert(map_of(s) =~= map_of(t).insert(s[0].0, s[0].1));
    }
}

} // verus!
