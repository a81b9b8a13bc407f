use vstd::prelude::*;

verus! {

/// The map an association list denotes; later entries shadow earlier
/// ones, though the stores keep their keys unique.
pub open spec fn pairs_map<V>(s: Seq<(Seq<u8>, V)>) -> Map<Seq<u8>, V>
    decreases s.len(),
{
    if s.len() == 0 {
        Map::empty()
    } else {
        pairs_map(s.drop_last()).insert(s.last().0, s.last().1)
    }
}

/// The keys of an association list, in order.
pub open spec fn keys_of<V>(s: Seq<(Seq<u8>, V)>) -> Seq<Seq<u8>> {
    s.map_values(|p: (Seq<u8>, V)| p.0)
}

/// No two entries share a key.
pub open spec fn unique_keys<V>(s: Seq<(Seq<u8>, V)>) -> bool {
    forall|i: int, j: int| 0 <= i < j < s.len() ==> s[i].0 != s[j].0
}

/// A key is in the denoted map exactly when some entry holds it.
pub proof fn lemma_pairs_map_dom<V>(s: Seq<(Seq<u8>, V)>)
    ensures
        forall|k: Seq<u8>|
            #[trigger] pairs_map(s).dom().contains(k) <==> (exists|i: int|
                0 <= i < s.len() && #[trigger] s[i].0 == k),
    decreases s.len(),
{
    if s.len() == 0 {
    } else {
        lemma_pairs_map_dom(s.drop_last());
        assert(pairs_map(s) == pairs_map(s.drop_last()).insert(s.last().0, s.last().1));
        assert forall|k: Seq<u8>| #[trigger] pairs_map(s).dom().contains(k) implies (exists|i: int|
            0 <= i < s.len() && #[trigger] s[i].0 == k) by {
            if k == s.last().0 {
                assert(s[s.len() - 1].0 == k);
            } else {
                assert(pairs_map(s.drop_last()).dom().contains(k));
                let i = choose|i: int| 0 <= i < s.drop_last().len() && #[trigger] s.drop_last()[i].0
                    == k;
                assert(s[i].0 == k);
            }
        }
        assert forall|k: Seq<u8>| (exists|i: int| 0 <= i < s.len() && #[trigger] s[i].0 == k)
            implies #[trigger] pairs_map(s).dom().contains(k) by {
            let i = choose|i: int| 0 <= i < s.len() && #[trigger] s[i].0 == k;
            if i == s.len() - 1 {
                assert(s.last().0 == k);
            } else {
                assert(s.drop_last()[i].0 == k);
                assert(pairs_map(s.drop_last()).dom().contains(k));
            }
        }
    }
}

/// Looking an entry's key up in the denoted map gives that entry's value.
pub proof fn lemma_pairs_map_get<V>(s: Seq<(Seq<u8>, V)>, i: int)
    requires
        unique_keys(s),
        0 <= i < s.len(),
    ensures
        pairs_map(s).dom().contains(s[i].0),
        pairs_map(s)[s[i].0] == s[i].1,
    decreases s.len(),
{
    if i == s.len() - 1 {
    } else {
        assert(s.drop_last()[i] == s[i]);
        lemma_pairs_map_get(s.drop_last(), i);
        assert(s.last().0 != s[i].0);
    }
}

/// Replacing the value of the entry at `i` updates the denoted map at
/// that entry's key and keeps the keys unique.
pub proof fn lemma_pairs_map_update<V>(s: Seq<(Seq<u8>, V)>, i: int, v: V)
    requires
        unique_keys(s),
        0 <= i < s.len(),
    ensures
        pairs_map(s.update(i, (s[i].0, v))) == pairs_map(s).insert(s[i].0, v),
        unique_keys(s.update(i, (s[i].0, v))),
    decreases s.len(),
{
    let t = s.update(i, (s[i].0, v));
    assert(forall|j: int| 0 <= j < s.len() && j != i ==> t[j] == s[j]);
    assert(t[i] == (s[i].0, v));
    assert(unique_keys(t));
    if i == s.len() - 1 {
        assert(t.drop_last() =~= s.drop_last());
        assert(t.last() == (s[i].0, v));
        assert(pairs_map(t) == pairs_map(s.drop_last()).insert(s[i].0, v));
        assert(pairs_map(s.drop_last()).insert(s[i].0, v) =~= pairs_map(s).insert(s[i].0, v));
    } else {
        assert(t.drop_last() =~= s.drop_last().update(i, (s[i].0, v)));
        assert(s.drop_last()[i] == s[i]);
        lemma_pairs_map_update(s.drop_last(), i, v);
        assert(t.last() == s.last());
        assert(pairs_map(t) == pairs_map(s.drop_last()).insert(s[i].0, v).insert(
            s.last().0,
            s.last().1,
        ));
        assert(s.last().0 != s[i].0);
        assert(pairs_map(s.drop_last()).insert(s[i].0, v).insert(s.last().0, s.last().1) =~= pairs_map(
            s,
        ).insert(s[i].0, v));
    }
}

/// Appending an entry with a fresh key inserts it into the denoted map
/// and keeps the keys unique.
pub proof fn lemma_pairs_map_push_fresh<V>(s: Seq<(Seq<u8>, V)>, k: Seq<u8>, v: V)
    requires
        unique_keys(s),
        forall|i: int| 0 <= i < s.len() ==> #[trigger] s[i].0 != k,
    ensures
        pairs_map(s.push((k, v))) == pairs_map(s).insert(k, v),
        unique_keys(s.push((k, v))),
{
    let t = s.push((k, v));
    assert(t.drop_last() =~= s);
    assert(t.last() == (k, v));
    assert(forall|i: int| 0 <= i < s.len() ==> t[i] == s[i]);
    assert(unique_keys(t));
}

/// With unique keys the denoted map is finite and has one entry per
/// element of the list.
pub proof fn lemma_pairs_map_len<V>(s: Seq<(Seq<u8>, V)>)
    requires
        unique_keys(s),
    ensures
        pairs_map(s).dom().finite(),
        pairs_map(s).dom().len() == s.len(),
    decreases s.len(),
{
    if s.len() == 0 {
        assert(pairs_map(s).dom() =~= Set::<Seq<u8>>::empty());
    } else {
        assert(forall|i: int|
            0 <= i < s.drop_last().len() ==> #[trigger] s.drop_last()[i] == s[i]);
        lemma_pairs_map_len(s.drop_last());
        lemma_pairs_map_dom(s.drop_last());
        assert(!pairs_map(s.drop_last()).dom().contains(s.last().0)) by {
            if pairs_map(s.drop_last()).dom().contains(s.last().0) {
                let i = choose|i: int|
                    0 <= i < s.drop_last().len() && #[trigger] s.drop_last()[i].0 == s.last().0;
                assert(s[i].0 == s[s.len() - 1].0);
            }
        }
    }
}

} // verus!
