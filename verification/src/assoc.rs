//! Association lists keyed by `String`, read in specifications as finite
//! maps. Both parameter containers of this crate store their entries as a
//! vector of key/value pairs with pairwise-distinct keys; the spec functions
//! and lemmas here connect that representation to `Map`.

use vstd::prelude::*;

verus! {

/// The map described by a sequence of key/value entries: each entry sends
/// the character sequence of its key to the deep view of its value. A later
/// entry for a key shadows an earlier one; the containers in this crate keep
/// their keys distinct, so no shadowing ever happens in them.
pub open spec fn assoc_map<V: DeepView>(s: Seq<(String, V)>) -> Map<Seq<char>, V::V>
    decreases s.len(),
{
    if s.len() == 0 {
        Map::empty()
    } else {
        assoc_map(s.drop_last()).insert(s.last().0@, s.last().1.deep_view())
    }
}

/// No two entries of the list carry the same key.
pub open spec fn distinct_keys<V>(s: Seq<(String, V)>) -> bool {
    forall|i: int, j: int| 0 <= i < j < s.len() ==> s[i].0@ != s[j].0@
}

/// A key lies in the map exactly when some entry of the list carries it.
pub proof fn lemma_assoc_map_dom<V: DeepView>(s: Seq<(String, V)>, k: Seq<char>)
    ensures
        assoc_map(s).contains_key(k) <==> exists|i: int| 0 <= i < s.len() && s[i].0@ == k,
    decreases s.len(),
{
    if s.len() == 0 {
    } else {
        let prefix = s.drop_last();
        lemma_assoc_map_dom(prefix, k);
        assert(forall|i: int| 0 <= i < prefix.len() ==> prefix[i] == s[i]);
        if s.last().0@ == k {
            assert(s[s.len() - 1].0@ == k);
        } else if assoc_map(prefix).contains_key(k) {
            let i = choose|i: int| 0 <= i < prefix.len() && prefix[i].0@ == k;
            assert(s[i].0@ == k);
        } else {
            assert(forall|i: int|
                0 <= i < s.len() && s[i].0@ == k ==> 0 <= i < prefix.len() && prefix[i].0@
                    == k);
        }
    }
}

/// With distinct keys, the map sends each entry's key to that entry's value.
pub proof fn lemma_assoc_map_index<V: DeepView>(s: Seq<(String, V)>, i: int)
    requires
        distinct_keys(s),
        0 <= i < s.len(),
    ensures
        assoc_map(s).contains_key(s[i].0@),
        assoc_map(s)[s[i].0@] == s[i].1.deep_view(),
    decreases s.len(),
{
    let prefix = s.drop_last();
    assert(forall|j: int| 0 <= j < prefix.len() ==> prefix[j] == s[j]);
    if i < s.len() - 1 {
        assert(s[i].0@ != s.last().0@);
        lemma_assoc_map_index(prefix, i);
    }
}

/// With distinct keys, the map is finite and holds one entry per list element.
pub proof fn lemma_assoc_map_len<V: DeepView>(s: Seq<(String, V)>)
    requires
        distinct_keys(s),
    ensures
        assoc_map(s).dom().finite(),
        assoc_map(s).dom().len() == s.len(),
    decreases s.len(),
{
    if s.len() == 0 {
        assert(assoc_map(s).dom() =~= Set::<Seq<char>>::empty());
    } else {
        let prefix = s.drop_last();
        assert(forall|j: int| 0 <= j < prefix.len() ==> prefix[j] == s[j]);
        lemma_assoc_map_len(prefix);
        lemma_assoc_map_dom(prefix, s.last().0@);
        assert(!assoc_map(prefix).contains_key(s.last().0@));
        assert(assoc_map(s).dom() =~= assoc_map(prefix).dom().insert(s.last().0@));
    }
}

/// Appending an entry adds exactly that entry's binding to the map.
pub proof fn lemma_assoc_map_push<V: DeepView>(s: Seq<(String, V)>, e: (String, V))
    ensures
        assoc_map(s.push(e)) == assoc_map(s).insert(e.0@, e.1.deep_view()),
{
    assert(s.push(e).drop_last() =~= s);
    assert(s.push(e).last() == e);
}

/// Replacing the value of entry `i`, keeping its key, updates the map at
/// that key and leaves every other binding alone.
pub proof fn lemma_assoc_map_update<V: DeepView>(s: Seq<(String, V)>, i: int, e: (String, V))
    requires
        distinct_keys(s),
        0 <= i < s.len(),
        e.0@ == s[i].0@,
    ensures
        assoc_map(s.update(i, e)) == assoc_map(s).insert(s[i].0@, e.1.deep_view()),
    decreases s.len(),
{
    let t = s.update(i, e);
    let prefix = s.drop_last();
    assert(forall|j: int| 0 <= j < prefix.len() ==> prefix[j] == s[j]);
    if i == s.len() - 1 {
        assert(t.drop_last() =~= prefix);
        assert(t.last() == e);
        assert(assoc_map(prefix).insert(s.last().0@, s.last().1.deep_view()).insert(
            s[i].0@,
            e.1.deep_view(),
        ) =~= assoc_map(prefix).insert(e.0@, e.1.deep_view()));
    } else {
        assert(t.drop_last() =~= prefix.update(i, e));
        assert(t.last() == s.last());
        lemma_assoc_map_update(prefix, i, e);
        assert(s[i].0@ != s.last().0@);
        assert(assoc_map(prefix).insert(s[i].0@, e.1.deep_view()).insert(
            s.last().0@,
            s.last().1.deep_view(),
        ) =~= assoc_map(prefix).insert(s.last().0@, s.last().1.deep_view()).insert(
            s[i].0@,
            e.1.deep_view(),
        ));
    }
}

} // verus!
