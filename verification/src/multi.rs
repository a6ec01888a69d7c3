//! The multi-valued parameter map: the in-memory model of a request's
//! query-string parameters as the newer protocol version carries them. Each
//! parameter name maps to the ordered, non-empty list of the values it was
//! given, so a repeated parameter loses nothing. Downgrading to the older,
//! single-valued wire shape keeps the first value of every key.

use crate::assoc::{assoc_map, distinct_keys, lemma_assoc_map_dom, lemma_assoc_map_index,
    lemma_assoc_map_len, lemma_assoc_map_push, lemma_assoc_map_update};
use crate::wire::{downgraded, WireMap};
use vstd::prelude::*;

verus! {

/// A map from parameter names to the ordered list of their values. Keys are
/// unique, every key holds at least one value, and the values of a key keep
/// the order in which they were added.
pub struct QueryMap {
    entries: Vec<(String, Vec<String>)>,
}

impl QueryMap {
    #[verifier::type_invariant]
    spec fn wf(self) -> bool {
        &&& distinct_keys(self.entries@)
        &&& forall|i: int| 0 <= i < self.entries@.len() ==> self.entries@[i].1@.len() >= 1
    }
}

impl View for QueryMap {
    type V = Map<Seq<char>, Seq<Seq<char>>>;

    closed spec fn view(&self) -> Map<Seq<char>, Seq<Seq<char>>> {
        assoc_map(self.entries@)
    }
}

impl QueryMap {
    /// A map with no parameters; a missing field deserializes to this.
    pub fn new() -> (r: Self)
        ensures
            r@ == Map::<Seq<char>, Seq<Seq<char>>>::empty(),
    {
        QueryMap { entries: Vec::new() }
    }

    /// Adds one value for `key`: appended after the values the key already
    /// holds, or opening the key with a single value. The values of other
    /// keys are untouched.
    pub fn add_value(&mut self, key: &str, value: String)
        ensures
            old(self)@.contains_key(key@) ==> final(self)@ == old(self)@.insert(
                key@,
                old(self)@[key@].push(value@),
            ),
            !old(self)@.contains_key(key@) ==> final(self)@ == old(self)@.insert(
                key@,
                seq![value@],
            ),
    {
        proof {
            use_type_invariant(&*self);
        }
        let owned: String = key.to_owned();
        let ghost pre = self.entries@;
        let mut entries: Vec<(String, Vec<String>)> = Vec::new();
        std::mem::swap(&mut entries, &mut self.entries);
        let n = entries.len();
        let mut idx: usize = n;
        let mut i: usize = 0;
        while i < n
            invariant
                i <= n,
                n == entries@.len(),
                entries@ == pre,
                owned@ == key@,
                idx == n || (idx < i && entries@[idx as int].0@ == key@),
                idx == n ==> forall|j: int| 0 <= j < i ==> entries@[j].0@ != key@,
            decreases n - i,
        {
            if idx == n && entries[i].0 == owned {
                idx = i;
            }
            i = i + 1;
        }
        if idx < n {
            proof {
                lemma_assoc_map_index(pre, idx as int);
            }
            let slot = &mut entries[idx];
            slot.1.push(value);
            proof {
                lemma_assoc_map_update(pre, idx as int, entries@[idx as int]);
                assert(entries@[idx as int].1.deep_view() =~= pre[idx as int].1.deep_view().push(
                    entries@[idx as int].1@.last()@,
                ));
            }
        } else {
            proof {
                lemma_assoc_map_dom(pre, key@);
            }
            let mut vs: Vec<String> = Vec::new();
            vs.push(value);
            entries.push((owned, vs));
            proof {
                lemma_assoc_map_push(pre, entries@.last());
                assert(entries@ =~= pre.push(entries@.last()));
                assert(entries@.last().1.deep_view() =~= seq![entries@.last().1@.last()@]);
            }
        }
        self.entries = entries;
    }

    /// All values of `key`, in order, or `None` where the map has no such
    /// key. A present key always holds at least one value.
    pub fn all(&self, key: &str) -> (r: Option<&Vec<String>>)
        ensures
            r is Some <==> self@.contains_key(key@),
            (r matches Some(vs) ==> vs.deep_view() == self@[key@] && vs@.len() >= 1),
    {
        proof {
            use_type_invariant(&*self);
        }
        let owned: String = key.to_owned();
        let n = self.entries.len();
        let mut i: usize = 0;
        while i < n
            invariant
                i <= n,
                n == self.entries@.len(),
                owned@ == key@,
                distinct_keys(self.entries@),
                forall|j: int| 0 <= j < self.entries@.len() ==> self.entries@[j].1@.len() >= 1,
                forall|j: int| 0 <= j < i ==> self.entries@[j].0@ != key@,
            decreases n - i,
        {
            if self.entries[i].0 == owned {
                proof {
                    lemma_assoc_map_index(self.entries@, i as int);
                }
                return Some(&self.entries[i].1);
            }
            i = i + 1;
        }
        proof {
            lemma_assoc_map_dom(self.entries@, key@);
        }
        None
    }

    /// The first value of `key` — the one a downgrade keeps — or `None`
    /// where the map has no such key.
    pub fn first(&self, key: &str) -> (r: Option<&String>)
        ensures
            r is Some <==> self@.contains_key(key@),
            (r matches Some(v) ==> v@ == self@[key@].first()),
    {
        match self.all(key) {
            Some(vs) => Some(&vs[0]),
            None => None,
        }
    }

    /// How many parameter names the map holds.
    pub fn len(&self) -> (n: usize)
        ensures
            n == self@.dom().len(),
    {
        proof {
            use_type_invariant(&*self);
            lemma_assoc_map_len(self.entries@);
        }
        self.entries.len()
    }

    /// Every parameter name the map holds, one entry per key: no name
    /// appears twice, and no key of the map is left out.
    pub fn keys(&self) -> (r: Vec<String>)
        ensures
            r@.len() == self@.dom().len(),
            forall|i: int| 0 <= i < r@.len() ==> self@.contains_key(#[trigger] r@[i]@),
            forall|i: int, j: int| 0 <= i < j < r@.len() ==> r@[i]@ != r@[j]@,
            forall|k: Seq<char>|
                self@.contains_key(k) ==> exists|i: int| 0 <= i < r@.len() && r@[i]@ == k,
    {
        proof {
            use_type_invariant(&*self);
            lemma_assoc_map_len(self.entries@);
        }
        let n = self.entries.len();
        let mut r: Vec<String> = Vec::new();
        let mut i: usize = 0;
        while i < n
            invariant
                i <= n,
                n == self.entries@.len(),
                r@.len() == i,
                forall|j: int| 0 <= j < i ==> #[trigger] r@[j]@ == self.entries@[j].0@,
            decreases n - i,
        {
            r.push(self.entries[i].0.clone());
            i = i + 1;
        }
        proof {
            assert forall|i: int| 0 <= i < r@.len() implies self@.contains_key(
                #[trigger] r@[i]@,
            ) by {
                lemma_assoc_map_index(self.entries@, i);
            }
            assert forall|k: Seq<char>| self@.contains_key(k) implies exists|i: int|
                0 <= i < r@.len() && r@[i]@ == k by {
                lemma_assoc_map_dom(self.entries@, k);
                let i = choose|i: int|
                    0 <= i < self.entries@.len() && self.entries@[i].0@ == k;
                assert(r@[i]@ == k);
            }
        }
        r
    }

    /// Projects the map down to the single-valued wire shape: the key set is
    /// kept exactly — nothing added, nothing dropped — and every key is sent
    /// to the first of its values. Values after the first are left out of
    /// this projection by design; the source map itself is not touched.
    pub fn downgrade(&self) -> (r: WireMap)
        ensures
            r@.dom() == self@.dom(),
            forall|k: Seq<char>| self@.contains_key(k) ==> r@[k] == self@[k].first(),
            r@ == downgraded(self@),
    {
        proof {
            use_type_invariant(&*self);
        }
        let mut w = WireMap::new();
        let n = self.entries.len();
        let mut i: usize = 0;
        while i < n
            invariant
                i <= n,
                n == self.entries@.len(),
                distinct_keys(self.entries@),
                forall|j: int| 0 <= j < self.entries@.len() ==> self.entries@[j].1@.len() >= 1,
                w@ == downgraded(assoc_map(self.entries@.take(i as int))),
            decreases n - i,
        {
            let ghost prefix = self.entries@.take(i as int);
            let entry = &self.entries[i];
            let k = entry.0.clone();
            let v = entry.1[0].clone();
            proof {
                assert(forall|j: int| 0 <= j < i ==> prefix[j] == self.entries@[j]);
                lemma_assoc_map_dom(prefix, k@);
                assert(!w@.contains_key(k@));
            }
            w.insert(k, v);
            proof {
                lemma_assoc_map_push(prefix, self.entries@[i as int]);
                assert(self.entries@.take(i + 1 as int) =~= prefix.push(self.entries@[i as int]));
                assert(self.entries@[i as int].1.deep_view().first() == v@);
                assert(downgraded(assoc_map(prefix).insert(
                    k@,
                    self.entries@[i as int].1.deep_view(),
                )) =~= downgraded(assoc_map(prefix)).insert(k@, v@));
            }
            i = i + 1;
        }
        proof {
            assert(self.entries@.take(n as int) =~= self.entries@);
            assert(downgraded(self@).dom() =~= self@.dom());
        }
        w
    }
}

} // verus!
