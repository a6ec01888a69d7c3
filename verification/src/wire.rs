//! The single-valued wire shape: the older protocol version carries exactly
//! one string value per parameter name. A `WireMap` is the transient
//! projection that is handed to an output writer when an event is serialized
//! into that shape.

use crate::assoc::{assoc_map, distinct_keys, lemma_assoc_map_dom, lemma_assoc_map_index,
    lemma_assoc_map_len, lemma_assoc_map_push};
use vstd::prelude::*;

verus! {

/// The downgrade of a multi-valued parameter map, as a map: the key set is
/// kept as it is, and every key is sent to the first of its values.
pub open spec fn downgraded(m: Map<Seq<char>, Seq<Seq<char>>>) -> Map<Seq<char>, Seq<char>> {
    Map::new(|k: Seq<char>| m.contains_key(k), |k: Seq<char>| m[k].first())
}

/// A mapping from parameter names to exactly one string value each: the
/// shape the older protocol version puts on the wire. Keys are unique; the
/// value of a key is a single scalar string, never a sequence.
pub struct WireMap {
    entries: Vec<(String, String)>,
}

impl WireMap {
    #[verifier::type_invariant]
    spec fn wf(self) -> bool {
        distinct_keys(self.entries@)
    }
}

impl View for WireMap {
    type V = Map<Seq<char>, Seq<char>>;

    closed spec fn view(&self) -> Map<Seq<char>, Seq<char>> {
        assoc_map(self.entries@)
    }
}

impl WireMap {
    /// An empty wire map: zero keys, rendered as `{}` on the wire.
    pub fn new() -> (r: Self)
        ensures
            r@ == Map::<Seq<char>, Seq<char>>::empty(),
    {
        WireMap { entries: Vec::new() }
    }

    /// Binds `key` to `value`. The source key set of a downgrade has no
    /// duplicates, so a key is never bound twice.
    pub fn insert(&mut self, key: String, value: String)
        requires
            !old(self)@.contains_key(key@),
        ensures
            final(self)@ == old(self)@.insert(key@, value@),
    {
        proof {
            use_type_invariant(&*self);
            lemma_assoc_map_dom(self.entries@, key@);
        }
        let ghost pre = self.entries@;
        let mut entries: Vec<(String, String)> = Vec::new();
        std::mem::swap(&mut entries, &mut self.entries);
        entries.push((key, value));
        proof {
            lemma_assoc_map_push(pre, entries@.last());
            assert(entries@ =~= pre.push(entries@.last()));
        }
        self.entries = entries;
    }

    /// The single value bound to `key`, or `None` where the map has no such
    /// key.
    pub fn get(&self, key: &str) -> (r: Option<&String>)
        ensures
            r is Some <==> self@.contains_key(key@),
            (r matches Some(v) ==> v@ == self@[key@]),
    {
        proof {
            use_type_invariant(&*self);
        }
        let owned: String = key.to_owned();
        let n = self.entries.len();
        let mut i: usize = 0;
        while i < n
            invariant
                i <= n,
                n == self.entries@.len(),
                owned@ == key@,
                distinct_keys(self.entries@),
                forall|j: int| 0 <= j < i ==> self.entries@[j].0@ != key@,
            decreases n - i,
        {
            if self.entries[i].0 == owned {
                proof {
                    lemma_assoc_map_index(self.entries@, i as int);
                }
                return Some(&self.entries[i].1);
            }
            i = i + 1;
        }
        proof {
            lemma_assoc_map_dom(self.entries@, key@);
        }
        None
    }

    /// How many keys the map holds; the downgrade hands the writer a map of
    /// this known size.
    pub fn len(&self) -> (n: usize)
        ensures
            n == self@.dom().len(),
    {
        proof {
            use_type_invariant(&*self);
            lemma_assoc_map_len(self.entries@);
        }
        self.entries.len()
    }

    /// The key/value pairs, for an output writer to emit one by one: every
    /// pair is a binding of the map, no key appears twice, and every binding
    /// of the map appears.
    pub fn entries(&self) -> (r: &Vec<(String, String)>)
        ensures
            r@.len() == self@.dom().len(),
            forall|i: int|
                0 <= i < r@.len() ==> self@.contains_key(#[trigger] r@[i].0@) && self@[r@[i].0@]
                    == r@[i].1@,
            forall|i: int, j: int| 0 <= i < j < r@.len() ==> r@[i].0@ != r@[j].0@,
            forall|k: Seq<char>|
                self@.contains_key(k) ==> exists|i: int| 0 <= i < r@.len() && r@[i].0@ == k,
    {
        proof {
            use_type_invariant(&*self);
            lemma_assoc_map_len(self.entries@);
            assert forall|i: int| 0 <= i < self.entries@.len() implies self@.contains_key(
                #[trigger] self.entries@[i].0@,
            ) && self@[self.entries@[i].0@] == self.entries@[i].1@ by {
                lemma_assoc_map_index(self.entries@, i);
            }
            assert forall|k: Seq<char>| self@.contains_key(k) implies exists|i: int|
                0 <= i < self.entries@.len() && self.entries@[i].0@ == k by {
                lemma_assoc_map_dom(self.entries@, k);
            }
        }
        &self.entries
    }
}

/// The downgrade is deterministic: its contract pins the output down, so any
/// two outputs taken from the same source map hold exactly the same
/// key/value pairs.
pub proof fn lemma_downgrade_deterministic(
    src: Map<Seq<char>, Seq<Seq<char>>>,
    a: Map<Seq<char>, Seq<char>>,
    b: Map<Seq<char>, Seq<char>>,
)
    requires
        a.dom() == src.dom(),
        forall|k: Seq<char>| src.contains_key(k) ==> a[k] == src[k].first(),
        b.dom() == src.dom(),
        forall|k: Seq<char>| src.contains_key(k) ==> b[k] == src[k].first(),
    ensures
        a == b,
{
    assert(a =~= b);
}

} // verus!
