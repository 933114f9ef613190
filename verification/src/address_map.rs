//! The mapping from 32-bit addresses to 32-bit words that a dump denotes.

use std::collections::HashMap;
use vstd::prelude::*;
use vstd::std_specs::iter::IteratorSpec;
use crate::ascending::{ascending, lemma_ascending, sort_distinct};

verus! {

broadcast use vstd::std_specs::hash::group_hash_axioms;

/// The distance in bytes from the address of one word to that of the next.
pub const WORD_SIZE: u32 = 4;

/// A finite map from address to word. An address occurs at most once; a
/// later insertion at the same address replaces the earlier word.
#[derive(Debug)]
pub struct AddressValueMap {
    words: HashMap<u32, u32>,
}

impl View for AddressValueMap {
    type V = Map<u32, u32>;

    closed spec fn view(&self) -> Map<u32, u32> {
        self.words@
    }
}

/// The words of a map in ascending order of their addresses.
pub open spec fn words_in_order(m: Map<u32, u32>) -> Seq<u32> {
    ascending(m.dom()).map_values(|a: u32| m[a])
}

/// The entries of a map, address and word, in ascending order of their
/// addresses.
pub open spec fn entries_in_order(m: Map<u32, u32>) -> Seq<(u32, u32)> {
    ascending(m.dom()).map_values(|a: u32| (a, m[a]))
}

impl AddressValueMap {
    /// The map is finite, whatever was inserted.
    pub proof fn lemma_finite(&self)
        ensures
            self@.dom().finite(),
    {
    }

    /// An empty map.
    pub fn new() -> (m: AddressValueMap)
        ensures
            m@ == Map::<u32, u32>::empty(),
    {
        AddressValueMap { words: HashMap::new() }
    }

    /// Sets the word at `address`, replacing any word already there.
    pub fn insert(&mut self, address: u32, value: u32)
        ensures
            final(self)@ == old(self)@.insert(address, value),
    {
        self.words.insert(address, value);
    }

    /// The word at `address`, if the map holds one.
    pub fn get(&self, address: u32) -> (r: Option<u32>)
        ensures
            r == (if self@.contains_key(address) {
                Some(self@[address])
            } else {
                None
            }),
    {
        match self.words.get(&address) {
            Some(v) => Some(*v),
            None => None,
        }
    }

    /// Whether the map holds a word at `address`.
    pub fn contains_key(&self, address: u32) -> (r: bool)
        ensures
            r == self@.contains_key(address),
    {
        self.words.contains_key(&address)
    }

    /// The number of addresses in the map.
    pub fn len(&self) -> (n: usize)
        ensures
            n == self@.dom().len(),
    {
        self.words.len()
    }

    /// The addresses of the map, smallest first.
    pub fn addresses(&self) -> (keys: Vec<u32>)
        ensures
            keys@ == ascending(self@.dom()),
    {
        let mut keys: Vec<u32> = Vec::new();
        let ghost listed: Seq<u32> = self.words.keys().remaining().unref();
        for k in it: self.words.keys()
            invariant
                it.seq().unref() == listed,
                keys@ == listed.take(it.index()),
        {
            assert(listed.take(it.index() + 1) == listed.take(it.index()).push(*k));
            keys.push(*k);
        }
        proof {
            assert(keys@ == listed);
            assert(listed.to_set() == self@.dom());
            assert(listed.no_duplicates());
        }
        sort_distinct(&mut keys);
        keys
    }

    /// The entries of the map in ascending order of their addresses.
    pub fn entries(&self) -> (entries: Vec<(u32, u32)>)
        ensures
            entries@ == entries_in_order(self@),
    {
        let keys = self.addresses();
        let mut entries: Vec<(u32, u32)> = Vec::new();
        proof {
            lemma_ascending(self@.dom());
        }
        let mut i: usize = 0;
        while i < keys.len()
            invariant
                i <= keys.len(),
                keys@ == ascending(self@.dom()),
                forall|a: u32| keys@.contains(a) <==> self@.dom().contains(a),
                entries@ == entries_in_order(self@).take(i as int),
            decreases keys.len() - i,
        {
            assert(keys@.contains(keys@[i as int]));
            assert(entries_in_order(self@).take(i + 1) == entries_in_order(self@).take(
                i as int,
            ).push((keys@[i as int], self@[keys@[i as int]])));
            // Every listed address is in the map, so its word is found.
            if let Some(word) = self.words.get(&keys[i]) {
                entries.push((keys[i], *word));
            }
            i = i + 1;
        }
        assert(entries_in_order(self@).take(keys.len() as int) == entries_in_order(self@));
        entries
    }

    /// Whether the map holds no address at all.
    pub fn is_empty(&self) -> (r: bool)
        ensures
            r == (self@.dom().len() == 0),
    {
        self.words.len() == 0
    }
}

} // verus!
