//! Reuse of shaped text while the text's signature stays the same.
use vstd::prelude::*;
use std::collections::HashMap;

verus! {

broadcast use vstd::std_specs::hash::group_hash_axioms;

/// The shaping stored under `key` in `entries`, if it was made from a text
/// whose signature is `signature`.
pub open spec fn fresh_shaping<T>(entries: Map<usize, (u64, T)>, key: usize, signature: u64) -> Option<T> {
    if entries.contains_key(key) && entries[key].0 == signature {
        Some(entries[key].1)
    } else {
        None
    }
}

/// Shaped texts of type `T` by text key, each with the signature of the text
/// it was shaped from.
#[derive(Debug)]
pub struct ShapingCache<T> {
    entries: HashMap<usize, (u64, T)>,
}

impl<T> ShapingCache<T> {
    /// The stored shapings, with their signatures, by key.
    pub closed spec fn entries(&self) -> Map<usize, (u64, T)> {
        self.entries@
    }

    /// An empty cache.
    pub fn new() -> (cache: Self)
        ensures
            cache.entries() == Map::<usize, (u64, T)>::empty(),
    {
        ShapingCache { entries: HashMap::new() }
    }

    /// The shaping stored under `key`, if the text it was made from had
    /// `signature` (see [`fresh_shaping`]); a text whose signature changed
    /// must be shaped again.
    pub fn fresh(&self, key: usize, signature: u64) -> (shaped: Option<&T>)
        ensures
            match shaped {
                Some(t) => fresh_shaping(self.entries(), key, signature) == Some(*t),
                None => fresh_shaping(self.entries(), key, signature) is None,
            },
    {
        match self.entries.get(&key) {
            Some(entry) => {
                if entry.0 == signature {
                    Some(&entry.1)
                } else {
                    None
                }
            }
            None => None,
        }
    }

    /// Stores `shaped`, made from a text of `signature`, under `key`,
    /// replacing what was stored there.
    pub fn store(&mut self, key: usize, signature: u64, shaped: T)
        ensures
            final(self).entries() == old(self).entries().insert(key, (signature, shaped)),
    {
        self.entries.insert(key, (signature, shaped));
    }

    /// How many shapings are stored.
    pub fn len(&self) -> (len: usize)
        ensures
            len == self.entries().len(),
    {
        self.entries.len()
    }
}

/// A stored shaping is reused for its text while the signature stays the
/// same, and is not reused once the signature changes; storing it touches no
/// other key.
pub proof fn lemma_reuse_while_unchanged<T>(entries: Map<usize, (u64, T)>, key: usize, signature: u64, shaped: T, other_key: usize, other_signature: u64)
    ensures
        fresh_shaping(entries.insert(key, (signature, shaped)), key, signature) == Some(shaped),
        other_signature != signature ==> fresh_shaping(entries.insert(key, (signature, shaped)), key, other_signature) is None,
        other_key != key ==> fresh_shaping(entries.insert(key, (signature, shaped)), other_key, other_signature)
            == fresh_shaping(entries, other_key, other_signature),
{
}

} // verus!
