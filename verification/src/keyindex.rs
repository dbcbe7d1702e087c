//! The index from row key to place.

use vstd::prelude::*;
use vstd::hash_map::StringHashMap;
use std::collections::HashMap;
use crate::globals::{FlexIndex, Key};

verus! {

/// The place of each key in a run of keyed entries: one map for the text
/// keys and one for the numbers, kept as one.
pub struct KeyIndex {
    texts: StringHashMap<usize>,
    numbers: HashMap<usize, usize>,
}

impl View for KeyIndex {
    type V = Map<Key, usize>;

    closed spec fn view(&self) -> Map<Key, usize> {
        Map::new(
            |k: Key|
                match k {
                    Key::Str(s) => self.texts@.contains_key(s),
                    Key::Uint(n) => self.numbers@.contains_key(n),
                },
            |k: Key|
                match k {
                    Key::Str(s) => self.texts@[s],
                    Key::Uint(n) => self.numbers@[n],
                },
        )
    }
}

impl KeyIndex {
    /// An index that holds no key.
    pub fn new() -> (r: KeyIndex)
        ensures
            r@ == Map::<Key, usize>::empty(),
    {
        let r = KeyIndex { texts: StringHashMap::new(), numbers: HashMap::new() };
        proof {
            assert(r@ =~= Map::<Key, usize>::empty());
        }
        r
    }

    /// The place on record for a key, if there is one.
    pub fn get(&self, key: &FlexIndex) -> (r: Option<usize>)
        ensures
            r == (if self@.contains_key(key@) {
                Some(self@[key@])
            } else {
                None
            }),
    {
        match key {
            FlexIndex::Str(s) => match self.texts.get(s.as_str()) {
                Some(p) => Some(*p),
                None => None,
            },
            FlexIndex::Uint(n) => match self.numbers.get(n) {
                Some(p) => Some(*p),
                None => None,
            },
        }
    }

    /// Whether a place is on record for a key.
    pub fn contains(&self, key: &FlexIndex) -> (r: bool)
        ensures
            r == self@.contains_key(key@),
    {
        match key {
            FlexIndex::Str(s) => self.texts.contains_key(s.as_str()),
            FlexIndex::Uint(n) => self.numbers.contains_key(n),
        }
    }

    /// Records a place for a key, in the stead of any that was on record.
    pub fn insert(&mut self, key: FlexIndex, position: usize)
        ensures
            final(self)@ == old(self)@.insert(key@, position),
    {
        match key {
            FlexIndex::Str(s) => {
                self.texts.insert(s, position);
            },
            FlexIndex::Uint(n) => {
                self.numbers.insert(n, position);
            },
        }
        proof {
            assert(final(self)@ =~= old(self)@.insert(key@, position));
        }
    }

    /// Strikes a key off the record.
    pub fn remove(&mut self, key: &FlexIndex)
        ensures
            final(self)@ == old(self)@.remove(key@),
    {
        match key {
            FlexIndex::Str(s) => {
                self.texts.remove(s.as_str());
            },
            FlexIndex::Uint(n) => {
                self.numbers.remove(n);
            },
        }
        proof {
            assert(final(self)@ =~= old(self)@.remove(key@));
        }
    }
}

} // verus!
