//! Row keys and their order.

use vstd::prelude::*;
use vstd::std_specs::cmp::PartialEqSpecImpl;
use crate::text::{
    lemma_text_before_irreflexive, lemma_text_before_total, lemma_text_before_transitive,
    str_before, text_before,
};

verus! {

/// The identifier of a row: a text or an unsigned integer.
#[derive(Debug, Eq, PartialOrd, Ord, Hash)]
pub enum FlexIndex {
    Str(String),
    Uint(usize),
}

/// The kind of a row identifier.
#[derive(Debug, Clone, Copy, PartialEq, Eq, Structural)]
pub enum FlexIndexType {
    Str,
    Uint,
}

/// The mathematical value of a [`FlexIndex`].
pub enum Key {
    Str(Seq<char>),
    Uint(usize),
}

impl View for FlexIndex {
    type V = Key;

    open spec fn view(&self) -> Key {
        match self {
            FlexIndex::Str(s) => Key::Str(s@),
            FlexIndex::Uint(n) => Key::Uint(*n),
        }
    }
}

impl Key {
    /// The kind of this key.
    pub open spec fn kind(self) -> FlexIndexType {
        match self {
            Key::Str(_) => FlexIndexType::Str,
            Key::Uint(_) => FlexIndexType::Uint,
        }
    }

    /// The order of keys: every text before every number, texts by the
    /// bytes of their UTF-8 form, numbers by size.
    pub open spec fn before(self, other: Key) -> bool {
        match (self, other) {
            (Key::Str(a), Key::Str(b)) => text_before(a, b),
            (Key::Str(_), Key::Uint(_)) => true,
            (Key::Uint(_), Key::Str(_)) => false,
            (Key::Uint(a), Key::Uint(b)) => a < b,
        }
    }
}

/// No key comes before itself.
pub proof fn lemma_key_before_irreflexive(a: Key)
    ensures
        !a.before(a),
{
    if let Key::Str(s) = a {
        lemma_text_before_irreflexive(s);
    }
}

/// The key before a key that is before a third is before the third.
pub proof fn lemma_key_before_transitive(a: Key, b: Key, c: Key)
    requires
        a.before(b),
        b.before(c),
    ensures
        a.before(c),
{
    if let (Key::Str(x), Key::Str(y), Key::Str(z)) = (a, b, c) {
        lemma_text_before_transitive(x, y, z);
    }
}

/// Of two different keys one comes before the other.
pub proof fn lemma_key_before_total(a: Key, b: Key)
    requires
        a != b,
    ensures
        a.before(b) || b.before(a),
{
    if let (Key::Str(x), Key::Str(y)) = (a, b) {
        lemma_text_before_total(x, y);
    }
}

impl Clone for FlexIndex {
    fn clone(&self) -> (r: Self)
        ensures
            r@ == self@,
    {
        match self {
            FlexIndex::Str(s) => FlexIndex::Str(s.clone()),
            FlexIndex::Uint(n) => FlexIndex::Uint(*n),
        }
    }
}

impl PartialEq for FlexIndex {
    fn eq(&self, other: &FlexIndex) -> (r: bool) {
        match (self, other) {
            (FlexIndex::Str(a), FlexIndex::Str(b)) => *a == *b,
            (FlexIndex::Uint(a), FlexIndex::Uint(b)) => *a == *b,
            _ => false,
        }
    }
}

impl PartialEqSpecImpl for FlexIndex {
    open spec fn obeys_eq_spec() -> bool {
        true
    }

    open spec fn eq_spec(&self, other: &FlexIndex) -> bool {
        self@ == other@
    }
}

impl FlexIndex {
    /// The kind of this key.
    pub fn kind(&self) -> (r: FlexIndexType)
        ensures
            r == self@.kind(),
    {
        match self {
            FlexIndex::Str(_) => FlexIndexType::Str,
            FlexIndex::Uint(_) => FlexIndexType::Uint,
        }
    }

    /// Whether this key comes before the other in the order of keys.
    pub fn before(&self, other: &FlexIndex) -> (r: bool)
        ensures
            r == self@.before(other@),
    {
        match (self, other) {
            (FlexIndex::Str(a), FlexIndex::Str(b)) => str_before(a.as_str(), b.as_str()),
            (FlexIndex::Str(_), FlexIndex::Uint(_)) => true,
            (FlexIndex::Uint(_), FlexIndex::Str(_)) => false,
            (FlexIndex::Uint(a), FlexIndex::Uint(b)) => *a < *b,
        }
    }
}

} // verus!
