//! The entries of a column: a scalar value under a row key.

use vstd::prelude::*;
use vstd::std_specs::cmp::{PartialEqSpecImpl, PartialOrdSpecImpl};
use std::cmp::Ordering;
use crate::flexdata::{Datum, FlexData, FlexDataType};
use crate::float::FloatOps;
use crate::globals::{FlexIndex, Key};
use crate::helper::{convert, converts, derive_datatype};

verus! {

/// The mathematical value of a [`FlexDataPoint`]: a value under a key.
pub struct Cell {
    pub key: Key,
    pub value: Datum,
}

/// One entry of a column: a value under a row key.
#[derive(Debug)]
pub struct FlexDataPoint {
    index: FlexIndex,
    data: FlexData,
}

impl View for FlexDataPoint {
    type V = Cell;

    closed spec fn view(&self) -> Cell {
        Cell { key: self.index@, value: self.data@ }
    }
}

impl Clone for FlexDataPoint {
    fn clone(&self) -> (r: Self)
        ensures
            r@ == self@,
    {
        FlexDataPoint { index: self.index.clone(), data: self.data.clone() }
    }
}

impl FlexDataPoint {
    /// The value as the program holds it.
    pub closed spec fn held(&self) -> FlexData {
        self.data
    }

    /// An entry that holds `data` under `index`.
    pub fn new(index: FlexIndex, data: FlexData) -> (r: Self)
        ensures
            r@ == (Cell { key: index@, value: data@ }),
            r.held() == data,
    {
        Self { index, data }
    }

    /// The value of the entry.
    pub fn get_data(&self) -> (r: &FlexData)
        ensures
            *r == self.held(),
            r@ == self@.value,
    {
        &self.data
    }

    /// Puts another value in the place of the entry's value.
    pub fn set_data(&mut self, data: FlexData)
        ensures
            final(self)@ == (Cell { key: old(self)@.key, value: data@ }),
            final(self).held() == data,
    {
        self.data = data
    }

    /// The key of the entry.
    pub fn get_index(&self) -> (r: &FlexIndex)
        ensures
            r@ == self@.key,
    {
        &self.index
    }

    /// Puts the entry under another key.
    pub fn set_index(&mut self, index: FlexIndex)
        ensures
            final(self)@ == (Cell { key: index@, value: old(self)@.value }),
            final(self).held() == old(self).held(),
    {
        self.index = index;
    }

    /// The kind of the entry's value.
    pub fn get_datatype(&self) -> (r: FlexDataType)
        ensures
            r == self@.value.kind(),
    {
        derive_datatype(&self.data)
    }

    /// What `f` says of the entry's value.
    pub fn verify(&self, f: impl Fn(&FlexData) -> bool) -> (r: bool)
        requires
            call_requires(f, (&self.held(),)),
        ensures
            call_ensures(f, (&self.held(),), r),
    {
        f(&self.data)
    }

    /// Whether the entry's value is missing.
    pub fn has_na(&self) -> (r: bool)
        ensures
            r == (self@.value is NA),
    {
        match self.data {
            FlexData::NA => true,
            _ => false,
        }
    }

    /// The entry with its value coerced to a kind.
    pub fn as_type<F: FloatOps>(&self, datatype: &FlexDataType, ops: &F) -> (r: Self)
        ensures
            r@.key == self@.key,
            converts(ops, self@.value, *datatype, r@.value),
            r@.value.fits(*datatype),
    {
        Self::new(self.index.clone(), convert(&self.data, datatype, ops))
    }

    /// The entry with what `f` makes of its value in the value's place.
    pub fn apply(&self, f: impl Fn(&FlexData) -> FlexData) -> (r: Self)
        requires
            call_requires(f, (&self.held(),)),
        ensures
            r@.key == self@.key,
            call_ensures(f, (&self.held(),), r.held()),
    {
        Self::new(self.index.clone(), f(&self.data))
    }

    /// Whether this entry's key comes before the other's: entries are
    /// ordered by their keys alone.
    pub fn before(&self, other: &FlexDataPoint) -> (r: bool)
        ensures
            r == self@.key.before(other@.key),
    {
        self.index.before(&other.index)
    }
}

impl PartialEq for FlexDataPoint {
    fn eq(&self, other: &FlexDataPoint) -> (r: bool) {
        self.index == other.index && self.data == other.data
    }
}

impl PartialEqSpecImpl for FlexDataPoint {
    open spec fn obeys_eq_spec() -> bool {
        true
    }

    open spec fn eq_spec(&self, other: &FlexDataPoint) -> bool {
        self@.key == other@.key && self@.value.same(other@.value)
    }
}

impl Eq for FlexDataPoint {

}

impl PartialOrd for FlexDataPoint {
    fn partial_cmp(&self, other: &FlexDataPoint) -> (r: Option<Ordering>) {
        if self.index == other.index {
            Some(Ordering::Equal)
        } else if self.index.before(&other.index) {
            Some(Ordering::Less)
        } else {
            Some(Ordering::Greater)
        }
    }
}

impl PartialOrdSpecImpl for FlexDataPoint {
    open spec fn obeys_partial_cmp_spec() -> bool {
        true
    }

    open spec fn partial_cmp_spec(&self, other: &FlexDataPoint) -> Option<Ordering> {
        if self@.key == other@.key {
            Some(Ordering::Equal)
        } else if self@.key.before(other@.key) {
            Some(Ordering::Less)
        } else {
            Some(Ordering::Greater)
        }
    }
}

} // verus!
