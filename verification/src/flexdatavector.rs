//! The rows of a table: a row key and one scalar value for each column.

use vstd::prelude::*;
use vstd::std_specs::cmp::PartialEqSpecImpl;
use std::ops::Index;
use crate::flexdata::{Datum, FlexData, FlexDataType};
use crate::float::FloatOps;
use crate::globals::{FlexIndex, Key};
use crate::helper::{convert, converts, derive_datatype, views};

verus! {

/// The mathematical value of a [`FlexDataVector`]: the values of one row
/// under its key.
pub struct Row {
    pub key: Key,
    pub values: Seq<Datum>,
}

/// One row of a table: a row key and the values across the columns.
#[derive(Debug)]
pub struct FlexDataVector {
    index: FlexIndex,
    data: Vec<FlexData>,
}

impl View for FlexDataVector {
    type V = Row;

    closed spec fn view(&self) -> Row {
        Row { key: self.index@, values: views(self.data@) }
    }
}

/// Clones a vector of values.
pub fn clone_values(values: &Vec<FlexData>) -> (r: Vec<FlexData>)
    ensures
        views(r@) == views(values@),
{
    let mut out: Vec<FlexData> = Vec::new();
    let mut i: usize = 0;
    while i < values.len()
        invariant
            i <= values.len(),
            out@.len() == i,
            forall|j: int| 0 <= j < i ==> (#[trigger] out@[j])@ == values@[j]@,
        decreases values.len() - i,
    {
        out.push(values[i].clone());
        i = i + 1;
    }
    proof {
        assert(views(out@) =~= views(values@));
    }
    out
}

impl Clone for FlexDataVector {
    fn clone(&self) -> (r: Self)
        ensures
            r@ == self@,
    {
        FlexDataVector { index: self.index.clone(), data: clone_values(&self.data) }
    }
}

impl FlexDataVector {
    /// The values as the program holds them.
    pub closed spec fn held(&self) -> Seq<FlexData> {
        self.data@
    }

    /// The view of a row is the key and the view of each value held.
    pub proof fn lemma_view(&self)
        ensures
            self@.values == views(self.held()),
            self@.values.len() == self.held().len(),
    {
    }

    /// A row that holds `data` under `index`.
    pub fn new(index: FlexIndex, data: Vec<FlexData>) -> (r: Self)
        ensures
            r@ == (Row { key: index@, values: views(data@) }),
            r.held() == data@,
    {
        Self { index, data }
    }

    /// The key of the row.
    pub fn get_index(&self) -> (r: &FlexIndex)
        ensures
            r@ == self@.key,
    {
        &self.index
    }

    /// Puts the row under another key.
    pub fn set_index(&mut self, index: FlexIndex)
        ensures
            final(self)@ == (Row { key: index@, values: old(self)@.values }),
            final(self).held() == old(self).held(),
    {
        self.index = index;
    }

    /// The values of the row.
    pub fn get_data(&self) -> (r: &Vec<FlexData>)
        ensures
            r@ == self.held(),
            views(r@) == self@.values,
    {
        &self.data
    }

    /// Puts other values in the place of the row's values.
    pub fn set_data(&mut self, data: Vec<FlexData>)
        ensures
            final(self)@ == (Row { key: old(self)@.key, values: views(data@) }),
            final(self).held() == data@,
    {
        self.data = data;
    }

    /// The kind of each value of the row.
    pub fn get_datatypes(&self) -> (r: Vec<FlexDataType>)
        ensures
            r@.len() == self@.values.len(),
            forall|i: int| 0 <= i < r@.len() ==> r@[i] == self@.values[i].kind(),
    {
        let mut out: Vec<FlexDataType> = Vec::new();
        let mut i: usize = 0;
        while i < self.data.len()
            invariant
                i <= self.data.len(),
                out@.len() == i,
                forall|j: int| 0 <= j < i ==> out@[j] == self@.values[j].kind(),
            decreases self.data.len() - i,
        {
            out.push(derive_datatype(&self.data[i]));
            i = i + 1;
        }
        out
    }

    /// The number of values in the row.
    pub fn get_size(&self) -> (r: usize)
        ensures
            r == self@.values.len(),
    {
        self.data.len()
    }

    /// Whether `f` holds of every value of the row.
    pub fn verify(&self, f: impl Fn(&FlexData) -> bool) -> (r: bool)
        requires
            forall|i: int|
                0 <= i < self.held().len() ==> call_requires(f, (&#[trigger] self.held()[i],)),
        ensures
            r ==> forall|i: int|
                0 <= i < self.held().len() ==> call_ensures(f, (&#[trigger] self.held()[i],), true),
            !r ==> exists|i: int|
                0 <= i < self.held().len() && call_ensures(f, (&#[trigger] self.held()[i],), false),
    {
        let mut i: usize = 0;
        while i < self.data.len()
            invariant
                i <= self.data.len(),
                forall|j: int|
                    0 <= j < self.held().len() ==> call_requires(
                        f,
                        (&#[trigger] self.held()[j],),
                    ),
                forall|j: int| 0 <= j < i ==> call_ensures(f, (&#[trigger] self.held()[j],), true),
            decreases self.data.len() - i,
        {
            assert(self.data@[i as int] == self.held()[i as int]);
            if !f(&self.data[i]) {
                assert(call_ensures(f, (&self.held()[i as int],), false));
                return false;
            }
            i = i + 1;
        }
        true
    }

    /// Whether a value of the row is missing.
    pub fn has_na(&self) -> (r: bool)
        ensures
            r == exists|i: int| 0 <= i < self@.values.len() && #[trigger] self@.values[i] is NA,
    {
        let mut i: usize = 0;
        while i < self.data.len()
            invariant
                i <= self.data.len(),
                forall|j: int| 0 <= j < i ==> !(#[trigger] self@.values[j] is NA),
            decreases self.data.len() - i,
        {
            match self.data[i] {
                FlexData::NA => {
                    assert(self@.values[i as int] is NA);
                    return true;
                },
                _ => {},
            }
            i = i + 1;
        }
        false
    }

    /// The row with each value coerced to the kind in its place; values beyond
    /// the kinds given, and kinds beyond the values, are left out.
    pub fn as_types<F: FloatOps>(&self, datatypes: &Vec<FlexDataType>, ops: &F) -> (r: Self)
        ensures
            r@.key == self@.key,
            r@.values.len() == (if self@.values.len() <= datatypes@.len() {
                self@.values.len()
            } else {
                datatypes@.len()
            }),
            forall|i: int|
                0 <= i < r@.values.len() ==> converts(
                    ops,
                    self@.values[i],
                    datatypes@[i],
                    #[trigger] r@.values[i],
                ),
    {
        let mut out: Vec<FlexData> = Vec::new();
        let mut i: usize = 0;
        while i < self.data.len() && i < datatypes.len()
            invariant
                i <= self.data.len(),
                i <= datatypes.len(),
                out@.len() == i,
                forall|j: int|
                    0 <= j < i ==> converts(ops, self@.values[j], datatypes@[j], (#[trigger] out@[j])@),
            decreases self.data.len() - i,
        {
            out.push(convert(&self.data[i], &datatypes[i], ops));
            i = i + 1;
        }
        Self::new(self.index.clone(), out)
    }
}

impl Index<usize> for FlexDataVector {
    type Output = FlexData;

    fn index(&self, index: usize) -> (r: &FlexData)
        ensures
            *r == self.held()[index as int],
            r@ == self@.values[index as int],
    {
        &self.data[index]
    }
}

impl vstd::std_specs::core::IndexSpecImpl<usize> for FlexDataVector {
    open spec fn index_req(&self, index: &usize) -> bool {
        *index < self@.values.len()
    }
}

/// Whether two rows hold equal values in every place that both have.
pub open spec fn values_agree(a: Seq<Datum>, b: Seq<Datum>) -> bool {
    forall|i: int| 0 <= i < a.len() && 0 <= i < b.len() ==> (#[trigger] a[i]).same(b[i])
}

impl PartialEq for FlexDataVector {
    fn eq(&self, other: &FlexDataVector) -> (r: bool) {
        if !(self.index == other.index) {
            return false;
        }
        let mut i: usize = 0;
        while i < self.data.len() && i < other.data.len()
            invariant
                i <= self.data.len(),
                i <= other.data.len(),
                forall|j: int| 0 <= j < i ==> (#[trigger] self@.values[j]).same(other@.values[j]),
            decreases self.data.len() - i,
        {
            if !(self.data[i] == other.data[i]) {
                assert(!self@.values[i as int].same(other@.values[i as int]));
                return false;
            }
            i = i + 1;
        }
        true
    }
}

impl PartialEqSpecImpl for FlexDataVector {
    open spec fn obeys_eq_spec() -> bool {
        true
    }

    open spec fn eq_spec(&self, other: &FlexDataVector) -> bool {
        self@.key == other@.key && values_agree(self@.values, other@.values)
    }
}

impl Eq for FlexDataVector {

}

} // verus!
