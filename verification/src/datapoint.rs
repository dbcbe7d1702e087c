//! A value under an index, for series of any index and value.

use vstd::prelude::*;
use vstd::std_specs::cmp::{OrdSpec, PartialEqSpec, PartialEqSpecImpl, PartialOrdSpecImpl};
use std::cmp::Ordering;
use vstd::std_specs::ops::{
    AddSpec, AddSpecImpl, DivSpec, DivSpecImpl, MulSpec, MulSpecImpl, SubSpec, SubSpecImpl,
};
use std::ops::{Add, Div, Mul, Sub};

verus! {

/// A value under an index.
#[derive(Debug)]
pub struct DataPoint<T, U> {
    index: T,
    data: U,
}

impl<T, U> View for DataPoint<T, U> {
    type V = (T, U);

    closed spec fn view(&self) -> (T, U) {
        (self.index, self.data)
    }
}

impl<T, U> DataPoint<T, U> {
    /// A point that holds `data` under `index`.
    pub fn new(index: T, data: U) -> (r: DataPoint<T, U>)
        ensures
            r@ == (index, data),
    {
        DataPoint { data, index }
    }

    /// The index of the point.
    pub fn get_index(&self) -> (r: &T)
        ensures
            *r == self@.0,
    {
        &self.index
    }

    /// The value of the point.
    pub fn get(&self) -> (r: &U)
        ensures
            *r == self@.1,
    {
        &self.data
    }

    /// Puts another value in the place of the point's value.
    pub fn set(&mut self, value: U)
        ensures
            final(self)@ == (old(self)@.0, value),
    {
        self.data = value;
    }

    /// Puts in the place of the point's value what `f` makes of it.
    pub fn apply(&mut self, f: impl Fn(&U) -> U)
        requires
            call_requires(f, (&old(self)@.1,)),
        ensures
            final(self)@.0 == old(self)@.0,
            call_ensures(f, (&old(self)@.1,), final(self)@.1),
    {
        self.data = f(&self.data);
    }
}

impl<T: Clone, U: Clone> Clone for DataPoint<T, U> {
    fn clone(&self) -> (r: Self)
        ensures
            cloned(self@.0, r@.0),
            cloned(self@.1, r@.1),
    {
        DataPoint { index: self.index.clone(), data: self.data.clone() }
    }
}

impl<T: PartialEq, U: PartialEq> PartialEq for DataPoint<T, U> {
    fn eq(&self, other: &DataPoint<T, U>) -> (r: bool) {
        self.index == other.index && self.data == other.data
    }
}

impl<T: PartialEq, U: PartialEq> PartialEqSpecImpl for DataPoint<T, U> {
    open spec fn obeys_eq_spec() -> bool {
        T::obeys_eq_spec() && U::obeys_eq_spec()
    }

    open spec fn eq_spec(&self, other: &DataPoint<T, U>) -> bool {
        self@.0.eq_spec(&other@.0) && self@.1.eq_spec(&other@.1)
    }
}

impl<T: Eq, U: PartialEq> Eq for DataPoint<T, U> {

}

impl<T: Ord, U: PartialEq> PartialOrd for DataPoint<T, U> {
    fn partial_cmp(&self, other: &DataPoint<T, U>) -> (r: Option<Ordering>) {
        Some(self.index.cmp(&other.index))
    }
}

impl<T: Ord, U: PartialEq> PartialOrdSpecImpl for DataPoint<T, U> {
    open spec fn obeys_partial_cmp_spec() -> bool {
        T::obeys_cmp_spec()
    }

    open spec fn partial_cmp_spec(&self, other: &DataPoint<T, U>) -> Option<Ordering> {
        Some(self@.0.cmp_spec(&other@.0))
    }
}

impl<T: Ord + Clone, U: PartialOrd + Add<Output = U> + Copy> Add<&DataPoint<T, U>> for &DataPoint<
    T,
    U,
> {
    type Output = Option<DataPoint<T, U>>;

    fn add(self, other: &DataPoint<T, U>) -> (r: Option<DataPoint<T, U>>)
        ensures
            T::obeys_eq_spec() ==> (r is Some <==> self@.0.eq_spec(&other@.0)),
            r matches Some(p) ==> cloned(self@.0, p@.0) && call_ensures(
                U::add,
                (self@.1, other@.1),
                p@.1,
            ) && (U::obeys_add_spec() ==> p@.1 == self@.1.add_spec(other@.1)),
    {
        if self.index == other.index {
            Some(DataPoint { index: self.index.clone(), data: self.data + other.data })
        } else {
            None
        }
    }
}

impl<T: Ord + Clone, U: PartialOrd + Add<Output = U> + Copy> AddSpecImpl<&DataPoint<T, U>> for &DataPoint<
    T,
    U,
> {
    open spec fn obeys_add_spec() -> bool {
        false
    }

    open spec fn add_req(self, other: &DataPoint<T, U>) -> bool {
        self@.1.add_req(other@.1)
    }

    open spec fn add_spec(self, other: &DataPoint<T, U>) -> Option<DataPoint<T, U>> {
        None
    }
}

impl<T: Ord + Clone, U: PartialOrd + Sub<Output = U> + Copy> Sub<&DataPoint<T, U>> for &DataPoint<
    T,
    U,
> {
    type Output = Option<DataPoint<T, U>>;

    fn sub(self, other: &DataPoint<T, U>) -> (r: Option<DataPoint<T, U>>)
        ensures
            T::obeys_eq_spec() ==> (r is Some <==> self@.0.eq_spec(&other@.0)),
            r matches Some(p) ==> cloned(self@.0, p@.0) && call_ensures(
                U::sub,
                (self@.1, other@.1),
                p@.1,
            ) && (U::obeys_sub_spec() ==> p@.1 == self@.1.sub_spec(other@.1)),
    {
        if self.index == other.index {
            Some(DataPoint { index: self.index.clone(), data: self.data - other.data })
        } else {
            None
        }
    }
}

impl<T: Ord + Clone, U: PartialOrd + Sub<Output = U> + Copy> SubSpecImpl<&DataPoint<T, U>> for &DataPoint<
    T,
    U,
> {
    open spec fn obeys_sub_spec() -> bool {
        false
    }

    open spec fn sub_req(self, other: &DataPoint<T, U>) -> bool {
        self@.1.sub_req(other@.1)
    }

    open spec fn sub_spec(self, other: &DataPoint<T, U>) -> Option<DataPoint<T, U>> {
        None
    }
}

impl<T: Ord + Clone, U: PartialOrd + Mul<Output = U> + Copy> Mul<&DataPoint<T, U>> for &DataPoint<
    T,
    U,
> {
    type Output = Option<DataPoint<T, U>>;

    fn mul(self, other: &DataPoint<T, U>) -> (r: Option<DataPoint<T, U>>)
        ensures
            T::obeys_eq_spec() ==> (r is Some <==> self@.0.eq_spec(&other@.0)),
            r matches Some(p) ==> cloned(self@.0, p@.0) && call_ensures(
                U::mul,
                (self@.1, other@.1),
                p@.1,
            ) && (U::obeys_mul_spec() ==> p@.1 == self@.1.mul_spec(other@.1)),
    {
        if self.index == other.index {
            Some(DataPoint { index: self.index.clone(), data: self.data * other.data })
        } else {
            None
        }
    }
}

impl<T: Ord + Clone, U: PartialOrd + Mul<Output = U> + Copy> MulSpecImpl<&DataPoint<T, U>> for &DataPoint<
    T,
    U,
> {
    open spec fn obeys_mul_spec() -> bool {
        false
    }

    open spec fn mul_req(self, other: &DataPoint<T, U>) -> bool {
        self@.1.mul_req(other@.1)
    }

    open spec fn mul_spec(self, other: &DataPoint<T, U>) -> Option<DataPoint<T, U>> {
        None
    }
}

impl<T: Ord + Clone, U: PartialOrd + Div<Output = U> + Copy> Div<&DataPoint<T, U>> for &DataPoint<
    T,
    U,
> {
    type Output = Option<DataPoint<T, U>>;

    fn div(self, other: &DataPoint<T, U>) -> (r: Option<DataPoint<T, U>>)
        ensures
            T::obeys_eq_spec() ==> (r is Some <==> self@.0.eq_spec(&other@.0)),
            r matches Some(p) ==> cloned(self@.0, p@.0) && call_ensures(
                U::div,
                (self@.1, other@.1),
                p@.1,
            ) && (U::obeys_div_spec() ==> p@.1 == self@.1.div_spec(other@.1)),
    {
        if self.index == other.index {
            Some(DataPoint { index: self.index.clone(), data: self.data / other.data })
        } else {
            None
        }
    }
}

impl<T: Ord + Clone, U: PartialOrd + Div<Output = U> + Copy> DivSpecImpl<&DataPoint<T, U>> for &DataPoint<
    T,
    U,
> {
    open spec fn obeys_div_spec() -> bool {
        false
    }

    open spec fn div_req(self, other: &DataPoint<T, U>) -> bool {
        self@.1.div_req(other@.1)
    }

    open spec fn div_spec(self, other: &DataPoint<T, U>) -> Option<DataPoint<T, U>> {
        None
    }
}

} // verus!
