//! Ordered series of points under indices of any ordered type.

use vstd::prelude::*;
use vstd::laws_cmp::{
    obeys_cmp, obeys_cmp_ord, obeys_cmp_partial_ord, obeys_partial_cmp_spec_properties,
};
use vstd::std_specs::cmp::{OrdSpec, PartialEqSpec, PartialOrdSpec};
use vstd::std_specs::convert::FromSpec;
use vstd::std_specs::ops::AddSpec;
use std::cmp::Ordering;
use std::ops::{Add, Index};
use crate::datapoint::DataPoint;

verus! {

/// Whether the exec comparisons of `T` answer as its spec functions say.
pub open spec fn obeys_order<T: Ord>() -> bool {
    T::obeys_eq_spec() && T::obeys_cmp_spec()
}

/// Whether two indices are equal.
pub open spec fn alike<T: Ord>(a: T, b: T) -> bool {
    a.eq_spec(&b)
}

/// Whether the first index is greater than the second.
pub open spec fn greater<T: Ord>(a: T, b: T) -> bool {
    a.cmp_spec(&b) == Ordering::Greater
}

fn is_greater<T: Ord>(a: &T, b: &T) -> (r: bool)
    ensures
        obeys_order::<T>() ==> r == greater(*a, *b),
{
    match a.cmp(b) {
        Ordering::Greater => true,
        _ => false,
    }
}

/// The place of the first point under `index`, if there is one.
pub open spec fn first_under<T: Ord, U>(s: Seq<(T, U)>, index: T) -> Option<int>
    decreases s.len(),
{
    if s.len() == 0 {
        None
    } else {
        match first_under(s.drop_last(), index) {
            Some(k) => Some(k),
            None => if alike(s.last().0, index) {
                Some(s.len() - 1)
            } else {
                None
            },
        }
    }
}

/// The place of the last point under `index`, if there is one.
pub open spec fn last_under<T: Ord, U>(s: Seq<(T, U)>, index: T) -> Option<int>
    decreases s.len(),
{
    if s.len() == 0 {
        None
    } else if alike(s.last().0, index) {
        Some(s.len() - 1)
    } else {
        last_under(s.drop_last(), index)
    }
}

/// The place where a new point under `index` goes: behind the last point
/// that is not greater, counted from the back.
pub open spec fn slot<T: Ord, U>(s: Seq<(T, U)>, index: T) -> int
    decreases s.len(),
{
    if s.len() == 0 {
        0
    } else if greater(s.last().0, index) {
        slot(s.drop_last(), index)
    } else {
        s.len() as int
    }
}

/// The points after `item` came in: in the place of the first point under
/// its index where there is one; else at its slot, and the first point
/// leaves where that makes more points than `limit` allows.
pub open spec fn upserted<T: Ord, U>(s: Seq<(T, U)>, item: (T, U), limit: Option<usize>) -> Seq<
    (T, U),
> {
    match first_under(s, item.0) {
        Some(k) => s.update(k, item),
        None => {
            let grown = s.insert(slot(s, item.0), item);
            match limit {
                Some(m) if grown.len() > m => grown.skip(1),
                _ => grown,
            }
        },
    }
}

/// Points held to a limit: without the first one where they are more than
/// the limit allows.
pub open spec fn held_to<T, U>(s: Seq<(T, U)>, limit: Option<usize>) -> Seq<(T, U)> {
    match limit {
        Some(m) if s.len() > m => s.skip(1),
        _ => s,
    }
}

/// Whether `new` is `old` with `item` in the place of one of its points.
pub open spec fn took_place<T, U>(old: Seq<(T, U)>, item: (T, U), new: Seq<(T, U)>) -> bool {
    exists|k: int| 0 <= k < old.len() && new == #[trigger] old.update(k, item)
}

/// Whether `new` is `old` with `item` brought in at some place, held to the limit.
pub open spec fn came_in<T, U>(
    old: Seq<(T, U)>,
    item: (T, U),
    limit: Option<usize>,
    new: Seq<(T, U)>,
) -> bool {
    exists|p: int| 0 <= p <= old.len() && new == held_to(#[trigger] old.insert(p, item), limit)
}

/// The points after each of `items` came in, in turn.
pub open spec fn built<T: Ord, U>(items: Seq<(T, U)>, limit: Option<usize>) -> Seq<(T, U)>
    decreases items.len(),
{
    if items.len() == 0 {
        Seq::empty()
    } else {
        upserted(built(items.drop_last(), limit), items.last(), limit)
    }
}

/// The place that a signed position names: from the front where it is not
/// negative, from the back where it is.
pub open spec fn place(len: int, position: int) -> int {
    if position >= 0 {
        position
    } else {
        len + position
    }
}

/// Whether the first index is less than the second.
pub open spec fn less<T: Ord>(a: T, b: T) -> bool {
    a.cmp_spec(&b) == Ordering::Less
}

/// Whether the order of `T` is a total order with which its equality agrees.
pub open spec fn lawful<T: Ord>() -> bool {
    obeys_cmp::<T>()
}

/// Whether the indices rise from each point to every later one.
pub open spec fn rising<T: Ord, U>(s: Seq<(T, U)>) -> bool {
    forall|i: int, j: int| 0 <= i < j < s.len() ==> less((#[trigger] s[i]).0, (#[trigger] s[j]).0)
}

/// Every point from the slot on is greater than the index, and the point
/// before the slot is not.
pub proof fn lemma_slot<T: Ord, U>(s: Seq<(T, U)>, index: T)
    ensures
        0 <= slot(s, index) <= s.len(),
        forall|j: int| slot(s, index) <= j < s.len() ==> greater((#[trigger] s[j]).0, index),
        slot(s, index) > 0 ==> !greater(s[slot(s, index) - 1].0, index),
    decreases s.len(),
{
    if s.len() > 0 {
        lemma_slot(s.drop_last(), index);
        if greater(s.last().0, index) {
            let p = slot(s, index);
            assert forall|j: int| p <= j < s.len() implies greater((#[trigger] s[j]).0, index) by {
                if j < s.len() - 1 {
                    assert(s.drop_last()[j] == s[j]);
                }
            }
            if p > 0 {
                assert(s.drop_last()[p - 1] == s[p - 1]);
            }
        }
    }
}

/// Where no point stands under an index, no point is alike it.
pub proof fn lemma_none_under<T: Ord, U>(s: Seq<(T, U)>, index: T)
    requires
        first_under(s, index) is None,
    ensures
        forall|i: int| 0 <= i < s.len() ==> !alike((#[trigger] s[i]).0, index),
    decreases s.len(),
{
    if s.len() > 0 {
        lemma_none_under(s.drop_last(), index);
        assert forall|i: int| 0 <= i < s.len() implies !alike((#[trigger] s[i]).0, index) by {
            if i < s.len() - 1 {
                assert(s.drop_last()[i] == s[i]);
            }
        }
    }
}

/// A point under a new index, brought into a series whose indices rise,
/// leaves them rising, where the order of the indices is lawful.
pub proof fn law_new_point_keeps_order<T: Ord, U>(
    s: Seq<(T, U)>,
    item: (T, U),
    limit: Option<usize>,
)
    requires
        lawful::<T>(),
        rising(s),
        first_under(s, item.0) is None,
    ensures
        rising(upserted(s, item, limit)),
{
    reveal(obeys_partial_cmp_spec_properties);
    reveal(obeys_cmp_partial_ord);
    reveal(obeys_cmp_ord);
    lemma_slot(s, item.0);
    lemma_none_under(s, item.0);
    let p = slot(s, item.0);
    let grown = s.insert(p, item);
    let x = item.0;
    // Every point before the slot is less than the new one.
    assert forall|i: int| 0 <= i < p implies less((#[trigger] s[i]).0, x) by {
        let last = s[p - 1].0;
        assert(!alike(s[p - 1].0, x));
        assert(last.partial_cmp_spec(&x) == Some(last.cmp_spec(&x)));
        assert(less(last, x));
        if i < p - 1 {
            assert(less(s[i].0, s[p - 1].0));
            assert(s[i].0.partial_cmp_spec(&last) == Some(s[i].0.cmp_spec(&last)));
            assert(s[i].0.partial_cmp_spec(&x) == Some(s[i].0.cmp_spec(&x)));
        }
    }
    // The new point is less than every point from the slot on.
    assert forall|j: int| p <= j < s.len() implies less(x, (#[trigger] s[j]).0) by {
        assert(greater(s[j].0, x));
        assert(s[j].0.partial_cmp_spec(&x) == Some(s[j].0.cmp_spec(&x)));
        assert(x.partial_cmp_spec(&s[j].0) == Some(x.cmp_spec(&s[j].0)));
    }
    assert forall|i: int, j: int| 0 <= i < j < grown.len() implies less(
        (#[trigger] grown[i]).0,
        (#[trigger] grown[j]).0,
    ) by {
        if j < p {
            assert(grown[i] == s[i] && grown[j] == s[j]);
        } else if i > p {
            assert(grown[i] == s[i - 1] && grown[j] == s[j - 1]);
        } else if i == p {
            assert(grown[j] == s[j - 1]);
        } else if j == p {
            assert(grown[i] == s[i]);
        } else {
            assert(grown[i] == s[i] && grown[j] == s[j - 1]);
        }
    }
    let after = upserted(s, item, limit);
    if after != grown {
        assert(after == grown.skip(1));
        assert forall|i: int, j: int| 0 <= i < j < after.len() implies less(
            (#[trigger] after[i]).0,
            (#[trigger] after[j]).0,
        ) by {
            assert(after[i] == grown[i + 1] && after[j] == grown[j + 1]);
        }
    }
}

/// A place found under an index is a place of the series.
pub proof fn lemma_first_under_bounds<T: Ord, U>(s: Seq<(T, U)>, index: T)
    ensures
        first_under(s, index) matches Some(k) ==> 0 <= k < s.len(),
        last_under(s, index) matches Some(k) ==> 0 <= k < s.len(),
    decreases s.len(),
{
    if s.len() > 0 {
        lemma_first_under_bounds(s.drop_last(), index);
    }
}

/// An ordered run of points, one under each index, that may be held
/// to a greatest number of points.
pub struct Series<T, U> {
    id: String,
    data: Vec<DataPoint<T, U>>,
    opt_max_size: Option<usize>,
    counter: usize,
}

impl<T, U> View for Series<T, U> {
    type V = Seq<(T, U)>;

    closed spec fn view(&self) -> Seq<(T, U)> {
        Seq::new(self.data@.len(), |i: int| self.data@[i]@)
    }
}

impl<T, U> Series<T, U> {
    /// The name of the series.
    pub closed spec fn name(&self) -> Seq<char> {
        self.id@
    }

    /// The greatest number of points that the series holds, if it has one.
    pub closed spec fn limit(&self) -> Option<usize> {
        self.opt_max_size
    }

    /// How many points `next` has handed out.
    pub closed spec fn cursor(&self) -> nat {
        self.counter as nat
    }

    /// The number of points.
    pub fn len(&self) -> (r: usize)
        ensures
            r == self@.len(),
    {
        self.data.len()
    }
}

impl<T: Ord + Clone, U: PartialOrd + Clone> Series<T, U> {
    /// An empty series.
    pub fn new(id: &str, opt_max_size: Option<usize>) -> (r: Series<T, U>)
        ensures
            r@ == Seq::<(T, U)>::empty(),
            r.name() == id@,
            r.limit() == opt_max_size,
            r.cursor() == 0,
    {
        let r = Series { id: id.to_owned(), data: Vec::new(), opt_max_size, counter: 0 };
        proof {
            assert(r@ =~= Seq::<(T, U)>::empty());
        }
        r
    }

    /// The series that the items build, each coming in as by `insert_update`.
    pub fn from_vec(id: &str, items: Vec<DataPoint<T, U>>) -> (r: Series<T, U>)
        ensures
            r.name() == id@,
            r.limit() == None::<usize>,
            r.cursor() == 0,
            obeys_order::<T>() ==> r@ == built(
                Seq::new(items@.len(), |i: int| items@[i]@),
                None,
            ),
    {
        let ghost all = Seq::new(items@.len(), |i: int| items@[i]@);
        let mut ts = Series::new(id, None);
        proof {
            assert(all.take(0) =~= Seq::<(T, U)>::empty());
        }
        for item in it: items
            invariant
                it.seq().len() == all.len(),
                forall|i: int| 0 <= i < all.len() ==> (#[trigger] it.seq()[i])@ == all[i],
                ts.name() == id@,
                ts.limit() == None::<usize>,
                ts.cursor() == 0,
                obeys_order::<T>() ==> ts@ == built(all.take(it.index() as int), None),
        {
            proof {
                assert(all.take(it.index() + 1).drop_last() =~= all.take(it.index() as int));
            }
            ts.insert_update(item);
        }
        proof {
            assert(all.take(all.len() as int) =~= all);
        }
        ts
    }

    /// The name of the series.
    pub fn get_id(&self) -> (r: &str)
        ensures
            r@ == self.name(),
    {
        self.id.as_str()
    }

    fn find_first(&self, index: &T) -> (r: Option<usize>)
        ensures
            obeys_order::<T>() ==> first_under(self@, *index) == match r {
                Some(k) => Some(k as int),
                None => None,
            },
            r matches Some(k) ==> k < self@.len(),
    {
        let mut k: usize = 0;
        proof {
            assert(self@.take(0) =~= Seq::<(T, U)>::empty());
        }
        while k < self.data.len()
            invariant
                k <= self.data@.len(),
                self@.len() == self.data@.len(),
                obeys_order::<T>() ==> first_under(self@.take(k as int), *index) is None,
            decreases self.data@.len() - k,
        {
            proof {
                assert(self@.take(k + 1).drop_last() =~= self@.take(k as int));
                assert(self@.take(k + 1).last() == self.data@[k as int]@);
            }
            if *self.data[k].get_index() == *index {
                proof {
                    if obeys_order::<T>() {
                        lemma_first_under_stays(self@, *index, k as int + 1);
                    }
                }
                return Some(k);
            }
            k = k + 1;
        }
        proof {
            assert(self@.take(k as int) =~= self@);
        }
        None
    }

    fn find_last(&self, index: &T) -> (r: Option<usize>)
        ensures
            obeys_order::<T>() ==> last_under(self@, *index) == match r {
                Some(k) => Some(k as int),
                None => None,
            },
            r matches Some(k) ==> k < self@.len(),
    {
        let mut k: usize = self.data.len();
        proof {
            assert(self@.take(k as int) =~= self@);
        }
        while k > 0
            invariant
                k <= self.data@.len(),
                self@.len() == self.data@.len(),
                obeys_order::<T>() ==> last_under(self@, *index) == last_under(
                    self@.take(k as int),
                    *index,
                ),
            decreases k,
        {
            proof {
                assert(self@.take(k as int).drop_last() =~= self@.take(k - 1));
                assert(self@.take(k as int).last() == self.data@[k - 1]@);
            }
            if *self.data[k - 1].get_index() == *index {
                return Some(k - 1);
            }
            k = k - 1;
        }
        None
    }

    fn find_slot(&self, index: &T) -> (r: usize)
        ensures
            r <= self@.len(),
            obeys_order::<T>() ==> r == slot(self@, *index),
    {
        let mut p: usize = self.data.len();
        proof {
            assert(self@.take(p as int) =~= self@);
        }
        while p > 0
            invariant
                p <= self.data@.len(),
                self@.len() == self.data@.len(),
                obeys_order::<T>() ==> slot(self@, *index) == slot(self@.take(p as int), *index),
            decreases p,
        {
            proof {
                assert(self@.take(p as int).drop_last() =~= self@.take(p - 1));
                assert(self@.take(p as int).last() == self.data@[p - 1]@);
            }
            if !is_greater(self.data[p - 1].get_index(), index) {
                return p;
            }
            p = p - 1;
        }
        p
    }

    fn place_new(&mut self, item: DataPoint<T, U>)
        ensures
            final(self).name() == old(self).name(),
            final(self).limit() == old(self).limit(),
            final(self).cursor() == old(self).cursor(),
            came_in(old(self)@, item@, old(self).limit(), final(self)@),
            obeys_order::<T>() ==> final(self)@ == ({
                let grown = old(self)@.insert(slot(old(self)@, item@.0), item@);
                match old(self).limit() {
                    Some(m) if grown.len() > m => grown.skip(1),
                    _ => grown,
                }
            }),
    {
        let p = self.find_slot(item.get_index());
        let ghost before = self@;
        self.data.insert(p, item);
        proof {
            assert(self@ =~= before.insert(p as int, item@));
        }
        let ghost grown = self@;
        if let Some(maxsize) = self.opt_max_size {
            if self.data.len() > maxsize {
                self.data.remove(0);
                proof {
                    assert(self@ =~= grown.skip(1));
                }
            }
        }
        proof {
            assert(self@ == held_to(before.insert(p as int, item@), self.opt_max_size));
        }
    }

    /// Puts the item in the place of the first point under its index, or
    /// brings it in as a new point where there is none. Whatever the
    /// comparisons of `T` answer, the item takes the place of a point or
    /// comes in at some place; where they answer as their spec functions
    /// say, the contract says which.
    pub fn insert_update(&mut self, item: DataPoint<T, U>)
        ensures
            final(self).name() == old(self).name(),
            final(self).limit() == old(self).limit(),
            final(self).cursor() == old(self).cursor(),
            took_place(old(self)@, item@, final(self)@) || came_in(
                old(self)@,
                item@,
                old(self).limit(),
                final(self)@,
            ),
            obeys_order::<T>() ==> final(self)@ == upserted(old(self)@, item@, old(self).limit()),
    {
        match self.find_first(item.get_index()) {
            Some(k) => {
                let ghost before = self@;
                self.data.set(k, item);
                proof {
                    assert(self@ =~= before.update(k as int, item@));
                }
            },
            None => {
                self.place_new(item);
            },
        }
    }

    /// A copy of the point that stands `offset` places behind the last point
    /// under `index`, or before it where `offset` is negative.
    pub fn at(&self, index: &T, offset: i32) -> (r: Option<DataPoint<T, U>>)
        ensures
            r matches Some(p) ==> exists|i: int|
                0 <= i < self@.len() && cloned((#[trigger] self@[i]).0, p@.0) && cloned(
                    self@[i].1,
                    p@.1,
                ),
            obeys_order::<T>() ==> match last_under(self@, *index) {
                Some(k) if 0 <= k + offset < self@.len() => r matches Some(p) && cloned(
                    self@[k + offset].0,
                    p@.0,
                ) && cloned(self@[k + offset].1, p@.1),
                _ => r is None,
            },
    {
        proof {
            lemma_first_under_bounds(self@, *index);
        }
        match self.find_last(index) {
            Some(pos) => {
                let target: i128 = pos as i128 + offset as i128;
                if 0 <= target && target < self.data.len() as i128 {
                    let found = self.data[target as usize].clone();
                    proof {
                        let point = self@[target as int];
                        assert(point == self.data@[target as int]@);
                        assert(cloned(point.0, found@.0) && cloned(point.1, found@.1));
                    }
                    Some(found)
                } else {
                    None
                }
            },
            None => None,
        }
    }

    /// Copies of the points found at `offset`, `offset + 1`, ... places from
    /// the last point under `index`, `size` places in all; a place outside the
    /// series gives no point.
    pub fn range_at(&self, index: &T, size: usize, offset: i32) -> (r: Vec<DataPoint<T, U>>)
        requires
            offset + size <= i32::MAX + 1,
        ensures
            r@.len() <= size,
            obeys_order::<T>() ==> match last_under(self@, *index) {
                Some(k) => {
                    let from = if k + offset < 0 {
                        0
                    } else {
                        k + offset
                    };
                    let to = if k + offset + size > self@.len() {
                        self@.len() as int
                    } else {
                        k + offset + size
                    };
                    &&& r@.len() == (if to > from {
                        to - from
                    } else {
                        0
                    })
                    &&& forall|i: int|
                        0 <= i < r@.len() ==> cloned(self@[from + i].0, (#[trigger] r@[i])@.0)
                            && cloned(self@[from + i].1, r@[i]@.1)
                },
                None => r@.len() == 0,
            },
    {
        let mut res: Vec<DataPoint<T, U>> = Vec::new();
        let mut i: usize = 0;
        proof {
            lemma_first_under_bounds(self@, *index);
        }
        while i < size
            invariant
                i <= size,
                offset + size <= i32::MAX + 1,
                res@.len() <= i,
                last_under(self@, *index) matches Some(k) ==> 0 <= k < self@.len(),
                obeys_order::<T>() ==> match last_under(self@, *index) {
                    Some(k) => {
                        let from = if k + offset < 0 {
                            0
                        } else {
                            k + offset
                        };
                        let to = if k + offset + i > self@.len() {
                            self@.len() as int
                        } else {
                            k + offset + i
                        };
                        &&& res@.len() == (if to > from {
                            to - from
                        } else {
                            0
                        })
                        &&& forall|j: int|
                            0 <= j < res@.len() ==> cloned(
                                self@[from + j].0,
                                (#[trigger] res@[j])@.0,
                            ) && cloned(self@[from + j].1, res@[j]@.1)
                    },
                    None => res@.len() == 0,
                },
            decreases size - i,
        {
            let step: i32 = (offset as i64 + i as i64) as i32;
            if let Some(data) = self.at(index, step) {
                res.push(data);
            }
            i = i + 1;
        }
        res
    }

    /// Copies of the points from the place `start` to the place `end`, both
    /// among them; a negative place counts from the back.
    pub fn range(&self, start: i32, end: i32) -> (r: Vec<DataPoint<T, U>>)
        requires
            0 <= place(self@.len() as int, start as int),
            0 <= place(self@.len() as int, end as int),
            place(self@.len() as int, start as int) <= place(self@.len() as int, end as int)
                ==> place(self@.len() as int, end as int) < self@.len(),
        ensures
            r@.len() == (if place(self@.len() as int, start as int) <= place(
                self@.len() as int,
                end as int,
            ) {
                place(self@.len() as int, end as int) - place(self@.len() as int, start as int)
                    + 1
            } else {
                0
            }),
            forall|i: int|
                0 <= i < r@.len() ==> cloned(
                    self@[place(self@.len() as int, start as int) + i].0,
                    (#[trigger] r@[i])@.0,
                ) && cloned(self@[place(self@.len() as int, start as int) + i].1, r@[i]@.1),
    {
        let len: i128 = self.data.len() as i128;
        let first: i128 = if start >= 0 {
            start as i128
        } else {
            len + start as i128
        };
        let last: i128 = if end >= 0 {
            end as i128
        } else {
            len + end as i128
        };
        let mut res: Vec<DataPoint<T, U>> = Vec::new();
        if first > last {
            return res;
        }
        let is: usize = first as usize;
        let ie: usize = last as usize;
        let mut i: usize = is;
        while i <= ie
            invariant
                is <= i <= ie + 1,
                ie < self.data@.len() <= usize::MAX,
                self@.len() == self.data@.len(),
                res@.len() == i - is,
                forall|j: int|
                    0 <= j < res@.len() ==> cloned(self@[is + j].0, (#[trigger] res@[j])@.0)
                        && cloned(self@[is + j].1, res@[j]@.1),
            decreases ie + 1 - i,
        {
            res.push(self.data[i].clone());
            i = i + 1;
        }
        res
    }

    /// A copy of the next point that has not been handed out yet.
    pub fn next(&mut self) -> (r: Option<DataPoint<T, U>>)
        ensures
            final(self)@ == old(self)@,
            final(self).name() == old(self).name(),
            final(self).limit() == old(self).limit(),
            match r {
                Some(p) => old(self).cursor() < old(self)@.len() && final(self).cursor() == old(
                    self,
                ).cursor() + 1 && cloned(old(self)@[old(self).cursor() as int].0, p@.0) && cloned(
                    old(self)@[old(self).cursor() as int].1,
                    p@.1,
                ),
                None => old(self).cursor() >= old(self)@.len() && final(self).cursor() == old(
                    self,
                ).cursor(),
            },
    {
        if self.counter < self.data.len() {
            self.counter = self.counter + 1;
            Some(self.data[self.counter - 1].clone())
        } else {
            None
        }
    }
}

impl<T: Ord + Clone, U: PartialOrd + Add<Output = U> + Copy> Series<T, U> {
    /// Adds the item's value to the first point under its index, or brings
    /// the item in as a new point where there is none. The sum must be one
    /// that can be made: of the point under the item's index where the
    /// comparisons of `T` answer as their spec functions say, else of any point.
    pub fn insert_add(&mut self, item: DataPoint<T, U>)
        requires
            forall|k: int|
                0 <= k < old(self)@.len() && (obeys_order::<T>() ==> first_under(
                    old(self)@,
                    item@.0,
                ) == Some(k)) ==> (#[trigger] old(self)@[k]).1.add_req(item@.1),
        ensures
            final(self).name() == old(self).name(),
            final(self).limit() == old(self).limit(),
            final(self).cursor() == old(self).cursor(),
            obeys_order::<T>() ==> match first_under(old(self)@, item@.0) {
                Some(k) => final(self)@.len() == old(self)@.len() && final(self)@[k].0 == old(
                    self,
                )@[k].0 && call_ensures(
                    U::add,
                    (old(self)@[k].1, item@.1),
                    final(self)@[k].1,
                ) && (forall|j: int|
                    0 <= j < old(self)@.len() && j != k ==> #[trigger] final(self)@[j] == old(
                        self,
                    )@[j]) && (U::obeys_add_spec() ==> final(self)@ == old(self)@.update(
                    k,
                    (old(self)@[k].0, old(self)@[k].1.add_spec(item@.1)),
                )),
                None => final(self)@ == upserted(old(self)@, item@, old(self).limit()),
            },
    {
        match self.find_first(item.get_index()) {
            Some(k) => {
                let ghost before = self@;
                let mut point = self.data.remove(k);
                assert(point@ == before[k as int]);
                let val: U = *point.get();
                point.set(val + *item.get());
                self.data.insert(k, point);
                proof {
                    if U::obeys_add_spec() {
                        assert(self@ =~= before.update(
                            k as int,
                            (before[k as int].0, before[k as int].1.add_spec(item@.1)),
                        ));
                    }
                }
            },
            None => {
                self.place_new(item);
            },
        }
    }
}

/// Whether a copy of a `T` is the same value.
pub open spec fn copies_alike<T: Clone>() -> bool {
    forall|a: T, b: T| cloned(a, b) ==> a == b
}

/// What the values of the first `n` points add up to, from nought.
pub open spec fn running<T, U: Add<Output = U> + From<u8>>(s: Seq<(T, U)>, n: int) -> U
    decreases n,
{
    if n <= 0 {
        U::from_spec(0u8)
    } else {
        running(s, n - 1).add_spec(s[n - 1].1)
    }
}

/// The points, each with the running total in the place of its value.
pub open spec fn cumulated<T, U: Add<Output = U> + From<u8>>(s: Seq<(T, U)>) -> Seq<(T, U)> {
    Seq::new(s.len(), |i: int| (s[i].0, running(s, i + 1)))
}

impl<T: Ord + Clone, U: PartialOrd + Add<Output = U> + From<u8> + Copy> Series<T, U> {
    /// The series of the running totals: under each index, what the values
    /// up to that point add up to.
    pub fn cumsum(&self) -> (r: Series<T, U>)
        requires
            U::obeys_add_spec(),
            <U as FromSpec<u8>>::obeys_from_spec(),
            forall|i: int| 0 <= i < self@.len() ==> running(self@, i).add_req(self@[i].1),
        ensures
            r.name() == self.name(),
            r.limit() == self.limit(),
            obeys_order::<T>() && copies_alike::<T>() ==> r@ == built(
                cumulated(self@),
                self.limit(),
            ),
    {
        let mut running_total: U = U::from(0u8);
        let mut ts = Series::<T, U>::new(self.id.as_str(), self.opt_max_size);
        let mut i: usize = 0;
        proof {
            assert(cumulated(self@).take(0) =~= Seq::<(T, U)>::empty());
        }
        while i < self.data.len()
            invariant
                i <= self.data@.len(),
                self@.len() == self.data@.len(),
                U::obeys_add_spec(),
                forall|j: int| 0 <= j < self@.len() ==> running(self@, j).add_req(self@[j].1),
                running_total == running(self@, i as int),
                ts.name() == self.name(),
                ts.limit() == self.limit(),
                obeys_order::<T>() && copies_alike::<T>() ==> ts@ == built(
                    cumulated(self@).take(i as int),
                    self.limit(),
                ),
            decreases self.data@.len() - i,
        {
            assert(self.data@[i as int]@ == self@[i as int]);
            running_total = running_total + *self.data[i].get();
            let dp = DataPoint::new(self.data[i].get_index().clone(), running_total);
            proof {
                if copies_alike::<T>() {
                    assert(cloned(self@[i as int].0, dp@.0));
                    assert(dp@ == cumulated(self@)[i as int]);
                }
                assert(cumulated(self@).take(i + 1).drop_last() =~= cumulated(self@).take(
                    i as int,
                ));
            }
            ts.insert_update(dp);
            i = i + 1;
        }
        proof {
            assert(cumulated(self@).take(i as int) =~= cumulated(self@));
        }
        ts
    }
}

impl<T, U> Index<i32> for Series<T, U> {
    type Output = DataPoint<T, U>;

    fn index(&self, index: i32) -> (r: &DataPoint<T, U>)
        ensures
            r@ == self@[place(self@.len() as int, index as int)],
    {
        if index >= 0 {
            &self.data[index as usize]
        } else {
            &self.data[self.data.len() - ((-(index as i64)) as usize)]
        }
    }
}

impl<T, U> vstd::std_specs::core::IndexSpecImpl<i32> for Series<T, U> {
    open spec fn index_req(&self, index: &i32) -> bool {
        0 <= place(self@.len() as int, *index as int) < self@.len()
    }
}

impl<T, U> Index<usize> for Series<T, U> {
    type Output = DataPoint<T, U>;

    fn index(&self, index: usize) -> (r: &DataPoint<T, U>)
        ensures
            r@ == self@[index as int],
    {
        &self.data[index]
    }
}

impl<T, U> vstd::std_specs::core::IndexSpecImpl<usize> for Series<T, U> {
    open spec fn index_req(&self, index: &usize) -> bool {
        *index < self@.len()
    }
}

proof fn lemma_first_under_stays<T: Ord, U>(s: Seq<(T, U)>, index: T, n: int)
    requires
        0 < n <= s.len(),
        first_under(s.take(n - 1), index) is None,
        alike(s[n - 1].0, index),
    ensures
        first_under(s, index) == Some(n - 1),
    decreases s.len() - n,
{
    assert(s.take(n).drop_last() =~= s.take(n - 1));
    assert(first_under(s.take(n), index) == Some(n - 1));
    lemma_first_under_extends(s, index, n);
}

proof fn lemma_first_under_extends<T: Ord, U>(s: Seq<(T, U)>, index: T, n: int)
    requires
        0 <= n <= s.len(),
        first_under(s.take(n), index) is Some,
    ensures
        first_under(s, index) == first_under(s.take(n), index),
    decreases s.len() - n,
{
    if n == s.len() {
        assert(s.take(n) =~= s);
    } else {
        assert(s.take(n + 1).drop_last() =~= s.take(n));
        lemma_first_under_extends(s, index, n + 1);
    }
}

} // verus!
