//! Columns: labelled, typed runs of entries under distinct row keys, with an
//! index from key to place that every change keeps in step.

use vstd::prelude::*;
use std::ops::Index;
use crate::flexdata::{Datum, FlexData, FlexDataType, Operator};
use crate::flexdatapoint::{Cell, FlexDataPoint};
use crate::float::FloatOps;
use crate::globals::{
    lemma_key_before_irreflexive, lemma_key_before_total, lemma_key_before_transitive, FlexIndex,
    Key,
};
use crate::helper::{convert, converts, first_occurrences, owned_keys};
use vstd::seq_lib::{to_multiset_build, to_multiset_contains, to_multiset_insert};
use crate::keyindex::KeyIndex;

verus! {

/// The mathematical value of a [`FlexSeries`]: a label, a declared kind and
/// the entries in their order.
pub struct Column {
    pub label: Seq<char>,
    pub datatype: FlexDataType,
    pub cells: Seq<Cell>,
}

/// Whether no key stands over two entries.
pub open spec fn distinct_keys(cells: Seq<Cell>) -> bool {
    forall|i: int, j: int|
        0 <= i < cells.len() && 0 <= j < cells.len() && i != j ==> (#[trigger] cells[i]).key != (
        #[trigger] cells[j]).key
}

/// Whether every value is of the kind `t` or missing.
pub open spec fn all_fit(cells: Seq<Cell>, t: FlexDataType) -> bool {
    forall|i: int| 0 <= i < cells.len() ==> (#[trigger] cells[i]).value.fits(t)
}

/// Whether an entry stands under the key.
pub open spec fn has_key(cells: Seq<Cell>, k: Key) -> bool {
    exists|i: int| 0 <= i < cells.len() && (#[trigger] cells[i]).key == k
}

/// The place of the entry under the key.
pub open spec fn place_of(cells: Seq<Cell>, k: Key) -> int
    recommends
        has_key(cells, k),
{
    choose|i: int| 0 <= i < cells.len() && (#[trigger] cells[i]).key == k
}

/// The entry under the key, if there is one.
pub open spec fn cell_at(cells: Seq<Cell>, k: Key) -> Option<Cell> {
    if has_key(cells, k) {
        Some(cells[place_of(cells, k)])
    } else {
        None
    }
}

/// The views of the entries of a vector.
pub open spec fn cells_of(v: Seq<FlexDataPoint>) -> Seq<Cell> {
    Seq::new(v.len(), |i: int| v[i]@)
}

/// Whether an index gives, for each key, the place of the entry under it,
/// and holds no other key.
pub open spec fn indexes(index: Map<Key, usize>, cells: Seq<Cell>) -> bool {
    &&& forall|i: int|
        0 <= i < cells.len() ==> index.contains_key((#[trigger] cells[i]).key) && index[cells[i].key]
            == i
    &&& forall|k: Key| #[trigger]
        index.contains_key(k) ==> index[k] < cells.len() && cells[index[k] as int].key == k
}

/// Under an index the keys are distinct, and the index tells which are there.
pub proof fn lemma_indexes(index: Map<Key, usize>, cells: Seq<Cell>)
    requires
        indexes(index, cells),
    ensures
        distinct_keys(cells),
        forall|k: Key| index.contains_key(k) <==> has_key(cells, k),
        forall|k: Key| has_key(cells, k) ==> place_of(cells, k) == index[k],
{
    assert forall|k: Key| index.contains_key(k) implies has_key(cells, k) by {
        assert(cells[index[k] as int].key == k);
    }
    assert forall|k: Key| has_key(cells, k) implies place_of(cells, k) == index[k] by {
        let p = place_of(cells, k);
        assert(cells[p].key == k);
    }
}

/// The place of a key among distinct keys is the one place that holds it.
pub proof fn lemma_place_of(cells: Seq<Cell>, i: int)
    requires
        distinct_keys(cells),
        0 <= i < cells.len(),
    ensures
        has_key(cells, cells[i].key),
        place_of(cells, cells[i].key) == i,
        cell_at(cells, cells[i].key) == Some(cells[i]),
{
    let k = cells[i].key;
    assert(cells[i].key == k);
    let p = place_of(cells, k);
    assert(cells[p].key == k);
}

/// Whether `new` is `old` with the entry at `p` replaced by `item`, its
/// value coerced to the kind `t`.
pub open spec fn replaced<F: FloatOps>(
    ops: &F,
    old: Seq<Cell>,
    p: int,
    t: FlexDataType,
    item: Cell,
    new: Seq<Cell>,
) -> bool {
    &&& 0 <= p < old.len()
    &&& new.len() == old.len()
    &&& new[p].key == item.key
    &&& converts(ops, item.value, t, new[p].value)
    &&& forall|j: int| 0 <= j < old.len() && j != p ==> #[trigger] new[j] == old[j]
}

/// Whether `new` is `old` with `item` behind it, its value coerced to the
/// kind `t`.
pub open spec fn appended<F: FloatOps>(
    ops: &F,
    old: Seq<Cell>,
    t: FlexDataType,
    item: Cell,
    new: Seq<Cell>,
) -> bool {
    &&& new.len() == old.len() + 1
    &&& new[old.len() as int].key == item.key
    &&& converts(ops, item.value, t, new[old.len() as int].value)
    &&& forall|j: int| 0 <= j < old.len() ==> #[trigger] new[j] == old[j]
}

/// Whether `new` is `old` after `item` was put in: in the place of the
/// entry under its key where there is one, else behind the last entry.
pub open spec fn upserted<F: FloatOps>(
    ops: &F,
    old: Seq<Cell>,
    t: FlexDataType,
    item: Cell,
    new: Seq<Cell>,
) -> bool {
    if has_key(old, item.key) {
        replaced(ops, old, place_of(old, item.key), t, item, new)
    } else {
        appended(ops, old, t, item, new)
    }
}

/// Whether `end` is `start` after the items were put in, one after the other.
pub open spec fn upserted_all<F: FloatOps>(
    ops: &F,
    start: Seq<Cell>,
    t: FlexDataType,
    items: Seq<Cell>,
    end: Seq<Cell>,
) -> bool
    decreases items.len(),
{
    if items.len() == 0 {
        end == start
    } else {
        exists|mid: Seq<Cell>|
            upserted_all(ops, start, t, items.drop_last(), mid) && #[trigger] upserted(
                ops,
                mid,
                t,
                items.last(),
                end,
            )
    }
}

/// Whether `new` is `old` with every value coerced to the kind `t`.
pub open spec fn coerced<F: FloatOps>(ops: &F, old: Seq<Cell>, t: FlexDataType, new: Seq<Cell>) -> bool {
    &&& new.len() == old.len()
    &&& forall|i: int|
        0 <= i < old.len() ==> (#[trigger] new[i]).key == old[i].key && converts(
            ops,
            old[i].value,
            t,
            new[i].value,
        )
}

/// The entries whose place the mask marks, in their order.
pub open spec fn picked(cells: Seq<Cell>, mask: Seq<bool>) -> Seq<Cell>
    decreases cells.len(),
{
    if cells.len() == 0 || mask.len() != cells.len() {
        Seq::empty()
    } else if mask.last() {
        picked(cells.drop_last(), mask.drop_last()).push(cells.last())
    } else {
        picked(cells.drop_last(), mask.drop_last())
    }
}

/// The mask of the entries whose value is missing, or of those whose value
/// is not.
pub open spec fn na_mask(cells: Seq<Cell>, missing: bool) -> Seq<bool> {
    Seq::new(cells.len(), |i: int| (cells[i].value is NA) == missing)
}

/// The places that a mask marks, in their order.
pub open spec fn picks(mask: Seq<bool>) -> Seq<int>
    decreases mask.len(),
{
    if mask.len() == 0 {
        Seq::empty()
    } else if mask.last() {
        picks(mask.drop_last()).push(mask.len() - 1)
    } else {
        picks(mask.drop_last())
    }
}

/// The places that a mask marks are marked, each is there once, and they
/// stand in rising order.
pub proof fn lemma_picks(mask: Seq<bool>)
    ensures
        picks(mask).len() <= mask.len(),
        forall|j: int|
            0 <= j < picks(mask).len() ==> 0 <= #[trigger] picks(mask)[j] < mask.len() && mask[picks(
                mask,
            )[j]],
        forall|a: int, b: int|
            0 <= a < b < picks(mask).len() ==> #[trigger] picks(mask)[a] < #[trigger] picks(mask)[b],
        forall|i: int|
            0 <= i < mask.len() && #[trigger] mask[i] ==> picks(mask).contains(i),
    decreases mask.len(),
{
    if mask.len() > 0 {
        let front = mask.drop_last();
        lemma_picks(front);
        let p = picks(mask);
        let q = picks(front);
        assert forall|j: int| 0 <= j < p.len() implies 0 <= #[trigger] p[j] < mask.len() && mask[p[j]] by {
            if j < q.len() {
                assert(p[j] == q[j]);
                assert(front[q[j]]);
            }
        }
        assert forall|a: int, b: int| 0 <= a < b < p.len() implies #[trigger] p[a] < #[trigger] p[b] by {
            if b < q.len() {
                assert(p[a] == q[a] && p[b] == q[b]);
            } else {
                assert(p[a] == q[a]);
            }
        }
        assert forall|i: int| 0 <= i < mask.len() && #[trigger] mask[i] implies p.contains(i) by {
            if i < front.len() {
                assert(front[i]);
                let j = choose|j: int| 0 <= j < q.len() && q[j] == i;
                assert(p[j] == i);
            } else {
                assert(p[p.len() - 1] == i);
            }
        }
    }
}

/// The entries picked are those at the places that the mask marks.
pub proof fn lemma_picked(cells: Seq<Cell>, mask: Seq<bool>)
    requires
        mask.len() == cells.len(),
    ensures
        picked(cells, mask).len() == picks(mask).len(),
        forall|j: int|
            0 <= j < picks(mask).len() ==> #[trigger] picked(cells, mask)[j] == cells[picks(mask)[j]],
    decreases cells.len(),
{
    if cells.len() > 0 {
        lemma_picked(cells.drop_last(), mask.drop_last());
        lemma_picks(mask.drop_last());
    }
}

/// Picking from entries with distinct keys, of one kind, leaves entries with
/// distinct keys, of that kind.
pub proof fn lemma_picked_keeps(cells: Seq<Cell>, mask: Seq<bool>, t: FlexDataType)
    requires
        mask.len() == cells.len(),
        distinct_keys(cells),
        all_fit(cells, t),
    ensures
        distinct_keys(picked(cells, mask)),
        all_fit(picked(cells, mask), t),
{
    lemma_picked(cells, mask);
    lemma_picks(mask);
    let p = picked(cells, mask);
    let at = picks(mask);
    assert forall|a: int, b: int| 0 <= a < p.len() && 0 <= b < p.len() && a != b implies (
    #[trigger] p[a]).key != (#[trigger] p[b]).key by {
        if a < b {
            assert(at[a] < at[b]);
        } else {
            assert(at[b] < at[a]);
        }
        assert(cells[at[a]].key != cells[at[b]].key);
    }
    assert forall|j: int| 0 <= j < p.len() implies (#[trigger] p[j]).value.fits(t) by {
        assert(cells[at[j]].value.fits(t));
    }
}

/// Whether `new` is `old` brought up to the keys given: the entries of
/// `old` stand first, unchanged; behind them one entry with a missing value
/// for each key given that `old` lacks.
pub open spec fn aligned(old: Seq<Cell>, keys: Seq<Key>, new: Seq<Cell>) -> bool {
    &&& old.len() <= new.len()
    &&& forall|i: int| 0 <= i < old.len() ==> #[trigger] new[i] == old[i]
    &&& forall|i: int|
        old.len() <= i < new.len() ==> (#[trigger] new[i]).value is NA && keys.contains(new[i].key)
            && !has_key(old, new[i].key)
    &&& forall|j: int| 0 <= j < keys.len() ==> has_key(new, #[trigger] keys[j])
}

/// The entries under the keys given, in the order of the keys. A key that
/// no entry stands under gives none, and a key that stands in the list more
/// than once counts where it stands first.
pub open spec fn chosen(cells: Seq<Cell>, keys: Seq<Key>) -> Seq<Cell>
    decreases keys.len(),
{
    if keys.len() == 0 {
        Seq::empty()
    } else if keys.drop_last().contains(keys.last()) {
        chosen(cells, keys.drop_last())
    } else {
        match cell_at(cells, keys.last()) {
            Some(c) => chosen(cells, keys.drop_last()).push(c),
            None => chosen(cells, keys.drop_last()),
        }
    }
}

/// Every entry chosen stands in the run under one of the keys given.
pub proof fn lemma_chosen(cells: Seq<Cell>, keys: Seq<Key>)
    ensures
        chosen(cells, keys).len() <= keys.len(),
        forall|j: int|
            0 <= j < chosen(cells, keys).len() ==> cells.contains(#[trigger] chosen(cells, keys)[j])
                && keys.contains(chosen(cells, keys)[j].key),
    decreases keys.len(),
{
    if keys.len() > 0 {
        let front = keys.drop_last();
        lemma_chosen(cells, front);
        let c = chosen(cells, keys);
        let d = chosen(cells, front);
        assert forall|j: int| 0 <= j < c.len() implies cells.contains(#[trigger] c[j])
            && keys.contains(c[j].key) by {
            if j < d.len() {
                assert(c[j] == d[j]);
                let w = choose|w: int| 0 <= w < front.len() && front[w] == d[j].key;
                assert(keys[w] == d[j].key);
            } else {
                let k = keys.last();
                let q = place_of(cells, k);
                assert(cells[q].key == k);
                assert(c[j] == cells[q]);
                assert(keys[keys.len() - 1] == k);
            }
        }
    }
}

/// The entries chosen have distinct keys.
pub proof fn lemma_chosen_distinct(cells: Seq<Cell>, keys: Seq<Key>)
    ensures
        distinct_keys(chosen(cells, keys)),
    decreases keys.len(),
{
    if keys.len() > 0 {
        let front = keys.drop_last();
        lemma_chosen_distinct(cells, front);
        lemma_chosen(cells, front);
        let c = chosen(cells, keys);
        let d = chosen(cells, front);
        assert forall|a: int, b: int| 0 <= a < c.len() && 0 <= b < c.len() && a != b implies (
        #[trigger] c[a]).key != (#[trigger] c[b]).key by {
            if a < d.len() && b < d.len() {
                assert(c[a] == d[a] && c[b] == d[b]);
            } else {
                let k = keys.last();
                let q = place_of(cells, k);
                assert(cells[q].key == k);
                let low = if a < b { a } else { b };
                assert(c[low] == d[low]);
                assert(front.contains(d[low].key));
            }
        }
    }
}

/// Whether the keys of the entries rise, or fall, from each entry to the next.
pub open spec fn ordered(cells: Seq<Cell>, ascending: bool) -> bool {
    forall|i: int, j: int|
        0 <= i < j < cells.len() ==> if ascending {
            (#[trigger] cells[i]).key.before((#[trigger] cells[j]).key)
        } else {
            cells[j].key.before(cells[i].key)
        }
}

/// The entries of the first run whose key the second run holds too, in
/// their order.
pub open spec fn common(a: Seq<Cell>, b: Seq<Cell>) -> Seq<Cell>
    decreases a.len(),
{
    if a.len() == 0 {
        Seq::empty()
    } else if has_key(b, a.last().key) {
        common(a.drop_last(), b).push(a.last())
    } else {
        common(a.drop_last(), b)
    }
}

/// An entry stands among the common ones where it stands in the first run
/// and its key in the second.
pub proof fn lemma_common(a: Seq<Cell>, b: Seq<Cell>)
    ensures
        common(a, b) == picked(a, Seq::new(a.len(), |i: int| has_key(b, a[i].key))),
    decreases a.len(),
{
    let mask = Seq::new(a.len(), |i: int| has_key(b, a[i].key));
    if a.len() > 0 {
        lemma_common(a.drop_last(), b);
        assert(mask.drop_last() =~= Seq::new(
            a.drop_last().len(),
            |i: int| has_key(b, a.drop_last()[i].key),
        ));
    }
}

/// Whether `r` is what the operation yields on `x` and `y`, each coerced to
/// the kind `t` first.
pub open spec fn combines<F: FloatOps>(
    ops: &F,
    op: Operator,
    t: FlexDataType,
    x: Datum,
    y: Datum,
    r: Datum,
) -> bool {
    exists|cx: Datum, cy: Datum|
        converts(ops, x, t, cx) && converts(ops, y, t, cy) && #[trigger] op.yields(ops, cx, cy, r)
}

/// Whether `r` holds, for each key that both runs hold and in the order of
/// the first, what the operation yields on the two values under it.
pub open spec fn joined<F: FloatOps>(
    ops: &F,
    op: Operator,
    t: FlexDataType,
    a: Seq<Cell>,
    b: Seq<Cell>,
    r: Seq<Cell>,
) -> bool {
    &&& r.len() == common(a, b).len()
    &&& forall|i: int|
        0 <= i < r.len() ==> (#[trigger] r[i]).key == common(a, b)[i].key && combines(
            ops,
            op,
            t,
            common(a, b)[i].value,
            cell_at(b, r[i].key)->0.value,
            r[i].value,
        )
}

/// What an operation yields on two values of a kind is of that kind or missing.
pub proof fn lemma_yields_fits<F: FloatOps>(
    ops: &F,
    op: Operator,
    t: FlexDataType,
    x: Datum,
    y: Datum,
    r: Datum,
)
    requires
        x.fits(t),
        y.fits(t),
        op.yields(ops, x, y, r),
    ensures
        r.fits(t),
{
}

/// Whether the first entry belongs ahead of the second in a rising, or a
/// falling, order of keys.
fn leads(first: &FlexDataPoint, second: &FlexDataPoint, ascending: bool) -> (r: bool)
    ensures
        r == (if ascending {
            first@.key.before(second@.key)
        } else {
            second@.key.before(first@.key)
        }),
{
    if ascending {
        first.before(second)
    } else {
        second.before(first)
    }
}

/// Whether a value is a number: of one of the three numeric kinds.
pub open spec fn numeric(d: Datum) -> bool {
    d is Uint || d is Int || d is Dbl
}

/// The mask of the entries whose value is a number.
pub open spec fn numeric_mask(cells: Seq<Cell>) -> Seq<bool> {
    Seq::new(cells.len(), |i: int| numeric(cells[i].value))
}

/// Whether `bits` are the numbers of the entries, in their order, each as
/// the bits of the binary64 number that the value coerces to.
pub open spec fn numbers_of<F: FloatOps>(ops: &F, cells: Seq<Cell>, bits: Seq<u64>) -> bool {
    &&& bits.len() == picked(cells, numeric_mask(cells)).len()
    &&& forall|j: int|
        0 <= j < bits.len() ==> converts(
            ops,
            picked(cells, numeric_mask(cells))[j].value,
            FlexDataType::Dbl,
            Datum::Dbl(#[trigger] bits[j]),
        )
}

/// The mask of the entries of the first run under whose key the second run
/// holds an entry too, where both values are numbers.
pub open spec fn pair_mask(a: Seq<Cell>, b: Seq<Cell>) -> Seq<bool> {
    Seq::new(
        a.len(),
        |i: int|
            has_key(b, a[i].key) && numeric(a[i].value) && numeric(cell_at(b, a[i].key)->0.value),
    )
}

/// Whether `pairs` are the pairs of numbers that the two runs hold under
/// the keys that both hold, in the order of the first run, each number as
/// the bits of the binary64 number that the value coerces to.
pub open spec fn pairs_of<F: FloatOps>(ops: &F, a: Seq<Cell>, b: Seq<Cell>, pairs: Seq<(u64, u64)>) -> bool {
    &&& pairs.len() == picked(a, pair_mask(a, b)).len()
    &&& forall|j: int|
        0 <= j < pairs.len() ==> converts(
            ops,
            picked(a, pair_mask(a, b))[j].value,
            FlexDataType::Dbl,
            Datum::Dbl((#[trigger] pairs[j]).0),
        ) && converts(
            ops,
            cell_at(b, picked(a, pair_mask(a, b))[j].key)->0.value,
            FlexDataType::Dbl,
            Datum::Dbl(pairs[j].1),
        )
}

/// Clones a run of entries.
pub fn clone_entries(data: &Vec<FlexDataPoint>) -> (r: Vec<FlexDataPoint>)
    ensures
        cells_of(r@) == cells_of(data@),
        r@.len() == data@.len(),
{
    let mut out: Vec<FlexDataPoint> = Vec::new();
    let mut i: usize = 0;
    while i < data.len()
        invariant
            i <= data.len(),
            out@.len() == i,
            forall|j: int| 0 <= j < i ==> (#[trigger] out@[j])@ == data@[j]@,
        decreases data.len() - i,
    {
        out.push(data[i].clone());
        i = i + 1;
    }
    proof {
        assert(cells_of(out@) =~= cells_of(data@));
    }
    out
}

/// Builds the index of a run of entries with distinct keys.
pub fn index_entries(data: &Vec<FlexDataPoint>) -> (r: KeyIndex)
    requires
        distinct_keys(cells_of(data@)),
    ensures
        indexes(r@, cells_of(data@)),
{
    let ghost cells = cells_of(data@);
    let mut index = KeyIndex::new();
    let mut i: usize = 0;
    while i < data.len()
        invariant
            i <= data.len(),
            cells == cells_of(data@),
            distinct_keys(cells),
            indexes(index@, cells.take(i as int)),
        decreases data.len() - i,
    {
        let ghost before = index@;
        index.insert(data[i].get_index().clone(), i);
        proof {
            let grown = cells.take(i + 1);
            assert(cells[i as int].key == data@[i as int]@.key);
            assert forall|j: int| 0 <= j < grown.len() implies index@.contains_key(
                (#[trigger] grown[j]).key,
            ) && index@[grown[j].key] == j by {
                if j < i {
                    assert(cells.take(i as int)[j] == grown[j]);
                    assert(cells[j].key != cells[i as int].key);
                }
            }
            assert forall|k: Key| #[trigger] index@.contains_key(k) implies index@[k] < grown.len()
                && grown[index@[k] as int].key == k by {
                if k != cells[i as int].key {
                    assert(before.contains_key(k));
                    assert(cells.take(i as int)[before[k] as int] == grown[before[k] as int]);
                }
            }
        }
        i = i + 1;
    }
    proof {
        assert(cells.take(i as int) =~= cells);
    }
    index
}

/// A labelled, typed column: entries under distinct row keys, each value of
/// the declared kind or missing, with an index from key to place.
pub struct FlexSeries {
    iter_counter: usize,
    label: String,
    datatype: FlexDataType,
    data: Vec<FlexDataPoint>,
    index_to_pos: KeyIndex,
}

impl View for FlexSeries {
    type V = Column;

    closed spec fn view(&self) -> Column {
        Column { label: self.label@, datatype: self.datatype, cells: cells_of(self.data@) }
    }
}

impl Clone for FlexSeries {
    fn clone(&self) -> (r: Self)
        ensures
            r@ == self@,
            self.wf() ==> r.wf(),
            r.cursor() == self.cursor(),
    {
        let data = clone_entries(&self.data);
        let mut index = KeyIndex::new();
        let mut i: usize = 0;
        // The index is written out again entry by entry, as it was built.
        while i < data.len()
            invariant
                i <= data.len(),
                cells_of(data@) == cells_of(self.data@),
                self.wf() ==> indexes(index@, cells_of(data@).take(i as int)),
            decreases data.len() - i,
        {
            let ghost before = index@;
            index.insert(data[i].get_index().clone(), i);
            proof {
                if self.wf() {
                    let cells = cells_of(data@);
                    self.lemma_wf();
                    let grown = cells.take(i + 1);
                    assert(cells[i as int].key == data@[i as int]@.key);
                    assert forall|j: int| 0 <= j < grown.len() implies index@.contains_key(
                        (#[trigger] grown[j]).key,
                    ) && index@[grown[j].key] == j by {
                        if j < i {
                            assert(cells.take(i as int)[j] == grown[j]);
                            assert(cells[j].key != cells[i as int].key);
                        }
                    }
                    assert forall|k: Key| #[trigger] index@.contains_key(k) implies index@[k]
                        < grown.len() && grown[index@[k] as int].key == k by {
                        if k != cells[i as int].key {
                            assert(before.contains_key(k));
                            assert(cells.take(i as int)[before[k] as int] == grown[before[k] as int]);
                        }
                    }
                }
            }
            i = i + 1;
        }
        proof {
            assert(cells_of(data@).take(i as int) =~= cells_of(data@));
        }
        FlexSeries {
            iter_counter: self.iter_counter,
            label: self.label.clone(),
            datatype: self.datatype,
            data,
            index_to_pos: index,
        }
    }
}

impl FlexSeries {
    /// The entries as the program holds them.
    pub closed spec fn held(&self) -> Seq<FlexDataPoint> {
        self.data@
    }

    /// How many entries `next` has handed out since it last ran out.
    pub closed spec fn cursor(&self) -> nat {
        self.iter_counter as nat
    }

    /// The invariant of a column: the index gives the place of each key, so
    /// no key stands twice, and every value is of the declared kind or missing.
    pub closed spec fn wf(&self) -> bool {
        &&& indexes(self.index_to_pos@, self@.cells)
        &&& all_fit(self@.cells, self.datatype)
    }

    /// What the invariant says of the view.
    pub proof fn lemma_wf(&self)
        requires
            self.wf(),
        ensures
            distinct_keys(self@.cells),
            all_fit(self@.cells, self@.datatype),
            self@.cells == cells_of(self.held()),
            self@.cells.len() == self.held().len(),
    {
        lemma_indexes(self.index_to_pos@, self@.cells);
    }

    /// A column of entries that are of the declared kind already.
    pub fn from_typed(label: &str, datatype: FlexDataType, data: Vec<FlexDataPoint>) -> (r: Self)
        requires
            distinct_keys(cells_of(data@)),
            all_fit(cells_of(data@), datatype),
        ensures
            r.wf(),
            r@ == (Column { label: label@, datatype, cells: cells_of(data@) }),
            r.held() == data@,
            r.cursor() == 0,
    {
        let index_to_pos = index_entries(&data);
        Self { iter_counter: 0, label: label.to_owned(), datatype, data, index_to_pos }
    }

    /// An empty column.
    pub fn new(label: &str, datatype: FlexDataType) -> (r: Self)
        ensures
            r.wf(),
            r@ == (Column { label: label@, datatype, cells: Seq::<Cell>::empty() }),
            r.cursor() == 0,
    {
        let r = Self {
            iter_counter: 0,
            label: label.to_owned(),
            datatype,
            data: Vec::new(),
            index_to_pos: KeyIndex::new(),
        };
        proof {
            assert(r@.cells =~= Seq::<Cell>::empty());
        }
        r
    }

    /// The column of the entries given, each value coerced to the declared
    /// kind. The entries come in one after the other, as by `insert_update`:
    /// where a key stands over more than one of them, the last takes the
    /// place of the first.
    pub fn from_vec<F: FloatOps>(
        label: &str,
        datatype: FlexDataType,
        data: Vec<FlexDataPoint>,
        ops: &F,
    ) -> (r: Self)
        ensures
            r.wf(),
            r@.label == label@,
            r@.datatype == datatype,
            upserted_all(ops, Seq::empty(), datatype, cells_of(data@), r@.cells),
            distinct_keys(cells_of(data@)) ==> coerced(ops, cells_of(data@), datatype, r@.cells),
            r.cursor() == 0,
    {
        let ghost items = cells_of(data@);
        let mut series = Self::new(label, datatype);
        proof {
            assert(items.take(0) =~= Seq::<Cell>::empty());
        }
        for item in it: data
            invariant
                it.seq().len() == items.len(),
                forall|j: int| 0 <= j < items.len() ==> (#[trigger] it.seq()[j])@ == items[j],
                series.wf(),
                series@.label == label@,
                series@.datatype == datatype,
                series.cursor() == 0,
                upserted_all(ops, Seq::empty(), datatype, items.take(it.index() as int), series@.cells),
                distinct_keys(items) ==> coerced(
                    ops,
                    items.take(it.index() as int),
                    datatype,
                    series@.cells,
                ),
        {
            let ghost i = it.index() as int;
            let ghost before = series@.cells;
            let ghost part = items.take(i);
            let ghost grown = items.take(i + 1);
            let ghost entry = item@;
            series.insert_update(item, ops);
            proof {
                let after = series@.cells;
                assert(grown.drop_last() =~= part);
                assert(grown.last() == entry);
                assert(upserted_all(ops, Seq::empty(), datatype, grown.drop_last(), before) && upserted(
                    ops,
                    before,
                    datatype,
                    grown.last(),
                    after,
                ));
                if distinct_keys(items) {
                    if has_key(before, items[i].key) {
                        let w = choose|w: int|
                            0 <= w < before.len() && (#[trigger] before[w]).key == items[i].key;
                        assert(before[w].key == part[w].key);
                        assert(items[w].key != items[i].key);
                    }
                    assert forall|j: int| 0 <= j < grown.len() implies (#[trigger] after[j]).key
                        == grown[j].key && converts(ops, grown[j].value, datatype, after[j].value) by {
                        if j < i {
                            assert(after[j] == before[j]);
                            assert(before[j].key == part[j].key);
                        }
                    }
                }
            }
        }
        proof {
            assert(items.take(items.len() as int) =~= items);
        }
        series
    }

    /// The label of the column.
    pub fn get_label(&self) -> (r: &str)
        ensures
            r@ == self@.label,
    {
        self.label.as_str()
    }

    /// Gives the column another label.
    pub fn set_label(&mut self, label: &str)
        requires
            old(self).wf(),
        ensures
            final(self).wf(),
            final(self)@ == (Column { label: label@, ..old(self)@ }),
            final(self).held() == old(self).held(),
            final(self).cursor() == old(self).cursor(),
    {
        self.label = label.to_owned();
    }

    /// The declared kind of the column.
    pub fn get_datatype(&self) -> (r: &FlexDataType)
        ensures
            *r == self@.datatype,
    {
        &self.datatype
    }

    /// The number of entries.
    pub fn get_size(&self) -> (r: usize)
        ensures
            r == self@.cells.len(),
    {
        self.data.len()
    }

    /// The keys of the entries, in their order.
    pub fn get_indices(&self) -> (r: Vec<&FlexIndex>)
        ensures
            r@.len() == self@.cells.len(),
            forall|i: int| 0 <= i < r@.len() ==> (#[trigger] r@[i])@ == self@.cells[i].key,
    {
        let mut out: Vec<&FlexIndex> = Vec::new();
        let mut i: usize = 0;
        while i < self.data.len()
            invariant
                i <= self.data.len(),
                out@.len() == i,
                forall|j: int| 0 <= j < i ==> (#[trigger] out@[j])@ == self@.cells[j].key,
            decreases self.data.len() - i,
        {
            out.push(self.data[i].get_index());
            i = i + 1;
        }
        out
    }

    /// The values of the entries, in their order.
    pub fn get_data(&self) -> (r: Vec<&FlexData>)
        ensures
            r@.len() == self@.cells.len(),
            forall|i: int|
                0 <= i < r@.len() ==> (#[trigger] r@[i])@ == self@.cells[i].value && *r@[i]
                    == self.held()[i].held(),
    {
        let mut out: Vec<&FlexData> = Vec::new();
        let mut i: usize = 0;
        while i < self.data.len()
            invariant
                i <= self.data.len(),
                out@.len() == i,
                forall|j: int|
                    0 <= j < i ==> (#[trigger] out@[j])@ == self@.cells[j].value && *out@[j]
                        == self.held()[j].held(),
            decreases self.data.len() - i,
        {
            out.push(self.data[i].get_data());
            i = i + 1;
        }
        out
    }

    /// The place of the entry under a key, if there is one.
    pub fn position(&self, index: &FlexIndex) -> (r: Option<usize>)
        requires
            self.wf(),
        ensures
            r is Some == has_key(self@.cells, index@),
            r matches Some(p) ==> p == place_of(self@.cells, index@) && p < self@.cells.len()
                && self@.cells[p as int].key == index@,
    {
        proof {
            lemma_indexes(self.index_to_pos@, self@.cells);
        }
        self.index_to_pos.get(index)
    }

    /// The entry under a key, if there is one.
    pub fn at(&self, index: &FlexIndex) -> (r: Option<&FlexDataPoint>)
        requires
            self.wf(),
        ensures
            match r {
                Some(p) => cell_at(self@.cells, index@) == Some(p@) && *p == self.held()[place_of(
                    self@.cells,
                    index@,
                )],
                None => cell_at(self@.cells, index@) is None,
            },
    {
        match self.position(index) {
            Some(pos) => Some(&self.data[pos]),
            None => None,
        }
    }

    /// Puts the entry, its value coerced to the declared kind, in the place
    /// of the entry under its key; where there is none, nothing changes.
    pub fn update<F: FloatOps>(&mut self, data: FlexDataPoint, ops: &F)
        requires
            old(self).wf(),
        ensures
            final(self).wf(),
            final(self)@.label == old(self)@.label,
            final(self)@.datatype == old(self)@.datatype,
            final(self).cursor() == old(self).cursor(),
            if has_key(old(self)@.cells, data@.key) {
                replaced(
                    ops,
                    old(self)@.cells,
                    place_of(old(self)@.cells, data@.key),
                    old(self)@.datatype,
                    data@,
                    final(self)@.cells,
                )
            } else {
                final(self)@.cells == old(self)@.cells
            },
    {
        if let Some(i) = self.position(data.get_index()) {
            let ghost before = self@.cells;
            let ghost index = self.index_to_pos@;
            self.data.set(i, data.as_type(&self.datatype, ops));
            proof {
                let after = self@.cells;
                assert forall|j: int| 0 <= j < before.len() && j != i implies #[trigger] after[j]
                    == before[j] by {}
                assert(indexes(index, after)) by {
                    assert forall|j: int| 0 <= j < after.len() implies index.contains_key(
                        (#[trigger] after[j]).key,
                    ) && index[after[j].key] == j by {
                        assert(before[j].key == after[j].key);
                    }
                    assert forall|k: Key| #[trigger] index.contains_key(k) implies index[k]
                        < after.len() && after[index[k] as int].key == k by {
                        assert(before[index[k] as int].key == after[index[k] as int].key);
                    }
                }
                assert forall|j: int| 0 <= j < after.len() implies (#[trigger] after[j]).value.fits(
                    self.datatype,
                ) by {
                    if j != i {
                        assert(before[j].value.fits(self.datatype));
                    }
                }
            }
        }
    }

    /// Puts the entry, its value coerced to the declared kind, behind the
    /// last entry. No entry may stand under its key yet: to put an entry in
    /// whether or not one does, there is `insert_update`.
    pub fn insert<F: FloatOps>(&mut self, data: FlexDataPoint, ops: &F)
        requires
            old(self).wf(),
            !has_key(old(self)@.cells, data@.key),
        ensures
            final(self).wf(),
            final(self)@.label == old(self)@.label,
            final(self)@.datatype == old(self)@.datatype,
            final(self).cursor() == old(self).cursor(),
            appended(ops, old(self)@.cells, old(self)@.datatype, data@, final(self)@.cells),
    {
        let entry = data.as_type(&self.datatype, ops);
        self.push_typed(entry);
    }

    fn push_typed(&mut self, entry: FlexDataPoint)
        requires
            old(self).wf(),
            !has_key(old(self)@.cells, entry@.key),
            entry@.value.fits(old(self)@.datatype),
        ensures
            final(self).wf(),
            final(self)@.label == old(self)@.label,
            final(self)@.datatype == old(self)@.datatype,
            final(self).cursor() == old(self).cursor(),
            final(self)@.cells == old(self)@.cells.push(entry@),
    {
        let ghost before = self@.cells;
        let ghost index = self.index_to_pos@;
        proof {
            lemma_indexes(index, before);
        }
        self.index_to_pos.insert(entry.get_index().clone(), self.data.len());
        self.data.push(entry);
        proof {
            let after = self@.cells;
            assert(after =~= before.push(entry@));
            let grown = self.index_to_pos@;
            assert forall|j: int| 0 <= j < after.len() implies grown.contains_key(
                (#[trigger] after[j]).key,
            ) && grown[after[j].key] == j by {
                if j < before.len() {
                    assert(before[j] == after[j]);
                    assert(has_key(before, before[j].key));
                }
            }
            assert forall|k: Key| #[trigger] grown.contains_key(k) implies grown[k] < after.len()
                && after[grown[k] as int].key == k by {
                if k != entry@.key {
                    assert(index.contains_key(k));
                    assert(before[index[k] as int] == after[index[k] as int]);
                }
            }
            assert forall|j: int| 0 <= j < after.len() implies (#[trigger] after[j]).value.fits(
                self.datatype,
            ) by {
                if j < before.len() {
                    assert(before[j].value.fits(self.datatype));
                }
            }
        }
    }

    /// Puts the entry, its value coerced to the declared kind, in the place
    /// of the entry under its key, or behind the last entry where there is none.
    pub fn insert_update<F: FloatOps>(&mut self, data: FlexDataPoint, ops: &F)
        requires
            old(self).wf(),
        ensures
            final(self).wf(),
            final(self)@.label == old(self)@.label,
            final(self)@.datatype == old(self)@.datatype,
            final(self).cursor() == old(self).cursor(),
            upserted(ops, old(self)@.cells, old(self)@.datatype, data@, final(self)@.cells),
    {
        if self.contains(data.get_index()) {
            self.update(data, ops);
        } else {
            self.insert(data, ops);
        }
    }

    /// Takes out the entry at a place and rebuilds the index: each entry
    /// behind it moves up by one.
    pub fn remove(&mut self, k: usize)
        requires
            old(self).wf(),
            k < old(self)@.cells.len(),
        ensures
            final(self).wf(),
            final(self)@.label == old(self)@.label,
            final(self)@.datatype == old(self)@.datatype,
            final(self).cursor() == old(self).cursor(),
            final(self)@.cells == old(self)@.cells.remove(k as int),
    {
        let ghost before = self@.cells;
        proof {
            lemma_indexes(self.index_to_pos@, before);
        }
        self.data.remove(k);
        proof {
            let after = cells_of(self.data@);
            assert(after =~= before.remove(k as int));
            assert forall|a: int, b: int|
                0 <= a < after.len() && 0 <= b < after.len() && a != b implies (
            #[trigger] after[a]).key != (#[trigger] after[b]).key by {
                let x = if a < k { a } else { a + 1 };
                let y = if b < k { b } else { b + 1 };
                assert(before[x].key != before[y].key);
            }
            assert forall|j: int| 0 <= j < after.len() implies (#[trigger] after[j]).value.fits(
                self.datatype,
            ) by {
                let x = if j < k { j } else { j + 1 };
                assert(before[x].value.fits(self.datatype));
            }
        }
        self.index_to_pos = index_entries(&self.data);
    }

    /// Takes out the entry under a key, if there is one.
    pub fn remove_at(&mut self, index: &FlexIndex)
        requires
            old(self).wf(),
        ensures
            final(self).wf(),
            final(self)@.label == old(self)@.label,
            final(self)@.datatype == old(self)@.datatype,
            final(self).cursor() == old(self).cursor(),
            final(self)@.cells == (if has_key(old(self)@.cells, index@) {
                old(self)@.cells.remove(place_of(old(self)@.cells, index@))
            } else {
                old(self)@.cells
            }),
    {
        if let Some(i) = self.position(index) {
            self.remove(i);
        }
    }

    /// Declares another kind for the column and coerces every value to it.
    pub fn set_datatype<F: FloatOps>(&mut self, datatype: FlexDataType, ops: &F)
        requires
            old(self).wf(),
        ensures
            final(self).wf(),
            final(self)@.label == old(self)@.label,
            final(self)@.datatype == datatype,
            final(self).cursor() == old(self).cursor(),
            coerced(ops, old(self)@.cells, datatype, final(self)@.cells),
    {
        let ghost before = self@.cells;
        proof {
            lemma_indexes(self.index_to_pos@, before);
        }
        let mut mod_data: Vec<FlexDataPoint> = Vec::new();
        let mut i: usize = 0;
        while i < self.data.len()
            invariant
                i <= self.data.len(),
                before == cells_of(self.data@),
                mod_data@.len() == i,
                forall|j: int|
                    0 <= j < i ==> (#[trigger] mod_data@[j])@.key == before[j].key && converts(
                        ops,
                        before[j].value,
                        datatype,
                        mod_data@[j]@.value,
                    ) && mod_data@[j]@.value.fits(datatype),
            decreases self.data.len() - i,
        {
            assert(before[i as int] == self.data@[i as int]@);
            mod_data.push(self.data[i].as_type(&datatype, ops));
            i = i + 1;
        }
        proof {
            let after = cells_of(mod_data@);
            assert forall|a: int, b: int|
                0 <= a < after.len() && 0 <= b < after.len() && a != b implies (
            #[trigger] after[a]).key != (#[trigger] after[b]).key by {
                assert(before[a].key != before[b].key);
            }
        }
        self.index_to_pos = index_entries(&mod_data);
        self.data = mod_data;
        self.datatype = datatype;
    }

    /// The column with every value coerced to another kind, which the new
    /// column declares.
    pub fn as_type<F: FloatOps>(&self, datatype: &FlexDataType, ops: &F) -> (r: Self)
        requires
            self.wf(),
        ensures
            r.wf(),
            r@.label == self@.label,
            r@.datatype == *datatype,
            coerced(ops, self@.cells, *datatype, r@.cells),
    {
        proof {
            self.lemma_wf();
        }
        Self::from_vec(self.label.as_str(), *datatype, clone_entries(&self.data), ops)
    }

    /// The column brought up to the keys given: each key that the column
    /// lacks gets an entry with a missing value, behind the entries there are.
    pub fn align_to(&self, indices: &Vec<FlexIndex>) -> (r: Self)
        requires
            self.wf(),
        ensures
            r.wf(),
            r@.label == self@.label,
            r@.datatype == self@.datatype,
            aligned(self@.cells, owned_keys(indices@), r@.cells),
    {
        let mut series = self.clone();
        let ghost keys = owned_keys(indices@);
        let mut i: usize = 0;
        while i < indices.len()
            invariant
                i <= indices.len(),
                keys == owned_keys(indices@),
                series.wf(),
                series@.label == self@.label,
                series@.datatype == self@.datatype,
                aligned(self@.cells, keys.take(i as int), series@.cells),
            decreases indices.len() - i,
        {
            let ghost before = series@.cells;
            if !series.contains(&indices[i]) {
                series.push_typed(FlexDataPoint::new(indices[i].clone(), FlexData::NA));
            }
            proof {
                let after = series@.cells;
                let part = keys.take(i + 1);
                assert(keys[i as int] == indices@[i as int]@);
                assert forall|j: int| 0 <= j < self@.cells.len() implies #[trigger] after[j]
                    == self@.cells[j] by {
                    assert(before[j] == self@.cells[j]);
                }
                assert forall|j: int| self@.cells.len() <= j < after.len() implies (
                #[trigger] after[j]).value is NA && part.contains(after[j].key) && !has_key(
                    self@.cells,
                    after[j].key,
                ) by {
                    if j < before.len() {
                        assert(before[j] == after[j]);
                        let w = choose|w: int|
                            0 <= w < keys.take(i as int).len() && keys.take(i as int)[w]
                                == before[j].key;
                        assert(part[w] == after[j].key);
                    } else {
                        assert(part[i as int] == after[j].key);
                        if has_key(self@.cells, after[j].key) {
                            let w = choose|w: int|
                                0 <= w < self@.cells.len() && (#[trigger] self@.cells[w]).key
                                    == after[j].key;
                            assert(before[w].key == after[j].key);
                        }
                    }
                }
                assert forall|j: int| 0 <= j < part.len() implies has_key(
                    after,
                    #[trigger] part[j],
                ) by {
                    if j < i {
                        assert(keys.take(i as int)[j] == part[j]);
                        let w = choose|w: int|
                            0 <= w < before.len() && (#[trigger] before[w]).key == part[j];
                        assert(after[w].key == part[j]);
                    } else {
                        if has_key(before, part[j]) {
                            let w = choose|w: int|
                                0 <= w < before.len() && (#[trigger] before[w]).key == part[j];
                            assert(after[w].key == part[j]);
                        } else {
                            assert(after[after.len() - 1].key == part[j]);
                        }
                    }
                }
            }
            i = i + 1;
        }
        proof {
            assert(keys.take(i as int) =~= keys);
        }
        series
    }

    /// The column of what `f` makes of each value, coerced to the declared kind.
    pub fn apply<F: FloatOps>(&self, f: impl Fn(&FlexData) -> FlexData, ops: &F) -> (r: Self)
        requires
            self.wf(),
            forall|i: int|
                0 <= i < self.held().len() ==> call_requires(
                    f,
                    (&(#[trigger] self.held()[i]).held(),),
                ),
        ensures
            r.wf(),
            r@.label == self@.label,
            r@.datatype == self@.datatype,
            r@.cells.len() == self@.cells.len(),
            forall|i: int|
                0 <= i < self@.cells.len() ==> (#[trigger] r@.cells[i]).key == self@.cells[i].key
                    && exists|y: FlexData|
                    #[trigger] call_ensures(f, (&self.held()[i].held(),), y) && converts(
                        ops,
                        y@,
                        self@.datatype,
                        r@.cells[i].value,
                    ),
    {
        proof {
            self.lemma_wf();
        }
        let mut data: Vec<FlexDataPoint> = Vec::new();
        let ghost mut made: Seq<FlexData> = Seq::empty();
        let mut i: usize = 0;
        while i < self.data.len()
            invariant
                i <= self.data.len(),
                forall|j: int|
                    0 <= j < self.held().len() ==> call_requires(
                        f,
                        (&(#[trigger] self.held()[j]).held(),),
                    ),
                data@.len() == i,
                made.len() == i,
                forall|j: int|
                    0 <= j < i ==> (#[trigger] data@[j])@.key == self@.cells[j].key && call_ensures(
                        f,
                        (&self.held()[j].held(),),
                        made[j],
                    ) && data@[j]@.value == made[j]@,
            decreases self.data.len() - i,
        {
            assert(self.data@[i as int] == self.held()[i as int]);
            let y = f(self.data[i].get_data());
            let ghost before = made;
            proof {
                made = made.push(y);
                assert forall|j: int| 0 <= j < i implies made[j] == before[j] by {}
            }
            data.push(FlexDataPoint::new(self.data[i].get_index().clone(), y));
            i = i + 1;
        }
        proof {
            let cells = cells_of(data@);
            assert forall|a: int, b: int|
                0 <= a < cells.len() && 0 <= b < cells.len() && a != b implies (
            #[trigger] cells[a]).key != (#[trigger] cells[b]).key by {
                assert(self@.cells[a].key != self@.cells[b].key);
            }
        }
        let r = Self::from_vec(self.label.as_str(), self.datatype, data, ops);
        proof {
            assert forall|i: int| 0 <= i < self@.cells.len() implies (#[trigger] r@.cells[i]).key
                == self@.cells[i].key && exists|y: FlexData|
                #[trigger] call_ensures(f, (&self.held()[i].held(),), y) && converts(
                    ops,
                    y@,
                    self@.datatype,
                    r@.cells[i].value,
                ) by {
                assert(call_ensures(f, (&self.held()[i].held(),), made[i]));
            }
        }
        r
    }

    fn pick(&self, mask: &Vec<bool>) -> (r: Self)
        requires
            self.wf(),
            mask@.len() == self@.cells.len(),
        ensures
            r.wf(),
            r@.label == self@.label,
            r@.datatype == self@.datatype,
            r@.cells == picked(self@.cells, mask@),
    {
        let ghost cells = self@.cells;
        let mut data: Vec<FlexDataPoint> = Vec::new();
        let mut i: usize = 0;
        proof {
            self.lemma_wf();
        }
        while i < self.data.len()
            invariant
                i <= self.data.len(),
                cells == cells_of(self.data@),
                mask@.len() == cells.len(),
                cells_of(data@) == picked(cells.take(i as int), mask@.take(i as int)),
            decreases self.data.len() - i,
        {
            proof {
                assert(cells.take(i + 1).drop_last() =~= cells.take(i as int));
                assert(mask@.take(i + 1).drop_last() =~= mask@.take(i as int));
                assert(cells.take(i + 1).last() == self.data@[i as int]@);
            }
            let ghost before = cells_of(data@);
            if mask[i] {
                data.push(self.data[i].clone());
                proof {
                    assert(cells_of(data@) =~= before.push(self.data@[i as int]@));
                }
            }
            i = i + 1;
        }
        proof {
            assert(cells.take(i as int) =~= cells);
            assert(mask@.take(i as int) =~= mask@);
            lemma_picked_keeps(cells, mask@, self.datatype);
        }
        Self::from_typed(self.label.as_str(), self.datatype, data)
    }

    /// The column of the entries of whose value `f` holds, in their order.
    pub fn filter_any(&self, f: impl Fn(&FlexData) -> bool) -> (r: Self)
        requires
            self.wf(),
            forall|i: int|
                0 <= i < self.held().len() ==> call_requires(
                    f,
                    (&(#[trigger] self.held()[i]).held(),),
                ),
        ensures
            r.wf(),
            r@.label == self@.label,
            r@.datatype == self@.datatype,
            exists|mask: Seq<bool>|
                {
                    &&& mask.len() == self@.cells.len()
                    &&& forall|i: int|
                        0 <= i < mask.len() ==> call_ensures(
                            f,
                            (&self.held()[i].held(),),
                            #[trigger] mask[i],
                        )
                    &&& r@.cells == #[trigger] picked(self@.cells, mask)
                },
    {
        let mut mask: Vec<bool> = Vec::new();
        let mut i: usize = 0;
        while i < self.data.len()
            invariant
                i <= self.data.len(),
                forall|j: int|
                    0 <= j < self.held().len() ==> call_requires(
                        f,
                        (&(#[trigger] self.held()[j]).held(),),
                    ),
                mask@.len() == i,
                forall|j: int|
                    0 <= j < i ==> call_ensures(f, (&self.held()[j].held(),), #[trigger] mask@[j]),
            decreases self.data.len() - i,
        {
            assert(self.data@[i as int] == self.held()[i as int]);
            mask.push(f(self.data[i].get_data()));
            i = i + 1;
        }
        let r = self.pick(&mask);
        proof {
            assert(r@.cells == picked(self@.cells, mask@));
        }
        r
    }

    /// Whether a value of the column is missing.
    pub fn has_na(&self) -> (r: bool)
        ensures
            r == exists|i: int|
                0 <= i < self@.cells.len() && (#[trigger] self@.cells[i]).value is NA,
    {
        let mut i: usize = 0;
        while i < self.data.len()
            invariant
                i <= self.data.len(),
                forall|j: int| 0 <= j < i ==> !((#[trigger] self@.cells[j]).value is NA),
            decreases self.data.len() - i,
        {
            if self.data[i].has_na() {
                assert(self@.cells[i as int].value is NA);
                return true;
            }
            i = i + 1;
        }
        false
    }

    fn pick_na(&self, missing: bool) -> (r: Self)
        requires
            self.wf(),
        ensures
            r.wf(),
            r@.label == self@.label,
            r@.datatype == self@.datatype,
            r@.cells == picked(self@.cells, na_mask(self@.cells, missing)),
    {
        let mut mask: Vec<bool> = Vec::new();
        let mut i: usize = 0;
        while i < self.data.len()
            invariant
                i <= self.data.len(),
                mask@.len() == i,
                forall|j: int|
                    0 <= j < i ==> #[trigger] mask@[j] == ((self@.cells[j].value is NA)
                        == missing),
            decreases self.data.len() - i,
        {
            mask.push(self.data[i].has_na() == missing);
            i = i + 1;
        }
        proof {
            assert(mask@ =~= na_mask(self@.cells, missing));
        }
        self.pick(&mask)
    }

    /// The column of the entries whose value is missing.
    pub fn get_na(&self) -> (r: Self)
        requires
            self.wf(),
        ensures
            r.wf(),
            r@.label == self@.label,
            r@.datatype == self@.datatype,
            r@.cells == picked(self@.cells, na_mask(self@.cells, true)),
    {
        self.pick_na(true)
    }

    /// The column without the entries whose value is missing.
    pub fn drop_na(&self) -> (r: Self)
        requires
            self.wf(),
        ensures
            r.wf(),
            r@.label == self@.label,
            r@.datatype == self@.datatype,
            r@.cells == picked(self@.cells, na_mask(self@.cells, false)),
    {
        self.pick_na(false)
    }

    /// The column of the entries under the keys given, in the order of the
    /// keys; a key that is given more than once counts once.
    pub fn get_subset(&self, indices: Vec<FlexIndex>) -> (r: Self)
        requires
            self.wf(),
        ensures
            r.wf(),
            r@.label == self@.label,
            r@.datatype == self@.datatype,
            r@.cells == chosen(self@.cells, owned_keys(indices@)),
    {
        let ghost keys = owned_keys(indices@);
        let ghost cells = self@.cells;
        let fresh = first_occurrences(&indices);
        let mut records: Vec<FlexDataPoint> = Vec::new();
        let mut i: usize = 0;
        while i < indices.len()
            invariant
                i <= indices.len(),
                self.wf(),
                cells == self@.cells,
                keys == owned_keys(indices@),
                fresh@.len() == indices@.len(),
                forall|j: int|
                    0 <= j < indices@.len() ==> #[trigger] fresh@[j] == !keys.take(j).contains(
                        indices@[j]@,
                    ),
                cells_of(records@) == chosen(cells, keys.take(i as int)),
            decreases indices.len() - i,
        {
            proof {
                assert(keys.take(i + 1).drop_last() =~= keys.take(i as int));
                assert(keys.take(i + 1).last() == indices@[i as int]@);
            }
            let ghost before = cells_of(records@);
            if fresh[i] {
                if let Some(entry) = self.at(&indices[i]) {
                    records.push(entry.clone());
                    proof {
                        assert(cells_of(records@) =~= before.push(entry@));
                    }
                }
            }
            i = i + 1;
        }
        proof {
            assert(keys.take(i as int) =~= keys);
            lemma_chosen_distinct(cells, keys);
            lemma_chosen(cells, keys);
            self.lemma_wf();
            let c = chosen(cells, keys);
            assert forall|j: int| 0 <= j < c.len() implies (#[trigger] c[j]).value.fits(
                self.datatype,
            ) by {
                assert(cells.contains(c[j]));
                let w = choose|w: int| 0 <= w < cells.len() && cells[w] == c[j];
                assert(cells[w].value.fits(self.datatype));
            }
        }
        Self::from_typed(self.label.as_str(), self.datatype, records)
    }

    /// The column with its entries in the order of their keys, rising or falling.
    pub fn sort(&self, ascending: bool) -> (r: Self)
        requires
            self.wf(),
        ensures
            r.wf(),
            r@.label == self@.label,
            r@.datatype == self@.datatype,
            r@.cells.to_multiset() == self@.cells.to_multiset(),
            ordered(r@.cells, ascending),
    {
        let ghost cells = self@.cells;
        proof {
            self.lemma_wf();
            assert(cells.take(0) =~= Seq::<Cell>::empty());
        }
        let mut data: Vec<FlexDataPoint> = Vec::new();
        let mut i: usize = 0;
        proof {
            assert(cells_of(data@) =~= cells.take(0));
        }
        while i < self.data.len()
            invariant
                i <= self.data.len(),
                cells == cells_of(self.data@),
                distinct_keys(cells),
                cells_of(data@).to_multiset() == cells.take(i as int).to_multiset(),
                ordered(cells_of(data@), ascending),
            decreases self.data.len() - i,
        {
            let entry = self.data[i].clone();
            let ghost sorted = cells_of(data@);
            let mut p: usize = data.len();
            while p > 0 && leads(&entry, &data[p - 1], ascending)
                invariant
                    p <= data.len(),
                    sorted == cells_of(data@),
                    forall|j: int|
                        p <= j < sorted.len() ==> if ascending {
                            entry@.key.before((#[trigger] sorted[j]).key)
                        } else {
                            sorted[j].key.before(entry@.key)
                        },
                decreases p,
            {
                assert(sorted[p - 1] == data@[p - 1]@);
                p = p - 1;
            }
            data.insert(p, entry);
            proof {
                let grown = cells_of(data@);
                let e = entry@;
                assert(grown =~= sorted.insert(p as int, e));
                to_multiset_insert(sorted, p as int, e);
                assert(cells.take(i + 1) =~= cells.take(i as int).push(cells[i as int]));
                to_multiset_build(cells.take(i as int), cells[i as int]);
                // An entry sorted so far came from before the place `i`, so its key is another.
                assert forall|j: int| 0 <= j < sorted.len() implies (#[trigger] sorted[j]).key
                    != e.key by {
                    to_multiset_contains(sorted, sorted[j]);
                    to_multiset_contains(cells.take(i as int), sorted[j]);
                    assert(sorted.contains(sorted[j]));
                    let w = choose|w: int|
                        0 <= w < cells.take(i as int).len() && cells.take(i as int)[w] == sorted[j];
                    assert(cells[w].key != cells[i as int].key);
                }
                assert forall|a: int, b: int| 0 <= a < b < grown.len() implies if ascending {
                    (#[trigger] grown[a]).key.before((#[trigger] grown[b]).key)
                } else {
                    grown[b].key.before(grown[a].key)
                } by {
                    if b < p {
                        assert(grown[a] == sorted[a] && grown[b] == sorted[b]);
                    } else if a > p {
                        assert(grown[a] == sorted[a - 1] && grown[b] == sorted[b - 1]);
                    } else if a == p {
                        assert(grown[b] == sorted[b - 1]);
                    } else if b > p {
                        assert(grown[a] == sorted[a] && grown[b] == sorted[b - 1]);
                    } else {
                        // a < p == b: the entry at p - 1 is not behind the new one.
                        assert(grown[a] == sorted[a]);
                        let last = sorted[p - 1];
                        lemma_key_before_total(last.key, e.key);
                        if a < p - 1 {
                            if ascending {
                                lemma_key_before_transitive(sorted[a].key, last.key, e.key);
                            } else {
                                lemma_key_before_transitive(e.key, last.key, sorted[a].key);
                            }
                        }
                    }
                }
            }
            i = i + 1;
        }
        proof {
            assert(cells.take(i as int) =~= cells);
            let sorted = cells_of(data@);
            assert forall|a: int, b: int|
                0 <= a < sorted.len() && 0 <= b < sorted.len() && a != b implies (
            #[trigger] sorted[a]).key != (#[trigger] sorted[b]).key by {
                lemma_key_before_irreflexive(sorted[a].key);
                if a < b {
                    assert(ordered(sorted, ascending));
                } else {
                    assert(ordered(sorted, ascending));
                }
            }
            assert forall|j: int| 0 <= j < sorted.len() implies (#[trigger] sorted[j]).value.fits(
                self.datatype,
            ) by {
                to_multiset_contains(sorted, sorted[j]);
                to_multiset_contains(cells, sorted[j]);
                assert(sorted.contains(sorted[j]));
                let w = choose|w: int| 0 <= w < cells.len() && cells[w] == sorted[j];
                assert(cells[w].value.fits(self.datatype));
            }
        }
        Self::from_typed(self.label.as_str(), self.datatype, data)
    }

    fn join<F: FloatOps>(
        &self,
        op: Operator,
        label: &str,
        datatype: &FlexDataType,
        other: &Self,
        ops: &F,
    ) -> (r: Self)
        requires
            self.wf(),
            other.wf(),
        ensures
            r.wf(),
            r@.label == label@,
            r@.datatype == *datatype,
            joined(ops, op, *datatype, self@.cells, other@.cells, r@.cells),
    {
        let ghost a = self@.cells;
        let ghost b = other@.cells;
        let t = *datatype;
        let mut data: Vec<FlexDataPoint> = Vec::new();
        let mut i: usize = 0;
        proof {
            self.lemma_wf();
        }
        while i < self.data.len()
            invariant
                i <= self.data.len(),
                a == cells_of(self.data@),
                b == other@.cells,
                other.wf(),
                t == *datatype,
                data@.len() == common(a.take(i as int), b).len(),
                forall|j: int|
                    0 <= j < data@.len() ==> (#[trigger] data@[j])@.key == common(
                        a.take(i as int),
                        b,
                    )[j].key && combines(
                        ops,
                        op,
                        t,
                        common(a.take(i as int), b)[j].value,
                        cell_at(b, data@[j]@.key)->0.value,
                        data@[j]@.value,
                    ) && data@[j]@.value.fits(t),
            decreases self.data.len() - i,
        {
            proof {
                assert(a.take(i + 1).drop_last() =~= a.take(i as int));
                assert(a.take(i + 1).last() == self.data@[i as int]@);
            }
            let fdv1 = &self.data[i];
            if let Some(fdv2) = other.at(fdv1.get_index()) {
                let x = convert(fdv1.get_data(), datatype, ops);
                let y = convert(fdv2.get_data(), datatype, ops);
                let val = x.combine(op, &y, ops);
                proof {
                    lemma_yields_fits(ops, op, t, x@, y@, val@);
                    assert(op.yields(ops, x@, y@, val@));
                }
                data.push(FlexDataPoint::new(fdv1.get_index().clone(), val));
            }
            i = i + 1;
        }
        proof {
            assert(a.take(i as int) =~= a);
            lemma_common(a, b);
            let mask = Seq::new(a.len(), |i: int| has_key(b, a[i].key));
            lemma_picked_keeps(a, mask, self.datatype);
            let cells = cells_of(data@);
            let c = common(a, b);
            assert forall|x: int, y: int|
                0 <= x < cells.len() && 0 <= y < cells.len() && x != y implies (
            #[trigger] cells[x]).key != (#[trigger] cells[y]).key by {
                assert(c[x].key != c[y].key);
            }
        }
        Self::from_typed(label, t, data)
    }

    /// The sums, under each key that both columns hold, of the two values
    /// under it, each coerced to the kind given first.
    pub fn add<F: FloatOps>(
        &self,
        label: &str,
        datatype: &FlexDataType,
        other: &Self,
        ops: &F,
    ) -> (r: Self)
        requires
            self.wf(),
            other.wf(),
        ensures
            r.wf(),
            r@.label == label@,
            r@.datatype == *datatype,
            joined(ops, Operator::Plus, *datatype, self@.cells, other@.cells, r@.cells),
    {
        self.join(Operator::Plus, label, datatype, other, ops)
    }

    /// The differences, under each key that both columns hold, of the two
    /// values under it, each coerced to the kind given first.
    pub fn sub<F: FloatOps>(
        &self,
        label: &str,
        datatype: &FlexDataType,
        other: &Self,
        ops: &F,
    ) -> (r: Self)
        requires
            self.wf(),
            other.wf(),
        ensures
            r.wf(),
            r@.label == label@,
            r@.datatype == *datatype,
            joined(ops, Operator::Minus, *datatype, self@.cells, other@.cells, r@.cells),
    {
        self.join(Operator::Minus, label, datatype, other, ops)
    }

    /// The products, under each key that both columns hold, of the two
    /// values under it, each coerced to the kind given first.
    pub fn prod<F: FloatOps>(
        &self,
        label: &str,
        datatype: &FlexDataType,
        other: &Self,
        ops: &F,
    ) -> (r: Self)
        requires
            self.wf(),
            other.wf(),
        ensures
            r.wf(),
            r@.label == label@,
            r@.datatype == *datatype,
            joined(ops, Operator::Times, *datatype, self@.cells, other@.cells, r@.cells),
    {
        self.join(Operator::Times, label, datatype, other, ops)
    }

    /// A copy of the next entry that has not been handed out; once all are
    /// out, nothing, and the round starts again.
    pub fn next(&mut self) -> (r: Option<FlexDataPoint>)
        requires
            old(self).wf(),
        ensures
            final(self).wf(),
            final(self)@ == old(self)@,
            match r {
                Some(p) => old(self).cursor() < old(self)@.cells.len() && final(self).cursor()
                    == old(self).cursor() + 1 && p@ == old(self)@.cells[old(self).cursor() as int],
                None => old(self).cursor() >= old(self)@.cells.len() && final(self).cursor() == 0,
            },
    {
        if self.iter_counter < self.data.len() {
            let dv = self.data[self.iter_counter].clone();
            self.iter_counter = self.iter_counter + 1;
            Some(dv)
        } else {
            self.iter_counter = 0;
            None
        }
    }

    /// The numbers of the column, in its order: what statistics of the
    /// column are computed from.
    pub fn numbers<F: FloatOps>(&self, ops: &F) -> (r: Vec<u64>)
        ensures
            numbers_of(ops, self@.cells, r@),
    {
        let ghost cells = self@.cells;
        let mut out: Vec<u64> = Vec::new();
        let mut i: usize = 0;
        while i < self.data.len()
            invariant
                i <= self.data.len(),
                cells == cells_of(self.data@),
                numbers_of(ops, cells.take(i as int), out@),
            decreases self.data.len() - i,
        {
            let ghost part = cells.take(i as int);
            let ghost grown = cells.take(i + 1);
            let ghost before = out@;
            proof {
                assert(grown.drop_last() =~= part);
                assert(numeric_mask(grown).drop_last() =~= numeric_mask(part));
                assert(grown.last() == self.data@[i as int]@);
            }
            match convert(self.data[i].get_data(), &FlexDataType::Dbl, ops) {
                FlexData::Dbl(bits) => {
                    out.push(bits);
                    proof {
                        let p = picked(grown, numeric_mask(grown));
                        assert(p == picked(part, numeric_mask(part)).push(grown.last()));
                        assert forall|j: int| 0 <= j < out@.len() implies converts(
                            ops,
                            p[j].value,
                            FlexDataType::Dbl,
                            Datum::Dbl(#[trigger] out@[j]),
                        ) by {
                            if j < before.len() {
                                assert(out@[j] == before[j]);
                            }
                        }
                    }
                },
                _ => {},
            }
            i = i + 1;
        }
        proof {
            assert(cells.take(i as int) =~= cells);
        }
        out
    }

    /// The pairs of numbers that this column and the other hold under the
    /// keys that both hold: what statistics of the two are computed from.
    pub fn paired_numbers<F: FloatOps>(&self, other: &Self, ops: &F) -> (r: Vec<(u64, u64)>)
        requires
            self.wf(),
            other.wf(),
        ensures
            pairs_of(ops, self@.cells, other@.cells, r@),
    {
        let ghost a = self@.cells;
        let ghost b = other@.cells;
        let mut out: Vec<(u64, u64)> = Vec::new();
        let mut i: usize = 0;
        while i < self.data.len()
            invariant
                i <= self.data.len(),
                a == cells_of(self.data@),
                b == other@.cells,
                other.wf(),
                out@.len() == picked(a.take(i as int), pair_mask(a, b).take(i as int)).len(),
                forall|j: int|
                    0 <= j < out@.len() ==> converts(
                        ops,
                        picked(a.take(i as int), pair_mask(a, b).take(i as int))[j].value,
                        FlexDataType::Dbl,
                        Datum::Dbl((#[trigger] out@[j]).0),
                    ) && converts(
                        ops,
                        cell_at(
                            b,
                            picked(a.take(i as int), pair_mask(a, b).take(i as int))[j].key,
                        )->0.value,
                        FlexDataType::Dbl,
                        Datum::Dbl(out@[j].1),
                    ),
            decreases self.data.len() - i,
        {
            let ghost part = a.take(i as int);
            let ghost grown = a.take(i + 1);
            let ghost mask = pair_mask(a, b);
            let ghost before = out@;
            proof {
                assert(grown.drop_last() =~= part);
                assert(mask.take(i + 1).drop_last() =~= mask.take(i as int));
                assert(grown.last() == self.data@[i as int]@);
                assert(mask.take(i + 1).last() == mask[i as int]);
            }
            let entry = &self.data[i];
            if let Some(twin) = other.at(entry.get_index()) {
                let x = convert(entry.get_data(), &FlexDataType::Dbl, ops);
                let y = convert(twin.get_data(), &FlexDataType::Dbl, ops);
                match (x, y) {
                    (FlexData::Dbl(first), FlexData::Dbl(second)) => {
                        out.push((first, second));
                        proof {
                            let p = picked(grown, mask.take(i + 1));
                            assert(mask[i as int]);
                            assert(p == picked(part, mask.take(i as int)).push(grown.last()));
                            assert forall|j: int| 0 <= j < out@.len() implies converts(
                                ops,
                                p[j].value,
                                FlexDataType::Dbl,
                                Datum::Dbl((#[trigger] out@[j]).0),
                            ) && converts(
                                ops,
                                cell_at(b, p[j].key)->0.value,
                                FlexDataType::Dbl,
                                Datum::Dbl(out@[j].1),
                            ) by {
                                if j < before.len() {
                                    assert(out@[j] == before[j]);
                                }
                            }
                        }
                    },
                    _ => {
                        assert(!mask[i as int]);
                    },
                }
            } else {
                assert(!mask[i as int]);
            }
            i = i + 1;
        }
        proof {
            assert(a.take(i as int) =~= a);
            assert(pair_mask(a, b).take(i as int) =~= pair_mask(a, b));
        }
        out
    }

    /// Whether an entry stands under a key.
    pub fn contains(&self, index: &FlexIndex) -> (r: bool)
        requires
            self.wf(),
        ensures
            r == has_key(self@.cells, index@),
    {
        proof {
            lemma_indexes(self.index_to_pos@, self@.cells);
        }
        self.index_to_pos.contains(index)
    }
}

impl Index<usize> for FlexSeries {
    type Output = FlexDataPoint;

    fn index(&self, index: usize) -> (r: &FlexDataPoint)
        ensures
            *r == self.held()[index as int],
            r@ == self@.cells[index as int],
    {
        &self.data[index]
    }
}

impl vstd::std_specs::core::IndexSpecImpl<usize> for FlexSeries {
    open spec fn index_req(&self, index: &usize) -> bool {
        *index < self@.cells.len()
    }
}

impl Index<u32> for FlexSeries {
    type Output = FlexDataPoint;

    fn index(&self, index: u32) -> (r: &FlexDataPoint)
        ensures
            *r == self.held()[index as int],
            r@ == self@.cells[index as int],
    {
        &self.data[index as usize]
    }
}

impl vstd::std_specs::core::IndexSpecImpl<u32> for FlexSeries {
    open spec fn index_req(&self, index: &u32) -> bool {
        *index < self@.cells.len()
    }
}

impl Index<i32> for FlexSeries {
    type Output = FlexDataPoint;

    fn index(&self, index: i32) -> (r: &FlexDataPoint)
        ensures
            r@ == self@.cells[if index >= 0 {
                index as int
            } else {
                self@.cells.len() + index
            }],
    {
        if index >= 0 {
            &self.data[index as usize]
        } else {
            &self.data[self.data.len() - ((-(index as i64)) as usize)]
        }
    }
}

impl vstd::std_specs::core::IndexSpecImpl<i32> for FlexSeries {
    open spec fn index_req(&self, index: &i32) -> bool {
        if *index >= 0 {
            *index < self@.cells.len()
        } else {
            -*index <= self@.cells.len()
        }
    }
}

} // verus!
