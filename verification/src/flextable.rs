//! Tables: rows under distinct keys across labelled, typed columns, with an
//! index from key to row and one from label to column.

use vstd::prelude::*;
use vstd::hash_map::StringHashMap;
use vstd::seq_lib::{to_multiset_build, to_multiset_contains, to_multiset_insert};
use rayon::iter::{IntoParallelRefIterator, ParallelIterator};
use std::ops::Index;
use crate::flexdata::{
    lemma_below_asymmetric, lemma_not_below_transitive, Datum, FlexData, FlexDataType,
};
use crate::flexdatapoint::{Cell, FlexDataPoint};
use crate::flexdatavector::{FlexDataVector, Row};
use crate::flexseries::{
    aligned, all_fit, cell_at, cells_of, distinct_keys, has_key, lemma_picks, lemma_place_of, picks,
    place_of, Column, FlexSeries,
};
use crate::float::FloatOps;
use crate::globals::{FlexIndex, Key};
use crate::helper::{
    convert, converts, first_occurrences, key_eligible, key_of_data, make_index_from_data,
    owned_keys, views,
};
use crate::keyindex::KeyIndex;

verus! {

/// The mathematical value of a [`FlexTable`]: the labels and declared kinds
/// of the columns and the rows in their order.
pub struct Table {
    pub labels: Seq<Seq<char>>,
    pub datatypes: Seq<FlexDataType>,
    pub rows: Seq<Row>,
}

/// The views of the rows of a vector.
pub open spec fn rows_of(v: Seq<FlexDataVector>) -> Seq<Row> {
    Seq::new(v.len(), |i: int| v[i]@)
}

/// The views of the labels of a vector.
pub open spec fn labels_of(v: Seq<String>) -> Seq<Seq<char>> {
    Seq::new(v.len(), |i: int| v[i]@)
}

/// Whether no key stands over two rows.
pub open spec fn distinct_rows(rows: Seq<Row>) -> bool {
    forall|i: int, j: int|
        0 <= i < rows.len() && 0 <= j < rows.len() && i != j ==> (#[trigger] rows[i]).key != (
        #[trigger] rows[j]).key
}

/// Whether every row has one value for each kind, of that kind or missing.
pub open spec fn rows_fit(rows: Seq<Row>, datatypes: Seq<FlexDataType>) -> bool {
    forall|i: int|
        0 <= i < rows.len() ==> (#[trigger] rows[i]).values.len() == datatypes.len() && forall|
            j: int,
        |
            0 <= j < datatypes.len() ==> (#[trigger] rows[i].values[j]).fits(datatypes[j])
}

/// Whether a row stands under the key.
pub open spec fn has_row(rows: Seq<Row>, k: Key) -> bool {
    exists|i: int| 0 <= i < rows.len() && (#[trigger] rows[i]).key == k
}

/// The place of the row under the key.
pub open spec fn row_place(rows: Seq<Row>, k: Key) -> int
    recommends
        has_row(rows, k),
{
    choose|i: int| 0 <= i < rows.len() && (#[trigger] rows[i]).key == k
}

/// The row under the key, if there is one.
pub open spec fn row_at(rows: Seq<Row>, k: Key) -> Option<Row> {
    if has_row(rows, k) {
        Some(rows[row_place(rows, k)])
    } else {
        None
    }
}

/// The place that each label names: where a label stands more than once,
/// its last place.
pub open spec fn label_map(labels: Seq<Seq<char>>) -> Map<Seq<char>, usize>
    decreases labels.len(),
{
    if labels.len() == 0 {
        Map::empty()
    } else {
        label_map(labels.drop_last()).insert(labels.last(), (labels.len() - 1) as usize)
    }
}

/// A label names a place where it stands in the list, and the place that it
/// names holds it.
pub proof fn lemma_label_map(labels: Seq<Seq<char>>)
    requires
        labels.len() <= usize::MAX,
    ensures
        forall|l: Seq<char>| #[trigger]
            label_map(labels).contains_key(l) ==> label_map(labels)[l] < labels.len()
                && labels[label_map(labels)[l] as int] == l,
        forall|i: int| 0 <= i < labels.len() ==> label_map(labels).contains_key(#[trigger] labels[i]),
    decreases labels.len(),
{
    if labels.len() > 0 {
        lemma_label_map(labels.drop_last());
        assert forall|i: int| 0 <= i < labels.len() implies label_map(labels).contains_key(
            #[trigger] labels[i],
        ) by {
            if i < labels.len() - 1 {
                assert(labels.drop_last()[i] == labels[i]);
            }
        }
        assert forall|l: Seq<char>| #[trigger]
            label_map(labels).contains_key(l) implies label_map(labels)[l] < labels.len()
            && labels[label_map(labels)[l] as int] == l by {
            if l != labels.last() {
                let p = label_map(labels.drop_last())[l];
                assert(labels.drop_last()[p as int] == labels[p as int]);
            }
        }
    }
}

/// Whether an index gives, for each key, the place of the row under it, and
/// holds no other key.
pub open spec fn indexes_rows(index: Map<Key, usize>, rows: Seq<Row>) -> bool {
    &&& forall|i: int|
        0 <= i < rows.len() ==> index.contains_key((#[trigger] rows[i]).key) && index[rows[i].key]
            == i
    &&& forall|k: Key| #[trigger]
        index.contains_key(k) ==> index[k] < rows.len() && rows[index[k] as int].key == k
}

/// Under an index the keys of the rows are distinct, and the index tells
/// which are there.
pub proof fn lemma_indexes_rows(index: Map<Key, usize>, rows: Seq<Row>)
    requires
        indexes_rows(index, rows),
    ensures
        distinct_rows(rows),
        forall|k: Key| index.contains_key(k) <==> has_row(rows, k),
        forall|k: Key| has_row(rows, k) ==> row_place(rows, k) == index[k],
{
    assert forall|k: Key| index.contains_key(k) implies has_row(rows, k) by {
        assert(rows[index[k] as int].key == k);
    }
    assert forall|k: Key| has_row(rows, k) implies row_place(rows, k) == index[k] by {
        let p = row_place(rows, k);
        assert(rows[p].key == k);
    }
}

/// Builds the index of rows with distinct keys.
pub fn index_rows(data: &Vec<FlexDataVector>) -> (r: KeyIndex)
    requires
        distinct_rows(rows_of(data@)),
    ensures
        indexes_rows(r@, rows_of(data@)),
{
    let ghost rows = rows_of(data@);
    let mut index = KeyIndex::new();
    let mut i: usize = 0;
    while i < data.len()
        invariant
            i <= data.len(),
            rows == rows_of(data@),
            distinct_rows(rows),
            indexes_rows(index@, rows.take(i as int)),
        decreases data.len() - i,
    {
        let ghost before = index@;
        index.insert(data[i].get_index().clone(), i);
        proof {
            let grown = rows.take(i + 1);
            assert(rows[i as int].key == data@[i as int]@.key);
            assert forall|j: int| 0 <= j < grown.len() implies index@.contains_key(
                (#[trigger] grown[j]).key,
            ) && index@[grown[j].key] == j by {
                if j < i {
                    assert(rows.take(i as int)[j] == grown[j]);
                    assert(rows[j].key != rows[i as int].key);
                }
            }
            assert forall|k: Key| #[trigger] index@.contains_key(k) implies index@[k] < grown.len()
                && grown[index@[k] as int].key == k by {
                if k != rows[i as int].key {
                    assert(before.contains_key(k));
                    assert(rows.take(i as int)[before[k] as int] == grown[before[k] as int]);
                }
            }
        }
        i = i + 1;
    }
    proof {
        assert(rows.take(i as int) =~= rows);
    }
    index
}

/// Builds the map from each label to the place that it names.
pub fn index_labels(labels: &Vec<String>) -> (r: StringHashMap<usize>)
    ensures
        r@ == label_map(labels_of(labels@)),
{
    let ghost all = labels_of(labels@);
    let mut map: StringHashMap<usize> = StringHashMap::new();
    let mut i: usize = 0;
    proof {
        assert(all.take(0) =~= Seq::<Seq<char>>::empty());
    }
    while i < labels.len()
        invariant
            i <= labels.len(),
            all == labels_of(labels@),
            map@ == label_map(all.take(i as int)),
        decreases labels.len() - i,
    {
        proof {
            assert(all.take(i + 1).drop_last() =~= all.take(i as int));
            assert(all.take(i + 1).last() == labels@[i as int]@);
        }
        map.insert(labels[i].clone(), i);
        i = i + 1;
    }
    proof {
        assert(all.take(i as int) =~= all);
    }
    map
}

/// Clones a vector of rows.
pub fn clone_rows(data: &Vec<FlexDataVector>) -> (r: Vec<FlexDataVector>)
    ensures
        rows_of(r@) == rows_of(data@),
        r@.len() == data@.len(),
{
    let mut out: Vec<FlexDataVector> = Vec::new();
    let mut i: usize = 0;
    while i < data.len()
        invariant
            i <= data.len(),
            out@.len() == i,
            forall|j: int| 0 <= j < i ==> (#[trigger] out@[j])@ == data@[j]@,
        decreases data.len() - i,
    {
        out.push(data[i].clone());
        i = i + 1;
    }
    proof {
        assert(rows_of(out@) =~= rows_of(data@));
    }
    out
}

/// Clones a vector of labels.
pub fn clone_labels(labels: &Vec<String>) -> (r: Vec<String>)
    ensures
        labels_of(r@) == labels_of(labels@),
        r@.len() == labels@.len(),
{
    let mut out: Vec<String> = Vec::new();
    let mut i: usize = 0;
    while i < labels.len()
        invariant
            i <= labels.len(),
            out@.len() == i,
            forall|j: int| 0 <= j < i ==> (#[trigger] out@[j])@ == labels@[j]@,
        decreases labels.len() - i,
    {
        out.push(labels[i].clone());
        i = i + 1;
    }
    proof {
        assert(labels_of(out@) =~= labels_of(labels@));
    }
    out
}

/// Clones a vector of kinds.
pub fn clone_kinds(kinds: &Vec<FlexDataType>) -> (r: Vec<FlexDataType>)
    ensures
        r@ == kinds@,
{
    let mut out: Vec<FlexDataType> = Vec::new();
    let mut i: usize = 0;
    while i < kinds.len()
        invariant
            i <= kinds.len(),
            out@ == kinds@.take(i as int),
        decreases kinds.len() - i,
    {
        out.push(kinds[i]);
        proof {
            assert(kinds@.take(i as int).push(kinds@[i as int]) =~= kinds@.take(i + 1));
        }
        i = i + 1;
    }
    proof {
        assert(kinds@.take(i as int) =~= kinds@);
    }
    out
}

/// The entry of a row in the column at `pos`: the value there under the
/// row's key.
pub open spec fn cell_in(row: Row, pos: int) -> Cell {
    Cell { key: row.key, value: row.values[pos] }
}

/// The column at `pos` of a table.
pub open spec fn column_at(table: Table, pos: int) -> Column {
    Column {
        label: table.labels[pos],
        datatype: table.datatypes[pos],
        cells: Seq::new(table.rows.len(), |i: int| cell_in(table.rows[i], pos)),
    }
}

/// The entry of a row in the column at `pos`.
pub fn entry_at(row: &FlexDataVector, pos: usize) -> (r: FlexDataPoint)
    requires
        pos < row@.values.len(),
    ensures
        r@ == cell_in(row@, pos as int),
{
    proof {
        row.lemma_view();
    }
    FlexDataPoint::new(row.get_index().clone(), row.get_data()[pos].clone())
}

/// What `f` makes of each item, made by `rayon`'s `par_iter`, `map` and
/// `collect`: the items are worked on side by side, `f` is called on each
/// item once, and the vector collected holds what `f` made of each item, in
/// the order of the items.
#[verifier::external_body]
fn par_map<T: Sync, U: Send, P: Fn(&T) -> U + Sync + Send>(items: &Vec<T>, f: P) -> (r: Vec<U>)
    requires
        forall|i: int| 0 <= i < items@.len() ==> call_requires(f, (&#[trigger] items@[i],)),
    ensures
        r@.len() == items@.len(),
        forall|i: int| 0 <= i < items@.len() ==> call_ensures(f, (&items@[i],), #[trigger] r@[i]),
{
    items.par_iter().map(f).collect()
}

/// The value that a run of entries holds under a key: a missing value where
/// it holds none.
pub open spec fn value_under(cells: Seq<Cell>, k: Key) -> Datum {
    match cell_at(cells, k) {
        Some(c) => c.value,
        None => Datum::NA,
    }
}

/// An entry of a column brought up to a list of keys holds, under a key of
/// the list, the value that the column held under it, and a missing value
/// where the column held none.
pub proof fn lemma_value_under_aligned(old: Seq<Cell>, keys: Seq<Key>, new: Seq<Cell>, k: Key)
    requires
        aligned(old, keys, new),
        distinct_keys(old),
        distinct_keys(new),
        has_key(new, k),
    ensures
        new[place_of(new, k)].value == value_under(old, k),
{
    let q = place_of(new, k);
    assert(new[q].key == k);
    if has_key(old, k) {
        let p = place_of(old, k);
        assert(old[p].key == k);
        assert(new[p] == old[p]);
        lemma_place_of(new, p);
    } else {
        if q < old.len() {
            assert(new[q] == old[q]);
            assert(old[q].key == k);
        }
    }
}

/// The rows whose place the mask marks, in their order.
pub open spec fn picked_rows(rows: Seq<Row>, mask: Seq<bool>) -> Seq<Row>
    decreases rows.len(),
{
    if rows.len() == 0 || mask.len() != rows.len() {
        Seq::empty()
    } else if mask.last() {
        picked_rows(rows.drop_last(), mask.drop_last()).push(rows.last())
    } else {
        picked_rows(rows.drop_last(), mask.drop_last())
    }
}

/// The rows picked are those at the places that the mask marks.
pub proof fn lemma_picked_rows(rows: Seq<Row>, mask: Seq<bool>)
    requires
        mask.len() == rows.len(),
    ensures
        picked_rows(rows, mask).len() == picks(mask).len(),
        forall|j: int|
            0 <= j < picks(mask).len() ==> #[trigger] picked_rows(rows, mask)[j] == rows[picks(
                mask,
            )[j]],
    decreases rows.len(),
{
    if rows.len() > 0 {
        lemma_picked_rows(rows.drop_last(), mask.drop_last());
        lemma_picks(mask.drop_last());
    }
}

/// Picking from rows with distinct keys that fit the kinds leaves rows with
/// distinct keys that fit them.
pub proof fn lemma_picked_rows_keep(rows: Seq<Row>, mask: Seq<bool>, datatypes: Seq<FlexDataType>)
    requires
        mask.len() == rows.len(),
        distinct_rows(rows),
        rows_fit(rows, datatypes),
    ensures
        distinct_rows(picked_rows(rows, mask)),
        rows_fit(picked_rows(rows, mask), datatypes),
{
    lemma_picked_rows(rows, mask);
    lemma_picks(mask);
    let p = picked_rows(rows, mask);
    let at = picks(mask);
    assert forall|a: int, b: int| 0 <= a < p.len() && 0 <= b < p.len() && a != b implies (
    #[trigger] p[a]).key != (#[trigger] p[b]).key by {
        if a < b {
            assert(at[a] < at[b]);
        } else {
            assert(at[b] < at[a]);
        }
        assert(rows[at[a]].key != rows[at[b]].key);
    }
    assert forall|i: int| 0 <= i < p.len() implies (#[trigger] p[i]).values.len()
        == datatypes.len() && forall|j: int|
        0 <= j < datatypes.len() ==> (#[trigger] p[i].values[j]).fits(datatypes[j]) by {
        assert(rows[at[i]].values.len() == datatypes.len());
        assert forall|j: int| 0 <= j < datatypes.len() implies (#[trigger] p[i].values[j]).fits(
            datatypes[j],
        ) by {
            assert(rows[at[i]].values[j].fits(datatypes[j]));
        }
    }
}

/// The rows under the keys given, in the order of the keys. A key that no
/// row stands under gives none, and a key that stands in the list more than
/// once counts where it stands first.
pub open spec fn chosen_rows(rows: Seq<Row>, keys: Seq<Key>) -> Seq<Row>
    decreases keys.len(),
{
    if keys.len() == 0 {
        Seq::empty()
    } else if keys.drop_last().contains(keys.last()) {
        chosen_rows(rows, keys.drop_last())
    } else {
        match row_at(rows, keys.last()) {
            Some(r) => chosen_rows(rows, keys.drop_last()).push(r),
            None => chosen_rows(rows, keys.drop_last()),
        }
    }
}

/// Every row chosen stands among the rows under one of the keys given.
pub proof fn lemma_chosen_rows(rows: Seq<Row>, keys: Seq<Key>)
    ensures
        chosen_rows(rows, keys).len() <= keys.len(),
        forall|j: int|
            0 <= j < chosen_rows(rows, keys).len() ==> rows.contains(
                #[trigger] chosen_rows(rows, keys)[j],
            ) && keys.contains(chosen_rows(rows, keys)[j].key),
    decreases keys.len(),
{
    if keys.len() > 0 {
        let front = keys.drop_last();
        lemma_chosen_rows(rows, front);
        let c = chosen_rows(rows, keys);
        let d = chosen_rows(rows, front);
        assert forall|j: int| 0 <= j < c.len() implies rows.contains(#[trigger] c[j])
            && keys.contains(c[j].key) by {
            if j < d.len() {
                assert(c[j] == d[j]);
                let w = choose|w: int| 0 <= w < front.len() && front[w] == d[j].key;
                assert(keys[w] == d[j].key);
            } else {
                let k = keys.last();
                let q = row_place(rows, k);
                assert(rows[q].key == k);
                assert(c[j] == rows[q]);
                assert(keys[keys.len() - 1] == k);
            }
        }
    }
}

/// The rows chosen have distinct keys.
pub proof fn lemma_chosen_rows_distinct(rows: Seq<Row>, keys: Seq<Key>)
    ensures
        distinct_rows(chosen_rows(rows, keys)),
    decreases keys.len(),
{
    if keys.len() > 0 {
        let front = keys.drop_last();
        lemma_chosen_rows_distinct(rows, front);
        lemma_chosen_rows(rows, front);
        let c = chosen_rows(rows, keys);
        let d = chosen_rows(rows, front);
        assert forall|a: int, b: int| 0 <= a < c.len() && 0 <= b < c.len() && a != b implies (
        #[trigger] c[a]).key != (#[trigger] c[b]).key by {
            if a < d.len() && b < d.len() {
                assert(c[a] == d[a] && c[b] == d[b]);
            } else {
                let k = keys.last();
                let q = row_place(rows, k);
                assert(rows[q].key == k);
                let low = if a < b { a } else { b };
                assert(c[low] == d[low]);
                assert(front.contains(d[low].key));
            }
        }
    }
}

/// Whether a row holds a missing value in a column that one of the labels names.
pub open spec fn missing_where_named(row: Row, labels: Seq<Seq<char>>) -> bool {
    exists|j: int|
        0 <= j < labels.len() && row.values[label_map(labels)[#[trigger] labels[j]] as int] is NA
}

/// The mask of the rows that hold a missing value in a named column, or of
/// those that hold none.
pub open spec fn missing_mask(rows: Seq<Row>, labels: Seq<Seq<char>>, missing: bool) -> Seq<bool> {
    Seq::new(rows.len(), |i: int| missing_where_named(rows[i], labels) == missing)
}

/// The place of a row among rows with distinct keys is the one place that
/// holds its key.
pub proof fn lemma_row_place(rows: Seq<Row>, i: int)
    requires
        distinct_rows(rows),
        0 <= i < rows.len(),
    ensures
        has_row(rows, rows[i].key),
        row_place(rows, rows[i].key) == i,
        row_at(rows, rows[i].key) == Some(rows[i]),
{
    let k = rows[i].key;
    assert(rows[i].key == k);
    let p = row_place(rows, k);
    assert(rows[p].key == k);
}

/// A run of the same rows as a run with distinct keys holds no row twice.
pub proof fn lemma_same_rows_distinct(sorted: Seq<Row>, rows: Seq<Row>)
    requires
        sorted.to_multiset() == rows.to_multiset(),
        distinct_rows(rows),
    ensures
        sorted.no_duplicates(),
{
    assert(rows.no_duplicates()) by {
        assert forall|i: int, j: int|
            0 <= i < rows.len() && 0 <= j < rows.len() && i != j implies rows[i] != rows[j] by {
            assert(rows[i].key != rows[j].key);
        }
    }
    rows.lemma_multiset_has_no_duplicates();
    sorted.lemma_multiset_has_no_duplicates_conv();
}

/// Whether the values that the rows hold at `pos` can be compared, each
/// with each other.
pub open spec fn column_comparable(rows: Seq<Row>, pos: int) -> bool {
    forall|i: int, j: int|
        0 <= i < rows.len() && 0 <= j < rows.len() && i != j ==> (#[trigger] rows[i]).values[pos].comparable(
            (#[trigger] rows[j]).values[pos],
        )
}

/// Whether the values that the rows hold at `pos` never fall from a row to
/// a later one, or never rise.
pub open spec fn rows_ordered(rows: Seq<Row>, pos: int, ascending: bool) -> bool {
    forall|i: int, j: int|
        0 <= i < j < rows.len() ==> if ascending {
            !(#[trigger] rows[j]).values[pos].below((#[trigger] rows[i]).values[pos])
        } else {
            !rows[i].values[pos].below(rows[j].values[pos])
        }
}

/// Whether rows of `new` that hold values at `pos` of which neither comes
/// before the other stand in the order in which they stand in `old`.
pub open spec fn ties_keep_order(old: Seq<Row>, new: Seq<Row>, pos: int) -> bool {
    forall|i: int, j: int|
        0 <= i < j < new.len() && !(#[trigger] new[i]).values[pos].below(
            (#[trigger] new[j]).values[pos],
        ) && !new[j].values[pos].below(new[i].values[pos]) ==> row_place(old, new[i].key)
            < row_place(old, new[j].key)
}

/// Whether the first row belongs ahead of the second by the values that
/// they hold at `pos`, in a rising or a falling order.
fn row_leads(
    first: &FlexDataVector,
    second: &FlexDataVector,
    pos: usize,
    ascending: bool,
) -> (r: bool)
    requires
        pos < first@.values.len(),
        pos < second@.values.len(),
    ensures
        r == (if ascending {
            first@.values[pos as int].below(second@.values[pos as int])
        } else {
            second@.values[pos as int].below(first@.values[pos as int])
        }),
{
    proof {
        first.lemma_view();
        second.lemma_view();
    }
    if ascending {
        first.get_data()[pos].below(&second.get_data()[pos])
    } else {
        second.get_data()[pos].below(&first.get_data()[pos])
    }
}

/// The mask of the rows whose text is the name given.
pub open spec fn name_mask(texts: Seq<Seq<char>>, name: Seq<char>) -> Seq<bool> {
    Seq::new(texts.len(), |i: int| texts[i] == name)
}

/// How many of the texts are the name given.
pub open spec fn count_of(texts: Seq<Seq<char>>, name: Seq<char>) -> nat
    decreases texts.len(),
{
    if texts.len() == 0 {
        0
    } else if texts.last() == name {
        count_of(texts.drop_last(), name) + 1
    } else {
        count_of(texts.drop_last(), name)
    }
}

/// How many of the texts are one of the names given, each name counted for itself.
pub open spec fn count_of_all(texts: Seq<Seq<char>>, names: Seq<Seq<char>>) -> nat
    decreases names.len(),
{
    if names.len() == 0 {
        0
    } else {
        count_of_all(texts, names.drop_last()) + count_of(texts, names.last())
    }
}

/// A mask marks as many places as texts are the name.
pub proof fn lemma_count_of(texts: Seq<Seq<char>>, name: Seq<char>)
    ensures
        picks(name_mask(texts, name)).len() == count_of(texts, name),
    decreases texts.len(),
{
    if texts.len() > 0 {
        lemma_count_of(texts.drop_last(), name);
        assert(name_mask(texts, name).drop_last() =~= name_mask(texts.drop_last(), name));
    }
}

/// One more text that is one of the names, which do not repeat, is one more
/// in the count.
pub proof fn lemma_count_of_all_push(texts: Seq<Seq<char>>, names: Seq<Seq<char>>, t: Seq<char>)
    requires
        names.no_duplicates(),
    ensures
        count_of_all(texts.push(t), names) == count_of_all(texts, names) + (if names.contains(t) {
            1nat
        } else {
            0nat
        }),
    decreases names.len(),
{
    if names.len() > 0 {
        let front = names.drop_last();
        assert(front.no_duplicates());
        lemma_count_of_all_push(texts, front, t);
        assert(texts.push(t).drop_last() =~= texts);
        if names.last() == t {
            if front.contains(t) {
                let w = choose|w: int| 0 <= w < front.len() && front[w] == t;
                assert(names[w] == names[names.len() - 1]);
            }
            assert(names[names.len() - 1] == t);
        } else {
            if names.contains(t) {
                let w = choose|w: int| 0 <= w < names.len() && names[w] == t;
                assert(front[w] == t);
            } else if front.contains(t) {
                let w = choose|w: int| 0 <= w < front.len() && front[w] == t;
                assert(names[w] == t);
            }
        }
    }
}

/// Where every text is one of the names, and the names do not repeat, the
/// names count every text once.
pub proof fn lemma_count_of_all(texts: Seq<Seq<char>>, names: Seq<Seq<char>>)
    requires
        names.no_duplicates(),
        forall|i: int| 0 <= i < texts.len() ==> names.contains(#[trigger] texts[i]),
    ensures
        count_of_all(texts, names) == texts.len(),
    decreases texts.len(),
{
    if texts.len() == 0 {
        assert(texts =~= Seq::<Seq<char>>::empty());
        lemma_count_of_all_none(names);
    } else {
        let front = texts.drop_last();
        assert forall|i: int| 0 <= i < front.len() implies names.contains(#[trigger] front[i]) by {
            assert(front[i] == texts[i]);
        }
        lemma_count_of_all(front, names);
        lemma_count_of_all_push(front, names, texts.last());
        assert(front.push(texts.last()) =~= texts);
        assert(names.contains(texts[texts.len() - 1]));
    }
}

/// No text is counted where there is none.
pub proof fn lemma_count_of_all_none(names: Seq<Seq<char>>)
    ensures
        count_of_all(Seq::empty(), names) == 0,
    decreases names.len(),
{
    if names.len() > 0 {
        lemma_count_of_all_none(names.drop_last());
    }
}

/// The keys of rows, in their order.
pub open spec fn row_keys(rows: Seq<Row>) -> Seq<Key> {
    Seq::new(rows.len(), |i: int| rows[i].key)
}

/// Whether a map gives, for each name, its place among the names, and
/// holds no other text.
pub open spec fn names_indexed(lookup: Map<Seq<char>, usize>, names: Seq<Seq<char>>) -> bool {
    &&& forall|g: int|
        0 <= g < names.len() ==> lookup.contains_key(#[trigger] names[g]) && lookup[names[g]] == g
    &&& forall|n: Seq<char>| #[trigger]
        lookup.contains_key(n) ==> lookup[n] < names.len() && names[lookup[n] as int] == n
}

/// Where the text of every row is on record and a name is not, no row is
/// picked under that name.
pub proof fn lemma_none_picked(
    rows: Seq<Row>,
    texts: Seq<Seq<char>>,
    name: Seq<char>,
    lookup: Map<Seq<char>, usize>,
)
    requires
        texts.len() == rows.len(),
        !lookup.contains_key(name),
        forall|i: int| 0 <= i < texts.len() ==> lookup.contains_key(#[trigger] texts[i]),
    ensures
        picked_rows(rows, name_mask(texts, name)) == Seq::<Row>::empty(),
{
    let mask = name_mask(texts, name);
    lemma_picked_rows(rows, mask);
    lemma_picks(mask);
    if picks(mask).len() > 0 {
        let i = picks(mask)[0];
        assert(mask[i]);
        assert(lookup.contains_key(texts[i]));
    }
    assert(picked_rows(rows, mask) =~= Seq::<Row>::empty());
}

/// The rows at places that rise, chosen by their keys among rows with
/// distinct keys, are those rows.
pub proof fn lemma_chosen_at(rows: Seq<Row>, at: Seq<int>)
    requires
        distinct_rows(rows),
        forall|j: int| 0 <= j < at.len() ==> 0 <= #[trigger] at[j] < rows.len(),
        forall|a: int, b: int| 0 <= a < b < at.len() ==> #[trigger] at[a] < #[trigger] at[b],
    ensures
        chosen_rows(rows, Seq::new(at.len(), |j: int| rows[at[j]].key)) == Seq::new(
            at.len(),
            |j: int| rows[at[j]],
        ),
    decreases at.len(),
{
    let keys = Seq::new(at.len(), |j: int| rows[at[j]].key);
    let picked = Seq::new(at.len(), |j: int| rows[at[j]]);
    if at.len() == 0 {
        assert(picked =~= Seq::<Row>::empty());
    } else {
        let front = at.drop_last();
        lemma_chosen_at(rows, front);
        let front_keys = Seq::new(front.len(), |j: int| rows[front[j]].key);
        assert(keys.drop_last() =~= front_keys);
        let last = at[at.len() - 1];
        assert(keys.last() == rows[last].key);
        if front_keys.contains(keys.last()) {
            let w = choose|w: int| 0 <= w < front_keys.len() && front_keys[w] == keys.last();
            assert(at[w] < at[at.len() - 1]);
            assert(rows[at[w]].key != rows[last].key);
        }
        lemma_row_place(rows, last);
        assert(Seq::new(front.len(), |j: int| rows[front[j]]).push(rows[last]) =~= picked);
    }
}

/// The rows picked by a mask, chosen by their keys among rows with distinct
/// keys, are the rows picked.
pub proof fn lemma_chosen_picked(rows: Seq<Row>, mask: Seq<bool>)
    requires
        distinct_rows(rows),
        mask.len() == rows.len(),
    ensures
        chosen_rows(rows, row_keys(picked_rows(rows, mask))) == picked_rows(rows, mask),
{
    let at = picks(mask);
    lemma_picks(mask);
    lemma_picked_rows(rows, mask);
    lemma_chosen_at(rows, at);
    assert(picked_rows(rows, mask) =~= Seq::new(at.len(), |j: int| rows[at[j]]));
    assert(row_keys(picked_rows(rows, mask)) =~= Seq::new(at.len(), |j: int| rows[at[j]].key));
}

/// Clones a vector of keys.
pub fn clone_keys(keys: &Vec<FlexIndex>) -> (r: Vec<FlexIndex>)
    ensures
        owned_keys(r@) == owned_keys(keys@),
{
    let mut out: Vec<FlexIndex> = Vec::new();
    let mut i: usize = 0;
    while i < keys.len()
        invariant
            i <= keys.len(),
            out@.len() == i,
            forall|j: int| 0 <= j < i ==> (#[trigger] out@[j])@ == keys@[j]@,
        decreases keys.len() - i,
    {
        out.push(keys[i].clone());
        i = i + 1;
    }
    proof {
        assert(owned_keys(out@) =~= owned_keys(keys@));
    }
    out
}

/// The mathematical value of a group: the text that names it and its rows.
pub struct Group {
    pub name: Seq<char>,
    pub rows: Seq<Row>,
}

/// The number of rows in all the groups.
pub open spec fn total_rows(groups: Seq<Group>) -> nat
    decreases groups.len(),
{
    if groups.len() == 0 {
        0
    } else {
        total_rows(groups.drop_last()) + groups.last().rows.len()
    }
}

/// The names of the groups, in their order.
pub open spec fn names_of(groups: Seq<Group>) -> Seq<Seq<char>> {
    Seq::new(groups.len(), |g: int| groups[g].name)
}

/// Whether the groups part the rows by their texts: no name stands over
/// two groups, the text of every row names a group, the name of every group
/// is the text of a row, and each group holds the rows whose text names it,
/// in their order.
pub open spec fn grouped(rows: Seq<Row>, texts: Seq<Seq<char>>, groups: Seq<Group>) -> bool {
    &&& texts.len() == rows.len()
    &&& names_of(groups).no_duplicates()
    &&& forall|i: int| 0 <= i < texts.len() ==> names_of(groups).contains(#[trigger] texts[i])
    &&& forall|g: int| 0 <= g < groups.len() ==> texts.contains((#[trigger] groups[g]).name)
    &&& forall|g: int|
        0 <= g < groups.len() ==> (#[trigger] groups[g]).rows == picked_rows(
            rows,
            name_mask(texts, groups[g].name),
        )
}

/// Groups that part the rows hold, between them, as many rows as there
/// are; a row stands in a group where its text names the group, and only
/// there; and no group is without a row.
pub proof fn lemma_grouped(rows: Seq<Row>, texts: Seq<Seq<char>>, groups: Seq<Group>)
    requires
        grouped(rows, texts, groups),
        distinct_rows(rows),
    ensures
        total_rows(groups) == rows.len(),
        forall|g: int| 0 <= g < groups.len() ==> (#[trigger] groups[g]).rows.len() >= 1,
        forall|i: int, g: int|
            0 <= i < rows.len() && 0 <= g < groups.len() ==> ((#[trigger] groups[g]).rows.contains(
                #[trigger] rows[i],
            ) <==> groups[g].name == texts[i]),
{
    let names = names_of(groups);
    lemma_count_of_all(texts, names);
    lemma_total_rows(rows, texts, groups, groups.len() as int);
    assert(names.take(groups.len() as int) =~= names);
    assert(groups.take(groups.len() as int) =~= groups);
    assert forall|g: int| 0 <= g < groups.len() implies (#[trigger] groups[g]).rows.len() >= 1 by {
        let mask = name_mask(texts, groups[g].name);
        let i = choose|i: int| 0 <= i < texts.len() && texts[i] == groups[g].name;
        assert(mask[i]);
        lemma_picked_rows(rows, mask);
        lemma_picks(mask);
        assert(picks(mask).contains(i));
    }
    assert forall|i: int, g: int| 0 <= i < rows.len() && 0 <= g < groups.len() implies ((
    #[trigger] groups[g]).rows.contains(#[trigger] rows[i]) <==> groups[g].name == texts[i]) by {
        let mask = name_mask(texts, groups[g].name);
        let part = groups[g].rows;
        lemma_picked_rows(rows, mask);
        lemma_picks(mask);
        if groups[g].name == texts[i] {
            assert(mask[i]);
            assert(picks(mask).contains(i));
            let j = choose|j: int| 0 <= j < picks(mask).len() && picks(mask)[j] == i;
            assert(part[j] == rows[i]);
        }
        if part.contains(rows[i]) {
            let j = choose|j: int| 0 <= j < part.len() && part[j] == rows[i];
            let w = picks(mask)[j];
            assert(part[j] == rows[w]);
            if w != i {
                assert(rows[w].key != rows[i].key);
            }
            assert(mask[w]);
        }
    }
}

/// The first `n` groups hold as many rows as texts are counted by their names.
pub proof fn lemma_total_rows(rows: Seq<Row>, texts: Seq<Seq<char>>, groups: Seq<Group>, n: int)
    requires
        0 <= n <= groups.len(),
        texts.len() == rows.len(),
        forall|g: int|
            0 <= g < groups.len() ==> (#[trigger] groups[g]).rows == picked_rows(
                rows,
                name_mask(texts, groups[g].name),
            ),
    ensures
        total_rows(groups.take(n)) == count_of_all(texts, names_of(groups).take(n)),
    decreases n,
{
    if n > 0 {
        lemma_total_rows(rows, texts, groups, n - 1);
        assert(groups.take(n).drop_last() =~= groups.take(n - 1));
        assert(names_of(groups).take(n).drop_last() =~= names_of(groups).take(n - 1));
        let name = groups[n - 1].name;
        assert(groups.take(n).last() == groups[n - 1]);
        assert(names_of(groups).take(n).last() == name);
        lemma_picked_rows(rows, name_mask(texts, name));
        lemma_count_of(texts, name);
    }
}

/// The views of the groups of a vector.
pub open spec fn groups_of(v: Seq<(String, FlexTable)>) -> Seq<Group> {
    Seq::new(v.len(), |g: int| Group { name: v[g].0@, rows: v[g].1@.rows })
}

/// Whether `r` is the row fitted to the columns: under its key, its values
/// coerced to the kinds of the columns, and a missing value in each column
/// beyond its last value.
pub open spec fn fitted<F: FloatOps>(ops: &F, row: Row, datatypes: Seq<FlexDataType>, r: Row) -> bool {
    &&& r.key == row.key
    &&& r.values.len() == datatypes.len()
    &&& forall|j: int|
        0 <= j < datatypes.len() ==> if j < row.values.len() {
            converts(ops, row.values[j], datatypes[j], #[trigger] r.values[j])
        } else {
            r.values[j] is NA
        }
}

/// Whether `new` is `old` after a row came in, fitted to the columns: in
/// the place of the row under its key where there is one, else behind the
/// last row.
pub open spec fn put<F: FloatOps>(
    ops: &F,
    old: Seq<Row>,
    datatypes: Seq<FlexDataType>,
    item: Row,
    new: Seq<Row>,
) -> bool {
    if has_row(old, item.key) {
        &&& new.len() == old.len()
        &&& fitted(ops, item, datatypes, new[row_place(old, item.key)])
        &&& forall|k: int|
            0 <= k < old.len() && k != row_place(old, item.key) ==> #[trigger] new[k] == old[k]
    } else {
        &&& new.len() == old.len() + 1
        &&& fitted(ops, item, datatypes, new[old.len() as int])
        &&& forall|k: int| 0 <= k < old.len() ==> #[trigger] new[k] == old[k]
    }
}

/// Whether `end` is `start` after the rows came in, one after the other.
pub open spec fn put_all<F: FloatOps>(
    ops: &F,
    start: Seq<Row>,
    datatypes: Seq<FlexDataType>,
    items: Seq<Row>,
    end: Seq<Row>,
) -> bool
    decreases items.len(),
{
    if items.len() == 0 {
        end == start
    } else {
        exists|mid: Seq<Row>|
            put_all(ops, start, datatypes, items.drop_last(), mid) && #[trigger] put(
                ops,
                mid,
                datatypes,
                items.last(),
                end,
            )
    }
}

/// Fits a row to the columns.
pub fn fit_row<F: FloatOps>(
    row: &FlexDataVector,
    datatypes: &Vec<FlexDataType>,
    ops: &F,
) -> (r: FlexDataVector)
    ensures
        fitted(ops, row@, datatypes@, r@),
        forall|j: int| 0 <= j < datatypes@.len() ==> (#[trigger] r@.values[j]).fits(datatypes@[j]),
{
    let coerced = row.as_types(datatypes, ops);
    let mut values = crate::flexdatavector::clone_values(coerced.get_data());
    let ghost known = views(values@);
    proof {
        assert(known == coerced@.values);
    }
    while values.len() < datatypes.len()
        invariant
            known.len() <= values@.len() <= datatypes@.len() || values@.len() == known.len(),
            forall|j: int| 0 <= j < known.len() ==> (#[trigger] values@[j])@ == known[j],
            forall|j: int| known.len() <= j < values@.len() ==> (#[trigger] values@[j])@ is NA,
        decreases datatypes.len() - values.len(),
    {
        values.push(FlexData::NA);
    }
    let r = FlexDataVector::new(row.get_index().clone(), values);
    proof {
        assert forall|j: int| 0 <= j < datatypes@.len() implies if j < row@.values.len() {
            converts(ops, row@.values[j], datatypes@[j], #[trigger] r@.values[j])
        } else {
            r@.values[j] is NA
        } by {
            assert(r@.values[j] == values@[j]@);
            if j < known.len() {
                assert(converts(ops, row@.values[j], datatypes@[j], coerced@.values[j]));
            }
        }
        assert forall|j: int| 0 <= j < datatypes@.len() implies (#[trigger] r@.values[j]).fits(
            datatypes@[j],
        ) by {
            if j < row@.values.len() {
                assert(converts(ops, row@.values[j], datatypes@[j], r@.values[j]));
            }
        }
    }
    r
}

/// A table: labelled, typed columns over rows under distinct keys, with an
/// index from label to column and one from key to row.
pub struct FlexTable {
    iter_counter: usize,
    labels: Vec<String>,
    datatypes: Vec<FlexDataType>,
    data: Vec<FlexDataVector>,
    label_to_pos: StringHashMap<usize>,
    index_to_pos: KeyIndex,
}

impl View for FlexTable {
    type V = Table;

    closed spec fn view(&self) -> Table {
        Table {
            labels: labels_of(self.labels@),
            datatypes: self.datatypes@,
            rows: rows_of(self.data@),
        }
    }
}

impl FlexTable {
    /// The rows as the program holds them.
    pub closed spec fn held(&self) -> Seq<FlexDataVector> {
        self.data@
    }

    /// How many rows `next` has handed out since it last ran out.
    pub closed spec fn cursor(&self) -> nat {
        self.iter_counter as nat
    }

    /// The invariant of a table: one kind for each label; in every row one
    /// value for each column, of the column's kind or missing; the two
    /// indexes give the place of each key and of each label, so no key
    /// stands over two rows.
    pub closed spec fn wf(&self) -> bool {
        &&& self@.labels.len() == self@.datatypes.len()
        &&& rows_fit(self@.rows, self@.datatypes)
        &&& indexes_rows(self.index_to_pos@, self@.rows)
        &&& self.label_to_pos@ == label_map(self@.labels)
    }

    /// What the invariant says of the view.
    pub proof fn lemma_wf(&self)
        requires
            self.wf(),
        ensures
            self@.labels.len() == self@.datatypes.len(),
            rows_fit(self@.rows, self@.datatypes),
            distinct_rows(self@.rows),
            self@.rows == rows_of(self.held()),
            self@.rows.len() == self.held().len(),
    {
        lemma_indexes_rows(self.index_to_pos@, self@.rows);
    }

    /// A table of rows whose values are of the declared kinds already.
    pub fn from_typed(
        labels: Vec<String>,
        datatypes: Vec<FlexDataType>,
        data: Vec<FlexDataVector>,
    ) -> (r: Self)
        requires
            labels@.len() == datatypes@.len(),
            rows_fit(rows_of(data@), datatypes@),
            distinct_rows(rows_of(data@)),
        ensures
            r.wf(),
            r@ == (Table {
                labels: labels_of(labels@),
                datatypes: datatypes@,
                rows: rows_of(data@),
            }),
            r.held() == data@,
            r.cursor() == 0,
    {
        let index_to_pos = index_rows(&data);
        let label_to_pos = index_labels(&labels);
        Self { iter_counter: 0, labels, datatypes, data, label_to_pos, index_to_pos }
    }

    /// The table of the rows given. Each row is fitted to the columns: its
    /// values are coerced to the kinds declared, values beyond the last column
    /// are left out, and columns beyond its last value get a missing value.
    /// The rows come in one after the other: a row under a key that an
    /// earlier row stands under takes the place of that row.
    pub fn from_vecs<F: FloatOps>(
        labels: Vec<String>,
        datatypes: Vec<FlexDataType>,
        data: Vec<FlexDataVector>,
        ops: &F,
    ) -> (r: Self)
        requires
            labels@.len() == datatypes@.len(),
        ensures
            r.wf(),
            r@.labels == labels_of(labels@),
            r@.datatypes == datatypes@,
            put_all(ops, Seq::empty(), datatypes@, rows_of(data@), r@.rows),
            distinct_rows(rows_of(data@)) ==> r@.rows.len() == data@.len() && forall|i: int|
                0 <= i < data@.len() ==> fitted(ops, data@[i]@, datatypes@, #[trigger] r@.rows[i]),
            r.cursor() == 0,
    {
        let ghost items = rows_of(data@);
        let ghost kinds = datatypes@;
        let mut rows: Vec<FlexDataVector> = Vec::new();
        let mut index = KeyIndex::new();
        let mut i: usize = 0;
        proof {
            assert(items.take(0) =~= Seq::<Row>::empty());
            assert(rows_of(rows@) =~= Seq::<Row>::empty());
        }
        while i < data.len()
            invariant
                i <= data.len(),
                items == rows_of(data@),
                kinds == datatypes@,
                indexes_rows(index@, rows_of(rows@)),
                rows_fit(rows_of(rows@), kinds),
                put_all(ops, Seq::empty(), kinds, items.take(i as int), rows_of(rows@)),
                distinct_rows(items) ==> rows@.len() == i && forall|k: int|
                    0 <= k < i ==> fitted(ops, items[k], kinds, #[trigger] rows_of(rows@)[k]),
            decreases data.len() - i,
        {
            let ghost before = rows_of(rows@);
            let ghost before_index = index@;
            let ghost part = items.take(i as int);
            let ghost grown = items.take(i + 1);
            let row = fit_row(&data[i], &datatypes, ops);
            let ghost item = items[i as int];
            proof {
                assert(item == data@[i as int]@);
                lemma_indexes_rows(before_index, before);
                assert(grown.drop_last() =~= part);
                assert(grown.last() == item);
            }
            match index.get(row.get_index()) {
                Some(p) => {
                    rows.set(p, row);
                    proof {
                        let after = rows_of(rows@);
                        assert forall|k: int| 0 <= k < before.len() && k != p implies #[trigger] after[k]
                            == before[k] by {}
                        assert(indexes_rows(index@, after)) by {
                            assert forall|k: int| 0 <= k < after.len() implies index@.contains_key(
                                (#[trigger] after[k]).key,
                            ) && index@[after[k].key] == k by {
                                assert(before[k].key == after[k].key);
                            }
                            assert forall|k: Key| #[trigger] index@.contains_key(k) implies index@[k]
                                < after.len() && after[index@[k] as int].key == k by {
                                assert(before[index@[k] as int].key == after[index@[k] as int].key);
                            }
                        }
                        assert forall|k: int| 0 <= k < after.len() implies (
                        #[trigger] after[k]).values.len() == kinds.len() && forall|j: int|
                            0 <= j < kinds.len() ==> (#[trigger] after[k].values[j]).fits(kinds[j]) by {
                            if k != p {
                                assert(before[k].values.len() == kinds.len());
                                assert forall|j: int| 0 <= j < kinds.len() implies (
                                #[trigger] after[k].values[j]).fits(kinds[j]) by {
                                    assert(before[k].values[j].fits(kinds[j]));
                                }
                            }
                        }
                        assert(put(ops, before, kinds, item, after));
                        if distinct_rows(items) {
                            assert(before[p as int].key == items[p as int].key);
                            assert(items[p as int].key != items[i as int].key);
                        }
                    }
                },
                None => {
                    index.insert(row.get_index().clone(), rows.len());
                    let ghost fitted_row = row@;
                    rows.push(row);
                    proof {
                        let after = rows_of(rows@);
                        assert(after =~= before.push(fitted_row));
                        assert forall|k: int| 0 <= k < after.len() implies index@.contains_key(
                            (#[trigger] after[k]).key,
                        ) && index@[after[k].key] == k by {
                            if k < before.len() {
                                assert(before[k] == after[k]);
                                assert(has_row(before, before[k].key));
                            }
                        }
                        assert forall|k: Key| #[trigger] index@.contains_key(k) implies index@[k]
                            < after.len() && after[index@[k] as int].key == k by {
                            if k != fitted_row.key {
                                assert(before_index.contains_key(k));
                                assert(before[before_index[k] as int] == after[before_index[k] as int]);
                            }
                        }
                        assert forall|k: int| 0 <= k < after.len() implies (
                        #[trigger] after[k]).values.len() == kinds.len() && forall|j: int|
                            0 <= j < kinds.len() ==> (#[trigger] after[k].values[j]).fits(kinds[j]) by {
                            if k < before.len() {
                                assert(before[k].values.len() == kinds.len());
                                assert forall|j: int| 0 <= j < kinds.len() implies (
                                #[trigger] after[k].values[j]).fits(kinds[j]) by {
                                    assert(before[k].values[j].fits(kinds[j]));
                                }
                            }
                        }
                        assert(put(ops, before, kinds, item, after));
                        if distinct_rows(items) {
                            assert forall|k: int| 0 <= k < i + 1 implies fitted(
                                ops,
                                items[k],
                                kinds,
                                #[trigger] after[k],
                            ) by {
                                if k < i {
                                    assert(after[k] == before[k]);
                                }
                            }
                        }
                    }
                },
            }
            proof {
                assert(put_all(ops, Seq::empty(), kinds, grown.drop_last(), before) && put(
                    ops,
                    before,
                    kinds,
                    grown.last(),
                    rows_of(rows@),
                ));
            }
            i = i + 1;
        }
        proof {
            assert(items.take(i as int) =~= items);
        }
        let label_to_pos = index_labels(&labels);
        Self { iter_counter: 0, labels, datatypes, data: rows, label_to_pos, index_to_pos: index }
    }

    /// The table of the columns given, which must be of one length: the row
    /// at each place holds the values that the columns hold at that place,
    /// under the key that the first column has there.
    pub fn new(series: Vec<FlexSeries>) -> (r: Self)
        requires
            series@.len() > 0,
            forall|j: int| 0 <= j < series@.len() ==> (#[trigger] series@[j]).wf(),
            forall|j: int|
                0 <= j < series@.len() ==> (#[trigger] series@[j])@.cells.len()
                    == series@[0]@.cells.len(),
        ensures
            r.wf(),
            r@.labels.len() == series@.len(),
            r@.datatypes.len() == series@.len(),
            forall|j: int|
                0 <= j < series@.len() ==> #[trigger] r@.labels[j] == series@[j]@.label
                    && r@.datatypes[j] == series@[j]@.datatype,
            r@.rows.len() == series@[0]@.cells.len(),
            forall|i: int|
                0 <= i < r@.rows.len() ==> (#[trigger] r@.rows[i]).key == series@[0]@.cells[i].key
                    && r@.rows[i].values.len() == series@.len() && forall|j: int|
                    0 <= j < series@.len() ==> #[trigger] r@.rows[i].values[j]
                        == series@[j]@.cells[i].value,
            r.cursor() == 0,
    {
        let size = series[0].get_size();
        let mut labels: Vec<String> = Vec::new();
        let mut datatypes: Vec<FlexDataType> = Vec::new();
        let mut j: usize = 0;
        while j < series.len()
            invariant
                j <= series.len(),
                labels@.len() == j,
                datatypes@.len() == j,
                forall|k: int| 0 <= k < j ==> (#[trigger] labels@[k])@ == series@[k]@.label,
                forall|k: int| 0 <= k < j ==> #[trigger] datatypes@[k] == series@[k]@.datatype,
            decreases series.len() - j,
        {
            let ghost old_labels = labels@;
            let ghost old_kinds = datatypes@;
            labels.push(series[j].get_label().to_owned());
            datatypes.push(*series[j].get_datatype());
            proof {
                assert(labels@[j as int]@ == series@[j as int]@.label);
                assert(datatypes@[j as int] == series@[j as int]@.datatype);
                assert forall|k: int| 0 <= k < j + 1 implies (#[trigger] labels@[k])@
                    == series@[k]@.label by {
                    if k < j {
                        assert(labels@[k] == old_labels[k]);
                    }
                }
                assert forall|k: int| 0 <= k < j + 1 implies #[trigger] datatypes@[k]
                    == series@[k]@.datatype by {
                    if k < j {
                        assert(datatypes@[k] == old_kinds[k]);
                    }
                }
            }
            j = j + 1;
        }
        let mut data: Vec<FlexDataVector> = Vec::new();
        let mut i: usize = 0;
        while i < size
            invariant
                i <= size,
                size == series@[0]@.cells.len(),
                series@.len() > 0,
                forall|k: int| 0 <= k < series@.len() ==> (#[trigger] series@[k]).wf(),
                forall|k: int|
                    0 <= k < series@.len() ==> (#[trigger] series@[k])@.cells.len() == size,
                data@.len() == i,
                forall|a: int|
                    0 <= a < i ==> (#[trigger] data@[a])@.key == series@[0]@.cells[a].key
                        && data@[a]@.values.len() == series@.len() && forall|k: int|
                        0 <= k < series@.len() ==> #[trigger] data@[a]@.values[k]
                            == series@[k]@.cells[a].value,
            decreases size - i,
        {
            let index = series[0][i].get_index().clone();
            let mut fds: Vec<FlexData> = Vec::new();
            let mut k: usize = 0;
            while k < series.len()
                invariant
                    k <= series.len(),
                    i < size,
                    forall|c: int|
                        0 <= c < series@.len() ==> (#[trigger] series@[c])@.cells.len() == size,
                    fds@.len() == k,
                    forall|c: int| 0 <= c < k ==> (#[trigger] fds@[c])@ == series@[c]@.cells[i as int].value,
                decreases series.len() - k,
            {
                assert(series@[k as int]@.cells.len() == size);
                fds.push(series[k][i].get_data().clone());
                k = k + 1;
            }
            let row = FlexDataVector::new(index, fds);
            proof {
                assert(row@.values.len() == series@.len());
            }
            data.push(row);
            i = i + 1;
        }
        proof {
            let rows = rows_of(data@);
            series@[0].lemma_wf();
            assert forall|a: int, b: int|
                0 <= a < rows.len() && 0 <= b < rows.len() && a != b implies (
            #[trigger] rows[a]).key != (#[trigger] rows[b]).key by {
                assert(series@[0]@.cells[a].key != series@[0]@.cells[b].key);
            }
            assert forall|a: int| 0 <= a < rows.len() implies (#[trigger] rows[a]).values.len()
                == datatypes@.len() && forall|k: int|
                0 <= k < datatypes@.len() ==> (#[trigger] rows[a].values[k]).fits(
                    datatypes@[k],
                ) by {
                assert(data@[a]@.values.len() == series@.len());
                assert forall|k: int| 0 <= k < datatypes@.len() implies (
                #[trigger] rows[a].values[k]).fits(datatypes@[k]) by {
                    series@[k].lemma_wf();
                    assert(data@[a]@.values[k] == series@[k]@.cells[a].value);
                    assert(series@[k]@.cells[a].value.fits(series@[k]@.datatype));
                }
            }
        }
        Self::from_typed(labels, datatypes, data)
    }

    /// The column at a place, made of the value that each row holds there.
    fn column<'a>(&self, label: &'a str, pos: usize) -> (r: FlexSeries)
        requires
            self.wf(),
            pos < self@.labels.len(),
            self@.labels[pos as int] == label@,
        ensures
            r.wf(),
            r@ == column_at(self@, pos as int),
    {
        proof {
            self.lemma_wf();
        }
        proof {
            assert forall|i: int| 0 <= i < self.data@.len() implies pos < (
            #[trigger] self.data@[i])@.values.len() by {
                assert(self@.rows[i].values.len() == self@.datatypes.len());
            }
        }
        let entry = |v: &FlexDataVector| -> (r: FlexDataPoint)
            requires
                pos < v@.values.len(),
            ensures
                r@ == cell_in(v@, pos as int),
            {
                entry_at(v, pos)
            };
        let data = par_map(&self.data, entry);
        proof {
            let cells = cells_of(data@);
            assert(cells =~= column_at(self@, pos as int).cells);
            assert forall|a: int, b: int|
                0 <= a < cells.len() && 0 <= b < cells.len() && a != b implies (
            #[trigger] cells[a]).key != (#[trigger] cells[b]).key by {
                assert(self@.rows[a].key != self@.rows[b].key);
            }
            assert forall|a: int| 0 <= a < cells.len() implies (#[trigger] cells[a]).value.fits(
                self.datatypes@[pos as int],
            ) by {
                assert(self@.rows[a].values[pos as int].fits(self@.datatypes[pos as int]));
            }
        }
        FlexSeries::from_typed(label, self.datatypes[pos], data)
    }

    /// The columns that the labels name, in the order of the labels.
    pub fn extract_series(&self, labels: &[&str]) -> (r: Vec<FlexSeries>)
        requires
            self.wf(),
            forall|j: int|
                0 <= j < labels@.len() ==> label_map(self@.labels).contains_key(
                    (#[trigger] labels@[j])@,
                ),
        ensures
            r@.len() == labels@.len(),
            forall|j: int|
                0 <= j < labels@.len() ==> (#[trigger] r@[j]).wf() && r@[j]@ == column_at(
                    self@,
                    label_map(self@.labels)[labels@[j]@] as int,
                ),
    {
        let mut res: Vec<FlexSeries> = Vec::new();
        let mut j: usize = 0;
        while j < labels.len()
            invariant
                j <= labels.len(),
                self.wf(),
                forall|k: int|
                    0 <= k < labels@.len() ==> label_map(self@.labels).contains_key(
                        (#[trigger] labels@[k])@,
                    ),
                res@.len() == j,
                forall|k: int|
                    0 <= k < j ==> (#[trigger] res@[k]).wf() && res@[k]@ == column_at(
                        self@,
                        label_map(self@.labels)[labels@[k]@] as int,
                    ),
            decreases labels.len() - j,
        {
            let label: &str = labels[j];
            assert(label_map(self@.labels).contains_key(labels@[j as int]@));
            let pos = self.label_position(label).unwrap();
            res.push(self.column(label, pos));
            j = j + 1;
        }
        res
    }

    /// Every column under its label; a label that stands more than once
    /// names its last column.
    pub fn extract_all_series(&self) -> (r: StringHashMap<FlexSeries>)
        requires
            self.wf(),
        ensures
            r@.dom() == label_map(self@.labels).dom(),
            forall|l: Seq<char>| #[trigger]
                r@.contains_key(l) ==> r@[l].wf() && r@[l]@ == column_at(
                    self@,
                    label_map(self@.labels)[l] as int,
                ),
    {
        let mut res: StringHashMap<FlexSeries> = StringHashMap::new();
        let ghost all = self@.labels;
        let mut j: usize = 0;
        proof {
            assert(all.take(0) =~= Seq::<Seq<char>>::empty());
            assert(res@.dom() =~= label_map(all.take(0)).dom());
        }
        while j < self.labels.len()
            invariant
                j <= self.labels.len(),
                self.wf(),
                all == self@.labels,
                all.len() == self.labels@.len(),
                res@.dom() == label_map(all.take(j as int)).dom(),
                forall|l: Seq<char>| #[trigger]
                    res@.contains_key(l) ==> res@[l].wf() && res@[l]@ == column_at(
                        self@,
                        label_map(all)[l] as int,
                    ),
            decreases self.labels.len() - j,
        {
            let label = self.labels[j].as_str();
            proof {
                lemma_label_map(all);
                assert(all[j as int] == label@);
                assert(all.take(j + 1).drop_last() =~= all.take(j as int));
                assert(all.take(j + 1).last() == label@);
            }
            let pos = self.label_position(label).unwrap();
            let series = self.column(label, pos);
            res.insert(self.labels[j].clone(), series);
            proof {
                assert(res@.dom() =~= label_map(all.take(j + 1)).dom());
            }
            j = j + 1;
        }
        proof {
            assert(all.take(j as int) =~= all);
        }
        res
    }

    /// Adds a column: the series is brought up to the keys of the rows, and
    /// each row takes the value that the series holds under the row's key: a
    /// missing value where the series came without the key. The rows, their
    /// keys and their order stay as they are.
    pub fn add_series(&mut self, series: FlexSeries)
        requires
            old(self).wf(),
            series.wf(),
        ensures
            final(self).wf(),
            final(self)@.labels == old(self)@.labels.push(series@.label),
            final(self)@.datatypes == old(self)@.datatypes.push(series@.datatype),
            final(self)@.rows.len() == old(self)@.rows.len(),
            forall|i: int|
                0 <= i < old(self)@.rows.len() ==> (#[trigger] final(self)@.rows[i]).key == old(
                    self,
                )@.rows[i].key && final(self)@.rows[i].values == old(self)@.rows[i].values.push(
                    value_under(series@.cells, old(self)@.rows[i].key),
                ),
            final(self).cursor() == old(self).cursor(),
    {
        let ghost before = self@;
        let ghost given = series@.cells;
        proof {
            self.lemma_wf();
            series.lemma_wf();
        }
        let keys = self.get_indices();
        let adj_series = series.align_to(&keys);
        let ghost aligned_cells = adj_series@.cells;
        proof {
            adj_series.lemma_wf();
        }
        let mut mod_data: Vec<FlexDataVector> = Vec::new();
        let mut i: usize = 0;
        while i < self.data.len()
            invariant
                i <= self.data.len(),
                before.rows == rows_of(self.data@),
                adj_series.wf(),
                aligned_cells == adj_series@.cells,
                distinct_keys(aligned_cells),
                all_fit(aligned_cells, series@.datatype),
                given == series@.cells,
                distinct_keys(given),
                aligned(given, owned_keys(keys@), aligned_cells),
                keys@.len() == before.rows.len(),
                forall|a: int| 0 <= a < keys@.len() ==> (#[trigger] keys@[a])@ == before.rows[a].key,
                mod_data@.len() == i,
                forall|a: int|
                    0 <= a < i ==> (#[trigger] mod_data@[a])@.key == before.rows[a].key
                        && mod_data@[a]@.values == before.rows[a].values.push(
                        value_under(given, before.rows[a].key),
                    ) && value_under(given, before.rows[a].key).fits(series@.datatype),
            decreases self.data.len() - i,
        {
            let ghost k = before.rows[i as int].key;
            proof {
                assert(before.rows[i as int] == self.data@[i as int]@);
                assert(owned_keys(keys@)[i as int] == k);
                assert(has_key(aligned_cells, k));
                lemma_value_under_aligned(given, owned_keys(keys@), aligned_cells, k);
            }
            let value = match adj_series.at(self.data[i].get_index()) {
                Some(entry) => entry.get_data().clone(),
                None => FlexData::NA,
            };
            proof {
                let q = place_of(aligned_cells, k);
                assert(aligned_cells[q].key == k);
                assert(aligned_cells[q].value.fits(series@.datatype));
                assert(value@ == value_under(given, k));
            }
            let mut v = crate::flexdatavector::clone_values(self.data[i].get_data());
            let ghost old_values = views(v@);
            v.push(value);
            proof {
                assert(views(v@) =~= old_values.push(value_under(given, k)));
            }
            mod_data.push(FlexDataVector::new(self.data[i].get_index().clone(), v));
            i = i + 1;
        }
        self.labels.push(adj_series.get_label().to_owned());
        self.datatypes.push(*adj_series.get_datatype());
        proof {
            let rows = rows_of(mod_data@);
            assert(labels_of(self.labels@) =~= before.labels.push(series@.label));
            assert forall|a: int, b: int|
                0 <= a < rows.len() && 0 <= b < rows.len() && a != b implies (
            #[trigger] rows[a]).key != (#[trigger] rows[b]).key by {
                assert(before.rows[a].key != before.rows[b].key);
            }
            assert forall|a: int| 0 <= a < rows.len() implies (#[trigger] rows[a]).values.len()
                == self.datatypes@.len() && forall|k: int|
                0 <= k < self.datatypes@.len() ==> (#[trigger] rows[a].values[k]).fits(
                    self.datatypes@[k],
                ) by {
                assert(before.rows[a].values.len() == before.datatypes.len());
                assert forall|k: int| 0 <= k < self.datatypes@.len() implies (
                #[trigger] rows[a].values[k]).fits(self.datatypes@[k]) by {
                    if k < before.datatypes.len() {
                        assert(before.rows[a].values[k].fits(before.datatypes[k]));
                    }
                }
            }
        }
        self.index_to_pos = index_rows(&mod_data);
        self.label_to_pos = index_labels(&self.labels);
        self.data = mod_data;
    }

    /// Takes out the row at a place and rebuilds the index: each row behind
    /// it moves up by one.
    pub fn remove_record(&mut self, k: usize)
        requires
            old(self).wf(),
            k < old(self)@.rows.len(),
        ensures
            final(self).wf(),
            final(self)@.labels == old(self)@.labels,
            final(self)@.datatypes == old(self)@.datatypes,
            final(self)@.rows == old(self)@.rows.remove(k as int),
            final(self).cursor() == old(self).cursor(),
    {
        let ghost before = self@.rows;
        proof {
            self.lemma_wf();
        }
        self.data.remove(k);
        proof {
            let after = rows_of(self.data@);
            assert(after =~= before.remove(k as int));
            assert forall|a: int, b: int|
                0 <= a < after.len() && 0 <= b < after.len() && a != b implies (
            #[trigger] after[a]).key != (#[trigger] after[b]).key by {
                let x = if a < k { a } else { a + 1 };
                let y = if b < k { b } else { b + 1 };
                assert(before[x].key != before[y].key);
            }
            assert forall|a: int| 0 <= a < after.len() implies (#[trigger] after[a]).values.len()
                == self.datatypes@.len() && forall|j: int|
                0 <= j < self.datatypes@.len() ==> (#[trigger] after[a].values[j]).fits(
                    self.datatypes@[j],
                ) by {
                let x = if a < k { a } else { a + 1 };
                assert(after[a] == before[x]);
                assert(before[x].values.len() == self.datatypes@.len());
            }
        }
        self.index_to_pos = index_rows(&self.data);
    }

    /// Takes out the row under a key, if there is one.
    pub fn remove_record_at(&mut self, index: &FlexIndex)
        requires
            old(self).wf(),
        ensures
            final(self).wf(),
            final(self)@.labels == old(self)@.labels,
            final(self)@.datatypes == old(self)@.datatypes,
            final(self)@.rows == (if has_row(old(self)@.rows, index@) {
                old(self)@.rows.remove(row_place(old(self)@.rows, index@))
            } else {
                old(self)@.rows
            }),
            final(self).cursor() == old(self).cursor(),
    {
        if let Some(i) = self.position(index) {
            self.remove_record(i);
        }
    }

    /// Makes the values of a column the keys of the rows, and takes the
    /// column out of the table. Each value must be able to serve as a key,
    /// and no two may give one key.
    pub fn set_index(&mut self, label: &str)
        requires
            old(self).wf(),
            label_map(old(self)@.labels).contains_key(label@),
            forall|i: int|
                0 <= i < old(self)@.rows.len() ==> key_eligible(
                    (#[trigger] old(self)@.rows[i]).values[label_map(old(self)@.labels)[label@] as int],
                ),
            forall|i: int, j: int|
                0 <= i < old(self)@.rows.len() && 0 <= j < old(self)@.rows.len() && i != j
                    ==> key_of_data(
                    (#[trigger] old(self)@.rows[i]).values[label_map(old(self)@.labels)[label@] as int],
                ) != key_of_data(
                    (#[trigger] old(self)@.rows[j]).values[label_map(old(self)@.labels)[label@] as int],
                ),
        ensures
            final(self).wf(),
            final(self)@.labels == old(self)@.labels.remove(
                label_map(old(self)@.labels)[label@] as int,
            ),
            final(self)@.datatypes == old(self)@.datatypes.remove(
                label_map(old(self)@.labels)[label@] as int,
            ),
            final(self)@.rows.len() == old(self)@.rows.len(),
            forall|i: int|
                0 <= i < old(self)@.rows.len() ==> (#[trigger] final(self)@.rows[i]).key
                    == key_of_data(
                    old(self)@.rows[i].values[label_map(old(self)@.labels)[label@] as int],
                ) && final(self)@.rows[i].values == old(self)@.rows[i].values.remove(
                    label_map(old(self)@.labels)[label@] as int,
                ),
            final(self).cursor() == old(self).cursor(),
    {
        let ghost before = self@;
        proof {
            self.lemma_wf();
        }
        let pos = self.label_position(label).unwrap();
        let mut mod_data: Vec<FlexDataVector> = Vec::new();
        let mut i: usize = 0;
        while i < self.data.len()
            invariant
                i <= self.data.len(),
                before.rows == rows_of(self.data@),
                rows_fit(before.rows, before.datatypes),
                pos < before.datatypes.len(),
                forall|a: int|
                    0 <= a < before.rows.len() ==> key_eligible(
                        (#[trigger] before.rows[a]).values[pos as int],
                    ),
                mod_data@.len() == i,
                forall|a: int|
                    0 <= a < i ==> (#[trigger] mod_data@[a])@.key == key_of_data(
                        before.rows[a].values[pos as int],
                    ) && mod_data@[a]@.values == before.rows[a].values.remove(pos as int),
            decreases self.data.len() - i,
        {
            assert(before.rows[i as int] == self.data@[i as int]@);
            assert(before.rows[i as int].values.len() == before.datatypes.len());
            let mut data = crate::flexdatavector::clone_values(self.data[i].get_data());
            let ghost old_values = views(data@);
            let index = make_index_from_data(&data[pos]);
            data.remove(pos);
            proof {
                assert(views(data@) =~= old_values.remove(pos as int));
            }
            mod_data.push(FlexDataVector::new(index, data));
            i = i + 1;
        }
        self.labels.remove(pos);
        self.datatypes.remove(pos);
        proof {
            let rows = rows_of(mod_data@);
            assert(labels_of(self.labels@) =~= before.labels.remove(pos as int));
            assert forall|a: int, b: int|
                0 <= a < rows.len() && 0 <= b < rows.len() && a != b implies (
            #[trigger] rows[a]).key != (#[trigger] rows[b]).key by {
                assert(key_of_data(before.rows[a].values[pos as int]) != key_of_data(
                    before.rows[b].values[pos as int],
                ));
            }
            assert forall|a: int| 0 <= a < rows.len() implies (#[trigger] rows[a]).values.len()
                == self.datatypes@.len() && forall|k: int|
                0 <= k < self.datatypes@.len() ==> (#[trigger] rows[a].values[k]).fits(
                    self.datatypes@[k],
                ) by {
                assert(before.rows[a].values.len() == before.datatypes.len());
                assert forall|k: int| 0 <= k < self.datatypes@.len() implies (
                #[trigger] rows[a].values[k]).fits(self.datatypes@[k]) by {
                    let x = if k < pos { k } else { k + 1 };
                    assert(before.rows[a].values[x].fits(before.datatypes[x]));
                }
            }
        }
        self.index_to_pos = index_rows(&mod_data);
        self.label_to_pos = index_labels(&self.labels);
        self.data = mod_data;
    }

    fn pick(&self, mask: &Vec<bool>) -> (r: Self)
        requires
            self.wf(),
            mask@.len() == self@.rows.len(),
        ensures
            r.wf(),
            r@.labels == self@.labels,
            r@.datatypes == self@.datatypes,
            r@.rows == picked_rows(self@.rows, mask@),
    {
        let ghost rows = self@.rows;
        let mut data: Vec<FlexDataVector> = Vec::new();
        let mut i: usize = 0;
        proof {
            self.lemma_wf();
        }
        while i < self.data.len()
            invariant
                i <= self.data.len(),
                rows == rows_of(self.data@),
                mask@.len() == rows.len(),
                rows_of(data@) == picked_rows(rows.take(i as int), mask@.take(i as int)),
            decreases self.data.len() - i,
        {
            proof {
                assert(rows.take(i + 1).drop_last() =~= rows.take(i as int));
                assert(mask@.take(i + 1).drop_last() =~= mask@.take(i as int));
                assert(rows.take(i + 1).last() == self.data@[i as int]@);
            }
            let ghost before = rows_of(data@);
            if mask[i] {
                data.push(self.data[i].clone());
                proof {
                    assert(rows_of(data@) =~= before.push(self.data@[i as int]@));
                }
            }
            i = i + 1;
        }
        proof {
            assert(rows.take(i as int) =~= rows);
            assert(mask@.take(i as int) =~= mask@);
            lemma_picked_rows_keep(rows, mask@, self@.datatypes);
        }
        let r = Self::from_typed(clone_labels(&self.labels), clone_kinds(&self.datatypes), data);
        r
    }

    /// The table of the rows under the keys given, in the order of the keys;
    /// a key that is given more than once counts once.
    pub fn get_subset(&self, indices: Vec<FlexIndex>) -> (r: Self)
        requires
            self.wf(),
        ensures
            r.wf(),
            r@.labels == self@.labels,
            r@.datatypes == self@.datatypes,
            r@.rows == chosen_rows(self@.rows, owned_keys(indices@)),
    {
        let ghost keys = owned_keys(indices@);
        let ghost rows = self@.rows;
        let fresh = first_occurrences(&indices);
        let mut records: Vec<FlexDataVector> = Vec::new();
        let mut i: usize = 0;
        while i < indices.len()
            invariant
                i <= indices.len(),
                self.wf(),
                rows == self@.rows,
                keys == owned_keys(indices@),
                fresh@.len() == indices@.len(),
                forall|j: int|
                    0 <= j < indices@.len() ==> #[trigger] fresh@[j] == !keys.take(j).contains(
                        indices@[j]@,
                    ),
                rows_of(records@) == chosen_rows(rows, keys.take(i as int)),
            decreases indices.len() - i,
        {
            proof {
                assert(keys.take(i + 1).drop_last() =~= keys.take(i as int));
                assert(keys.take(i + 1).last() == indices@[i as int]@);
            }
            let ghost before = rows_of(records@);
            if fresh[i] {
                if let Some(row) = self.at(&indices[i]) {
                    proof {
                        assert(rows_of(records@.push(row)) =~= before.push(row@));
                    }
                    records.push(row);
                }
            }
            i = i + 1;
        }
        proof {
            assert(keys.take(i as int) =~= keys);
            lemma_chosen_rows_distinct(rows, keys);
            lemma_chosen_rows(rows, keys);
            self.lemma_wf();
            let c = chosen_rows(rows, keys);
            assert forall|a: int| 0 <= a < c.len() implies (#[trigger] c[a]).values.len()
                == self@.datatypes.len() && forall|j: int|
                0 <= j < self@.datatypes.len() ==> (#[trigger] c[a].values[j]).fits(
                    self@.datatypes[j],
                ) by {
                assert(rows.contains(c[a]));
                let w = choose|w: int| 0 <= w < rows.len() && rows[w] == c[a];
                assert(rows[w].values.len() == self@.datatypes.len());
                assert forall|j: int| 0 <= j < self@.datatypes.len() implies (
                #[trigger] c[a].values[j]).fits(self@.datatypes[j]) by {
                    assert(rows[w].values[j].fits(self@.datatypes[j]));
                }
            }
        }
        Self::from_typed(clone_labels(&self.labels), clone_kinds(&self.datatypes), records)
    }

    /// Whether `verdict` is what `f` says of the row at `i` in all the
    /// columns that the labels name: yes, where every label names a column
    /// and `f` holds of the value there; no, where a label names none or `f`
    /// fails of a value.
    pub open spec fn holds_of_all<P: Fn(&FlexData) -> bool>(
        &self,
        labels: Seq<&str>,
        f: P,
        i: int,
        verdict: bool,
    ) -> bool {
        if verdict {
            forall|j: int|
                0 <= j < labels.len() ==> label_map(self@.labels).contains_key(
                    (#[trigger] labels[j])@,
                ) && call_ensures(
                    f,
                    (&self.held()[i].held()[label_map(self@.labels)[labels[j]@] as int],),
                    true,
                )
        } else {
            exists|j: int|
                0 <= j < labels.len() && (!label_map(self@.labels).contains_key(
                    (#[trigger] labels[j])@,
                ) || call_ensures(
                    f,
                    (&self.held()[i].held()[label_map(self@.labels)[labels[j]@] as int],),
                    false,
                ))
        }
    }

    /// Whether `verdict` is what `f` says of the row at `i` in any of the
    /// columns that the labels name: yes, where a label names a column and
    /// `f` holds of the value there; no, where `f` fails of the value in
    /// every column named.
    pub open spec fn holds_of_any<P: Fn(&FlexData) -> bool>(
        &self,
        labels: Seq<&str>,
        f: P,
        i: int,
        verdict: bool,
    ) -> bool {
        if verdict {
            exists|j: int|
                0 <= j < labels.len() && label_map(self@.labels).contains_key(
                    (#[trigger] labels[j])@,
                ) && call_ensures(
                    f,
                    (&self.held()[i].held()[label_map(self@.labels)[labels[j]@] as int],),
                    true,
                )
        } else {
            forall|j: int|
                0 <= j < labels.len() && label_map(self@.labels).contains_key(
                    (#[trigger] labels[j])@,
                ) ==> call_ensures(
                    f,
                    (&self.held()[i].held()[label_map(self@.labels)[labels[j]@] as int],),
                    false,
                )
        }
    }

    /// Whether `f` may be asked of every value in the columns that the
    /// labels name.
    pub open spec fn may_ask<P: Fn(&FlexData) -> bool>(&self, labels: Seq<&str>, f: P) -> bool {
        forall|i: int, j: int|
            0 <= i < self.held().len() && 0 <= j < labels.len() && label_map(
                self@.labels,
            ).contains_key((#[trigger] labels[j])@) ==> call_requires(
                f,
                (&(#[trigger] self.held()[i]).held()[label_map(self@.labels)[labels[j]@] as int],),
            )
    }

    /// The table of the rows of which `f` holds in all the columns that the
    /// labels name; a label that names no column lets no row through.
    pub fn filter_all<P: Fn(&FlexData) -> bool>(&self, labels: &[&str], f: P) -> (r: Self)
        requires
            self.wf(),
            self.may_ask(labels@, f),
        ensures
            r.wf(),
            r@.labels == self@.labels,
            r@.datatypes == self@.datatypes,
            exists|mask: Seq<bool>|
                {
                    &&& mask.len() == self@.rows.len()
                    &&& forall|i: int|
                        0 <= i < mask.len() ==> self.holds_of_all(labels@, f, i, #[trigger] mask[i])
                    &&& r@.rows == #[trigger] picked_rows(self@.rows, mask)
                },
    {
        let mut mask: Vec<bool> = Vec::new();
        let mut k: usize = 0;
        proof {
            self.lemma_wf();
        }
        while k < self.data.len()
            invariant
                k <= self.data.len(),
                self.wf(),
                self.may_ask(labels@, f),
                rows_fit(rows_of(self.data@), self.datatypes@),
                self@.labels.len() == self.datatypes@.len(),
                mask@.len() == k,
                forall|i: int| 0 <= i < k ==> self.holds_of_all(labels@, f, i, #[trigger] mask@[i]),
            decreases self.data.len() - k,
        {
            let mut verdict = true;
            let mut j: usize = 0;
            while j < labels.len() && verdict
                invariant
                    j <= labels.len(),
                    k < self.data.len(),
                    self.wf(),
                    self.may_ask(labels@, f),
                    rows_fit(rows_of(self.data@), self.datatypes@),
                    self@.labels.len() == self.datatypes@.len(),
                    verdict ==> forall|c: int|
                        0 <= c < j ==> label_map(self@.labels).contains_key(
                            (#[trigger] labels@[c])@,
                        ) && call_ensures(
                            f,
                            (&self.held()[k as int].held()[label_map(
                                self@.labels,
                            )[labels@[c]@] as int],),
                            true,
                        ),
                    !verdict ==> self.holds_of_all(labels@, f, k as int, false),
                decreases labels.len() - j,
            {
                let label: &str = labels[j];
                match self.label_position(label) {
                    Some(pos) => {
                        proof {
                            assert(rows_of(self.data@)[k as int].values.len() == self.datatypes@.len());
                            self.data@[k as int].lemma_view();
                            assert(self.held()[k as int] == self.data@[k as int]);
                            assert(label_map(self@.labels).contains_key(labels@[j as int]@));
                        }
                        if !f(&self.data[k].get_data()[pos]) {
                            verdict = false;
                        }
                    },
                    None => {
                        verdict = false;
                    },
                }
                j = j + 1;
            }
            mask.push(verdict);
            k = k + 1;
        }
        let r = self.pick(&mask);
        proof {
            assert(r@.rows == picked_rows(self@.rows, mask@));
        }
        r
    }

    /// The table of the rows of which `f` holds in any of the columns that
    /// the labels name.
    pub fn filter_any<P: Fn(&FlexData) -> bool>(&self, labels: &[&str], f: P) -> (r: Self)
        requires
            self.wf(),
            self.may_ask(labels@, f),
        ensures
            r.wf(),
            r@.labels == self@.labels,
            r@.datatypes == self@.datatypes,
            exists|mask: Seq<bool>|
                {
                    &&& mask.len() == self@.rows.len()
                    &&& forall|i: int|
                        0 <= i < mask.len() ==> self.holds_of_any(labels@, f, i, #[trigger] mask[i])
                    &&& r@.rows == #[trigger] picked_rows(self@.rows, mask)
                },
    {
        let mut mask: Vec<bool> = Vec::new();
        let mut k: usize = 0;
        proof {
            self.lemma_wf();
        }
        while k < self.data.len()
            invariant
                k <= self.data.len(),
                self.wf(),
                self.may_ask(labels@, f),
                rows_fit(rows_of(self.data@), self.datatypes@),
                self@.labels.len() == self.datatypes@.len(),
                mask@.len() == k,
                forall|i: int| 0 <= i < k ==> self.holds_of_any(labels@, f, i, #[trigger] mask@[i]),
            decreases self.data.len() - k,
        {
            let mut verdict = false;
            let mut j: usize = 0;
            while j < labels.len() && !verdict
                invariant
                    j <= labels.len(),
                    k < self.data.len(),
                    self.wf(),
                    self.may_ask(labels@, f),
                    rows_fit(rows_of(self.data@), self.datatypes@),
                    self@.labels.len() == self.datatypes@.len(),
                    !verdict ==> forall|c: int|
                        0 <= c < j && label_map(self@.labels).contains_key(
                            (#[trigger] labels@[c])@,
                        ) ==> call_ensures(
                            f,
                            (&self.held()[k as int].held()[label_map(
                                self@.labels,
                            )[labels@[c]@] as int],),
                            false,
                        ),
                    verdict ==> self.holds_of_any(labels@, f, k as int, true),
                decreases labels.len() - j,
            {
                let label: &str = labels[j];
                match self.label_position(label) {
                    Some(pos) => {
                        proof {
                            assert(rows_of(self.data@)[k as int].values.len() == self.datatypes@.len());
                            self.data@[k as int].lemma_view();
                            assert(self.held()[k as int] == self.data@[k as int]);
                            assert(label_map(self@.labels).contains_key(labels@[j as int]@));
                        }
                        if f(&self.data[k].get_data()[pos]) {
                            verdict = true;
                        }
                    },
                    None => {},
                }
                j = j + 1;
            }
            mask.push(verdict);
            k = k + 1;
        }
        let r = self.pick(&mask);
        proof {
            assert(r@.rows == picked_rows(self@.rows, mask@));
        }
        r
    }

    /// Whether `args` are the values that the row at `i` holds in the
    /// columns that the labels name, in the order of the labels.
    pub open spec fn inputs_of(&self, labels: Seq<&str>, i: int, args: Seq<&FlexData>) -> bool {
        &&& args.len() == labels.len()
        &&& forall|j: int|
            0 <= j < labels.len() ==> *(#[trigger] args[j]) == self.held()[i].held()[label_map(
                self@.labels,
            )[labels[j]@] as int]
    }

    /// The column that `f` makes of the rows: under the key of each row,
    /// what `f` makes of the values that the row holds in the columns named,
    /// coerced to the kind given.
    pub fn nary_apply<P: Fn(&[&FlexData]) -> FlexData, F: FloatOps>(
        &self,
        label: &str,
        datatype: FlexDataType,
        labels: &[&str],
        f: P,
        ops: &F,
    ) -> (r: FlexSeries)
        requires
            self.wf(),
            forall|j: int|
                0 <= j < labels@.len() ==> label_map(self@.labels).contains_key(
                    (#[trigger] labels@[j])@,
                ),
            forall|i: int, args: &[&FlexData]|
                0 <= i < self.held().len() && #[trigger] self.inputs_of(labels@, i, args@)
                    ==> call_requires(f, (args,)),
        ensures
            r.wf(),
            r@.label == label@,
            r@.datatype == datatype,
            r@.cells.len() == self@.rows.len(),
            forall|i: int|
                0 <= i < self@.rows.len() ==> (#[trigger] r@.cells[i]).key == self@.rows[i].key
                    && exists|args: &[&FlexData], y: FlexData|
                    #[trigger] self.inputs_of(labels@, i, args@) && #[trigger] call_ensures(
                        f,
                        (args,),
                        y,
                    ) && converts(ops, y@, datatype, r@.cells[i].value),
    {
        let mut data: Vec<FlexDataPoint> = Vec::new();
        let ghost mut made: Seq<FlexData> = Seq::empty();
        let mut k: usize = 0;
        proof {
            self.lemma_wf();
        }
        while k < self.data.len()
            invariant
                k <= self.data.len(),
                self.wf(),
                rows_fit(rows_of(self.data@), self.datatypes@),
                self@.labels.len() == self.datatypes@.len(),
                forall|j: int|
                    0 <= j < labels@.len() ==> label_map(self@.labels).contains_key(
                        (#[trigger] labels@[j])@,
                    ),
                forall|i: int, args: &[&FlexData]|
                    0 <= i < self.held().len() && #[trigger] self.inputs_of(labels@, i, args@)
                        ==> call_requires(f, (args,)),
                data@.len() == k,
                made.len() == k,
                forall|i: int|
                    0 <= i < k ==> (#[trigger] data@[i])@.key == self@.rows[i].key && data@[i]@.value
                        == made[i]@ && exists|args: &[&FlexData]|
                        #[trigger] self.inputs_of(labels@, i, args@) && call_ensures(
                            f,
                            (args,),
                            made[i],
                        ),
            decreases self.data.len() - k,
        {
            let mut inputs: Vec<&FlexData> = Vec::new();
            let mut j: usize = 0;
            while j < labels.len()
                invariant
                    j <= labels.len(),
                    k < self.data.len(),
                    self.wf(),
                    rows_fit(rows_of(self.data@), self.datatypes@),
                    self@.labels.len() == self.datatypes@.len(),
                    forall|c: int|
                        0 <= c < labels@.len() ==> label_map(self@.labels).contains_key(
                            (#[trigger] labels@[c])@,
                        ),
                    inputs@.len() == j,
                    forall|c: int|
                        0 <= c < j ==> *(#[trigger] inputs@[c]) == self.held()[k as int].held()[label_map(
                            self@.labels,
                        )[labels@[c]@] as int],
                decreases labels.len() - j,
            {
                let l: &str = labels[j];
                assert(label_map(self@.labels).contains_key(labels@[j as int]@));
                let pos = self.label_position(l).unwrap();
                proof {
                    assert(rows_of(self.data@)[k as int].values.len() == self.datatypes@.len());
                    self.data@[k as int].lemma_view();
                    assert(self.held()[k as int] == self.data@[k as int]);
                }
                inputs.push(&self.data[k].get_data()[pos]);
                j = j + 1;
            }
            let args = inputs.as_slice();
            proof {
                assert(self.inputs_of(labels@, k as int, args@));
            }
            let y = f(args);
            let ghost before = made;
            proof {
                made = made.push(y);
                assert forall|i: int| 0 <= i < k implies made[i] == before[i] by {}
            }
            data.push(FlexDataPoint::new(self.data[k].get_index().clone(), y));
            proof {
                assert forall|i: int| 0 <= i < k + 1 implies (#[trigger] data@[i])@.key
                    == self@.rows[i].key && data@[i]@.value == made[i]@ && exists|
                    args: &[&FlexData],
                |
                    #[trigger] self.inputs_of(labels@, i, args@) && call_ensures(
                        f,
                        (args,),
                        made[i],
                    ) by {
                    if i == k {
                        assert(self.inputs_of(labels@, i, args@) && call_ensures(f, (args,), made[i]));
                    } else {
                        assert(made[i] == before[i]);
                    }
                }
            }
            k = k + 1;
        }
        proof {
            let cells = cells_of(data@);
            assert forall|a: int, b: int|
                0 <= a < cells.len() && 0 <= b < cells.len() && a != b implies (
            #[trigger] cells[a]).key != (#[trigger] cells[b]).key by {
                assert(self@.rows[a].key != self@.rows[b].key);
            }
        }
        let r = FlexSeries::from_vec(label, datatype, data, ops);
        proof {
            assert forall|i: int| 0 <= i < self@.rows.len() implies (#[trigger] r@.cells[i]).key
                == self@.rows[i].key && exists|args: &[&FlexData], y: FlexData|
                #[trigger] self.inputs_of(labels@, i, args@) && #[trigger] call_ensures(
                    f,
                    (args,),
                    y,
                ) && converts(ops, y@, datatype, r@.cells[i].value) by {
                let args = choose|args: &[&FlexData]|
                    #[trigger] self.inputs_of(labels@, i, args@) && call_ensures(
                        f,
                        (args,),
                        made[i],
                    );
                assert(self.inputs_of(labels@, i, args@) && call_ensures(f, (args,), made[i])
                    && converts(ops, made[i]@, datatype, r@.cells[i].value));
            }
        }
        r
    }

    /// The table with its rows in the order of the values of a column,
    /// rising or falling; rows whose values there are equal keep their order.
    /// The values of the column must be such as can be compared: no NaN
    /// beside another number.
    pub fn sort(&self, label: &str, ascending: bool) -> (r: Self)
        requires
            self.wf(),
            label_map(self@.labels).contains_key(label@),
            column_comparable(self@.rows, label_map(self@.labels)[label@] as int),
        ensures
            r.wf(),
            r@.labels == self@.labels,
            r@.datatypes == self@.datatypes,
            r@.rows.to_multiset() == self@.rows.to_multiset(),
            rows_ordered(r@.rows, label_map(self@.labels)[label@] as int, ascending),
            ties_keep_order(self@.rows, r@.rows, label_map(self@.labels)[label@] as int),
    {
        let ghost rows = self@.rows;
        let pos = self.label_position(label).unwrap();
        let ghost at = pos as int;
        proof {
            self.lemma_wf();
        }
        let mut data: Vec<FlexDataVector> = Vec::new();
        let mut i: usize = 0;
        proof {
            assert(rows_of(data@) =~= rows.take(0));
        }
        while i < self.data.len()
            invariant
                i <= self.data.len(),
                rows == rows_of(self.data@),
                distinct_rows(rows),
                rows_fit(rows, self@.datatypes),
                at == pos,
                pos < self@.datatypes.len(),
                column_comparable(rows, at),
                rows_of(data@).to_multiset() == rows.take(i as int).to_multiset(),
                rows_ordered(rows_of(data@), at, ascending),
                ties_keep_order(rows, rows_of(data@), at),
            decreases self.data.len() - i,
        {
            let entry = self.data[i].clone();
            let ghost sorted = rows_of(data@);
            let ghost e = entry@;
            proof {
                assert(e == rows[i as int]);
                assert(e.values.len() == self@.datatypes.len());
                // Each row sorted so far stands before the place `i` among the rows.
                assert forall|j: int| 0 <= j < sorted.len() implies rows.contains(
                    #[trigger] sorted[j],
                ) && row_place(rows, sorted[j].key) < i && sorted[j].values.len()
                    == self@.datatypes.len() by {
                    to_multiset_contains(sorted, sorted[j]);
                    to_multiset_contains(rows.take(i as int), sorted[j]);
                    assert(sorted.contains(sorted[j]));
                    let w = choose|w: int|
                        0 <= w < rows.take(i as int).len() && rows.take(i as int)[w] == sorted[j];
                    assert(rows[w] == sorted[j]);
                    lemma_row_place(rows, w);
                }
            }
            proof {
                assert forall|j: int| 0 <= j < data@.len() implies pos < (
                #[trigger] data@[j])@.values.len() by {
                    assert(sorted[j].values.len() == self@.datatypes.len());
                }
            }
            let mut p: usize = data.len();
            while p > 0 && row_leads(&entry, &data[p - 1], pos, ascending)
                invariant
                    p <= data.len(),
                    sorted == rows_of(data@),
                    e == entry@,
                    pos < e.values.len(),
                    at == pos,
                    forall|j: int| 0 <= j < data@.len() ==> pos < (#[trigger] data@[j])@.values.len(),
                    forall|j: int|
                        p <= j < sorted.len() ==> if ascending {
                            e.values[at].below((#[trigger] sorted[j]).values[at])
                        } else {
                            sorted[j].values[at].below(e.values[at])
                        },
                decreases p,
            {
                assert(sorted[p - 1] == data@[p - 1]@);
                p = p - 1;
            }
            proof {
                if p > 0 {
                    assert(sorted[p - 1] == data@[p - 1]@);
                }
            }
            data.insert(p, entry);
            proof {
                let grown = rows_of(data@);
                assert(grown =~= sorted.insert(p as int, e));
                to_multiset_insert(sorted, p as int, e);
                assert(rows.take(i + 1) =~= rows.take(i as int).push(rows[i as int]));
                to_multiset_build(rows.take(i as int), rows[i as int]);
                lemma_row_place(rows, i as int);
                assert forall|a: int, b: int| 0 <= a < b < grown.len() implies if ascending {
                    !(#[trigger] grown[b]).values[at].below((#[trigger] grown[a]).values[at])
                } else {
                    !grown[a].values[at].below(grown[b].values[at])
                } by {
                    if b < p {
                        assert(grown[a] == sorted[a] && grown[b] == sorted[b]);
                    } else if a > p {
                        assert(grown[a] == sorted[a - 1] && grown[b] == sorted[b - 1]);
                    } else if a == p {
                        assert(grown[b] == sorted[b - 1]);
                        if ascending {
                            lemma_below_asymmetric(e.values[at], sorted[b - 1].values[at]);
                        } else {
                            lemma_below_asymmetric(sorted[b - 1].values[at], e.values[at]);
                        }
                    } else if b > p {
                        assert(grown[a] == sorted[a] && grown[b] == sorted[b - 1]);
                    } else {
                        // a < p == b: the row at p - 1 is not behind the new one.
                        assert(grown[a] == sorted[a]);
                        let last = sorted[p - 1];
                        if a < p - 1 {
                            let wa = row_place(rows, sorted[a].key);
                            let wl = row_place(rows, last.key);
                            assert(rows.contains(sorted[a]) && rows.contains(last));
                            let xa = choose|w: int| 0 <= w < rows.len() && rows[w] == sorted[a];
                            let xl = choose|w: int| 0 <= w < rows.len() && rows[w] == last;
                            lemma_row_place(rows, xa);
                            lemma_row_place(rows, xl);
                            assert(sorted[a].key != last.key) by {
                                let part = rows.take(i as int);
                                assert forall|x: int, y: int|
                                    0 <= x < part.len() && 0 <= y < part.len() && x != y implies (
                                #[trigger] part[x]).key != (#[trigger] part[y]).key by {
                                    assert(rows[x].key != rows[y].key);
                                }
                                lemma_same_rows_distinct(sorted, part);
                                if sorted[a].key == last.key {
                                    assert(xa == xl);
                                    assert(sorted[a] == last);
                                }
                            }
                            assert(xa != xl);
                            assert(xa != i && xl != i);
                            if ascending {
                                lemma_not_below_transitive(
                                    sorted[a].values[at],
                                    last.values[at],
                                    e.values[at],
                                );
                            } else {
                                lemma_not_below_transitive(
                                    e.values[at],
                                    last.values[at],
                                    sorted[a].values[at],
                                );
                            }
                        }
                    }
                }
                assert forall|a: int, b: int|
                    0 <= a < b < grown.len() && !(#[trigger] grown[a]).values[at].below(
                        (#[trigger] grown[b]).values[at],
                    ) && !grown[b].values[at].below(grown[a].values[at]) implies row_place(
                    rows,
                    grown[a].key,
                ) < row_place(rows, grown[b].key) by {
                    if b < p {
                        assert(grown[a] == sorted[a] && grown[b] == sorted[b]);
                    } else if a > p {
                        assert(grown[a] == sorted[a - 1] && grown[b] == sorted[b - 1]);
                    } else if a == p {
                        assert(grown[b] == sorted[b - 1]);
                    } else if b > p {
                        assert(grown[a] == sorted[a] && grown[b] == sorted[b - 1]);
                    } else {
                        assert(grown[a] == sorted[a]);
                    }
                }
            }
            i = i + 1;
        }
        proof {
            assert(rows.take(i as int) =~= rows);
            let sorted = rows_of(data@);
            assert forall|j: int| 0 <= j < sorted.len() implies rows.contains(#[trigger] sorted[j]) by {
                to_multiset_contains(sorted, sorted[j]);
                to_multiset_contains(rows, sorted[j]);
                assert(sorted.contains(sorted[j]));
            }
            assert forall|a: int, b: int|
                0 <= a < sorted.len() && 0 <= b < sorted.len() && a != b implies (
            #[trigger] sorted[a]).key != (#[trigger] sorted[b]).key by {
                lemma_same_rows_distinct(sorted, rows);
                if sorted[a].key == sorted[b].key {
                    let xa = choose|w: int| 0 <= w < rows.len() && rows[w] == sorted[a];
                    let xb = choose|w: int| 0 <= w < rows.len() && rows[w] == sorted[b];
                    assert(xa == xb);
                    assert(sorted[a] == sorted[b]);
                }
            }
            assert forall|a: int| 0 <= a < sorted.len() implies (#[trigger] sorted[a]).values.len()
                == self@.datatypes.len() && forall|j: int|
                0 <= j < self@.datatypes.len() ==> (#[trigger] sorted[a].values[j]).fits(
                    self@.datatypes[j],
                ) by {
                let w = choose|w: int| 0 <= w < rows.len() && rows[w] == sorted[a];
                assert(rows[w].values.len() == self@.datatypes.len());
                assert forall|j: int| 0 <= j < self@.datatypes.len() implies (
                #[trigger] sorted[a].values[j]).fits(self@.datatypes[j]) by {
                    assert(rows[w].values[j].fits(self@.datatypes[j]));
                }
            }
        }
        Self::from_typed(clone_labels(&self.labels), clone_kinds(&self.datatypes), data)
    }

    /// The table parted into groups by the value that each row holds in a
    /// column, turned to text: one table for each text, which holds the rows
    /// with that text, in their order. The groups stand in the order in which
    /// their texts first come up, and their tables are made side by side. No
    /// value of the column may be missing.
    pub fn group_by<F: FloatOps>(table: &Self, label: &str, ops: &F) -> (r: Vec<(String, Self)>)
        requires
            table.wf(),
            label_map(table@.labels).contains_key(label@),
            forall|i: int|
                0 <= i < table@.rows.len() ==> !((#[trigger] table@.rows[i]).values[label_map(
                    table@.labels,
                )[label@] as int] is NA),
        ensures
            forall|g: int|
                0 <= g < r@.len() ==> (#[trigger] r@[g]).1.wf() && r@[g].1@.labels == table@.labels
                    && r@[g].1@.datatypes == table@.datatypes,
            exists|texts: Seq<Seq<char>>|
                {
                    &&& #[trigger] grouped(table@.rows, texts, groups_of(r@))
                    &&& forall|i: int|
                        0 <= i < table@.rows.len() ==> converts(
                            ops,
                            table@.rows[i].values[label_map(table@.labels)[label@] as int],
                            FlexDataType::Str,
                            Datum::Str(#[trigger] texts[i]),
                        )
                },
            total_rows(groups_of(r@)) == table@.rows.len(),
            forall|g: int| 0 <= g < r@.len() ==> (#[trigger] r@[g]).1@.rows.len() >= 1,
    {
        let ghost rows = table@.rows;
        let pos = table.label_position(label).unwrap();
        let ghost at = pos as int;
        proof {
            table.lemma_wf();
        }
        // The distinct texts, the place of each among them, and under each
        // the keys of the rows that hold it.
        let mut names: Vec<String> = Vec::new();
        let mut lookup: StringHashMap<usize> = StringHashMap::new();
        let mut members: Vec<Vec<FlexIndex>> = Vec::new();
        let ghost mut texts: Seq<Seq<char>> = Seq::empty();
        let mut k: usize = 0;
        proof {
            assert(rows.take(0) =~= Seq::<Row>::empty());
        }
        while k < table.data.len()
            invariant
                k <= table.data.len(),
                rows == rows_of(table.data@),
                rows_fit(rows, table@.datatypes),
                at == pos,
                pos < table@.datatypes.len(),
                forall|i: int| 0 <= i < rows.len() ==> !((#[trigger] rows[i]).values[at] is NA),
                texts.len() == k,
                forall|i: int|
                    0 <= i < k ==> converts(
                        ops,
                        rows[i].values[at],
                        FlexDataType::Str,
                        Datum::Str(#[trigger] texts[i]),
                    ),
                names_indexed(lookup@, labels_of(names@)),
                members@.len() == names@.len(),
                forall|i: int| 0 <= i < k ==> lookup@.contains_key(#[trigger] texts[i]),
                forall|g: int| 0 <= g < names@.len() ==> texts.contains((#[trigger] names@[g])@),
                forall|g: int|
                    0 <= g < names@.len() ==> owned_keys((#[trigger] members@[g])@) == row_keys(
                        picked_rows(rows.take(k as int), name_mask(texts, names@[g]@)),
                    ),
            decreases table.data.len() - k,
        {
            assert(rows[k as int] == table.data@[k as int]@);
            assert(rows[k as int].values.len() == table@.datatypes.len());
            let text = convert(&table.data[k][pos], &FlexDataType::Str, ops);
            let name: String = match text {
                FlexData::Str(s) => s,
                _ => String::new(),
            };
            let key = table.data[k].get_index().clone();
            let ghost old_names = labels_of(names@);
            let ghost old_texts = texts;
            let ghost old_members = members@;
            let ghost old_lookup = lookup@;
            let ghost part = rows.take(k as int);
            let ghost grown = rows.take(k + 1);
            proof {
                texts = texts.push(name@);
                assert(grown.drop_last() =~= part);
                assert(grown.last() == rows[k as int]);
                assert forall|n: Seq<char>|
                    name_mask(texts, n).drop_last() =~= #[trigger] name_mask(old_texts, n) by {}
            }
            let found = match lookup.get(name.as_str()) {
                Some(g) => Some(*g),
                None => None,
            };
            match found {
                Some(g) => {
                    let mut group: Vec<FlexIndex> = Vec::new();
                    members.set_and_swap(g, &mut group);
                    let ghost before = owned_keys(group@);
                    group.push(key);
                    proof {
                        assert(owned_keys(group@) =~= before.push(rows[k as int].key));
                    }
                    members.set(g, group);
                    proof {
                        assert(old_names[g as int] == name@);
                        assert forall|h: int| 0 <= h < names@.len() implies owned_keys(
                            (#[trigger] members@[h])@,
                        ) == row_keys(picked_rows(grown, name_mask(texts, names@[h]@))) by {
                            let n = old_names[h];
                            assert(n == names@[h]@);
                            assert(name_mask(texts, n).drop_last() =~= name_mask(old_texts, n));
                            if h == g {
                                assert(name_mask(texts, n).last());
                                assert(picked_rows(grown, name_mask(texts, n)) == picked_rows(
                                    part,
                                    name_mask(old_texts, n),
                                ).push(rows[k as int]));
                                assert(row_keys(picked_rows(grown, name_mask(texts, n))) =~= row_keys(
                                    picked_rows(part, name_mask(old_texts, n)),
                                ).push(rows[k as int].key));
                                assert(old_members[h]@ == old_members[g as int]@);
                            } else {
                                assert(old_lookup[n] == h);
                                assert(n != name@);
                                assert(!name_mask(texts, n).last());
                                assert(members@[h] == old_members[h]);
                            }
                        }
                    }
                },
                None => {
                    lookup.insert(name.clone(), names.len());
                    names.push(name);
                    let mut group: Vec<FlexIndex> = Vec::new();
                    group.push(key);
                    members.push(group);
                    proof {
                        let new_names = labels_of(names@);
                        let fresh = new_names[new_names.len() - 1];
                        assert(new_names =~= old_names.push(fresh));
                        assert(fresh == texts[k as int]);
                        assert forall|g: int| 0 <= g < new_names.len() implies lookup@.contains_key(
                            #[trigger] new_names[g],
                        ) && lookup@[new_names[g]] == g by {
                            if g < old_names.len() {
                                assert(old_names[g] == new_names[g]);
                                assert(old_lookup.contains_key(old_names[g]));
                            }
                        }
                        assert forall|n: Seq<char>| #[trigger] lookup@.contains_key(n) implies lookup@[n]
                            < new_names.len() && new_names[lookup@[n] as int] == n by {
                            if n != fresh {
                                assert(old_lookup.contains_key(n));
                                assert(old_names[old_lookup[n] as int] == new_names[old_lookup[n] as int]);
                            }
                        }
                        // No earlier row holds the new text, so the new group is that of this row alone.
                        lemma_none_picked(part, old_texts, fresh, old_lookup);
                        assert forall|h: int| 0 <= h < names@.len() implies owned_keys(
                            (#[trigger] members@[h])@,
                        ) == row_keys(picked_rows(grown, name_mask(texts, names@[h]@))) by {
                            let n = new_names[h];
                            assert(n == names@[h]@);
                            assert(name_mask(texts, n).drop_last() =~= name_mask(old_texts, n));
                            if h == old_names.len() {
                                assert(name_mask(texts, n).last());
                                assert(picked_rows(grown, name_mask(texts, n)) =~= seq![
                                    rows[k as int],
                                ]);
                                assert(owned_keys(members@[h]@) =~= seq![rows[k as int].key]);
                                assert(row_keys(seq![rows[k as int]]) =~= seq![rows[k as int].key]);
                            } else {
                                assert(old_names[h] == n);
                                assert(old_lookup.contains_key(n));
                                assert(n != fresh);
                                assert(!name_mask(texts, n).last());
                                assert(members@[h] == old_members[h]);
                            }
                        }
                    }
                },
            }
            proof {
                assert forall|g: int| 0 <= g < names@.len() implies texts.contains(
                    (#[trigger] names@[g])@,
                ) by {
                    if g < old_names.len() {
                        assert(old_names[g] == names@[g]@);
                        assert(old_texts.contains(old_names[g]));
                        let w = choose|w: int| 0 <= w < old_texts.len() && old_texts[w] == old_names[g];
                        assert(texts[w] == old_names[g]);
                    } else {
                        assert(texts[k as int] == names@[g]@);
                    }
                }
                assert forall|i: int| 0 <= i < k + 1 implies converts(
                    ops,
                    rows[i].values[at],
                    FlexDataType::Str,
                    Datum::Str(#[trigger] texts[i]),
                ) by {
                    if i < k {
                        assert(texts[i] == old_texts[i]);
                    }
                }
                assert forall|i: int| 0 <= i < k + 1 implies lookup@.contains_key(
                    #[trigger] texts[i],
                ) by {
                    if i < k {
                        assert(texts[i] == old_texts[i]);
                        assert(old_lookup.contains_key(old_texts[i]));
                    }
                }
            }
            k = k + 1;
        }
        proof {
            assert(rows.take(k as int) =~= rows);
        }
        // One table for each text.
        let subset = |keys: &Vec<FlexIndex>| -> (r: Self)
            requires
                table.wf(),
            ensures
                r.wf(),
                r@.labels == table@.labels,
                r@.datatypes == table@.datatypes,
                r@.rows == chosen_rows(table@.rows, owned_keys(keys@)),
            {
                table.get_subset(clone_keys(keys))
            };
        let tables = par_map(&members, subset);
        let count = names.len();
        let mut res: Vec<(String, Self)> = Vec::new();
        let mut g: usize = 0;
        for part in it: tables
            invariant
                g == it.index(),
                it.seq().len() == names@.len(),
                names@.len() == count,
                rows == table@.rows,
                distinct_rows(rows),
                texts.len() == rows.len(),
                members@.len() == names@.len(),
                forall|h: int| 0 <= h < names@.len() ==> texts.contains((#[trigger] names@[h])@),
                forall|h: int|
                    0 <= h < names@.len() ==> owned_keys((#[trigger] members@[h])@) == row_keys(
                        picked_rows(rows, name_mask(texts, names@[h]@)),
                    ),
                forall|h: int|
                    0 <= h < names@.len() ==> (#[trigger] it.seq()[h]).wf() && it.seq()[h]@.labels
                        == table@.labels && it.seq()[h]@.datatypes == table@.datatypes
                        && it.seq()[h]@.rows == chosen_rows(rows, owned_keys(members@[h]@)),
                res@.len() == g,
                forall|c: int|
                    0 <= c < g ==> (#[trigger] res@[c]).0@ == names@[c]@ && res@[c].1.wf()
                        && res@[c].1@.labels == table@.labels && res@[c].1@.datatypes
                        == table@.datatypes && res@[c].1@.rows == picked_rows(
                        rows,
                        name_mask(texts, names@[c]@),
                    ),
        {
            proof {
                let mask = name_mask(texts, names@[g as int]@);
                assert(part == it.seq()[g as int]);
                assert(owned_keys(members@[g as int]@) == row_keys(picked_rows(rows, mask)));
                lemma_chosen_picked(rows, mask);
            }
            res.push((names[g].clone(), part));
            g = g + 1;
        }
        proof {
            let groups = groups_of(res@);
            let all = labels_of(names@);
            assert(names_of(groups) =~= all);
            assert forall|a: int, b: int| 0 <= a < all.len() && 0 <= b < all.len() && a != b implies all[a]
                != all[b] by {
                assert(lookup@[all[a]] == a && lookup@[all[b]] == b);
            }
            assert forall|i: int| 0 <= i < texts.len() implies names_of(groups).contains(
                #[trigger] texts[i],
            ) by {
                let h = lookup@[texts[i]];
                assert(names_of(groups)[h as int] == texts[i]);
            }
            assert forall|h: int| 0 <= h < groups.len() implies texts.contains(
                (#[trigger] groups[h]).name,
            ) by {
                assert(groups[h].name == names@[h]@);
            }
            assert(grouped(rows, texts, groups));
            lemma_grouped(rows, texts, groups);
            assert forall|h: int| 0 <= h < res@.len() implies (#[trigger] res@[h]).1@.rows.len()
                >= 1 by {
                assert(groups[h].rows == res@[h].1@.rows);
            }
        }
        res
    }

    /// Whether a value of the table is missing.
    pub fn has_na(&self) -> (r: bool)
        ensures
            r == exists|i: int, j: int|
                0 <= i < self@.rows.len() && 0 <= j < self@.rows[i].values.len()
                    && #[trigger] self@.rows[i].values[j] is NA,
    {
        let mut i: usize = 0;
        while i < self.data.len()
            invariant
                i <= self.data.len(),
                forall|a: int, b: int|
                    0 <= a < i && 0 <= b < self@.rows[a].values.len() ==> !(
                    #[trigger] self@.rows[a].values[b] is NA),
            decreases self.data.len() - i,
        {
            if self.data[i].has_na() {
                proof {
                    let b = choose|b: int|
                        0 <= b < self.data@[i as int]@.values.len()
                            && #[trigger] self.data@[i as int]@.values[b] is NA;
                    assert(self@.rows[i as int].values[b] is NA);
                }
                return true;
            }
            proof {
                assert forall|b: int| 0 <= b < self@.rows[i as int].values.len() implies !(
                #[trigger] self@.rows[i as int].values[b] is NA) by {
                    assert(!(self.data@[i as int]@.values[b] is NA));
                }
            }
            i = i + 1;
        }
        false
    }

    fn row_misses(&self, k: usize) -> (r: bool)
        requires
            self.wf(),
            k < self@.rows.len(),
        ensures
            r == missing_where_named(self@.rows[k as int], self@.labels),
    {
        let ghost row = self@.rows[k as int];
        let ghost labels = self@.labels;
        let count = self.labels.len();
        proof {
            self.lemma_wf();
            assert(labels.len() == count);
            lemma_label_map(labels);
        }
        let mut j: usize = 0;
        while j < self.labels.len()
            invariant
                j <= self.labels.len(),
                self.wf(),
                k < self.data@.len(),
                row == self.data@[k as int]@,
                row.values.len() == labels.len(),
                labels == self@.labels,
                labels.len() == self.labels@.len(),
                forall|l: Seq<char>| #[trigger]
                    label_map(labels).contains_key(l) ==> label_map(labels)[l] < labels.len(),
                forall|c: int| 0 <= c < labels.len() ==> label_map(labels).contains_key(#[trigger] labels[c]),
                forall|c: int|
                    0 <= c < j ==> !(row.values[label_map(labels)[#[trigger] labels[c]] as int] is NA),
            decreases self.labels.len() - j,
        {
            assert(labels[j as int] == self.labels@[j as int]@);
            let pos = self.label_position(self.labels[j].as_str()).unwrap();
            match self.data[k][pos] {
                FlexData::NA => {
                    assert(row.values[label_map(labels)[labels[j as int]] as int] is NA);
                    return true;
                },
                _ => {},
            }
            j = j + 1;
        }
        false
    }

    fn pick_missing(&self, missing: bool) -> (r: Self)
        requires
            self.wf(),
        ensures
            r.wf(),
            r@.labels == self@.labels,
            r@.datatypes == self@.datatypes,
            r@.rows == picked_rows(self@.rows, missing_mask(self@.rows, self@.labels, missing)),
    {
        let mut mask: Vec<bool> = Vec::new();
        let mut i: usize = 0;
        while i < self.data.len()
            invariant
                i <= self.data.len(),
                self.wf(),
                mask@.len() == i,
                forall|a: int|
                    0 <= a < i ==> #[trigger] mask@[a] == (missing_where_named(
                        self@.rows[a],
                        self@.labels,
                    ) == missing),
            decreases self.data.len() - i,
        {
            mask.push(self.row_misses(i) == missing);
            i = i + 1;
        }
        proof {
            assert(mask@ =~= missing_mask(self@.rows, self@.labels, missing));
        }
        self.pick(&mask)
    }

    /// The table of the rows that hold a missing value in a named column.
    pub fn get_na(&self) -> (r: Self)
        requires
            self.wf(),
        ensures
            r.wf(),
            r@.labels == self@.labels,
            r@.datatypes == self@.datatypes,
            r@.rows == picked_rows(self@.rows, missing_mask(self@.rows, self@.labels, true)),
    {
        self.pick_missing(true)
    }

    /// The table without the rows that hold a missing value in a named column.
    pub fn drop_na(&self) -> (r: Self)
        requires
            self.wf(),
        ensures
            r.wf(),
            r@.labels == self@.labels,
            r@.datatypes == self@.datatypes,
            r@.rows == picked_rows(self@.rows, missing_mask(self@.rows, self@.labels, false)),
    {
        self.pick_missing(false)
    }

    /// A copy of the next row that has not been handed out; once all are
    /// out, nothing, and the round starts again.
    pub fn next(&mut self) -> (r: Option<FlexDataVector>)
        requires
            old(self).wf(),
        ensures
            final(self).wf(),
            final(self)@ == old(self)@,
            match r {
                Some(row) => old(self).cursor() < old(self)@.rows.len() && final(self).cursor()
                    == old(self).cursor() + 1 && row@ == old(self)@.rows[old(self).cursor() as int],
                None => old(self).cursor() >= old(self)@.rows.len() && final(self).cursor() == 0,
            },
    {
        if self.iter_counter < self.data.len() {
            let dv = self.data[self.iter_counter].clone();
            self.iter_counter = self.iter_counter + 1;
            Some(dv)
        } else {
            self.iter_counter = 0;
            None
        }
    }

    /// The labels of the columns.
    pub fn get_labels(&self) -> (r: &Vec<String>)
        ensures
            labels_of(r@) == self@.labels,
    {
        &self.labels
    }

    /// The declared kinds of the columns.
    pub fn get_datatypes(&self) -> (r: &Vec<FlexDataType>)
        ensures
            r@ == self@.datatypes,
    {
        &self.datatypes
    }

    /// The keys of the rows, in their order.
    pub fn get_indices(&self) -> (r: Vec<FlexIndex>)
        ensures
            r@.len() == self@.rows.len(),
            forall|i: int| 0 <= i < r@.len() ==> (#[trigger] r@[i])@ == self@.rows[i].key,
    {
        let mut out: Vec<FlexIndex> = Vec::new();
        let mut i: usize = 0;
        while i < self.data.len()
            invariant
                i <= self.data.len(),
                out@.len() == i,
                forall|j: int| 0 <= j < i ==> (#[trigger] out@[j])@ == self@.rows[j].key,
            decreases self.data.len() - i,
        {
            out.push(self.data[i].get_index().clone());
            i = i + 1;
        }
        out
    }

    /// The number of rows.
    pub fn num_records(&self) -> (r: usize)
        ensures
            r == self@.rows.len(),
    {
        self.data.len()
    }

    /// The number of columns.
    pub fn num_series(&self) -> (r: usize)
        ensures
            r == self@.datatypes.len(),
    {
        self.datatypes.len()
    }

    /// The place of the row under a key, if there is one.
    pub fn position(&self, index: &FlexIndex) -> (r: Option<usize>)
        requires
            self.wf(),
        ensures
            r is Some == has_row(self@.rows, index@),
            r matches Some(p) ==> p == row_place(self@.rows, index@) && p < self@.rows.len()
                && self@.rows[p as int].key == index@,
    {
        proof {
            lemma_indexes_rows(self.index_to_pos@, self@.rows);
        }
        self.index_to_pos.get(index)
    }

    /// The place of the column that a label names, if it names one.
    pub fn label_position(&self, label: &str) -> (r: Option<usize>)
        requires
            self.wf(),
        ensures
            r == (if label_map(self@.labels).contains_key(label@) {
                Some(label_map(self@.labels)[label@])
            } else {
                None
            }),
            r matches Some(p) ==> p < self@.labels.len() && self@.labels[p as int] == label@,
    {
        let count = self.labels.len();
        proof {
            assert(self@.labels.len() == count);
            lemma_label_map(self@.labels);
        }
        match self.label_to_pos.get(label) {
            Some(p) => Some(*p),
            None => None,
        }
    }

    /// A copy of the row under a key, if there is one.
    pub fn at(&self, index: &FlexIndex) -> (r: Option<FlexDataVector>)
        requires
            self.wf(),
        ensures
            match r {
                Some(row) => row_at(self@.rows, index@) == Some(row@),
                None => row_at(self@.rows, index@) is None,
            },
    {
        match self.position(index) {
            Some(pos) => Some(self.data[pos].clone()),
            None => None,
        }
    }

    /// Whether a row stands under a key.
    pub fn contains(&self, index: &FlexIndex) -> (r: bool)
        requires
            self.wf(),
        ensures
            r == has_row(self@.rows, index@),
    {
        proof {
            lemma_indexes_rows(self.index_to_pos@, self@.rows);
        }
        self.index_to_pos.contains(index)
    }
}

impl Clone for FlexTable {
    fn clone(&self) -> (r: Self)
        ensures
            r@ == self@,
            self.wf() ==> r.wf(),
    {
        let data = clone_rows(&self.data);
        let labels = clone_labels(&self.labels);
        let mut index = KeyIndex::new();
        let mut i: usize = 0;
        // The index is written out again row by row, as it was built.
        while i < data.len()
            invariant
                i <= data.len(),
                rows_of(data@) == rows_of(self.data@),
                self.wf() ==> indexes_rows(index@, rows_of(data@).take(i as int)),
            decreases data.len() - i,
        {
            let ghost before = index@;
            index.insert(data[i].get_index().clone(), i);
            proof {
                if self.wf() {
                    let rows = rows_of(data@);
                    self.lemma_wf();
                    let grown = rows.take(i + 1);
                    assert(rows[i as int].key == data@[i as int]@.key);
                    assert forall|j: int| 0 <= j < grown.len() implies index@.contains_key(
                        (#[trigger] grown[j]).key,
                    ) && index@[grown[j].key] == j by {
                        if j < i {
                            assert(rows.take(i as int)[j] == grown[j]);
                            assert(rows[j].key != rows[i as int].key);
                        }
                    }
                    assert forall|k: Key| #[trigger] index@.contains_key(k) implies index@[k]
                        < grown.len() && grown[index@[k] as int].key == k by {
                        if k != rows[i as int].key {
                            assert(before.contains_key(k));
                            assert(rows.take(i as int)[before[k] as int] == grown[before[k] as int]);
                        }
                    }
                }
            }
            i = i + 1;
        }
        proof {
            assert(rows_of(data@).take(i as int) =~= rows_of(data@));
        }
        let label_to_pos = index_labels(&labels);
        FlexTable {
            iter_counter: self.iter_counter,
            labels,
            datatypes: clone_kinds(&self.datatypes),
            data,
            label_to_pos,
            index_to_pos: index,
        }
    }
}

impl Index<usize> for FlexTable {
    type Output = FlexDataVector;

    fn index(&self, index: usize) -> (r: &FlexDataVector)
        ensures
            *r == self.held()[index as int],
            r@ == self@.rows[index as int],
    {
        &self.data[index]
    }
}

impl vstd::std_specs::core::IndexSpecImpl<usize> for FlexTable {
    open spec fn index_req(&self, index: &usize) -> bool {
        *index < self@.rows.len()
    }
}

} // verus!
