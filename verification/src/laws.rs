//! Laws of columns: what holds of every coercion, upsert, alignment and
//! aligned operation.

use vstd::prelude::*;
use crate::flexdata::{Datum, FlexDataType, Operator};
use crate::flexdatapoint::Cell;
use crate::flexseries::{
    aligned, cell_at, common, distinct_keys, has_key, joined, lemma_common, lemma_picked,
    lemma_picks, lemma_place_of, picks, place_of, upserted,
};
use crate::float::FloatOps;
use crate::globals::Key;
use crate::helper::converts;

verus! {

/// Coercion is total: whatever the value and the kind, the result is of
/// the kind asked for, or missing.
pub proof fn law_coercion_total<F: FloatOps>(ops: &F, x: Datum, t: FlexDataType, r: Datum)
    requires
        converts(ops, x, t, r),
    ensures
        r.kind() == t || r is NA,
{
}

/// Coercing a value to a kind of which it is already, and coercing a
/// missing value, leaves the value as it is.
pub proof fn law_coercion_settles<F: FloatOps>(ops: &F, x: Datum, t: FlexDataType, r: Datum)
    requires
        x.fits(t),
        converts(ops, x, t, r),
    ensures
        r == x,
{
}

/// Putting an entry into a column leaves the keys distinct.
pub proof fn law_upsert_keeps_keys_distinct<F: FloatOps>(
    ops: &F,
    old: Seq<Cell>,
    t: FlexDataType,
    item: Cell,
    new: Seq<Cell>,
)
    requires
        distinct_keys(old),
        upserted(ops, old, t, item, new),
    ensures
        distinct_keys(new),
        has_key(new, item.key),
        converts(ops, item.value, t, cell_at(new, item.key)->0.value),
        new.len() == (if has_key(old, item.key) {
            old.len()
        } else {
            old.len() + 1
        }),
{
    if has_key(old, item.key) {
        let p = place_of(old, item.key);
        assert(old[p].key == item.key);
        assert forall|i: int, j: int|
            0 <= i < new.len() && 0 <= j < new.len() && i != j implies (#[trigger] new[i]).key != (
        #[trigger] new[j]).key by {
            assert(new[i].key == old[i].key);
            assert(new[j].key == old[j].key);
        }
        lemma_place_of(new, p);
    } else {
        let n = old.len() as int;
        assert forall|i: int, j: int|
            0 <= i < new.len() && 0 <= j < new.len() && i != j implies (#[trigger] new[i]).key != (
        #[trigger] new[j]).key by {
            if i < n && j < n {
                assert(new[i] == old[i] && new[j] == old[j]);
            } else if i < n {
                assert(new[i] == old[i]);
            } else {
                assert(new[j] == old[j]);
            }
        }
        lemma_place_of(new, n);
    }
}

/// Putting two entries under one key into a column, one after the other,
/// leaves one entry under that key, which holds the second value; the
/// second entry does not make the column longer.
pub proof fn law_upsert_twice<F: FloatOps>(
    ops: &F,
    start: Seq<Cell>,
    t: FlexDataType,
    first: Cell,
    second: Cell,
    between: Seq<Cell>,
    end: Seq<Cell>,
)
    requires
        distinct_keys(start),
        first.key == second.key,
        upserted(ops, start, t, first, between),
        upserted(ops, between, t, second, end),
    ensures
        distinct_keys(end),
        has_key(end, second.key),
        converts(ops, second.value, t, cell_at(end, second.key)->0.value),
        end.len() == between.len(),
        forall|i: int|
            0 <= i < end.len() && i != place_of(end, second.key) ==> (#[trigger] end[i]).key
                != second.key && end[i] == between[i],
{
    law_upsert_keeps_keys_distinct(ops, start, t, first, between);
    law_upsert_keeps_keys_distinct(ops, between, t, second, end);
    let p = place_of(between, second.key);
    assert(between[p].key == second.key);
    assert(end[p].key == second.key);
    lemma_place_of(end, p);
    assert forall|i: int| 0 <= i < end.len() && i != place_of(end, second.key) implies (
    #[trigger] end[i]).key != second.key && end[i] == between[i] by {
        assert(end[i].key != end[p].key);
    }
}

/// A column brought up to a list of keys holds every key of the list and
/// every key that it held, and under each key that it held the entry that
/// stood there.
pub proof fn law_align_superset(old: Seq<Cell>, keys: Seq<Key>, new: Seq<Cell>)
    requires
        distinct_keys(old),
        distinct_keys(new),
        aligned(old, keys, new),
    ensures
        forall|k: Key| keys.contains(k) || has_key(old, k) ==> has_key(new, k),
        forall|k: Key| has_key(old, k) ==> cell_at(new, k) == cell_at(old, k),
{
    assert forall|k: Key| keys.contains(k) || has_key(old, k) implies has_key(new, k) by {
        if has_key(old, k) {
            let p = place_of(old, k);
            assert(old[p].key == k);
            assert(new[p] == old[p]);
        } else {
            let j = choose|j: int| 0 <= j < keys.len() && keys[j] == k;
            assert(has_key(new, keys[j]));
        }
    }
    assert forall|k: Key| has_key(old, k) implies cell_at(new, k) == cell_at(old, k) by {
        let p = place_of(old, k);
        assert(old[p].key == k);
        assert(new[p] == old[p]);
        lemma_place_of(new, p);
    }
}

/// What an operation makes of two columns holds exactly the keys that both hold.
pub proof fn law_join_keys<F: FloatOps>(
    ops: &F,
    op: Operator,
    t: FlexDataType,
    a: Seq<Cell>,
    b: Seq<Cell>,
    r: Seq<Cell>,
)
    requires
        joined(ops, op, t, a, b, r),
    ensures
        forall|k: Key| has_key(r, k) <==> has_key(a, k) && has_key(b, k),
{
    let mask = Seq::new(a.len(), |i: int| has_key(b, a[i].key));
    let c = common(a, b);
    lemma_common(a, b);
    lemma_picked(a, mask);
    lemma_picks(mask);
    assert forall|k: Key| has_key(r, k) implies has_key(a, k) && has_key(b, k) by {
        let i = choose|i: int| 0 <= i < r.len() && (#[trigger] r[i]).key == k;
        let w = picks(mask)[i];
        assert(c[i] == a[w]);
        assert(mask[w]);
        assert(a[w].key == k);
    }
    assert forall|k: Key| has_key(a, k) && has_key(b, k) implies has_key(r, k) by {
        let w = choose|w: int| 0 <= w < a.len() && (#[trigger] a[w]).key == k;
        assert(mask[w]);
        assert(picks(mask).contains(w));
        let i = choose|i: int| 0 <= i < picks(mask).len() && picks(mask)[i] == w;
        assert(c[i] == a[w]);
        assert(r[i].key == k);
    }
}

} // verus!
