//! Coercion between the kinds of scalar values, reading values from tokens,
//! and the passage between keys and values.

use vstd::prelude::*;
use crate::flexdata::{Datum, FlexData, FlexDataType, Operator};
use crate::float::FloatOps;
use crate::globals::{FlexIndex, Key};
use crate::keyindex::KeyIndex;
use crate::text::{
    chars_of, decimal, parse_char, parse_i32, parse_u32, signed_decimal, signed_to_string,
    spells_char, spells_i32, spells_u32, unsigned_to_string,
};

pub use crate::csv::extract_csv_headers;

verus! {

/// The kind of a value.
pub fn derive_datatype(data: &FlexData) -> (r: FlexDataType)
    ensures
        r == data@.kind(),
{
    match data {
        FlexData::Uint(_) => FlexDataType::Uint,
        FlexData::Int(_) => FlexDataType::Int,
        FlexData::Dbl(_) => FlexDataType::Dbl,
        FlexData::Str(_) => FlexDataType::Str,
        FlexData::Char(_) => FlexDataType::Char,
        FlexData::NA => FlexDataType::NA,
    }
}

/// A `u32` read as an `i32` with the same 32 bits.
pub open spec fn reinterpret_signed(v: u32) -> i32 {
    if v <= i32::MAX {
        v as i32
    } else {
        (v - 0x1_0000_0000) as i32
    }
}

/// An `i32` read as a `u32` with the same 32 bits.
pub open spec fn reinterpret_unsigned(v: i32) -> u32 {
    if v >= 0 {
        v as u32
    } else {
        (v + 0x1_0000_0000) as u32
    }
}

/// Whether `r` is what coercing `x` to the kind `t` yields.
///
/// The numeric kinds convert into one another, every kind but `NA` converts
/// to `Str`, a `Char` stays a `Char` and every other pair gives `NA`. Where
/// a `Dbl` is made or read, the result holds what the float arithmetic makes.
pub open spec fn converts<F: FloatOps>(ops: &F, x: Datum, t: FlexDataType, r: Datum) -> bool {
    match (x, t) {
        (Datum::Dbl(b), FlexDataType::Str) => r matches Datum::Str(s) && exists|out: String|
            #[trigger] call_ensures(F::to_text, (ops, b), out) && out@ == s,
        (Datum::Dbl(_), FlexDataType::Dbl) => r == x,
        (Datum::Dbl(b), FlexDataType::Int) => r matches Datum::Int(v) && call_ensures(
            F::to_i32,
            (ops, b),
            v,
        ),
        (Datum::Dbl(b), FlexDataType::Uint) => r matches Datum::Uint(v) && call_ensures(
            F::to_u32,
            (ops, b),
            v,
        ),
        (Datum::Uint(v), FlexDataType::Str) => r == Datum::Str(decimal(v as nat)),
        (Datum::Uint(v), FlexDataType::Dbl) => r matches Datum::Dbl(bits) && call_ensures(
            F::from_u32,
            (ops, v),
            bits,
        ),
        (Datum::Uint(v), FlexDataType::Int) => r == Datum::Int(reinterpret_signed(v)),
        (Datum::Uint(_), FlexDataType::Uint) => r == x,
        (Datum::Int(v), FlexDataType::Str) => r == Datum::Str(signed_decimal(v as int)),
        (Datum::Int(v), FlexDataType::Dbl) => r matches Datum::Dbl(bits) && call_ensures(
            F::from_i32,
            (ops, v),
            bits,
        ),
        (Datum::Int(_), FlexDataType::Int) => r == x,
        (Datum::Int(v), FlexDataType::Uint) => r == Datum::Uint(reinterpret_unsigned(v)),
        (Datum::Str(_), FlexDataType::Str) => r == x,
        (Datum::Char(c), FlexDataType::Str) => r == Datum::Str(seq![c]),
        (Datum::Char(_), FlexDataType::Char) => r == x,
        _ => r is NA,
    }
}

/// Coerces a value to a kind.
pub fn convert<F: FloatOps>(x: &FlexData, datatype: &FlexDataType, ops: &F) -> (r: FlexData)
    ensures
        converts(ops, x@, *datatype, r@),
        r@.fits(*datatype),
{
    match x {
        FlexData::Dbl(val) => match datatype {
            FlexDataType::Str => FlexData::Str(ops.to_text(*val)),
            FlexDataType::Dbl => FlexData::Dbl(*val),
            FlexDataType::Int => FlexData::Int(ops.to_i32(*val)),
            FlexDataType::Uint => FlexData::Uint(ops.to_u32(*val)),
            _ => FlexData::NA,
        },
        FlexData::Uint(val) => match datatype {
            FlexDataType::Str => FlexData::Str(unsigned_to_string(*val as u64)),
            FlexDataType::Dbl => FlexData::Dbl(ops.from_u32(*val)),
            FlexDataType::Int => if *val <= i32::MAX as u32 {
                FlexData::Int(*val as i32)
            } else {
                FlexData::Int((*val as i64 - 0x1_0000_0000) as i32)
            },
            FlexDataType::Uint => FlexData::Uint(*val),
            _ => FlexData::NA,
        },
        FlexData::Int(val) => match datatype {
            FlexDataType::Str => FlexData::Str(signed_to_string(*val as i64)),
            FlexDataType::Dbl => FlexData::Dbl(ops.from_i32(*val)),
            FlexDataType::Int => FlexData::Int(*val),
            FlexDataType::Uint => if *val >= 0 {
                FlexData::Uint(*val as u32)
            } else {
                FlexData::Uint((*val as i64 + 0x1_0000_0000) as u32)
            },
            _ => FlexData::NA,
        },
        FlexData::Str(val) => match datatype {
            FlexDataType::Str => FlexData::Str(val.clone()),
            _ => FlexData::NA,
        },
        FlexData::Char(val) => match datatype {
            FlexDataType::Str => {
                let mut s = String::new();
                s.push(*val);
                proof {
                    assert(s@ =~= seq![*val]);
                }
                FlexData::Str(s)
            },
            FlexDataType::Char => FlexData::Char(*val),
            _ => FlexData::NA,
        },
        FlexData::NA => FlexData::NA,
    }
}

/// Whether `r` is what a token reads as under the kind `t`.
///
/// A token that does not spell a value of a numeric kind or of `Char` reads
/// as `NA`; a `Dbl` is read by the float arithmetic, and the value is the
/// `Dbl` that it reads, or `NA` where it reads none; under `Str`, and under
/// `NA`, the token itself is the value.
pub open spec fn reads_as<F: FloatOps>(ops: &F, token: Seq<char>, t: FlexDataType, r: Datum) -> bool {
    match t {
        FlexDataType::Dbl => exists|s: &str, out: Option<u64>|
            #[trigger] call_ensures(F::parse, (ops, s), out) && s@ == token && r == (match out {
                Some(bits) => Datum::Dbl(bits),
                None => Datum::NA,
            }),
        FlexDataType::Int => r == match spells_i32(token) {
            Some(v) => Datum::Int(v),
            None => Datum::NA,
        },
        FlexDataType::Uint => r == match spells_u32(token) {
            Some(v) => Datum::Uint(v),
            None => Datum::NA,
        },
        FlexDataType::Char => r == match spells_char(token) {
            Some(c) => Datum::Char(c),
            None => Datum::NA,
        },
        _ => r == Datum::Str(token),
    }
}

/// Reads a token as a value of a kind.
pub fn generate_flexdata_from_str<F: FloatOps>(
    token: &str,
    datatype: &FlexDataType,
    ops: &F,
) -> (r: FlexData)
    ensures
        reads_as(ops, token@, *datatype, r@),
{
    match datatype {
        FlexDataType::Dbl => match ops.parse(token) {
            Some(bits) => FlexData::Dbl(bits),
            None => FlexData::NA,
        },
        FlexDataType::Int => match parse_i32(&chars_of(token)) {
            Some(v) => FlexData::Int(v),
            None => FlexData::NA,
        },
        FlexDataType::Uint => match parse_u32(&chars_of(token)) {
            Some(v) => FlexData::Uint(v),
            None => FlexData::NA,
        },
        FlexDataType::Char => match parse_char(&chars_of(token)) {
            Some(c) => FlexData::Char(c),
            None => FlexData::NA,
        },
        _ => FlexData::Str(token.to_owned()),
    }
}

/// The value that a key holds: a number cut to its low 32 bits, or its text.
pub open spec fn data_of_key(k: Key) -> Datum {
    match k {
        Key::Uint(n) => Datum::Uint((n as int % 0x1_0000_0000) as u32),
        Key::Str(s) => Datum::Str(s),
    }
}

/// Makes a value out of a key.
pub fn make_data_from_index(index: &FlexIndex) -> (r: FlexData)
    ensures
        r@ == data_of_key(index@),
{
    match index {
        FlexIndex::Uint(val) => FlexData::Uint((*val as u64 % 0x1_0000_0000u64) as u32),
        FlexIndex::Str(val) => FlexData::Str(val.clone()),
    }
}

/// Whether a value can serve as a key: a `Dbl` and `NA` cannot.
pub open spec fn key_eligible(d: Datum) -> bool {
    !(d is Dbl) && !(d is NA)
}

/// A signed integer widened to the machine's word: itself where it is not
/// negative, else its two's complement, which counts down from the greatest
/// word.
pub open spec fn widened(v: i32) -> usize {
    if v >= 0 {
        v as usize
    } else {
        (usize::MAX + 1 + v) as usize
    }
}

/// The key that a value becomes: an integer widened to the machine's word, a
/// negative one by its two's complement; a text as it is; a character as the
/// text of that one character.
pub open spec fn key_of_data(d: Datum) -> Key
    recommends
        key_eligible(d),
{
    match d {
        Datum::Uint(v) => Key::Uint(v as usize),
        Datum::Int(v) => Key::Uint(widened(v)),
        Datum::Char(c) => Key::Str(seq![c]),
        Datum::Str(s) => Key::Str(s),
        _ => Key::Uint(0),
    }
}

/// Makes a key out of a value.
pub fn make_index_from_data(data: &FlexData) -> (r: FlexIndex)
    requires
        key_eligible(data@),
    ensures
        r@ == key_of_data(data@),
{
    match data {
        FlexData::Uint(val) => FlexIndex::Uint(*val as usize),
        FlexData::Int(val) => if *val >= 0 {
            FlexIndex::Uint(*val as usize)
        } else {
            FlexIndex::Uint(usize::MAX - ((-(*val as i64) - 1) as usize))
        },
        FlexData::Char(val) => {
            let mut s = String::new();
            s.push(*val);
            proof {
                assert(s@ =~= seq![*val]);
            }
            FlexIndex::Str(s)
        },
        FlexData::Str(val) => FlexIndex::Str(val.clone()),
        _ => FlexIndex::Uint(0),
    }
}

/// Whether `r` is what adding up `values` from the left can give: the first
/// value where it stands alone, else a sum of what the values before the last
/// add up to and the last.
pub open spec fn adds_up_to<F: FloatOps>(ops: &F, values: Seq<Datum>, r: Datum) -> bool
    decreases values.len(),
{
    if values.len() == 0 {
        false
    } else if values.len() == 1 {
        r == values[0]
    } else {
        exists|p: Datum|
            adds_up_to(ops, values.drop_last(), p) && #[trigger] Operator::Plus.yields(
                ops,
                p,
                values.last(),
                r,
            )
    }
}

/// The values of a vector, each by its view.
pub open spec fn views(v: Seq<FlexData>) -> Seq<Datum> {
    Seq::new(v.len(), |i: int| v[i]@)
}

/// Adds up the values of a vector that holds at least one.
pub fn sum<F: FloatOps>(v: Vec<FlexData>, ops: &F) -> (r: FlexData)
    requires
        v.len() > 0,
    ensures
        adds_up_to(ops, views(v@), r@),
{
    let mut total = v[0].clone();
    let mut i: usize = 1;
    proof {
        assert(views(v@).take(1) =~= seq![v@[0]@]);
    }
    while i < v.len()
        invariant
            1 <= i <= v.len(),
            adds_up_to(ops, views(v@).take(i as int), total@),
        decreases v.len() - i,
    {
        let ghost before = total@;
        total.add_assign(v[i].clone(), ops);
        proof {
            let s = views(v@).take(i + 1);
            assert(s.drop_last() =~= views(v@).take(i as int));
            assert(s.last() == v@[i as int]@);
            assert(Operator::Plus.yields(ops, before, s.last(), total@));
        }
        i = i + 1;
    }
    proof {
        assert(views(v@).take(v.len() as int) =~= views(v@));
    }
    total
}

/// The keys of a vector of borrowed keys, each by its view.
pub open spec fn borrowed_keys(v: Seq<&FlexIndex>) -> Seq<Key> {
    Seq::new(v.len(), |i: int| v[i]@)
}

/// The keys of a vector of keys, each by its view.
pub open spec fn owned_keys(v: Seq<FlexIndex>) -> Seq<Key> {
    Seq::new(v.len(), |i: int| v[i]@)
}

/// Which of the keys stand where they stand for the first time.
pub fn first_occurrences(keys: &Vec<FlexIndex>) -> (r: Vec<bool>)
    ensures
        r@.len() == keys@.len(),
        forall|i: int|
            0 <= i < keys@.len() ==> #[trigger] r@[i] == !owned_keys(keys@).take(i).contains(
                keys@[i]@,
            ),
{
    let ghost all = owned_keys(keys@);
    let mut seen = KeyIndex::new();
    let mut out: Vec<bool> = Vec::new();
    let mut i: usize = 0;
    while i < keys.len()
        invariant
            i <= keys.len(),
            all == owned_keys(keys@),
            out@.len() == i,
            forall|k: Key| #[trigger] seen@.contains_key(k) ==> all.take(i as int).contains(k),
            forall|k: Key| #[trigger] all.take(i as int).contains(k) ==> seen@.contains_key(k),
            forall|j: int| 0 <= j < i ==> #[trigger] out@[j] == !all.take(j).contains(keys@[j]@),
        decreases keys.len() - i,
    {
        let ghost before = seen@;
        let ghost part = all.take(i as int);
        let ghost grown = all.take(i + 1);
        let ghost k0 = all[i as int];
        assert(k0 == keys@[i as int]@);
        out.push(!seen.contains(&keys[i]));
        seen.insert(keys[i].clone(), i);
        proof {
            assert forall|k: Key| #[trigger] seen@.contains_key(k) implies grown.contains(k) by {
                if k == k0 {
                    assert(grown[i as int] == k);
                } else {
                    assert(before.contains_key(k));
                    assert(part.contains(k));
                    let w = choose|w: int| 0 <= w < part.len() && part[w] == k;
                    assert(grown[w] == k);
                }
            }
            assert forall|k: Key| #[trigger] grown.contains(k) implies seen@.contains_key(k) by {
                let w = choose|w: int| 0 <= w < grown.len() && grown[w] == k;
                if w < i {
                    assert(part[w] == k);
                    assert(part.contains(k));
                }
            }
        }
        i = i + 1;
    }
    out
}

/// The keys that stand in both vectors, each once.
pub fn index_intersection(first: Vec<&FlexIndex>, other: Vec<&FlexIndex>) -> (r: Vec<FlexIndex>)
    ensures
        owned_keys(r@).no_duplicates(),
        forall|k: Key|
            owned_keys(r@).contains(k) <==> borrowed_keys(first@).contains(k) && borrowed_keys(
                other@,
            ).contains(k),
{
    let ghost a = borrowed_keys(first@);
    let ghost b = borrowed_keys(other@);
    let mut there = KeyIndex::new();
    let mut j: usize = 0;
    while j < other.len()
        invariant
            j <= other.len(),
            b == borrowed_keys(other@),
            forall|k: Key| there@.contains_key(k) <==> b.take(j as int).contains(k),
        decreases other.len() - j,
    {
        let ghost before = there@;
        there.insert(other[j].clone(), j);
        proof {
            let k0 = b[j as int];
            let part = b.take(j as int);
            let grown = b.take(j + 1);
            assert(k0 == other@[j as int]@);
            assert forall|k: Key| there@.contains_key(k) <==> grown.contains(k) by {
                if grown.contains(k) {
                    let w = choose|w: int| 0 <= w < grown.len() && grown[w] == k;
                    if w < j {
                        assert(part[w] == k);
                    }
                }
                if there@.contains_key(k) {
                    if k == k0 {
                        assert(grown[j as int] == k);
                    } else {
                        assert(before.contains_key(k));
                        let w = choose|w: int| 0 <= w < part.len() && part[w] == k;
                        assert(grown[w] == k);
                    }
                }
            }
        }
        j = j + 1;
    }
    proof {
        assert(b.take(j as int) =~= b);
    }
    let mut taken = KeyIndex::new();
    let mut out: Vec<FlexIndex> = Vec::new();
    let mut i: usize = 0;
    while i < first.len()
        invariant
            i <= first.len(),
            a == borrowed_keys(first@),
            forall|k: Key| there@.contains_key(k) <==> b.contains(k),
            forall|k: Key| #[trigger] taken@.contains_key(k) ==> owned_keys(out@).contains(k),
            forall|k: Key| #[trigger] owned_keys(out@).contains(k) ==> taken@.contains_key(k),
            owned_keys(out@).no_duplicates(),
            forall|k: Key|
                #[trigger] owned_keys(out@).contains(k) ==> a.take(i as int).contains(k)
                    && b.contains(k),
            forall|k: Key|
                #[trigger] a.take(i as int).contains(k) && b.contains(k) ==> owned_keys(
                    out@,
                ).contains(k),
        decreases first.len() - i,
    {
        let ghost before = owned_keys(out@);
        let ghost taken_before = taken@;
        let ghost k0 = a[i as int];
        assert(k0 == first@[i as int]@);
        let fresh = there.contains(first[i]) && !taken.contains(first[i]);
        if fresh {
            out.push(first[i].clone());
            taken.insert(first[i].clone(), i);
        }
        proof {
            let after = owned_keys(out@);
            if fresh {
                assert(after =~= before.push(k0));
                assert forall|x: int, y: int|
                    0 <= x < after.len() && 0 <= y < after.len() && x != y implies after[x]
                    != after[y] by {
                    if x < before.len() && y < before.len() {
                        assert(before[x] != before[y]);
                    } else if x < before.len() {
                        assert(before.contains(before[x]));
                    } else {
                        assert(before.contains(before[y]));
                    }
                }
                assert(after[after.len() - 1] == k0);
            } else {
                assert(after =~= before);
            }
            assert forall|k: Key| #[trigger] after.contains(k) implies taken@.contains_key(k) by {
                let w = choose|w: int| 0 <= w < after.len() && after[w] == k;
                if w < before.len() {
                    assert(before[w] == k);
                    assert(before.contains(k));
                }
            }
            assert forall|k: Key| #[trigger] taken@.contains_key(k) implies after.contains(k) by {
                if k != k0 || !fresh {
                    assert(taken_before.contains_key(k));
                    assert(before.contains(k));
                    let w = choose|w: int| 0 <= w < before.len() && before[w] == k;
                    assert(after[w] == k);
                }
            }
            let part = a.take(i as int);
            let grown = a.take(i + 1);
            assert forall|k: Key| #[trigger] after.contains(k) implies grown.contains(k)
                && b.contains(k) by {
                let w = choose|w: int| 0 <= w < after.len() && after[w] == k;
                if w < before.len() {
                    assert(before[w] == k);
                    assert(before.contains(k));
                    assert(part.contains(k));
                    let v = choose|v: int| 0 <= v < part.len() && part[v] == k;
                    assert(grown[v] == k);
                } else {
                    assert(grown[i as int] == k);
                }
            }
            assert forall|k: Key| #[trigger] grown.contains(k) && b.contains(k) implies after.contains(
                k,
            ) by {
                let v = choose|v: int| 0 <= v < grown.len() && grown[v] == k;
                if v < i {
                    assert(part[v] == k);
                    assert(part.contains(k));
                    assert(before.contains(k));
                    let w = choose|w: int| 0 <= w < before.len() && before[w] == k;
                    assert(after[w] == k);
                } else {
                    assert(k == k0);
                    if !fresh {
                        assert(taken_before.contains_key(k));
                        assert(before.contains(k));
                        let w = choose|w: int| 0 <= w < before.len() && before[w] == k;
                        assert(after[w] == k);
                    }
                }
            }
        }
        i = i + 1;
    }
    proof {
        assert(a.take(i as int) =~= a);
    }
    out
}

} // verus!
