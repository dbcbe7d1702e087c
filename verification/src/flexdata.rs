//! Scalar values of six kinds, their arithmetic, equality and order.

use vstd::prelude::*;
use vstd::std_specs::cmp::{PartialEqSpecImpl, PartialOrdSpecImpl};
use vstd::std_specs::convert::{FromSpecImpl, TryFromSpecImpl};
use std::cmp::Ordering;
use crate::helper::views;
use crate::float::{bits_eq, bits_is_zero, bits_lt, dbl_eq, dbl_lt, is_zero, FloatOps};
use crate::text::{
    lemma_text_before_irreflexive, lemma_text_before_total, lemma_text_before_transitive,
    str_before, text_before,
};

verus! {

/// The kind of a scalar value.
#[derive(Debug, Clone, Copy, PartialEq, Eq, Structural)]
pub enum FlexDataType {
    Str,
    Uint,
    Int,
    Dbl,
    Char,
    NA,
}

/// A dynamically typed scalar value.
///
/// `Dbl` carries a binary64 number as its IEEE-754 bit pattern.
#[derive(Debug)]
pub enum FlexData {
    Str(String),
    Uint(u32),
    Int(i32),
    Dbl(u64),
    Char(char),
    NA,
}

/// The mathematical value of a [`FlexData`].
pub enum Datum {
    Str(Seq<char>),
    Uint(u32),
    Int(i32),
    Dbl(u64),
    Char(char),
    NA,
}

impl View for FlexData {
    type V = Datum;

    open spec fn view(&self) -> Datum {
        match self {
            FlexData::Str(s) => Datum::Str(s@),
            FlexData::Uint(v) => Datum::Uint(*v),
            FlexData::Int(v) => Datum::Int(*v),
            FlexData::Dbl(b) => Datum::Dbl(*b),
            FlexData::Char(c) => Datum::Char(*c),
            FlexData::NA => Datum::NA,
        }
    }
}

impl Datum {
    /// The kind of this value.
    pub open spec fn kind(self) -> FlexDataType {
        match self {
            Datum::Str(_) => FlexDataType::Str,
            Datum::Uint(_) => FlexDataType::Uint,
            Datum::Int(_) => FlexDataType::Int,
            Datum::Dbl(_) => FlexDataType::Dbl,
            Datum::Char(_) => FlexDataType::Char,
            Datum::NA => FlexDataType::NA,
        }
    }

    /// The place of this value's kind among the kinds.
    pub open spec fn kind_rank(self) -> int {
        match self {
            Datum::Str(_) => 0,
            Datum::Uint(_) => 1,
            Datum::Int(_) => 2,
            Datum::Dbl(_) => 3,
            Datum::Char(_) => 4,
            Datum::NA => 5,
        }
    }

    /// Whether two values are equal. Two `Dbl` are equal as numbers are: a
    /// NaN equals nothing, itself included, and the two zeros are equal.
    pub open spec fn same(self, other: Datum) -> bool {
        match (self, other) {
            (Datum::Dbl(a), Datum::Dbl(b)) => dbl_eq(a, b),
            _ => self == other,
        }
    }

    /// Whether this value comes before the other. Values of different kinds
    /// stand in the order of their kinds; values of one kind in the order of
    /// what they hold.
    pub open spec fn below(self, other: Datum) -> bool {
        match (self, other) {
            (Datum::Str(a), Datum::Str(b)) => text_before(a, b),
            (Datum::Uint(a), Datum::Uint(b)) => a < b,
            (Datum::Int(a), Datum::Int(b)) => a < b,
            (Datum::Dbl(a), Datum::Dbl(b)) => dbl_lt(a, b),
            (Datum::Char(a), Datum::Char(b)) => (a as int) < (b as int),
            _ => self.kind_rank() < other.kind_rank(),
        }
    }

    /// Whether the two values can be compared: all can but a NaN with
    /// another `Dbl`.
    pub open spec fn comparable(self, other: Datum) -> bool {
        self.same(other) || self.below(other) || other.below(self)
    }

    /// Whether this value may be stored in a column declared as `t`.
    pub open spec fn fits(self, t: FlexDataType) -> bool {
        self.kind() == t || self is NA
    }
}

impl Clone for FlexData {
    fn clone(&self) -> (r: Self)
        ensures
            r@ == self@,
    {
        match self {
            FlexData::Str(s) => FlexData::Str(s.clone()),
            FlexData::Uint(v) => FlexData::Uint(*v),
            FlexData::Int(v) => FlexData::Int(*v),
            FlexData::Dbl(b) => FlexData::Dbl(*b),
            FlexData::Char(c) => FlexData::Char(*c),
            FlexData::NA => FlexData::NA,
        }
    }
}

/// Of two values one at most comes before the other.
pub proof fn lemma_below_asymmetric(a: Datum, b: Datum)
    requires
        a.below(b),
    ensures
        !b.below(a),
{
    if let (Datum::Str(x), Datum::Str(y)) = (a, b) {
        if text_before(y, x) {
            lemma_text_before_transitive(x, y, x);
            lemma_text_before_irreflexive(x);
        }
    }
}

/// Among values that can be compared, what is not behind a value that is
/// not behind a third is not behind the third.
pub proof fn lemma_not_below_transitive(a: Datum, b: Datum, c: Datum)
    requires
        a.comparable(b),
        b.comparable(c),
        a.comparable(c),
        !b.below(a),
        !c.below(b),
    ensures
        !c.below(a),
{
    if let (Datum::Str(x), Datum::Str(y), Datum::Str(z)) = (a, b, c) {
        if text_before(z, x) {
            if x == y {
            } else {
                lemma_text_before_total(x, y);
                lemma_text_before_transitive(z, x, y);
            }
        }
    }
}

/// Integer division that rounds toward zero.
pub open spec fn quotient_toward_zero(x: int, y: int) -> int
    recommends
        y != 0,
{
    if x >= 0 && y > 0 {
        x / y
    } else if x < 0 && y > 0 {
        -((-x) / y)
    } else if x >= 0 && y < 0 {
        -(x / (-y))
    } else {
        (-x) / (-y)
    }
}

/// Whether `r` is what adding up the values gives where a missing total
/// gives way to the next value: nothing adds up to a missing value; else the
/// last value where the values before it add up to a missing one, and a sum
/// of what they add up to and the last value where they do not.
pub open spec fn sums_to<F: FloatOps>(ops: &F, values: Seq<Datum>, r: Datum) -> bool
    decreases values.len(),
{
    if values.len() == 0 {
        r is NA
    } else {
        exists|p: Datum| sums_to(ops, values.drop_last(), p) && #[trigger] takes_in(ops, p, values.last(), r)
    }
}

/// Whether `r` is the total after a value came to a total: the value itself
/// where the total was missing, else a sum of the two.
pub open spec fn takes_in<F: FloatOps>(ops: &F, total: Datum, value: Datum, r: Datum) -> bool {
    if total is NA {
        r == value
    } else {
        Operator::Plus.yields(ops, total, value, r)
    }
}

/// The four arithmetic operations.
#[derive(Debug, Clone, Copy, PartialEq, Eq, Structural)]
pub enum Operator {
    Plus,
    Minus,
    Times,
    Over,
}

impl Operator {
    /// The operation on integers; there is none where the divisor is zero.
    pub open spec fn on_integers(self, x: int, y: int) -> Option<int> {
        match self {
            Operator::Plus => Some(x + y),
            Operator::Minus => Some(x - y),
            Operator::Times => Some(x * y),
            Operator::Over => if y == 0 {
                None
            } else {
                Some(quotient_toward_zero(x, y))
            },
        }
    }

    /// Whether `r` is what the operation yields on `a` and `b`.
    ///
    /// Two values of one integer kind give the integer result where it exists
    /// and fits the kind, and `NA` where it does not. Two `Dbl` give the `Dbl`
    /// that the float arithmetic makes of them, unless a zero divides.
    /// Everything else gives `NA`.
    pub open spec fn yields<F: FloatOps>(self, ops: &F, a: Datum, b: Datum, r: Datum) -> bool {
        match (a, b) {
            (Datum::Uint(x), Datum::Uint(y)) => match self.on_integers(x as int, y as int) {
                Some(v) if 0 <= v <= u32::MAX => r == Datum::Uint(v as u32),
                _ => r is NA,
            },
            (Datum::Int(x), Datum::Int(y)) => match self.on_integers(x as int, y as int) {
                Some(v) if i32::MIN <= v <= i32::MAX => r == Datum::Int(v as i32),
                _ => r is NA,
            },
            (Datum::Dbl(x), Datum::Dbl(y)) => match self {
                Operator::Plus => r matches Datum::Dbl(bits) && call_ensures(
                    F::sum,
                    (ops, x, y),
                    bits,
                ),
                Operator::Minus => r matches Datum::Dbl(bits) && call_ensures(
                    F::difference,
                    (ops, x, y),
                    bits,
                ),
                Operator::Times => r matches Datum::Dbl(bits) && call_ensures(
                    F::product,
                    (ops, x, y),
                    bits,
                ),
                Operator::Over => if is_zero(y) {
                    r is NA
                } else {
                    r matches Datum::Dbl(bits) && call_ensures(F::quotient, (ops, x, y), bits)
                },
            },
            _ => r is NA,
        }
    }
}

proof fn lemma_quotient_bounds(a: int, b: int)
    requires
        a >= 0,
        b > 0,
    ensures
        0 <= a / b <= a,
{
    assert(0 <= a / b <= a) by (nonlinear_arith)
        requires
            a >= 0,
            b > 0,
    ;
}

fn on_wide_integers(op: Operator, x: i128, y: i128) -> (r: Option<i128>)
    requires
        -0x1_0000_0000 <= x <= 0x1_0000_0000,
        -0x1_0000_0000 <= y <= 0x1_0000_0000,
    ensures
        r is Some == op.on_integers(x as int, y as int) is Some,
        r matches Some(v) ==> op.on_integers(x as int, y as int) == Some(v as int),
{
    match op {
        Operator::Plus => Some(x + y),
        Operator::Minus => Some(x - y),
        Operator::Times => {
            assert(-0x1_0000_0000_0000_0000 <= x * y <= 0x1_0000_0000_0000_0000) by (nonlinear_arith)
                requires
                    -0x1_0000_0000 <= x <= 0x1_0000_0000,
                    -0x1_0000_0000 <= y <= 0x1_0000_0000,
            ;
            Some(x * y)
        },
        Operator::Over => {
            if y == 0 {
                None
            } else if x >= 0 && y > 0 {
                proof {
                    lemma_quotient_bounds(x as int, y as int);
                }
                Some(x / y)
            } else if x < 0 && y > 0 {
                proof {
                    lemma_quotient_bounds(-x, y as int);
                }
                Some(-((-x) / y))
            } else if x >= 0 {
                proof {
                    lemma_quotient_bounds(x as int, -y);
                }
                Some(-(x / (-y)))
            } else {
                proof {
                    lemma_quotient_bounds(-x, -y);
                }
                Some((-x) / (-y))
            }
        },
    }
}

impl FlexData {
    /// What an operation yields on this value and the other.
    pub fn combine<F: FloatOps>(&self, op: Operator, other: &FlexData, ops: &F) -> (r: FlexData)
        ensures
            op.yields(ops, self@, other@, r@),
    {
        match (self, other) {
            (FlexData::Uint(x), FlexData::Uint(y)) => {
                match on_wide_integers(op, *x as i128, *y as i128) {
                    Some(v) => if 0 <= v && v <= u32::MAX as i128 {
                        FlexData::Uint(v as u32)
                    } else {
                        FlexData::NA
                    },
                    None => FlexData::NA,
                }
            },
            (FlexData::Int(x), FlexData::Int(y)) => {
                match on_wide_integers(op, *x as i128, *y as i128) {
                    Some(v) => if i32::MIN as i128 <= v && v <= i32::MAX as i128 {
                        FlexData::Int(v as i32)
                    } else {
                        FlexData::NA
                    },
                    None => FlexData::NA,
                }
            },
            (FlexData::Dbl(x), FlexData::Dbl(y)) => {
                match op {
                    Operator::Plus => FlexData::Dbl(ops.sum(*x, *y)),
                    Operator::Minus => FlexData::Dbl(ops.difference(*x, *y)),
                    Operator::Times => FlexData::Dbl(ops.product(*x, *y)),
                    Operator::Over => if bits_is_zero(*y) {
                        FlexData::NA
                    } else {
                        FlexData::Dbl(ops.quotient(*x, *y))
                    },
                }
            },
            _ => FlexData::NA,
        }
    }

    /// The sum of two values.
    pub fn add<F: FloatOps>(&self, other: &FlexData, ops: &F) -> (r: FlexData)
        ensures
            Operator::Plus.yields(ops, self@, other@, r@),
    {
        self.combine(Operator::Plus, other, ops)
    }

    /// This value less the other.
    pub fn sub<F: FloatOps>(&self, other: &FlexData, ops: &F) -> (r: FlexData)
        ensures
            Operator::Minus.yields(ops, self@, other@, r@),
    {
        self.combine(Operator::Minus, other, ops)
    }

    /// The product of two values.
    pub fn mul<F: FloatOps>(&self, other: &FlexData, ops: &F) -> (r: FlexData)
        ensures
            Operator::Times.yields(ops, self@, other@, r@),
    {
        self.combine(Operator::Times, other, ops)
    }

    /// This value divided by the other; `NA` where the other is zero.
    pub fn div<F: FloatOps>(&self, other: &FlexData, ops: &F) -> (r: FlexData)
        ensures
            Operator::Over.yields(ops, self@, other@, r@),
    {
        self.combine(Operator::Over, other, ops)
    }

    /// Adds up the values: a missing total gives way to the next value,
    /// any other total has the next value added to it.
    pub fn sum<F: FloatOps>(values: Vec<FlexData>, ops: &F) -> (r: FlexData)
        ensures
            sums_to(ops, views(values@), r@),
    {
        let mut total = FlexData::NA;
        let mut i: usize = 0;
        proof {
            assert(views(values@).take(0) =~= Seq::<Datum>::empty());
        }
        while i < values.len()
            invariant
                i <= values.len(),
                sums_to(ops, views(values@).take(i as int), total@),
            decreases values.len() - i,
        {
            let ghost before = total@;
            let d = values[i].clone();
            match total {
                FlexData::NA => {
                    total = d;
                },
                _ => {
                    total.add_assign(d, ops);
                },
            }
            proof {
                let s = views(values@).take(i + 1);
                assert(s.drop_last() =~= views(values@).take(i as int));
                assert(s.last() == values@[i as int]@);
                assert(sums_to(ops, s.drop_last(), before) && takes_in(ops, before, s.last(), total@));
            }
            i = i + 1;
        }
        proof {
            assert(views(values@).take(i as int) =~= views(values@));
        }
        total
    }

    /// Adds the other value to this one in place.
    pub fn add_assign<F: FloatOps>(&mut self, other: FlexData, ops: &F)
        ensures
            Operator::Plus.yields(ops, old(self)@, other@, final(self)@),
    {
        let r = self.add(&other, ops);
        *self = r;
    }

    /// Takes the other value from this one in place.
    pub fn sub_assign<F: FloatOps>(&mut self, other: FlexData, ops: &F)
        ensures
            Operator::Minus.yields(ops, old(self)@, other@, final(self)@),
    {
        let r = self.sub(&other, ops);
        *self = r;
    }
}

impl From<String> for FlexData {
    fn from(value: String) -> (r: FlexData) {
        FlexData::Str(value)
    }
}

impl FromSpecImpl<String> for FlexData {
    open spec fn obeys_from_spec() -> bool {
        true
    }

    open spec fn from_spec(value: String) -> FlexData {
        FlexData::Str(value)
    }
}

impl From<u32> for FlexData {
    fn from(value: u32) -> (r: FlexData) {
        FlexData::Uint(value)
    }
}

impl FromSpecImpl<u32> for FlexData {
    open spec fn obeys_from_spec() -> bool {
        true
    }

    open spec fn from_spec(value: u32) -> FlexData {
        FlexData::Uint(value)
    }
}

impl From<i32> for FlexData {
    fn from(value: i32) -> (r: FlexData) {
        FlexData::Int(value)
    }
}

impl FromSpecImpl<i32> for FlexData {
    open spec fn obeys_from_spec() -> bool {
        true
    }

    open spec fn from_spec(value: i32) -> FlexData {
        FlexData::Int(value)
    }
}

impl From<char> for FlexData {
    fn from(value: char) -> (r: FlexData) {
        FlexData::Char(value)
    }
}

impl FromSpecImpl<char> for FlexData {
    open spec fn obeys_from_spec() -> bool {
        true
    }

    open spec fn from_spec(value: char) -> FlexData {
        FlexData::Char(value)
    }
}

impl TryFrom<&FlexData> for u32 {
    type Error = &'static str;

    fn try_from(value: &FlexData) -> (r: Result<u32, &'static str>) {
        match value {
            FlexData::Uint(v) => Ok(*v),
            _ => Err("Only FlexData::Uint can be extracted to u32"),
        }
    }
}

impl TryFromSpecImpl<&FlexData> for u32 {
    open spec fn obeys_try_from_spec() -> bool {
        true
    }

    open spec fn try_from_spec(value: &FlexData) -> Result<u32, &'static str> {
        match value {
            FlexData::Uint(v) => Ok(*v),
            _ => Err("Only FlexData::Uint can be extracted to u32"),
        }
    }
}

impl TryFrom<&FlexData> for i32 {
    type Error = &'static str;

    fn try_from(value: &FlexData) -> (r: Result<i32, &'static str>) {
        match value {
            FlexData::Int(v) => Ok(*v),
            _ => Err("Only FlexData::Int can be extracted to i32"),
        }
    }
}

impl TryFromSpecImpl<&FlexData> for i32 {
    open spec fn obeys_try_from_spec() -> bool {
        true
    }

    open spec fn try_from_spec(value: &FlexData) -> Result<i32, &'static str> {
        match value {
            FlexData::Int(v) => Ok(*v),
            _ => Err("Only FlexData::Int can be extracted to i32"),
        }
    }
}

impl TryFrom<&FlexData> for u64 {
    type Error = &'static str;

    fn try_from(value: &FlexData) -> (r: Result<u64, &'static str>) {
        match value {
            FlexData::Dbl(v) => Ok(*v),
            _ => Err("Only FlexData::Dbl can be extracted to the bits of a number"),
        }
    }
}

impl TryFromSpecImpl<&FlexData> for u64 {
    open spec fn obeys_try_from_spec() -> bool {
        true
    }

    open spec fn try_from_spec(value: &FlexData) -> Result<u64, &'static str> {
        match value {
            FlexData::Dbl(v) => Ok(*v),
            _ => Err("Only FlexData::Dbl can be extracted to the bits of a number"),
        }
    }
}

impl TryFrom<&FlexData> for String {
    type Error = &'static str;

    fn try_from(value: &FlexData) -> (r: Result<String, &'static str>)
        ensures
            match r {
                Ok(s) => value@ == Datum::Str(s@),
                Err(_) => !(value@ is Str),
            },
    {
        match value {
            FlexData::Str(v) => Ok(v.clone()),
            _ => Err("Only FlexData::Str can be extracted to String"),
        }
    }
}

impl TryFromSpecImpl<&FlexData> for String {
    open spec fn obeys_try_from_spec() -> bool {
        true
    }

    open spec fn try_from_spec(value: &FlexData) -> Result<String, &'static str> {
        match value {
            FlexData::Str(v) => Ok(*v),
            _ => Err("Only FlexData::Str can be extracted to String"),
        }
    }
}

impl PartialEq for FlexData {
    fn eq(&self, other: &FlexData) -> (r: bool) {
        match (self, other) {
            (FlexData::Str(a), FlexData::Str(b)) => *a == *b,
            (FlexData::Uint(a), FlexData::Uint(b)) => *a == *b,
            (FlexData::Int(a), FlexData::Int(b)) => *a == *b,
            (FlexData::Dbl(a), FlexData::Dbl(b)) => bits_eq(*a, *b),
            (FlexData::Char(a), FlexData::Char(b)) => *a == *b,
            (FlexData::NA, FlexData::NA) => true,
            _ => false,
        }
    }
}

impl PartialEqSpecImpl for FlexData {
    open spec fn obeys_eq_spec() -> bool {
        true
    }

    open spec fn eq_spec(&self, other: &FlexData) -> bool {
        self@.same(other@)
    }
}

impl FlexData {
    /// Whether this value comes before the other.
    pub fn below(&self, other: &FlexData) -> (r: bool)
        ensures
            r == self@.below(other@),
    {
        match (self, other) {
            (FlexData::Str(a), FlexData::Str(b)) => str_before(a.as_str(), b.as_str()),
            (FlexData::Uint(a), FlexData::Uint(b)) => *a < *b,
            (FlexData::Int(a), FlexData::Int(b)) => *a < *b,
            (FlexData::Dbl(a), FlexData::Dbl(b)) => bits_lt(*a, *b),
            (FlexData::Char(a), FlexData::Char(b)) => *a < *b,
            _ => self.kind_rank() < other.kind_rank(),
        }
    }

    fn kind_rank(&self) -> (r: u8)
        ensures
            r == self@.kind_rank(),
    {
        match self {
            FlexData::Str(_) => 0,
            FlexData::Uint(_) => 1,
            FlexData::Int(_) => 2,
            FlexData::Dbl(_) => 3,
            FlexData::Char(_) => 4,
            FlexData::NA => 5,
        }
    }
}

impl PartialOrd for FlexData {
    fn partial_cmp(&self, other: &FlexData) -> (r: Option<Ordering>) {
        if self == other {
            Some(Ordering::Equal)
        } else if self.below(other) {
            Some(Ordering::Less)
        } else if other.below(self) {
            Some(Ordering::Greater)
        } else {
            None
        }
    }
}

impl PartialOrdSpecImpl for FlexData {
    open spec fn obeys_partial_cmp_spec() -> bool {
        true
    }

    open spec fn partial_cmp_spec(&self, other: &FlexData) -> Option<Ordering> {
        if self@.same(other@) {
            Some(Ordering::Equal)
        } else if self@.below(other@) {
            Some(Ordering::Less)
        } else if other@.below(self@) {
            Some(Ordering::Greater)
        } else {
            None
        }
    }
}

} // verus!
