use datatoolkit::helper::{
    convert, derive_datatype, generate_flexdata_from_str, make_data_from_index,
    make_index_from_data, sum,
};
use datatoolkit::{FlexData, FlexDataType, FlexIndex, FloatOps};
use std::convert::TryFrom;

struct Ieee;

impl FloatOps for Ieee {
    fn sum(&self, a: u64, b: u64) -> u64 {
        (f64::from_bits(a) + f64::from_bits(b)).to_bits()
    }
    fn difference(&self, a: u64, b: u64) -> u64 {
        (f64::from_bits(a) - f64::from_bits(b)).to_bits()
    }
    fn product(&self, a: u64, b: u64) -> u64 {
        (f64::from_bits(a) * f64::from_bits(b)).to_bits()
    }
    fn quotient(&self, a: u64, b: u64) -> u64 {
        (f64::from_bits(a) / f64::from_bits(b)).to_bits()
    }
    fn from_u32(&self, v: u32) -> u64 {
        (v as f64).to_bits()
    }
    fn from_i32(&self, v: i32) -> u64 {
        (v as f64).to_bits()
    }
    fn to_u32(&self, a: u64) -> u32 {
        f64::from_bits(a) as u32
    }
    fn to_i32(&self, a: u64) -> i32 {
        f64::from_bits(a) as i32
    }
    fn to_text(&self, a: u64) -> String {
        format!("{}", f64::from_bits(a))
    }
    fn to_fixed(&self, a: u64) -> String {
        format!("{:.5}", f64::from_bits(a))
    }
    fn parse(&self, token: &str) -> Option<u64> {
        token.parse::<f64>().ok().map(f64::to_bits)
    }
}

fn dbl(x: f64) -> FlexData {
    FlexData::Dbl(x.to_bits())
}

#[test]
fn into_from() {
    let flexdata_string = FlexData::from(String::from("datatoolkit"));
    let flexdata_float = FlexData::Dbl(1f64.to_bits());

    let s = String::try_from(&flexdata_string).unwrap();
    let d = f64::from_bits(u64::try_from(&flexdata_float).unwrap());

    assert_eq!(d, 1f64);
    assert_eq!(s, String::from("datatoolkit"));
}

#[test]
fn operators() {
    let ops = Ieee;
    // Int
    assert_eq!(FlexData::from(3), FlexData::from(-5).add(&FlexData::from(8), &ops));
    assert_eq!(FlexData::from(3), FlexData::from(8).sub(&FlexData::from(5), &ops));
    assert_eq!(FlexData::from(15), FlexData::from(5).mul(&FlexData::from(3), &ops));
    assert_eq!(FlexData::from(3), FlexData::from(15).div(&FlexData::from(5), &ops));

    let mut i = FlexData::from(1);
    i.add_assign(FlexData::from(5), &ops);
    assert_eq!(i, FlexData::from(6));

    // Uint
    assert_eq!(FlexData::from(8), FlexData::from(5).add(&FlexData::from(3), &ops));
    assert_eq!(FlexData::from(8), FlexData::from(15).sub(&FlexData::from(7), &ops));
    assert_eq!(FlexData::from(8), FlexData::from(2).mul(&FlexData::from(4), &ops));
    assert_eq!(FlexData::from(8), FlexData::from(32).div(&FlexData::from(4), &ops));

    let mut u = FlexData::from(1);
    u.add_assign(FlexData::from(5), &ops);
    assert_eq!(u, FlexData::from(6));
}

#[test]
fn extraction_fails_on_another_kind() {
    assert!(String::try_from(&FlexData::Uint(1)).is_err());
    assert!(u32::try_from(&FlexData::Int(1)).is_err());
    assert!(i32::try_from(&FlexData::Uint(1)).is_err());
    assert!(u64::try_from(&FlexData::NA).is_err());
    assert_eq!(u32::try_from(&FlexData::Uint(7)), Ok(7));
    assert_eq!(i32::try_from(&FlexData::Int(-7)), Ok(-7));
}

#[test]
fn unsigned_arithmetic() {
    let ops = Ieee;
    let a = FlexData::Uint(15);
    let b = FlexData::Uint(7);
    assert_eq!(a.add(&b, &ops), FlexData::Uint(22));
    assert_eq!(a.sub(&b, &ops), FlexData::Uint(8));
    assert_eq!(a.mul(&b, &ops), FlexData::Uint(105));
    assert_eq!(a.div(&b, &ops), FlexData::Uint(2));
}

#[test]
fn signed_division_rounds_toward_zero() {
    let ops = Ieee;
    assert_eq!(FlexData::Int(-7).div(&FlexData::Int(2), &ops), FlexData::Int(-3));
    assert_eq!(FlexData::Int(7).div(&FlexData::Int(-2), &ops), FlexData::Int(-3));
    assert_eq!(FlexData::Int(-7).div(&FlexData::Int(-2), &ops), FlexData::Int(3));
    assert_eq!(FlexData::Int(7).div(&FlexData::Int(2), &ops), FlexData::Int(3));
}

#[test]
fn float_arithmetic_goes_through_the_backend() {
    let ops = Ieee;
    assert_eq!(dbl(1.5).add(&dbl(2.25), &ops), dbl(3.75));
    assert_eq!(dbl(1.5).sub(&dbl(2.25), &ops), dbl(-0.75));
    assert_eq!(dbl(1.5).mul(&dbl(2.0), &ops), dbl(3.0));
    assert_eq!(dbl(3.0).div(&dbl(2.0), &ops), dbl(1.5));
}

#[test]
fn mixed_kinds_give_na() {
    let ops = Ieee;
    assert_eq!(FlexData::Uint(1).add(&FlexData::Int(1), &ops), FlexData::NA);
    assert_eq!(FlexData::Int(1).sub(&dbl(1.0), &ops), FlexData::NA);
    assert_eq!(FlexData::Str("a".to_string()).add(&FlexData::Str("b".to_string()), &ops), FlexData::NA);
    assert_eq!(FlexData::Char('a').mul(&FlexData::Char('b'), &ops), FlexData::NA);
    assert_eq!(FlexData::NA.add(&FlexData::Uint(1), &ops), FlexData::NA);
    assert_eq!(FlexData::Uint(1).div(&FlexData::NA, &ops), FlexData::NA);
}

#[test]
fn division_by_zero_gives_na() {
    let ops = Ieee;
    assert_eq!(FlexData::Uint(1).div(&FlexData::Uint(0), &ops), FlexData::NA);
    assert_eq!(FlexData::Int(1).div(&FlexData::Int(0), &ops), FlexData::NA);
    assert_eq!(dbl(1.0).div(&dbl(0.0), &ops), FlexData::NA);
    assert_eq!(dbl(1.0).div(&dbl(-0.0), &ops), FlexData::NA);
}

#[test]
fn results_out_of_range_give_na() {
    let ops = Ieee;
    assert_eq!(FlexData::Uint(u32::MAX).add(&FlexData::Uint(1), &ops), FlexData::NA);
    assert_eq!(FlexData::Uint(5).sub(&FlexData::Uint(8), &ops), FlexData::NA);
    assert_eq!(FlexData::Uint(65536).mul(&FlexData::Uint(65536), &ops), FlexData::NA);
    assert_eq!(FlexData::Int(i32::MAX).add(&FlexData::Int(1), &ops), FlexData::NA);
    assert_eq!(FlexData::Int(i32::MIN).sub(&FlexData::Int(1), &ops), FlexData::NA);
    assert_eq!(FlexData::Int(i32::MIN).div(&FlexData::Int(-1), &ops), FlexData::NA);
    assert_eq!(FlexData::Int(i32::MIN).div(&FlexData::Int(1), &ops), FlexData::Int(i32::MIN));
    assert_eq!(FlexData::Uint(u32::MAX).add(&FlexData::Uint(0), &ops), FlexData::Uint(u32::MAX));
}

#[test]
fn sub_assign_in_place() {
    let ops = Ieee;
    let mut v = FlexData::Int(10);
    v.sub_assign(FlexData::Int(4), &ops);
    assert_eq!(v, FlexData::Int(6));
    v.sub_assign(FlexData::Uint(4), &ops);
    assert_eq!(v, FlexData::NA);
}

#[test]
fn restarting_sum() {
    let ops = Ieee;
    assert_eq!(FlexData::sum(vec![], &ops), FlexData::NA);
    assert_eq!(
        FlexData::sum(vec![FlexData::Uint(1), FlexData::Uint(2), FlexData::Uint(3)], &ops),
        FlexData::Uint(6)
    );
    // A total that went missing gives way to the next value.
    assert_eq!(
        FlexData::sum(vec![FlexData::Uint(1), FlexData::Int(2), FlexData::Int(3)], &ops),
        FlexData::Int(3)
    );
    assert_eq!(FlexData::sum(vec![FlexData::NA, FlexData::Int(2)], &ops), FlexData::Int(2));
}

#[test]
fn helper_sum_starts_with_the_first_value() {
    let ops = Ieee;
    assert_eq!(sum(vec![FlexData::Int(4)], &ops), FlexData::Int(4));
    assert_eq!(sum(vec![FlexData::Int(4), FlexData::Int(-6)], &ops), FlexData::Int(-2));
    assert_eq!(sum(vec![dbl(0.5), dbl(0.25)], &ops), dbl(0.75));
    // Once the total is missing it stays missing.
    assert_eq!(sum(vec![FlexData::Uint(1), FlexData::Int(2), FlexData::Int(3)], &ops), FlexData::NA);
}

#[test]
fn equality_of_floats_is_numeric() {
    assert_eq!(dbl(0.0), dbl(-0.0));
    assert!(dbl(f64::NAN) != dbl(f64::NAN));
    assert_eq!(dbl(2.5), dbl(2.5));
    assert!(dbl(2.5) != dbl(2.6));
    assert!(dbl(1.0) != FlexData::Int(1));
    assert_eq!(FlexData::NA, FlexData::NA);
}

#[test]
fn order_of_floats_is_numeric() {
    let values = [
        f64::NEG_INFINITY,
        -1e300,
        -2.5,
        -1e-320,
        -0.0,
        0.0,
        1e-320,
        1.0,
        2.5,
        1e300,
        f64::INFINITY,
        f64::NAN,
    ];
    for a in values.iter() {
        for b in values.iter() {
            assert_eq!(dbl(*a) < dbl(*b), a < b);
            assert_eq!(dbl(*a) <= dbl(*b), a <= b);
            assert_eq!(dbl(*a) > dbl(*b), a > b);
            assert_eq!(dbl(*a) == dbl(*b), a == b);
            assert_eq!(dbl(*a).partial_cmp(&dbl(*b)), a.partial_cmp(b));
        }
    }
}

#[test]
fn order_across_kinds_follows_the_kinds() {
    let s = FlexData::Str("zzz".to_string());
    let u = FlexData::Uint(0);
    let i = FlexData::Int(-5);
    let d = dbl(-1e9);
    let c = FlexData::Char('a');
    let n = FlexData::NA;
    assert!(s < u && u < i && i < d && d < c && c < n);
    assert!(FlexData::Uint(4) > FlexData::Uint(3));
    assert!(FlexData::Int(-4) < FlexData::Int(3));
    assert!(FlexData::Str("abc".to_string()) < FlexData::Str("abd".to_string()));
    assert!(FlexData::Str("ab".to_string()) < FlexData::Str("abc".to_string()));
    assert!(FlexData::Str("Z".to_string()) < FlexData::Str("a".to_string()));
    assert!(FlexData::Str("z".to_string()) < FlexData::Str("\u{e9}".to_string()));
    assert!(FlexData::Char('a') < FlexData::Char('b'));
}

#[test]
fn kinds_are_derived() {
    assert_eq!(derive_datatype(&FlexData::Uint(1)), FlexDataType::Uint);
    assert_eq!(derive_datatype(&FlexData::Int(1)), FlexDataType::Int);
    assert_eq!(derive_datatype(&dbl(1.0)), FlexDataType::Dbl);
    assert_eq!(derive_datatype(&FlexData::Str(String::new())), FlexDataType::Str);
    assert_eq!(derive_datatype(&FlexData::Char('x')), FlexDataType::Char);
    assert_eq!(derive_datatype(&FlexData::NA), FlexDataType::NA);
}

fn all_kinds() -> Vec<FlexDataType> {
    vec![
        FlexDataType::Str,
        FlexDataType::Uint,
        FlexDataType::Int,
        FlexDataType::Dbl,
        FlexDataType::Char,
        FlexDataType::NA,
    ]
}

#[test]
fn coercion_is_total() {
    let ops = Ieee;
    let values = vec![
        FlexData::Str("text".to_string()),
        FlexData::Uint(7),
        FlexData::Uint(u32::MAX),
        FlexData::Int(-7),
        dbl(2.75),
        dbl(f64::NAN),
        FlexData::Char('c'),
        FlexData::NA,
    ];
    for v in values.iter() {
        for t in all_kinds().iter() {
            let r = convert(v, t, &ops);
            let kind = derive_datatype(&r);
            assert!(kind == *t || kind == FlexDataType::NA);
        }
    }
}

#[test]
fn coercion_matrix() {
    let ops = Ieee;
    let text = |s: &str| FlexData::Str(s.to_string());
    // Uint
    assert_eq!(convert(&FlexData::Uint(42), &FlexDataType::Str, &ops), text("42"));
    assert_eq!(convert(&FlexData::Uint(0), &FlexDataType::Str, &ops), text("0"));
    assert_eq!(convert(&FlexData::Uint(u32::MAX), &FlexDataType::Str, &ops), text("4294967295"));
    assert_eq!(convert(&FlexData::Uint(42), &FlexDataType::Dbl, &ops), dbl(42.0));
    assert_eq!(convert(&FlexData::Uint(42), &FlexDataType::Int, &ops), FlexData::Int(42));
    assert_eq!(convert(&FlexData::Uint(3_000_000_000), &FlexDataType::Int, &ops), FlexData::Int(3_000_000_000u32 as i32));
    assert_eq!(convert(&FlexData::Uint(42), &FlexDataType::Uint, &ops), FlexData::Uint(42));
    assert_eq!(convert(&FlexData::Uint(42), &FlexDataType::Char, &ops), FlexData::NA);
    assert_eq!(convert(&FlexData::Uint(42), &FlexDataType::NA, &ops), FlexData::NA);
    // Int
    assert_eq!(convert(&FlexData::Int(-42), &FlexDataType::Str, &ops), text("-42"));
    assert_eq!(convert(&FlexData::Int(i32::MIN), &FlexDataType::Str, &ops), text("-2147483648"));
    assert_eq!(convert(&FlexData::Int(-42), &FlexDataType::Dbl, &ops), dbl(-42.0));
    assert_eq!(convert(&FlexData::Int(-42), &FlexDataType::Int, &ops), FlexData::Int(-42));
    assert_eq!(convert(&FlexData::Int(-1), &FlexDataType::Uint, &ops), FlexData::Uint(u32::MAX));
    assert_eq!(convert(&FlexData::Int(-42), &FlexDataType::Uint, &ops), FlexData::Uint(-42i32 as u32));
    assert_eq!(convert(&FlexData::Int(-42), &FlexDataType::Char, &ops), FlexData::NA);
    // Dbl
    assert_eq!(convert(&dbl(2.5), &FlexDataType::Str, &ops), text("2.5"));
    assert_eq!(convert(&dbl(2.5), &FlexDataType::Dbl, &ops), dbl(2.5));
    assert_eq!(convert(&dbl(-2.9), &FlexDataType::Int, &ops), FlexData::Int(-2));
    assert_eq!(convert(&dbl(2.9), &FlexDataType::Uint, &ops), FlexData::Uint(2));
    assert_eq!(convert(&dbl(-2.9), &FlexDataType::Uint, &ops), FlexData::Uint(0));
    assert_eq!(convert(&dbl(2.5), &FlexDataType::Char, &ops), FlexData::NA);
    // Str
    assert_eq!(convert(&text("12"), &FlexDataType::Str, &ops), text("12"));
    assert_eq!(convert(&text("12"), &FlexDataType::Uint, &ops), FlexData::NA);
    assert_eq!(convert(&text("12"), &FlexDataType::Int, &ops), FlexData::NA);
    assert_eq!(convert(&text("12"), &FlexDataType::Dbl, &ops), FlexData::NA);
    assert_eq!(convert(&text("1"), &FlexDataType::Char, &ops), FlexData::NA);
    // Char
    assert_eq!(convert(&FlexData::Char('x'), &FlexDataType::Str, &ops), text("x"));
    assert_eq!(convert(&FlexData::Char('x'), &FlexDataType::Char, &ops), FlexData::Char('x'));
    assert_eq!(convert(&FlexData::Char('7'), &FlexDataType::Uint, &ops), FlexData::NA);
    // NA
    for t in all_kinds().iter() {
        assert_eq!(convert(&FlexData::NA, t, &ops), FlexData::NA);
    }
}

#[test]
fn tokens_are_read_by_kind() {
    let ops = Ieee;
    let read = |token: &str, t: FlexDataType| generate_flexdata_from_str(token, &t, &ops);
    assert_eq!(read("12", FlexDataType::Uint), FlexData::Uint(12));
    assert_eq!(read("+12", FlexDataType::Uint), FlexData::Uint(12));
    assert_eq!(read("0012", FlexDataType::Uint), FlexData::Uint(12));
    assert_eq!(read("4294967295", FlexDataType::Uint), FlexData::Uint(u32::MAX));
    assert_eq!(read("4294967296", FlexDataType::Uint), FlexData::NA);
    assert_eq!(read("99999999999999999999999999", FlexDataType::Uint), FlexData::NA);
    assert_eq!(read("-1", FlexDataType::Uint), FlexData::NA);
    assert_eq!(read("-0", FlexDataType::Uint), FlexData::NA);
    assert_eq!(read("", FlexDataType::Uint), FlexData::NA);
    assert_eq!(read("+", FlexDataType::Uint), FlexData::NA);
    assert_eq!(read(" 1", FlexDataType::Uint), FlexData::NA);
    assert_eq!(read("1 ", FlexDataType::Uint), FlexData::NA);
    assert_eq!(read("1.0", FlexDataType::Uint), FlexData::NA);
    assert_eq!(read("-12", FlexDataType::Int), FlexData::Int(-12));
    assert_eq!(read("+12", FlexDataType::Int), FlexData::Int(12));
    assert_eq!(read("-0", FlexDataType::Int), FlexData::Int(0));
    assert_eq!(read("2147483647", FlexDataType::Int), FlexData::Int(i32::MAX));
    assert_eq!(read("2147483648", FlexDataType::Int), FlexData::NA);
    assert_eq!(read("-2147483648", FlexDataType::Int), FlexData::Int(i32::MIN));
    assert_eq!(read("-2147483649", FlexDataType::Int), FlexData::NA);
    assert_eq!(read("-", FlexDataType::Int), FlexData::NA);
    assert_eq!(read("+-1", FlexDataType::Int), FlexData::NA);
    assert_eq!(read("--1", FlexDataType::Int), FlexData::NA);
    assert_eq!(read("x", FlexDataType::Char), FlexData::Char('x'));
    assert_eq!(read("\u{e9}", FlexDataType::Char), FlexData::Char('\u{e9}'));
    assert_eq!(read("xy", FlexDataType::Char), FlexData::NA);
    assert_eq!(read("", FlexDataType::Char), FlexData::NA);
    assert_eq!(read("2.5", FlexDataType::Dbl), dbl(2.5));
    assert_eq!(read("abc", FlexDataType::Dbl), FlexData::NA);
    assert_eq!(read("abc", FlexDataType::Str), FlexData::Str("abc".to_string()));
    assert_eq!(read("abc", FlexDataType::NA), FlexData::Str("abc".to_string()));
}

#[test]
fn parsing_agrees_with_the_standard_library() {
    let ops = Ieee;
    let tokens = [
        "", "0", "7", "+7", "-7", "007", "+007", "-007", "4294967295", "4294967296", "2147483647",
        "2147483648", "-2147483648", "-2147483649", "+", "-", "++1", "1_0", "1e3", "0x10", " 1", "١",
        "12345678901234567890",
    ];
    for token in tokens.iter() {
        let u = generate_flexdata_from_str(token, &FlexDataType::Uint, &ops);
        let expected_u = token.parse::<u32>().map_or(FlexData::NA, FlexData::Uint);
        assert_eq!(u, expected_u);
        let i = generate_flexdata_from_str(token, &FlexDataType::Int, &ops);
        let expected_i = token.parse::<i32>().map_or(FlexData::NA, FlexData::Int);
        assert_eq!(i, expected_i);
        let c = generate_flexdata_from_str(token, &FlexDataType::Char, &ops);
        let expected_c = token.parse::<char>().map_or(FlexData::NA, FlexData::Char);
        assert_eq!(c, expected_c);
    }
}

#[test]
fn writing_integers_agrees_with_the_standard_library() {
    let ops = Ieee;
    for v in [0u32, 1, 9, 10, 11, 99, 100, 12345, 4294967295].iter() {
        assert_eq!(
            convert(&FlexData::Uint(*v), &FlexDataType::Str, &ops),
            FlexData::Str(format!("{}", v))
        );
    }
    for v in [0i32, 1, -1, 9, -9, 10, -10, 12345, -12345, i32::MAX, i32::MIN].iter() {
        assert_eq!(
            convert(&FlexData::Int(*v), &FlexDataType::Str, &ops),
            FlexData::Str(format!("{}", v))
        );
    }
}

#[test]
fn keys_and_values_turn_into_one_another() {
    assert_eq!(make_data_from_index(&FlexIndex::Uint(7)), FlexData::Uint(7));
    assert_eq!(
        make_data_from_index(&FlexIndex::Str("k".to_string())),
        FlexData::Str("k".to_string())
    );
    assert_eq!(make_index_from_data(&FlexData::Uint(7)), FlexIndex::Uint(7));
    assert_eq!(make_index_from_data(&FlexData::Int(7)), FlexIndex::Uint(7));
    assert_eq!(make_index_from_data(&FlexData::Int(-1)), FlexIndex::Uint(-1i32 as usize));
    assert_eq!(make_index_from_data(&FlexData::Int(-2)), FlexIndex::Uint(usize::MAX - 1));
    assert_eq!(make_index_from_data(&FlexData::Int(i32::MIN)), FlexIndex::Uint(i32::MIN as usize));
    assert_eq!(make_data_from_index(&FlexIndex::Uint(usize::MAX)), FlexData::Uint(u32::MAX));
    assert_eq!(
        make_data_from_index(&FlexIndex::Uint(u32::MAX as usize)),
        FlexData::Uint(u32::MAX)
    );
    assert_eq!(make_index_from_data(&FlexData::Char('c')), FlexIndex::Str("c".to_string()));
    assert_eq!(
        make_index_from_data(&FlexData::Str("key".to_string())),
        FlexIndex::Str("key".to_string())
    );
}
