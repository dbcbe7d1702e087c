use datatoolkit::helper::index_intersection;
use datatoolkit::{FlexData, FlexDataPoint, FlexDataType, FlexIndex, FlexSeries, FloatOps};

struct Ieee;

impl FloatOps for Ieee {
    fn sum(&self, a: u64, b: u64) -> u64 {
        (f64::from_bits(a) + f64::from_bits(b)).to_bits()
    }
    fn difference(&self, a: u64, b: u64) -> u64 {
        (f64::from_bits(a) - f64::from_bits(b)).to_bits()
    }
    fn product(&self, a: u64, b: u64) -> u64 {
        (f64::from_bits(a) * f64::from_bits(b)).to_bits()
    }
    fn quotient(&self, a: u64, b: u64) -> u64 {
        (f64::from_bits(a) / f64::from_bits(b)).to_bits()
    }
    fn from_u32(&self, v: u32) -> u64 {
        (v as f64).to_bits()
    }
    fn from_i32(&self, v: i32) -> u64 {
        (v as f64).to_bits()
    }
    fn to_u32(&self, a: u64) -> u32 {
        f64::from_bits(a) as u32
    }
    fn to_i32(&self, a: u64) -> i32 {
        f64::from_bits(a) as i32
    }
    fn to_text(&self, a: u64) -> String {
        format!("{}", f64::from_bits(a))
    }
    fn to_fixed(&self, a: u64) -> String {
        format!("{:.5}", f64::from_bits(a))
    }
    fn parse(&self, token: &str) -> Option<u64> {
        token.parse::<f64>().ok().map(f64::to_bits)
    }
}

fn dbl(x: f64) -> FlexData {
    FlexData::Dbl(x.to_bits())
}

fn point(k: usize, v: FlexData) -> FlexDataPoint {
    FlexDataPoint::new(FlexIndex::Uint(k), v)
}

fn uint_series(label: &str, entries: &[(usize, u32)]) -> FlexSeries {
    let data = entries.iter().map(|(k, v)| point(*k, FlexData::Uint(*v))).collect();
    FlexSeries::from_vec(label, FlexDataType::Uint, data, &Ieee)
}

fn keys_of(series: &FlexSeries) -> Vec<FlexIndex> {
    series.get_indices().into_iter().cloned().collect()
}

fn values_of(series: &FlexSeries) -> Vec<FlexData> {
    series.get_data().into_iter().cloned().collect()
}

fn uints(keys: &[usize]) -> Vec<FlexIndex> {
    keys.iter().map(|k| FlexIndex::Uint(*k)).collect()
}

#[test]
fn empty_column() {
    let s = FlexSeries::new("empty", FlexDataType::Int);
    assert_eq!(s.get_label(), "empty");
    assert_eq!(s.get_datatype(), &FlexDataType::Int);
    assert_eq!(s.get_size(), 0);
    assert!(!s.has_na());
    assert!(s.at(&FlexIndex::Uint(0)).is_none());
    assert!(!s.contains(&FlexIndex::Uint(0)));
}

#[test]
fn construction_coerces_to_the_declared_kind() {
    let ops = Ieee;
    let data = vec![
        point(1, FlexData::Uint(7)),
        point(2, FlexData::Int(-3)),
        point(3, dbl(2.9)),
        point(4, FlexData::Str("9".to_string())),
        point(5, FlexData::NA),
    ];
    let s = FlexSeries::from_vec("v", FlexDataType::Int, data, &ops);
    assert_eq!(
        values_of(&s),
        vec![FlexData::Int(7), FlexData::Int(-3), FlexData::Int(2), FlexData::NA, FlexData::NA]
    );
    assert_eq!(keys_of(&s), uints(&[1, 2, 3, 4, 5]));
    assert!(s.has_na());
}

#[test]
fn construction_takes_a_repeated_key_once() {
    let ops = Ieee;
    let data = vec![
        point(1, FlexData::Uint(10)),
        point(2, FlexData::Uint(20)),
        point(1, FlexData::Uint(11)),
        point(3, FlexData::Uint(30)),
    ];
    let s = FlexSeries::from_vec("v", FlexDataType::Uint, data, &ops);
    assert_eq!(keys_of(&s), uints(&[1, 2, 3]));
    assert_eq!(values_of(&s), vec![FlexData::Uint(11), FlexData::Uint(20), FlexData::Uint(30)]);
    assert_eq!(s.position(&FlexIndex::Uint(3)), Some(2));
}

#[test]
fn lookup_by_key() {
    let s = uint_series("v", &[(10, 1), (20, 2), (30, 3)]);
    assert_eq!(s.at(&FlexIndex::Uint(20)).unwrap(), &point(20, FlexData::Uint(2)));
    assert!(s.at(&FlexIndex::Uint(25)).is_none());
    assert!(s.at(&FlexIndex::Str("20".to_string())).is_none());
    assert!(s.contains(&FlexIndex::Uint(30)));
    assert_eq!(s.position(&FlexIndex::Uint(30)), Some(2));
    assert_eq!(s[0usize].get_data(), &FlexData::Uint(1));
    assert_eq!(s[2u32].get_data(), &FlexData::Uint(3));
    assert_eq!(s[-1i32].get_data(), &FlexData::Uint(3));
    assert_eq!(s[-3i32].get_data(), &FlexData::Uint(1));
}

#[test]
fn text_keys_and_number_keys_live_side_by_side() {
    let ops = Ieee;
    let data = vec![
        FlexDataPoint::new(FlexIndex::Str("a".to_string()), FlexData::Int(1)),
        FlexDataPoint::new(FlexIndex::Uint(1), FlexData::Int(2)),
        FlexDataPoint::new(FlexIndex::Str("1".to_string()), FlexData::Int(3)),
    ];
    let s = FlexSeries::from_vec("v", FlexDataType::Int, data, &ops);
    assert_eq!(s.at(&FlexIndex::Uint(1)).unwrap().get_data(), &FlexData::Int(2));
    assert_eq!(s.at(&FlexIndex::Str("1".to_string())).unwrap().get_data(), &FlexData::Int(3));
    assert_eq!(s.at(&FlexIndex::Str("a".to_string())).unwrap().get_data(), &FlexData::Int(1));
}

#[test]
fn upsert_twice_leaves_one_entry_with_the_second_value() {
    let ops = Ieee;
    let mut s = uint_series("v", &[(1, 10), (2, 20)]);
    s.insert_update(point(3, FlexData::Uint(30)), &ops);
    s.insert_update(point(3, FlexData::Uint(31)), &ops);
    assert_eq!(s.get_size(), 3);
    assert_eq!(keys_of(&s), uints(&[1, 2, 3]));
    assert_eq!(s.at(&FlexIndex::Uint(3)).unwrap().get_data(), &FlexData::Uint(31));
    // The same on a key that was there from the start.
    s.insert_update(point(1, FlexData::Uint(11)), &ops);
    s.insert_update(point(1, FlexData::Int(12)), &ops);
    assert_eq!(s.get_size(), 3);
    assert_eq!(values_of(&s), vec![FlexData::Uint(12), FlexData::Uint(20), FlexData::Uint(31)]);
}

#[test]
fn update_changes_only_what_is_there() {
    let ops = Ieee;
    let mut s = uint_series("v", &[(1, 10), (2, 20)]);
    s.update(point(2, FlexData::Uint(21)), &ops);
    s.update(point(9, FlexData::Uint(99)), &ops);
    assert_eq!(values_of(&s), vec![FlexData::Uint(10), FlexData::Uint(21)]);
    assert_eq!(keys_of(&s), uints(&[1, 2]));
}

#[test]
fn insert_appends() {
    let ops = Ieee;
    let mut s = uint_series("v", &[(5, 50)]);
    s.insert(point(1, FlexData::Int(7)), &ops);
    assert_eq!(keys_of(&s), uints(&[5, 1]));
    assert_eq!(values_of(&s), vec![FlexData::Uint(50), FlexData::Uint(7)]);
    assert_eq!(s.position(&FlexIndex::Uint(1)), Some(1));
}

#[test]
fn removal_moves_the_later_entries_up() {
    let mut s = uint_series("v", &[(1, 10), (2, 20), (3, 30), (4, 40)]);
    s.remove(1);
    assert_eq!(keys_of(&s), uints(&[1, 3, 4]));
    assert!(!s.contains(&FlexIndex::Uint(2)));
    assert_eq!(s.position(&FlexIndex::Uint(3)), Some(1));
    assert_eq!(s.position(&FlexIndex::Uint(4)), Some(2));
    assert_eq!(s.at(&FlexIndex::Uint(4)).unwrap().get_data(), &FlexData::Uint(40));
    s.remove_at(&FlexIndex::Uint(1));
    assert_eq!(keys_of(&s), uints(&[3, 4]));
    assert_eq!(s.at(&FlexIndex::Uint(3)).unwrap().get_data(), &FlexData::Uint(30));
    s.remove_at(&FlexIndex::Uint(99));
    assert_eq!(s.get_size(), 2);
}

#[test]
fn alignment_is_a_superset() {
    let s = uint_series("v", &[(1, 10), (2, 20)]);
    let list = uints(&[2, 5, 5, 7]);
    let aligned = s.align_to(&list);
    assert_eq!(keys_of(&aligned), uints(&[1, 2, 5, 7]));
    for k in [1usize, 2] {
        assert_eq!(aligned.at(&FlexIndex::Uint(k)), s.at(&FlexIndex::Uint(k)));
    }
    assert_eq!(aligned.at(&FlexIndex::Uint(5)).unwrap().get_data(), &FlexData::NA);
    assert_eq!(aligned.at(&FlexIndex::Uint(7)).unwrap().get_data(), &FlexData::NA);
    assert_eq!(aligned.get_label(), "v");
    assert_eq!(aligned.get_datatype(), &FlexDataType::Uint);
    // Aligning to nothing changes nothing.
    assert_eq!(keys_of(&s.align_to(&vec![])), uints(&[1, 2]));
}

#[test]
fn aligned_operations_restrict_to_the_intersection() {
    let ops = Ieee;
    let a = uint_series("a", &[(1, 10), (2, 20), (3, 30)]);
    let b = uint_series("b", &[(2, 1), (3, 2), (4, 3)]);
    let sum = a.add("sum", &FlexDataType::Uint, &b, &ops);
    let mut keys = keys_of(&sum);
    keys.sort();
    assert_eq!(keys, uints(&[2, 3]));
    assert_eq!(sum.get_label(), "sum");
    assert_eq!(sum.at(&FlexIndex::Uint(2)).unwrap().get_data(), &FlexData::Uint(21));
    assert_eq!(sum.at(&FlexIndex::Uint(3)).unwrap().get_data(), &FlexData::Uint(32));
    let diff = a.sub("diff", &FlexDataType::Int, &b, &ops);
    assert_eq!(diff.get_datatype(), &FlexDataType::Int);
    assert_eq!(diff.at(&FlexIndex::Uint(2)).unwrap().get_data(), &FlexData::Int(19));
    let back = b.sub("diff", &FlexDataType::Int, &a, &ops);
    assert_eq!(back.at(&FlexIndex::Uint(3)).unwrap().get_data(), &FlexData::Int(-28));
    let prod = a.prod("prod", &FlexDataType::Dbl, &b, &ops);
    assert_eq!(prod.at(&FlexIndex::Uint(3)).unwrap().get_data(), &dbl(60.0));
    assert_eq!(prod.get_size(), 2);
    // Under a kind that the values do not convert to, every result is missing.
    let none = a.add("none", &FlexDataType::Char, &b, &ops);
    assert_eq!(values_of(&none), vec![FlexData::NA, FlexData::NA]);
}

#[test]
fn intersection_of_keys() {
    let a = uints(&[1, 2, 3, 2]);
    let b = uints(&[4, 3, 2]);
    let mut both = index_intersection(a.iter().collect(), b.iter().collect());
    both.sort();
    assert_eq!(both, uints(&[2, 3]));
    let texts = vec![FlexIndex::Str("2".to_string())];
    assert!(index_intersection(a.iter().collect(), texts.iter().collect()).is_empty());
    assert!(index_intersection(vec![], b.iter().collect()).is_empty());
}

#[test]
fn as_type_declares_the_new_kind() {
    let ops = Ieee;
    let s = uint_series("v", &[(1, 10), (2, 20)]);
    let d = s.as_type(&FlexDataType::Dbl, &ops);
    assert_eq!(d.get_datatype(), &FlexDataType::Dbl);
    assert_eq!(values_of(&d), vec![dbl(10.0), dbl(20.0)]);
    let t = s.as_type(&FlexDataType::Str, &ops);
    assert_eq!(
        values_of(&t),
        vec![FlexData::Str("10".to_string()), FlexData::Str("20".to_string())]
    );
    let mut m = s.clone();
    m.set_datatype(FlexDataType::Int, &ops);
    assert_eq!(m.get_datatype(), &FlexDataType::Int);
    assert_eq!(values_of(&m), vec![FlexData::Int(10), FlexData::Int(20)]);
    m.set_label("w");
    assert_eq!(m.get_label(), "w");
}

#[test]
fn apply_maps_and_coerces() {
    let ops = Ieee;
    let s = uint_series("v", &[(1, 10), (2, 20)]);
    let r = s.apply(
        |x: &FlexData| match x {
            FlexData::Uint(v) => FlexData::Int(*v as i32 + 1),
            _ => FlexData::NA,
        },
        &ops,
    );
    assert_eq!(values_of(&r), vec![FlexData::Uint(11), FlexData::Uint(21)]);
    assert_eq!(keys_of(&r), uints(&[1, 2]));
}

#[test]
fn filtering_keeps_the_order() {
    let s = uint_series("v", &[(1, 5), (2, 50), (3, 7), (4, 70)]);
    let big = s.filter_any(|x: &FlexData| *x > FlexData::Uint(10));
    assert_eq!(keys_of(&big), uints(&[2, 4]));
    assert_eq!(values_of(&big), vec![FlexData::Uint(50), FlexData::Uint(70)]);
    assert_eq!(big.position(&FlexIndex::Uint(4)), Some(1));
    let none = s.filter_any(|_x: &FlexData| false);
    assert_eq!(none.get_size(), 0);
}

#[test]
fn missing_values_are_found_and_dropped() {
    let ops = Ieee;
    let data = vec![
        point(1, FlexData::Uint(1)),
        point(2, FlexData::Str("x".to_string())),
        point(3, FlexData::Uint(3)),
        point(4, FlexData::NA),
    ];
    let s = FlexSeries::from_vec("v", FlexDataType::Uint, data, &ops);
    assert!(s.has_na());
    assert_eq!(keys_of(&s.get_na()), uints(&[2, 4]));
    let kept = s.drop_na();
    assert_eq!(keys_of(&kept), uints(&[1, 3]));
    assert!(!kept.has_na());
    assert!(!uint_series("v", &[(1, 1)]).has_na());
}

#[test]
fn subset_follows_the_keys_given() {
    let s = uint_series("v", &[(1, 10), (2, 20), (3, 30)]);
    let sub = s.get_subset(uints(&[3, 9, 1]));
    assert_eq!(keys_of(&sub), uints(&[3, 1]));
    assert_eq!(values_of(&sub), vec![FlexData::Uint(30), FlexData::Uint(10)]);
    // A key that is given twice counts where it stands first.
    let once = s.get_subset(uints(&[2, 3, 2, 2, 1]));
    assert_eq!(keys_of(&once), uints(&[2, 3, 1]));
    assert_eq!(once.position(&FlexIndex::Uint(1)), Some(2));
}

#[test]
fn sorting_is_by_key() {
    let ops = Ieee;
    let data = vec![
        FlexDataPoint::new(FlexIndex::Uint(3), FlexData::Uint(30)),
        FlexDataPoint::new(FlexIndex::Str("b".to_string()), FlexData::Uint(2)),
        FlexDataPoint::new(FlexIndex::Uint(1), FlexData::Uint(10)),
        FlexDataPoint::new(FlexIndex::Str("a".to_string()), FlexData::Uint(1)),
    ];
    let s = FlexSeries::from_vec("v", FlexDataType::Uint, data, &ops);
    let up = s.sort(true);
    let mut expected = keys_of(&s);
    expected.sort();
    assert_eq!(keys_of(&up), expected);
    assert_eq!(
        keys_of(&up),
        vec![
            FlexIndex::Str("a".to_string()),
            FlexIndex::Str("b".to_string()),
            FlexIndex::Uint(1),
            FlexIndex::Uint(3)
        ]
    );
    assert_eq!(up.at(&FlexIndex::Uint(3)).unwrap().get_data(), &FlexData::Uint(30));
    let down = s.sort(false);
    expected.reverse();
    assert_eq!(keys_of(&down), expected);
    assert_eq!(down.position(&FlexIndex::Uint(3)), Some(0));
}

#[test]
fn key_order_agrees_with_the_derived_order() {
    let keys = vec![
        FlexIndex::Str(String::new()),
        FlexIndex::Str("a".to_string()),
        FlexIndex::Str("ab".to_string()),
        FlexIndex::Str("b".to_string()),
        FlexIndex::Str("\u{e9}".to_string()),
        FlexIndex::Str("\u{1F600}".to_string()),
        FlexIndex::Uint(0),
        FlexIndex::Uint(7),
        FlexIndex::Uint(usize::MAX),
    ];
    for a in keys.iter() {
        for b in keys.iter() {
            assert_eq!(a.before(b), a < b);
            assert_eq!(a == b, a.cmp(b) == std::cmp::Ordering::Equal);
        }
    }
}

#[test]
fn entries_compare_by_key_and_equal_by_key_and_value() {
    let a = point(1, FlexData::Uint(5));
    let b = point(2, FlexData::Uint(1));
    let c = point(1, FlexData::Uint(6));
    assert!(a < b);
    assert!(a.before(&b));
    assert!(!(a < c) && !(c < a));
    assert!(a != c);
    assert_eq!(a, point(1, FlexData::Uint(5)));
    assert_eq!(a.get_datatype(), FlexDataType::Uint);
    assert!(!a.has_na());
    assert!(point(1, FlexData::NA).has_na());
    assert!(a.verify(|x: &FlexData| *x == FlexData::Uint(5)));
    assert_eq!(a.apply(|_x: &FlexData| FlexData::Char('z')), point(1, FlexData::Char('z')));
    assert_eq!(a.as_type(&FlexDataType::Str, &Ieee), point(1, FlexData::Str("5".to_string())));
    let mut d = a.clone();
    d.set_data(FlexData::Int(2));
    d.set_index(FlexIndex::Str("k".to_string()));
    assert_eq!(d.get_index(), &FlexIndex::Str("k".to_string()));
    assert_eq!(d.get_data(), &FlexData::Int(2));
}

fn make_double_series1() -> FlexSeries {
    let datapoints = vec![
        point(1, dbl(2.5)),
        point(2, dbl(1.2)),
        point(3, dbl(3.6)),
        point(4, dbl(0.1)),
        point(5, dbl(0.7)),
        point(6, dbl(1.8)),
        point(7, dbl(2.7)),
        point(8, dbl(2.9)),
        point(9, dbl(1.4)),
        point(10, dbl(0.3)),
    ];
    FlexSeries::from_vec("dummy1", FlexDataType::Dbl, datapoints, &Ieee)
}

fn make_double_series2() -> FlexSeries {
    let datapoints = vec![
        point(1, dbl(1.5)),
        point(2, dbl(2.2)),
        point(3, dbl(0.6)),
        point(4, dbl(3.1)),
        point(5, dbl(3.7)),
        point(6, dbl(2.8)),
        point(7, dbl(1.7)),
        point(8, dbl(1.9)),
        point(9, dbl(2.4)),
        point(10, dbl(3.3)),
    ];
    FlexSeries::from_vec("dummy2", FlexDataType::Dbl, datapoints, &Ieee)
}

/// The mean of the numbers of a column, updated number by number.
fn mean(series: &FlexSeries) -> f64 {
    let mut m = 0.0f64;
    let mut n = 0.0f64;
    for bits in series.numbers(&Ieee) {
        n += 1.0;
        m += (f64::from_bits(bits) - m) / n;
    }
    m
}

/// The sample covariance of the numbers that two columns hold under the
/// keys that both hold, updated pair by pair.
fn covariance(first: &FlexSeries, other: &FlexSeries) -> f64 {
    let mut m1 = 0.0f64;
    let mut m2 = 0.0f64;
    let mut res = 0.0f64;
    let mut n = 0.0f64;
    for (b1, b2) in first.paired_numbers(other, &Ieee) {
        let (x1, x2) = (f64::from_bits(b1), f64::from_bits(b2));
        n += 1.0;
        let dx1 = x1 - m1;
        m1 += dx1 / n;
        m2 += (x2 - m2) / n;
        res += dx1 * (x2 - m2);
    }
    res / (n - 1.0)
}

#[test]
fn stats() {
    let series1 = make_double_series1();
    let series2 = make_double_series2();

    let m1 = mean(&series1);
    assert!((1.72f64 - m1).abs() < 1e-5);

    let v1 = covariance(&series1, &series1);
    assert!((1.3951f64 - v1).abs() < 1e-4);

    let m2 = mean(&series2);
    assert!((2.32f64 - m2).abs() < 1e-5);

    let v2 = covariance(&series2, &series2);
    assert!((0.8795f64 - v2).abs() < 1e-4);

    let cov = covariance(&series1, &series2);
    assert!((-0.996f64 - cov).abs() < 1e-4);

    let corr = cov / (v1.sqrt() * v2.sqrt());
    println!("{:?}", corr);
    assert!((-0.8991f64 - corr).abs() < 1e-4);
}

#[test]
fn running_statistics_agree_with_the_two_pass_formulas() {
    let series = make_double_series1();
    let numbers: Vec<f64> = series.numbers(&Ieee).into_iter().map(f64::from_bits).collect();
    assert_eq!(numbers, vec![2.5, 1.2, 3.6, 0.1, 0.7, 1.8, 2.7, 2.9, 1.4, 0.3]);
    let exact_mean = numbers.iter().sum::<f64>() / 10.0;
    let two_pass =
        numbers.iter().map(|x| (x - exact_mean) * (x - exact_mean)).sum::<f64>() / 9.0;
    assert!((mean(&series) - exact_mean).abs() < 1e-9);
    assert!((covariance(&series, &series) - two_pass).abs() < 1e-6);
}

#[test]
fn numbers_leave_out_what_is_no_number() {
    let ops = Ieee;
    let data = vec![
        point(1, FlexData::Str("7".to_string())),
        point(2, FlexData::Str("x".to_string())),
        point(3, FlexData::NA),
    ];
    let texts = FlexSeries::from_vec("t", FlexDataType::Str, data, &ops);
    assert!(texts.numbers(&ops).is_empty());
    let ints = uint_series("u", &[(1, 3), (2, 4)]);
    assert_eq!(ints.numbers(&ops), vec![3f64.to_bits(), 4f64.to_bits()]);
}

#[test]
fn pairs_of_numbers_under_common_keys() {
    let ops = Ieee;
    let a = uint_series("a", &[(1, 10), (2, 20), (3, 30)]);
    let data = vec![
        point(3, dbl(0.5)),
        point(4, dbl(1.5)),
        point(2, FlexData::NA),
        point(1, dbl(2.5)),
    ];
    let b = FlexSeries::from_vec("b", FlexDataType::Dbl, data, &ops);
    let pairs: Vec<(f64, f64)> = a
        .paired_numbers(&b, &ops)
        .into_iter()
        .map(|(x, y)| (f64::from_bits(x), f64::from_bits(y)))
        .collect();
    assert_eq!(pairs, vec![(10.0, 2.5), (30.0, 0.5)]);
    assert!(b.paired_numbers(&FlexSeries::new("c", FlexDataType::Dbl), &ops).is_empty());
}

#[test]
fn handing_out_entries_round_after_round() {
    let mut s = uint_series("v", &[(1, 10), (2, 20)]);
    assert_eq!(s.next(), Some(point(1, FlexData::Uint(10))));
    assert_eq!(s.next(), Some(point(2, FlexData::Uint(20))));
    assert_eq!(s.next(), None);
    assert_eq!(s.next(), Some(point(1, FlexData::Uint(10))));
}
