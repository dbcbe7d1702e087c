use datatoolkit::helper::{generate_flexdata_from_str, index_intersection};
use datatoolkit::{
    DataPoint, FlexData, FlexDataPoint, FlexDataType, FlexDataVector, FlexIndex, FlexSeries,
    FlexTable, FloatOps, Series,
};
use std::collections::{BTreeMap, HashMap, HashSet};

struct Ieee;

impl FloatOps for Ieee {
    fn sum(&self, a: u64, b: u64) -> u64 {
        (f64::from_bits(a) + f64::from_bits(b)).to_bits()
    }
    fn difference(&self, a: u64, b: u64) -> u64 {
        (f64::from_bits(a) - f64::from_bits(b)).to_bits()
    }
    fn product(&self, a: u64, b: u64) -> u64 {
        (f64::from_bits(a) * f64::from_bits(b)).to_bits()
    }
    fn quotient(&self, a: u64, b: u64) -> u64 {
        (f64::from_bits(a) / f64::from_bits(b)).to_bits()
    }
    fn from_u32(&self, v: u32) -> u64 {
        (v as f64).to_bits()
    }
    fn from_i32(&self, v: i32) -> u64 {
        (v as f64).to_bits()
    }
    fn to_u32(&self, a: u64) -> u32 {
        f64::from_bits(a) as u32
    }
    fn to_i32(&self, a: u64) -> i32 {
        f64::from_bits(a) as i32
    }
    fn to_text(&self, a: u64) -> String {
        format!("{}", f64::from_bits(a))
    }
    fn to_fixed(&self, a: u64) -> String {
        format!("{:.5}", f64::from_bits(a))
    }
    fn parse(&self, token: &str) -> Option<u64> {
        token.parse::<f64>().ok().map(f64::to_bits)
    }
}

fn dbl(x: f64) -> FlexData {
    FlexData::Dbl(x.to_bits())
}

/// A small generator of numbers that look random and are the same on every run.
struct Lcg(u64);

impl Lcg {
    fn next(&mut self) -> u64 {
        self.0 = self.0.wrapping_mul(6364136223846793005).wrapping_add(1442695040888963407);
        self.0 >> 33
    }

    fn below(&mut self, n: u64) -> u64 {
        self.next() % n
    }
}

fn key(rng: &mut Lcg) -> FlexIndex {
    if rng.below(3) == 0 {
        FlexIndex::Str(format!("k{}", rng.below(20)))
    } else {
        FlexIndex::Uint(rng.below(20) as usize)
    }
}

fn value(rng: &mut Lcg) -> FlexData {
    match rng.below(6) {
        0 => FlexData::NA,
        1 => FlexData::Uint(rng.below(5) as u32),
        2 => FlexData::Int(rng.below(5) as i32 - 2),
        3 => dbl(rng.below(5) as f64 / 2.0 - 1.0),
        4 => FlexData::Char((b'a' + rng.below(4) as u8) as char),
        _ => FlexData::Str(format!("s{}", rng.below(4))),
    }
}

#[test]
fn a_column_behaves_like_a_list_with_a_map() {
    let ops = Ieee;
    let mut rng = Lcg(7);
    for round in 0..50 {
        let kind = [FlexDataType::Uint, FlexDataType::Int, FlexDataType::Str][round % 3];
        let mut series = FlexSeries::new("v", kind);
        let mut model: Vec<(FlexIndex, FlexData)> = Vec::new();
        for _ in 0..60 {
            let k = key(&mut rng);
            match rng.below(4) {
                0 => {
                    series.remove_at(&k);
                    model.retain(|(m, _)| *m != k);
                }
                1 => {
                    if !model.is_empty() {
                        let p = rng.below(model.len() as u64) as usize;
                        series.remove(p);
                        model.remove(p);
                    }
                }
                2 => {
                    let v = value(&mut rng);
                    series.update(FlexDataPoint::new(k.clone(), v.clone()), &ops);
                    for entry in model.iter_mut().filter(|(m, _)| *m == k) {
                        entry.1 = datatoolkit::helper::convert(&v, &kind, &ops);
                    }
                }
                _ => {
                    let v = value(&mut rng);
                    series.insert_update(FlexDataPoint::new(k.clone(), v.clone()), &ops);
                    let coerced = datatoolkit::helper::convert(&v, &kind, &ops);
                    match model.iter_mut().find(|(m, _)| *m == k) {
                        Some(entry) => entry.1 = coerced,
                        None => model.push((k, coerced)),
                    }
                }
            }
            assert_eq!(series.get_size(), model.len());
            for (p, (k, v)) in model.iter().enumerate() {
                assert_eq!(series.position(k), Some(p));
                assert_eq!(series.at(k).unwrap().get_data(), v);
                assert_eq!(series[p].get_index(), k);
            }
            let absent = key(&mut rng);
            assert_eq!(series.contains(&absent), model.iter().any(|(m, _)| *m == absent));
        }
        // Sorting agrees with the order that the keys derive.
        let mut keys: Vec<FlexIndex> = model.iter().map(|(k, _)| k.clone()).collect();
        keys.sort();
        let sorted: Vec<FlexIndex> = series.sort(true).get_indices().into_iter().cloned().collect();
        assert_eq!(sorted, keys);
        keys.reverse();
        let sorted: Vec<FlexIndex> = series.sort(false).get_indices().into_iter().cloned().collect();
        assert_eq!(sorted, keys);
    }
}

#[test]
fn intersection_agrees_with_sets() {
    let mut rng = Lcg(11);
    for _ in 0..100 {
        let a: Vec<FlexIndex> = (0..rng.below(15)).map(|_| key(&mut rng)).collect();
        let b: Vec<FlexIndex> = (0..rng.below(15)).map(|_| key(&mut rng)).collect();
        let both = index_intersection(a.iter().collect(), b.iter().collect());
        let set_a: HashSet<FlexIndex> = a.iter().cloned().collect();
        let set_b: HashSet<FlexIndex> = b.iter().cloned().collect();
        let expected: HashSet<FlexIndex> = set_a.intersection(&set_b).cloned().collect();
        assert_eq!(both.len(), expected.len());
        assert_eq!(both.into_iter().collect::<HashSet<FlexIndex>>(), expected);
    }
}

fn random_table(rng: &mut Lcg, rows: usize) -> FlexTable {
    let data: Vec<FlexDataVector> = (0..rows)
        .map(|k| {
            FlexDataVector::new(
                FlexIndex::Uint(k * 3 + 1),
                vec![
                    FlexData::Uint(rng.below(4) as u32),
                    if rng.below(5) == 0 {
                        FlexData::NA
                    } else {
                        dbl(rng.below(6) as f64 / 2.0 - 1.0)
                    },
                    FlexData::Str(format!("g{}", rng.below(5))),
                ],
            )
        })
        .collect();
    FlexTable::from_vecs(
        vec!["n".to_string(), "x".to_string(), "g".to_string()],
        vec![FlexDataType::Uint, FlexDataType::Dbl, FlexDataType::Str],
        data,
        &Ieee,
    )
}

fn rows_of(table: &FlexTable) -> Vec<FlexDataVector> {
    (0..table.num_records()).map(|i| table[i].clone()).collect()
}

#[test]
fn sorting_a_table_agrees_with_a_stable_sort() {
    let mut rng = Lcg(13);
    for _ in 0..60 {
        let rows = rng.below(25) as usize;
        let table = random_table(&mut rng, rows);
        for (label, pos) in [("n", 0usize), ("x", 1), ("g", 2)] {
            let mut expected = rows_of(&table);
            expected.sort_by(|a, b| a[pos].partial_cmp(&b[pos]).unwrap());
            assert_eq!(rows_of(&table.sort(label, true)), expected);
            let mut expected = rows_of(&table);
            expected.sort_by(|a, b| b[pos].partial_cmp(&a[pos]).unwrap());
            assert_eq!(rows_of(&table.sort(label, false)), expected);
        }
    }
}

#[test]
fn grouping_agrees_with_a_map_of_lists() {
    let ops = Ieee;
    let mut rng = Lcg(17);
    for _ in 0..60 {
        let rows = rng.below(30) as usize;
        let table = random_table(&mut rng, rows);
        for (label, pos) in [("n", 0usize), ("g", 2)] {
            let mut expected: HashMap<String, Vec<FlexDataVector>> = HashMap::new();
            for r in rows_of(&table) {
                let name = match datatoolkit::helper::convert(&r[pos], &FlexDataType::Str, &ops) {
                    FlexData::Str(s) => s,
                    _ => unreachable!(),
                };
                expected.entry(name).or_default().push(r);
            }
            let groups = FlexTable::group_by(&table, label, &ops);
            assert_eq!(groups.len(), expected.len());
            let mut total = 0;
            for (name, group) in groups.iter() {
                assert_eq!(&rows_of(group), expected.get(name).unwrap());
                total += group.num_records();
            }
            assert_eq!(total, table.num_records());
        }
    }
}

#[test]
fn filters_agree_with_plain_loops() {
    let mut rng = Lcg(19);
    for _ in 0..60 {
        let rows = rng.below(25) as usize;
        let table = random_table(&mut rng, rows);
        let small = |x: &FlexData| *x < FlexData::Uint(2) || *x < dbl(0.0);
        let expected: Vec<FlexDataVector> =
            rows_of(&table).into_iter().filter(|r| small(&r[0]) && small(&r[1])).collect();
        assert_eq!(rows_of(&table.filter_all(&["n", "x"], small)), expected);
        let expected: Vec<FlexDataVector> =
            rows_of(&table).into_iter().filter(|r| small(&r[0]) || small(&r[1])).collect();
        assert_eq!(rows_of(&table.filter_any(&["n", "x"], small)), expected);
        let expected: Vec<FlexDataVector> =
            rows_of(&table).into_iter().filter(|r| !r.has_na()).collect();
        assert_eq!(rows_of(&table.drop_na()), expected);
        let expected: Vec<FlexDataVector> =
            rows_of(&table).into_iter().filter(|r| r.has_na()).collect();
        assert_eq!(rows_of(&table.get_na()), expected);
        assert_eq!(table.has_na(), !expected.is_empty());
    }
}

#[test]
fn export_and_import_agree_on_random_tables() {
    let ops = Ieee;
    let mut rng = Lcg(23);
    for _ in 0..40 {
        let rows = rng.below(20) as usize;
        let table = random_table(&mut rng, rows);
        let read = FlexTable::from_csv(
            table.to_csv(&ops).as_str(),
            table.get_labels().clone(),
            table.get_datatypes().clone(),
            &ops,
        );
        assert_eq!(read.num_records(), table.num_records());
        for i in 0..table.num_records() {
            assert_eq!(read[i].get_data()[0], table[i].get_data()[0]);
            assert_eq!(read[i].get_data()[2], table[i].get_data()[2]);
        }
    }
}

#[test]
fn a_series_behaves_like_an_ordered_map() {
    let mut rng = Lcg(29);
    for round in 0..40 {
        let limit = if round % 2 == 0 { None } else { Some(1 + rng.below(6) as usize) };
        let mut series: Series<u32, u64> = Series::new("s", limit);
        let mut model: BTreeMap<u32, u64> = BTreeMap::new();
        for _ in 0..50 {
            let k = rng.below(15) as u32;
            let v = rng.below(100);
            if rng.below(2) == 0 {
                series.insert_update(DataPoint::new(k, v));
                model.insert(k, v);
            } else {
                series.insert_add(DataPoint::new(k, v));
                *model.entry(k).or_insert(0) += v;
            }
            if let Some(m) = limit {
                if model.len() > m {
                    let first = *model.keys().next().unwrap();
                    model.remove(&first);
                }
            }
            assert_eq!(series.len(), model.len());
            for (p, (mk, mv)) in model.iter().enumerate() {
                assert_eq!(series[p].get_index(), mk);
                assert_eq!(series[p].get(), mv);
                assert_eq!(series.at(mk, 0).unwrap().get(), mv);
            }
        }
        let sums = series.cumsum();
        let mut running = 0;
        for (p, (_, mv)) in model.iter().enumerate() {
            running += mv;
            assert_eq!(sums[p].get(), &running);
        }
    }
}

#[test]
fn reading_integers_agrees_with_the_standard_library_on_random_tokens() {
    let ops = Ieee;
    let mut rng = Lcg(31);
    let alphabet = ['0', '1', '9', '+', '-', ' ', 'a', '2', '4', '7'];
    for _ in 0..3000 {
        let token: String =
            (0..rng.below(12)).map(|_| alphabet[rng.below(10) as usize]).collect();
        assert_eq!(
            generate_flexdata_from_str(token.as_str(), &FlexDataType::Uint, &ops),
            token.parse::<u32>().map_or(FlexData::NA, FlexData::Uint)
        );
        assert_eq!(
            generate_flexdata_from_str(token.as_str(), &FlexDataType::Int, &ops),
            token.parse::<i32>().map_or(FlexData::NA, FlexData::Int)
        );
    }
}
