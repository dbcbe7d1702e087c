use datatoolkit::helper::extract_csv_headers;
use datatoolkit::{
    FlexData, FlexDataPoint, FlexDataType, FlexDataVector, FlexIndex, FlexSeries, FlexTable,
    FloatOps,
};

struct Ieee;

impl FloatOps for Ieee {
    fn sum(&self, a: u64, b: u64) -> u64 {
        (f64::from_bits(a) + f64::from_bits(b)).to_bits()
    }
    fn difference(&self, a: u64, b: u64) -> u64 {
        (f64::from_bits(a) - f64::from_bits(b)).to_bits()
    }
    fn product(&self, a: u64, b: u64) -> u64 {
        (f64::from_bits(a) * f64::from_bits(b)).to_bits()
    }
    fn quotient(&self, a: u64, b: u64) -> u64 {
        (f64::from_bits(a) / f64::from_bits(b)).to_bits()
    }
    fn from_u32(&self, v: u32) -> u64 {
        (v as f64).to_bits()
    }
    fn from_i32(&self, v: i32) -> u64 {
        (v as f64).to_bits()
    }
    fn to_u32(&self, a: u64) -> u32 {
        f64::from_bits(a) as u32
    }
    fn to_i32(&self, a: u64) -> i32 {
        f64::from_bits(a) as i32
    }
    fn to_text(&self, a: u64) -> String {
        format!("{}", f64::from_bits(a))
    }
    fn to_fixed(&self, a: u64) -> String {
        format!("{:.5}", f64::from_bits(a))
    }
    fn parse(&self, token: &str) -> Option<u64> {
        token.parse::<f64>().ok().map(f64::to_bits)
    }
}

fn dbl(x: f64) -> FlexData {
    FlexData::Dbl(x.to_bits())
}

fn text(s: &str) -> FlexData {
    FlexData::Str(s.to_string())
}

fn labels(names: &[&str]) -> Vec<String> {
    names.iter().map(|s| s.to_string()).collect()
}

fn uints(keys: &[usize]) -> Vec<FlexIndex> {
    keys.iter().map(|k| FlexIndex::Uint(*k)).collect()
}

fn row(k: usize, values: Vec<FlexData>) -> FlexDataVector {
    FlexDataVector::new(FlexIndex::Uint(k), values)
}

fn rows_of(table: &FlexTable) -> Vec<FlexDataVector> {
    (0..table.num_records()).map(|i| table[i].clone()).collect()
}

/// Three columns: a team, its goals and its odds; five rows under the keys 0 to 4.
fn games() -> FlexTable {
    let csv = "team,goals,odds,note\n\
               Ajax,3,1.5,a\n\
               Bern,0,2.25,b\n\
               Ajax,1,x,c\n\
               Cork,3,4.0,d\n\
               Bern,2,0.5,e\n";
    FlexTable::from_csv(
        csv,
        labels(&["team", "goals", "odds"]),
        vec![FlexDataType::Str, FlexDataType::Uint, FlexDataType::Dbl],
        &Ieee,
    )
}

/// A season of 32 games, written as the files of match results are: more
/// columns than are read, some fields in quotation marks, some odds not given.
fn season() -> String {
    let teams = ["Ajax", "Bern", "Cork", "Dijon", "Essen", "Fulham", "Gent", "Hull"];
    let mut text = String::from("Div,Date,Time,HomeTeam,AwayTeam,FTHG,FTAG,FTR,B365H,B365D,B365A\n");
    for k in 0..32usize {
        let home = teams[k % 8];
        let away = teams[(k * 3 + 1) % 8];
        let fthg = (k * 7) % 5;
        let ftag = (k * 3) % 4;
        let b365h = 1.2 + (k % 7) as f64 * 0.4;
        let b365a = 9.0 - (k % 7) as f64 * 1.1;
        let odds = if k % 10 == 9 {
            String::from(",,")
        } else {
            format!("{},3.4,{}", b365h, b365a)
        };
        text.push_str(
            format!(
                "E3,{:02}/08/2019,15:00,\"{}\",{},{},{},D,{}\n",
                k % 28 + 1,
                home,
                away,
                fthg,
                ftag,
                odds
            )
            .as_str(),
        );
    }
    text
}

fn create_table() -> FlexTable {
    let headers = vec![
        "Div", "Date", "Time", "HomeTeam", "AwayTeam", "FTHG", "FTAG", "B365H", "B365D", "B365A",
    ];
    let datatypes = vec![
        FlexDataType::Str,
        FlexDataType::Str,
        FlexDataType::Str,
        FlexDataType::Str,
        FlexDataType::Str,
        FlexDataType::Uint,
        FlexDataType::Uint,
        FlexDataType::Dbl,
        FlexDataType::Dbl,
        FlexDataType::Dbl,
    ];
    FlexTable::from_csv(
        season().as_str(),
        headers.into_iter().map(String::from).collect(),
        datatypes,
        &Ieee,
    )
}

#[test]
fn csv_import() {
    let ops = Ieee;
    let mut table = create_table();
    assert!(table.has_na());
    assert_eq!(table.num_records(), 32);

    // All games where one team scored more than 3 goals
    let f = |x: &FlexData| x > &FlexData::Uint(3);
    let high = table.filter_any(&["FTHG", "FTAG"], f);
    assert!(high.num_records() > 0);
    for i in 0..high.num_records() {
        assert!(high[i].get_data()[5] > FlexData::Uint(3) || high[i].get_data()[6] > FlexData::Uint(3));
    }

    // All games where no goals were scored
    let f = |x: &FlexData| x == &FlexData::Uint(0);
    let goalless = table.filter_all(&["FTHG", "FTAG"], f);
    assert_eq!(goalless.get_indices(), uints(&[0, 20]));

    // Create new series as function of others
    let series = table.extract_series(&["FTHG", "FTAG"]);
    let gd_series = series[0].sub("GoalDiff", &FlexDataType::Int, &series[1], &ops);
    table.add_series(gd_series);
    assert_eq!(table.num_series(), 11);
    assert_eq!(table[24].get_data()[10], FlexData::Int(3));
    assert_eq!(table[1].get_data()[10], FlexData::Int(-1));

    // Subset selection
    let subset = table.get_subset(vec![FlexIndex::Uint(12), FlexIndex::Uint(30)]);
    assert_eq!(subset.get_indices(), uints(&[12, 30]));
    assert_eq!(subset[1], table[30]);

    // Group by Hometeams
    let groups = FlexTable::group_by(&table, "HomeTeam", &ops);
    assert_eq!(groups.len(), 8);
    for (k, v) in groups.iter() {
        assert_eq!(v.num_records(), 4);
        assert_eq!(v[0].get_data()[3], text(k));
    }

    let filtered_table = table.drop_na();
    assert!(filtered_table.has_na() == false);
    assert_eq!(filtered_table.num_records(), 29);

    let filtered_series = filtered_table.extract_series(&["B365H", "B365A"]);
    let pairs: Vec<(f64, f64)> = filtered_series[0]
        .paired_numbers(&filtered_series[1], &ops)
        .into_iter()
        .map(|(x, y)| (f64::from_bits(x), f64::from_bits(y)))
        .collect();
    let n = pairs.len() as f64;
    let mean_h = pairs.iter().map(|p| p.0).sum::<f64>() / n;
    let mean_a = pairs.iter().map(|p| p.1).sum::<f64>() / n;
    let cov: f64 = pairs.iter().map(|p| (p.0 - mean_h) * (p.1 - mean_a)).sum();
    let var_h: f64 = pairs.iter().map(|p| (p.0 - mean_h) * (p.0 - mean_h)).sum();
    let var_a: f64 = pairs.iter().map(|p| (p.1 - mean_a) * (p.1 - mean_a)).sum();
    let corr = cov / (var_h.sqrt() * var_a.sqrt());
    assert!(corr < 0.0);
}

#[test]
fn import_reads_the_named_columns() {
    let table = games();
    assert_eq!(table.get_labels(), &labels(&["team", "goals", "odds"]));
    assert_eq!(
        table.get_datatypes(),
        &vec![FlexDataType::Str, FlexDataType::Uint, FlexDataType::Dbl]
    );
    assert_eq!(table.num_records(), 5);
    assert_eq!(table.num_series(), 3);
    assert_eq!(table.get_indices(), uints(&[0, 1, 2, 3, 4]));
    assert_eq!(table[0], row(0, vec![text("Ajax"), FlexData::Uint(3), dbl(1.5)]));
    assert_eq!(table[2], row(2, vec![text("Ajax"), FlexData::Uint(1), FlexData::NA]));
    assert_eq!(table[4], row(4, vec![text("Bern"), FlexData::Uint(2), dbl(0.5)]));
}

#[test]
fn import_follows_the_order_of_the_headers_asked_for() {
    let csv = "\"a\",\"b\",\"c\"\r\n1,2,3\r\n4,5,6";
    let table = FlexTable::from_csv(
        csv,
        labels(&["c", "a"]),
        vec![FlexDataType::Int, FlexDataType::Str],
        &Ieee,
    );
    assert_eq!(table.num_records(), 2);
    assert_eq!(table[0], row(0, vec![FlexData::Int(3), text("1")]));
    assert_eq!(table[1], row(1, vec![FlexData::Int(6), text("4")]));
}

#[test]
fn import_of_a_text_without_rows() {
    let table = FlexTable::from_csv("a,b\n", labels(&["b"]), vec![FlexDataType::Uint], &Ieee);
    assert_eq!(table.num_records(), 0);
    assert_eq!(table.num_series(), 1);
    assert!(!table.has_na());
}

#[test]
fn import_that_cannot_be_read_gives_nothing() {
    let ops = Ieee;
    // A header that the text lacks.
    assert!(FlexTable::try_from_csv("a,b\n1,2\n", labels(&["z"]), vec![FlexDataType::Uint], &ops)
        .is_none());
    // A line that is too short.
    assert!(FlexTable::try_from_csv("a,b\n1\n", labels(&["b"]), vec![FlexDataType::Uint], &ops)
        .is_none());
    // No header line at all.
    assert!(FlexTable::try_from_csv("", labels(&["a"]), vec![FlexDataType::Uint], &ops).is_none());
    // More headers than kinds.
    assert!(FlexTable::try_from_csv("a,b\n1,2\n", labels(&["a", "b"]), vec![FlexDataType::Uint], &ops)
        .is_none());
    let table =
        FlexTable::try_from_csv("a,b\n1,2\n", labels(&["a"]), vec![FlexDataType::Uint], &ops)
            .unwrap();
    assert_eq!(table[0], row(0, vec![FlexData::Uint(1)]));
    assert!(FlexTable::try_from_csv("", vec![], vec![], &ops).unwrap().num_records() == 0);
}

#[test]
fn lines_and_fields_agree_with_the_standard_library() {
    let ops = Ieee;
    let texts = [
        "h",
        "h\n",
        "h\na",
        "h\na\n",
        "h\r\na\r\nb",
        "h\na\r",
        "h\na\r\n",
        "h\n\n\nb\n\n",
        "h\n\r\n\r\r\nb\r",
        "h\n a \n\tb\n",
        "h,x\na,1\n,\nb,,2\n",
    ];
    for t in texts.iter() {
        let table = FlexTable::from_csv(t, labels(&["h"]), vec![FlexDataType::Str], &ops);
        let expected: Vec<FlexDataVector> = t
            .lines()
            .skip(1)
            .enumerate()
            .map(|(k, line)| row(k, vec![text(line.split(',').next().unwrap())]))
            .collect();
        assert_eq!(rows_of(&table), expected);
        let headers: Vec<String> =
            t.lines().next().unwrap().split(',').map(|s| s.to_string()).collect();
        assert_eq!(extract_csv_headers(t), Some(headers));
    }
}

#[test]
fn headers_of_a_text() {
    assert_eq!(extract_csv_headers("a,b,,c\n1,2,3,4\n"), Some(labels(&["a", "b", "", "c"])));
    assert_eq!(extract_csv_headers("only"), Some(labels(&["only"])));
    assert_eq!(extract_csv_headers("\nx"), Some(labels(&[""])));
    assert_eq!(extract_csv_headers(""), None);
}

#[test]
fn an_unparseable_token_gives_a_missing_value() {
    let csv = "id,score\na,10\nb,ten\nc,30\n";
    let table = FlexTable::from_csv(
        csv,
        labels(&["id", "score"]),
        vec![FlexDataType::Str, FlexDataType::Uint],
        &Ieee,
    );
    assert_eq!(table.num_records(), 3);
    assert_eq!(table[1].get_data()[1], FlexData::NA);
    assert!(table.has_na());
    let kept = table.drop_na();
    assert_eq!(kept.get_indices(), uints(&[0, 2]));
    assert_eq!(kept[0], table[0]);
    assert_eq!(kept[1], table[2]);
    assert!(!kept.has_na());
    assert_eq!(table.get_na().get_indices(), uints(&[1]));
}

#[test]
fn lookup_of_rows() {
    let table = games();
    assert_eq!(table.at(&FlexIndex::Uint(3)), Some(table[3].clone()));
    assert_eq!(table.at(&FlexIndex::Uint(5)), None);
    assert!(table.contains(&FlexIndex::Uint(0)));
    assert!(!table.contains(&FlexIndex::Str("0".to_string())));
    assert_eq!(table.position(&FlexIndex::Uint(4)), Some(4));
    assert_eq!(table.label_position("odds"), Some(2));
    assert_eq!(table.label_position("nope"), None);
    let sub = table.get_subset(uints(&[4, 9, 1, 4]));
    assert_eq!(sub.get_indices(), uints(&[4, 1]));
    assert_eq!(sub[0], table[4]);
    assert_eq!(sub.get_labels(), table.get_labels());
    assert_eq!(sub.get_datatypes(), table.get_datatypes());
}

#[test]
fn columns_come_out_as_they_stand() {
    let table = games();
    let series = table.extract_series(&["goals", "team"]);
    assert_eq!(series.len(), 2);
    assert_eq!(series[0].get_label(), "goals");
    assert_eq!(series[0].get_datatype(), &FlexDataType::Uint);
    assert_eq!(series[0].get_size(), 5);
    for k in 0..5usize {
        assert_eq!(series[0][k].get_index(), &FlexIndex::Uint(k));
        assert_eq!(series[0][k].get_data(), &table[k].get_data()[1]);
        assert_eq!(series[1][k].get_data(), &table[k].get_data()[0]);
    }
    assert_eq!(series[0].at(&FlexIndex::Uint(3)).unwrap().get_data(), &FlexData::Uint(3));
    let all = table.extract_all_series();
    assert_eq!(all.len(), 3);
    assert_eq!(all.get("odds").unwrap().get_label(), "odds");
    assert_eq!(all.get("odds").unwrap()[1usize].get_data(), &dbl(2.25));
    assert!(all.get("note").is_none());
}

#[test]
fn table_of_columns() {
    let ops = Ieee;
    let a = FlexSeries::from_vec(
        "a",
        FlexDataType::Uint,
        vec![
            FlexDataPoint::new(FlexIndex::Uint(7), FlexData::Uint(1)),
            FlexDataPoint::new(FlexIndex::Uint(8), FlexData::Uint(2)),
        ],
        &ops,
    );
    let b = FlexSeries::from_vec(
        "b",
        FlexDataType::Str,
        vec![
            FlexDataPoint::new(FlexIndex::Uint(1), text("x")),
            FlexDataPoint::new(FlexIndex::Uint(2), text("y")),
        ],
        &ops,
    );
    let table = FlexTable::new(vec![a, b]);
    assert_eq!(table.get_labels(), &labels(&["a", "b"]));
    assert_eq!(table.get_datatypes(), &vec![FlexDataType::Uint, FlexDataType::Str]);
    // The rows stand under the keys of the first column.
    assert_eq!(rows_of(&table), vec![
        row(7, vec![FlexData::Uint(1), text("x")]),
        row(8, vec![FlexData::Uint(2), text("y")]),
    ]);
}

#[test]
fn table_of_rows_coerces() {
    let table = FlexTable::from_vecs(
        labels(&["n", "t"]),
        vec![FlexDataType::Int, FlexDataType::Str],
        vec![
            row(1, vec![FlexData::Uint(5), FlexData::Uint(5), FlexData::Uint(9)]),
            row(2, vec![text("5"), FlexData::Char('c')]),
        ],
        &Ieee,
    );
    assert_eq!(rows_of(&table), vec![
        row(1, vec![FlexData::Int(5), text("5")]),
        row(2, vec![FlexData::NA, text("c")]),
    ]);
}

#[test]
fn table_of_rows_fits_each_row_to_the_columns() {
    let table = FlexTable::from_vecs(
        labels(&["a", "b", "c"]),
        vec![FlexDataType::Uint, FlexDataType::Uint, FlexDataType::Str],
        vec![
            row(1, vec![FlexData::Uint(1)]),
            row(2, vec![FlexData::Uint(2), FlexData::Uint(3), text("x"), text("beyond")]),
            row(1, vec![FlexData::Uint(9), FlexData::Int(8)]),
            row(3, vec![]),
        ],
        &Ieee,
    );
    // A short row is filled up with missing values, and the second row under
    // the key 1 took the place of the first.
    assert_eq!(rows_of(&table), vec![
        row(1, vec![FlexData::Uint(9), FlexData::Uint(8), FlexData::NA]),
        row(2, vec![FlexData::Uint(2), FlexData::Uint(3), text("x")]),
        row(3, vec![FlexData::NA, FlexData::NA, FlexData::NA]),
    ]);
    assert_eq!(table.position(&FlexIndex::Uint(3)), Some(2));
    assert_eq!(table.at(&FlexIndex::Uint(1)), Some(table[0].clone()));
}

#[test]
fn a_column_is_added_by_key() {
    let ops = Ieee;
    let mut table = games();
    let series = table.extract_series(&["goals", "goals"]);
    let doubled = series[0].add("twice", &FlexDataType::Uint, &series[1], &ops);
    table.add_series(doubled);
    assert_eq!(table.num_series(), 4);
    assert_eq!(table.get_labels(), &labels(&["team", "goals", "odds", "twice"]));
    assert_eq!(table.get_datatypes()[3], FlexDataType::Uint);
    assert_eq!(table[0].get_data()[3], FlexData::Uint(6));
    assert_eq!(table[3].get_data()[3], FlexData::Uint(6));
    assert_eq!(table[4].get_data()[3], FlexData::Uint(4));
    assert_eq!(table.label_position("twice"), Some(3));
    // A column that is shorter than the table leaves missing values behind it.
    let short = FlexSeries::from_vec(
        "short",
        FlexDataType::Int,
        vec![FlexDataPoint::new(FlexIndex::Uint(0), FlexData::Int(-1))],
        &ops,
    );
    table.add_series(short);
    assert_eq!(table[0].get_data()[4], FlexData::Int(-1));
    assert_eq!(table[1].get_data()[4], FlexData::NA);
    assert_eq!(table[4].get_data()[4], FlexData::NA);
    assert_eq!(table[4].get_size(), 5);
}

#[test]
fn a_column_in_another_order_is_joined_by_key() {
    let ops = Ieee;
    let mut table = games();
    let before = rows_of(&table);
    // The keys stand in another order than the rows, one row has no entry,
    // and one entry has no row.
    let series = FlexSeries::from_vec(
        "rank",
        FlexDataType::Uint,
        vec![
            FlexDataPoint::new(FlexIndex::Uint(4), FlexData::Uint(40)),
            FlexDataPoint::new(FlexIndex::Uint(9), FlexData::Uint(90)),
            FlexDataPoint::new(FlexIndex::Uint(0), FlexData::Uint(0)),
            FlexDataPoint::new(FlexIndex::Uint(3), FlexData::Uint(30)),
            FlexDataPoint::new(FlexIndex::Uint(1), FlexData::Uint(10)),
        ],
        &ops,
    );
    table.add_series(series);
    assert_eq!(table.num_series(), 4);
    assert_eq!(table.num_records(), 5);
    assert_eq!(table.get_indices(), uints(&[0, 1, 2, 3, 4]));
    assert_eq!(table.get_labels(), &labels(&["team", "goals", "odds", "rank"]));
    assert_eq!(table.get_datatypes()[3], FlexDataType::Uint);
    let expected = [
        FlexData::Uint(0),
        FlexData::Uint(10),
        FlexData::NA,
        FlexData::Uint(30),
        FlexData::Uint(40),
    ];
    for i in 0..5 {
        assert_eq!(table[i].get_size(), 4);
        assert_eq!(table[i].get_data()[3], expected[i]);
        assert_eq!(table[i].get_data()[..3], before[i].get_data()[..]);
    }
    // Two rows, and a column that holds their keys the other way round.
    let mut two = FlexTable::from_vecs(
        labels(&["a"]),
        vec![FlexDataType::Int],
        vec![row(1, vec![FlexData::Int(1)]), row(2, vec![FlexData::Int(2)])],
        &ops,
    );
    let turned = FlexSeries::from_vec(
        "b",
        FlexDataType::Int,
        vec![
            FlexDataPoint::new(FlexIndex::Uint(2), FlexData::Int(20)),
            FlexDataPoint::new(FlexIndex::Uint(1), FlexData::Int(10)),
        ],
        &ops,
    );
    two.add_series(turned);
    assert_eq!(rows_of(&two), vec![
        row(1, vec![FlexData::Int(1), FlexData::Int(10)]),
        row(2, vec![FlexData::Int(2), FlexData::Int(20)]),
    ]);
}

#[test]
fn rows_are_removed() {
    let mut table = games();
    let last = table[4].clone();
    table.remove_record(1);
    assert_eq!(table.get_indices(), uints(&[0, 2, 3, 4]));
    assert_eq!(table.position(&FlexIndex::Uint(4)), Some(3));
    assert_eq!(table.at(&FlexIndex::Uint(4)), Some(last));
    assert_eq!(table.at(&FlexIndex::Uint(1)), None);
    table.remove_record_at(&FlexIndex::Uint(0));
    table.remove_record_at(&FlexIndex::Uint(77));
    assert_eq!(table.get_indices(), uints(&[2, 3, 4]));
    assert_eq!(table.position(&FlexIndex::Uint(2)), Some(0));
}

#[test]
fn a_column_becomes_the_key() {
    let mut table = FlexTable::from_csv(
        "name,n\nx,1\ny,2\n",
        labels(&["name", "n"]),
        vec![FlexDataType::Str, FlexDataType::Uint],
        &Ieee,
    );
    table.set_index("name");
    assert_eq!(table.get_labels(), &labels(&["n"]));
    assert_eq!(table.get_datatypes(), &vec![FlexDataType::Uint]);
    assert_eq!(
        table.get_indices(),
        vec![FlexIndex::Str("x".to_string()), FlexIndex::Str("y".to_string())]
    );
    assert_eq!(
        table.at(&FlexIndex::Str("y".to_string())),
        Some(FlexDataVector::new(FlexIndex::Str("y".to_string()), vec![FlexData::Uint(2)]))
    );
    assert_eq!(table.label_position("n"), Some(0));
    assert_eq!(table.label_position("name"), None);
    assert!(!table.contains(&FlexIndex::Uint(0)));
}

#[test]
fn rows_are_filtered_by_all_or_any() {
    let table = games();
    let three = |x: &FlexData| *x == FlexData::Uint(3) || *x == text("Ajax");
    let all = table.filter_all(&["goals", "team"], three);
    assert_eq!(all.get_indices(), uints(&[0]));
    let any = table.filter_any(&["goals", "team"], three);
    assert_eq!(any.get_indices(), uints(&[0, 2, 3]));
    // A label that names no column lets no row through `filter_all`.
    assert_eq!(table.filter_all(&["goals", "nope"], |_x: &FlexData| true).num_records(), 0);
    assert_eq!(table.filter_any(&["goals", "nope"], |_x: &FlexData| true).num_records(), 5);
    assert_eq!(table.filter_all(&[], |_x: &FlexData| false).num_records(), 5);
    assert_eq!(table.filter_any(&[], |_x: &FlexData| true).num_records(), 0);
    let more = table.filter_any(&["goals"], |x: &FlexData| x > &FlexData::Uint(1));
    assert_eq!(more.get_indices(), uints(&[0, 3, 4]));
    assert_eq!(more.position(&FlexIndex::Uint(4)), Some(2));
}

#[test]
fn a_column_is_derived_row_by_row() {
    let ops = Ieee;
    let table = games();
    let f = |values: &[&FlexData]| match (values[0], values[1]) {
        (FlexData::Uint(g), FlexData::Str(t)) => FlexData::Uint(*g + t.len() as u32),
        _ => FlexData::NA,
    };
    let derived = table.nary_apply("score", FlexDataType::Int, &["goals", "team"], f, &ops);
    assert_eq!(derived.get_label(), "score");
    assert_eq!(derived.get_datatype(), &FlexDataType::Int);
    assert_eq!(derived.get_size(), 5);
    assert_eq!(derived[0usize], FlexDataPoint::new(FlexIndex::Uint(0), FlexData::Int(7)));
    assert_eq!(derived[4usize], FlexDataPoint::new(FlexIndex::Uint(4), FlexData::Int(6)));
}

#[test]
fn rows_are_sorted_by_a_column_and_ties_keep_their_order() {
    let table = games();
    let up = table.sort("goals", true);
    assert_eq!(up.get_indices(), uints(&[1, 2, 4, 0, 3]));
    let down = table.sort("goals", false);
    assert_eq!(down.get_indices(), uints(&[0, 3, 4, 2, 1]));
    assert_eq!(down.position(&FlexIndex::Uint(1)), Some(4));
    let by_team = table.sort("team", true);
    assert_eq!(by_team.get_indices(), uints(&[0, 2, 1, 4, 3]));
    // Missing values come behind every number.
    let by_odds = table.sort("odds", true);
    assert_eq!(by_odds.get_indices(), uints(&[4, 0, 1, 3, 2]));
    assert_eq!(by_odds.get_labels(), table.get_labels());
}

#[test]
fn grouping_three_rows_by_two_texts() {
    let ops = Ieee;
    let table = FlexTable::from_vecs(
        labels(&["g", "v"]),
        vec![FlexDataType::Str, FlexDataType::Uint],
        vec![
            row(0, vec![text("a"), FlexData::Uint(1)]),
            row(1, vec![text("b"), FlexData::Uint(2)]),
            row(2, vec![text("a"), FlexData::Uint(3)]),
        ],
        &ops,
    );
    let groups = FlexTable::group_by(&table, "g", &ops);
    assert_eq!(groups.len(), 2);
    assert_eq!(groups[0].0, "a");
    assert_eq!(groups[0].1.num_records(), 2);
    assert!(groups[0].1.contains(&FlexIndex::Uint(0)));
    assert!(groups[0].1.contains(&FlexIndex::Uint(2)));
    assert_eq!(groups[1].0, "b");
    assert_eq!(groups[1].1.num_records(), 1);
    assert!(groups[1].1.contains(&FlexIndex::Uint(1)));
    let empty = FlexTable::from_vecs(labels(&["g"]), vec![FlexDataType::Str], vec![], &ops);
    assert!(FlexTable::group_by(&empty, "g", &ops).is_empty());
}

#[test]
fn grouping_parts_the_rows() {
    let ops = Ieee;
    let table = games();
    let groups = FlexTable::group_by(&table, "team", &ops);
    let names: Vec<&str> = groups.iter().map(|(name, _)| name.as_str()).collect();
    assert_eq!(names, vec!["Ajax", "Bern", "Cork"]);
    assert_eq!(groups[0].1.get_indices(), uints(&[0, 2]));
    assert_eq!(groups[1].1.get_indices(), uints(&[1, 4]));
    assert_eq!(groups[2].1.get_indices(), uints(&[3]));
    let total: usize = groups.iter().map(|(_, t)| t.num_records()).sum();
    assert_eq!(total, table.num_records());
    for (name, group) in groups.iter() {
        assert_eq!(group.get_labels(), table.get_labels());
        for i in 0..group.num_records() {
            assert_eq!(group[i].get_data()[0], text(name));
            assert_eq!(Some(group[i].clone()), table.at(group[i].get_index()));
        }
    }
    // Numbers are grouped by their text.
    let by_goals = FlexTable::group_by(&table, "goals", &ops);
    let names: Vec<&str> = by_goals.iter().map(|(name, _)| name.as_str()).collect();
    assert_eq!(names, vec!["3", "0", "1", "2"]);
    assert_eq!(by_goals[0].1.get_indices(), uints(&[0, 3]));
}

#[test]
fn export_writes_the_header_and_a_line_for_each_row() {
    let table = games();
    assert_eq!(
        table.to_csv(&Ieee),
        ",team,goals,odds\n\
         0,Ajax,3,1.50000\n\
         1,Bern,0,2.25000\n\
         2,Ajax,1,N/A\n\
         3,Cork,3,4.00000\n\
         4,Bern,2,0.50000\n"
    );
    let empty = FlexTable::from_csv("a\n", labels(&["a"]), vec![FlexDataType::Int], &Ieee);
    assert_eq!(empty.to_csv(&Ieee), ",a\n");
}

#[test]
fn export_and_import_give_the_table_back() {
    let ops = Ieee;
    let table = FlexTable::from_vecs(
        labels(&["t", "u", "i", "d", "c"]),
        vec![
            FlexDataType::Str,
            FlexDataType::Uint,
            FlexDataType::Int,
            FlexDataType::Dbl,
            FlexDataType::Char,
        ],
        vec![
            row(0, vec![text("one"), FlexData::Uint(1), FlexData::Int(-1), dbl(0.123456789), FlexData::Char('a')]),
            row(1, vec![text(""), FlexData::Uint(u32::MAX), FlexData::Int(i32::MIN), dbl(-2.5), FlexData::Char(' ')]),
            row(2, vec![text("N/Ax"), FlexData::NA, FlexData::NA, FlexData::NA, FlexData::NA]),
        ],
        &ops,
    );
    let written = table.to_csv(&ops);
    let read = FlexTable::from_csv(
        written.as_str(),
        table.get_labels().clone(),
        table.get_datatypes().clone(),
        &ops,
    );
    assert_eq!(read.num_records(), 3);
    for i in 0..3 {
        for j in [0usize, 1, 2, 4] {
            assert_eq!(read[i].get_data()[j], table[i].get_data()[j]);
        }
    }
    assert_eq!(read[0].get_data()[3], dbl(0.12346));
    assert_eq!(read[1].get_data()[3], dbl(-2.5));
    assert_eq!(read[2].get_data()[3], FlexData::NA);
}

#[test]
fn rows_hold_and_coerce_their_values() {
    let ops = Ieee;
    let mut r = row(1, vec![FlexData::Uint(1), text("x"), FlexData::NA]);
    assert_eq!(r.get_size(), 3);
    assert_eq!(
        r.get_datatypes(),
        vec![FlexDataType::Uint, FlexDataType::Str, FlexDataType::NA]
    );
    assert!(r.has_na());
    assert!(!r.verify(|x: &FlexData| *x != FlexData::NA));
    assert!(r.verify(|x: &FlexData| *x != FlexData::Int(0)));
    assert_eq!(r[1usize], text("x"));
    let coerced = r.as_types(&vec![FlexDataType::Str, FlexDataType::Str], &ops);
    assert_eq!(coerced, row(1, vec![text("1"), text("x")]));
    r.set_data(vec![FlexData::Int(5)]);
    r.set_index(FlexIndex::Uint(9));
    assert_eq!(r, row(9, vec![FlexData::Int(5)]));
    assert!(!r.has_na());
    assert!(r != row(8, vec![FlexData::Int(5)]));
}

#[test]
fn handing_out_rows_round_after_round() {
    let mut table = games();
    let mut seen = 0;
    while let Some(r) = table.next() {
        assert_eq!(r.get_index(), &FlexIndex::Uint(seen));
        seen += 1;
    }
    assert_eq!(seen, 5);
    assert_eq!(table.next().unwrap().get_index(), &FlexIndex::Uint(0));
    let copy = table.clone();
    assert_eq!(rows_of(&copy), rows_of(&table));
    assert_eq!(copy.position(&FlexIndex::Uint(3)), Some(3));
}
