//! Delimited text: how a table is written as lines of fields, and how such
//! lines are read as a table.

use vstd::prelude::*;
use crate::flexdata::{Datum, FlexData, FlexDataType};
use crate::flexdatavector::{FlexDataVector, Row};
use crate::flextable::{labels_of, rows_of, FlexTable};
use crate::float::FloatOps;
use crate::globals::{FlexIndex, Key};
use crate::helper::{
    generate_flexdata_from_str, reads_as, views,
};
use crate::text::{
    chars_of, decimal, join, lines_of, push_str, remove_char, signed_decimal, signed_to_string,
    split, split_chars, split_lines, string_of, texts_of, unsigned_to_string, without,
};

verus! {

/// The first place at which a token stands among tokens, if it stands there.
pub open spec fn first_place(tokens: Seq<Seq<char>>, t: Seq<char>) -> Option<int>
    decreases tokens.len(),
{
    if tokens.len() == 0 {
        None
    } else {
        match first_place(tokens.drop_last(), t) {
            Some(k) => Some(k),
            None => if tokens.last() == t {
                Some(tokens.len() - 1)
            } else {
                None
            },
        }
    }
}

/// The tokens of the first line of a text, where it has a line.
pub open spec fn header_tokens(text: Seq<char>) -> Option<Seq<Seq<char>>> {
    let lines = lines_of(text);
    if lines.len() > 0 {
        Some(split(lines[0], ','))
    } else {
        None
    }
}

/// The tokens of the header line of a delimited text, whose quotation marks
/// count for nothing; none where the text has no line.
pub open spec fn raw_headers(text: Seq<char>) -> Seq<Seq<char>> {
    match header_tokens(without(text, '"')) {
        Some(tokens) => tokens,
        None => Seq::empty(),
    }
}

/// The lines of a delimited text, without its quotation marks.
pub open spec fn csv_lines(text: Seq<char>) -> Seq<Seq<char>> {
    lines_of(without(text, '"'))
}

/// Whether a delimited text can be read under the headers given: each
/// header stands in the header line, and each line behind it has a field
/// at the place of each header.
pub open spec fn csv_readable(text: Seq<char>, headers: Seq<Seq<char>>) -> bool {
    &&& forall|j: int|
        0 <= j < headers.len() ==> first_place(raw_headers(text), #[trigger] headers[j]) is Some
    &&& forall|l: int, j: int|
        1 <= l < csv_lines(text).len() && 0 <= j < headers.len() ==> first_place(
            raw_headers(text),
            #[trigger] headers[j],
        )->0 < (#[trigger] split(csv_lines(text)[l], ',')).len()
}

/// The field of the line `l` that stands under a header.
pub open spec fn field(text: Seq<char>, header: Seq<char>, l: int) -> Seq<char> {
    split(csv_lines(text)[l], ',')[first_place(raw_headers(text), header)->0]
}

/// Whether `v` is what a field holds in a column of the kind `t`: what the
/// field reads as under that kind, and a missing value where the kind is `NA`.
pub open spec fn cell_reads<F: FloatOps>(ops: &F, token: Seq<char>, t: FlexDataType, v: Datum) -> bool {
    if t == FlexDataType::NA {
        v is NA
    } else {
        reads_as(ops, token, t, v)
    }
}

/// Whether the rows are what a delimited text holds under the headers and
/// kinds given: one row for each line behind the header line, under the
/// number of the row, with the field under each header read as the kind
/// in the header's place.
pub open spec fn rows_read<F: FloatOps>(
    ops: &F,
    text: Seq<char>,
    headers: Seq<Seq<char>>,
    datatypes: Seq<FlexDataType>,
    rows: Seq<Row>,
) -> bool {
    &&& rows.len() == (if csv_lines(text).len() > 0 {
        csv_lines(text).len() - 1
    } else {
        0
    })
    &&& forall|r: int|
        0 <= r < rows.len() ==> (#[trigger] rows[r]).key == Key::Uint(r as usize)
            && rows[r].values.len() == headers.len() && forall|j: int|
            0 <= j < headers.len() ==> cell_reads(
                ops,
                field(text, headers[j], r + 1),
                datatypes[j],
                #[trigger] rows[r].values[j],
            )
}

/// The text that stands for a missing value.
pub open spec fn na_text() -> Seq<char> {
    seq!['N', '/', 'A']
}

/// The text of a key: a number in base ten, a text as it is.
pub open spec fn key_text(k: Key) -> Seq<char> {
    match k {
        Key::Uint(n) => decimal(n as nat),
        Key::Str(s) => s,
    }
}

/// Whether `s` is the text that a value is written as: an integer in base
/// ten, a text or a character as it is, a missing value as `N/A`; a `Dbl`
/// as the float arithmetic writes it with five digits behind the point.
pub open spec fn value_writes<F: FloatOps>(ops: &F, d: Datum, s: Seq<char>) -> bool {
    match d {
        Datum::Str(v) => s == v,
        Datum::Dbl(b) => exists|out: String|
            #[trigger] call_ensures(F::to_fixed, (ops, b), out) && out@ == s,
        Datum::Uint(v) => s == decimal(v as nat),
        Datum::Int(v) => s == signed_decimal(v as int),
        Datum::Char(c) => s == seq![c],
        Datum::NA => s == na_text(),
    }
}

/// The lines of a delimited text, one behind the other, each ended by a
/// line feed.
pub open spec fn lines_text(lines: Seq<Seq<char>>) -> Seq<char>
    decreases lines.len(),
{
    if lines.len() == 0 {
        Seq::empty()
    } else {
        lines_text(lines.drop_last()) + lines.last().push('\n')
    }
}

/// The line of a row in a delimited text: the text of the key, then the
/// text of each value, with a comma between each two.
pub open spec fn row_line(key: Key, fields: Seq<Seq<char>>) -> Seq<char> {
    join(seq![key_text(key)] + fields, ',')
}

/// The header line of a delimited text: an empty field over the keys, then
/// the labels, with a comma between each two.
pub open spec fn header_line(labels: Seq<Seq<char>>) -> Seq<char> {
    seq![','] + join(labels, ',')
}

/// The lines of the delimited text of a table whose values are written as
/// the texts given: the header line, then the line of each row.
pub open spec fn table_lines(
    labels: Seq<Seq<char>>,
    rows: Seq<Row>,
    fields: Seq<Seq<Seq<char>>>,
) -> Seq<Seq<char>> {
    seq![header_line(labels)] + Seq::new(rows.len(), |i: int| row_line(rows[i].key, fields[i]))
}

/// Whether the texts are such as the values of the rows are written as.
pub open spec fn fields_written<F: FloatOps>(ops: &F, rows: Seq<Row>, fields: Seq<Seq<Seq<char>>>) -> bool {
    &&& fields.len() == rows.len()
    &&& forall|i: int|
        0 <= i < rows.len() ==> (#[trigger] fields[i]).len() == rows[i].values.len() && forall|
            j: int,
        |
            0 <= j < rows[i].values.len() ==> value_writes(
                ops,
                rows[i].values[j],
                #[trigger] fields[i][j],
            )
}

/// Writes the parts given, with a separator between each two, behind the
/// characters written so far.
fn push_joined(out: &mut Vec<char>, parts: &Vec<String>, sep: char)
    ensures
        final(out)@ == old(out)@ + join(labels_of(parts@), sep),
{
    let ghost all = labels_of(parts@);
    let mut i: usize = 0;
    proof {
        assert(all.take(0) =~= Seq::<Seq<char>>::empty());
        assert(old(out)@ + join(all.take(0), sep) =~= old(out)@);
    }
    while i < parts.len()
        invariant
            i <= parts.len(),
            all == labels_of(parts@),
            out@ == old(out)@ + join(all.take(i as int), sep),
        decreases parts.len() - i,
    {
        let ghost before = out@;
        if i > 0 {
            out.push(sep);
        }
        push_str(out, parts[i].as_str());
        proof {
            let grown = all.take(i + 1);
            assert(grown.drop_last() =~= all.take(i as int));
            assert(grown.last() == parts@[i as int]@);
            if i > 0 {
                assert(out@ =~= old(out)@ + join(grown, sep));
            } else {
                assert(grown[0] == parts@[0]@);
                assert(out@ =~= old(out)@ + join(grown, sep));
            }
        }
        i = i + 1;
    }
    proof {
        assert(all.take(i as int) =~= all);
    }
}

/// Tests two texts held as characters for equality.
fn same_chars(a: &Vec<char>, b: &Vec<char>) -> (r: bool)
    ensures
        r == (a@ == b@),
{
    if a.len() != b.len() {
        return false;
    }
    let mut i: usize = 0;
    while i < a.len()
        invariant
            i <= a.len(),
            a.len() == b.len(),
            forall|j: int| 0 <= j < i ==> a@[j] == b@[j],
        decreases a.len() - i,
    {
        if a[i] != b[i] {
            return false;
        }
        i = i + 1;
    }
    proof {
        assert(a@ =~= b@);
    }
    true
}

/// Finds the first place at which a token stands among tokens.
fn find_token(tokens: &Vec<Vec<char>>, t: &Vec<char>) -> (r: Option<usize>)
    ensures
        first_place(texts_of(tokens@), t@) == match r {
            Some(k) => Some(k as int),
            None => None,
        },
        r matches Some(k) ==> k < tokens@.len(),
{
    let ghost all = texts_of(tokens@);
    let mut k: usize = 0;
    proof {
        assert(all.take(0) =~= Seq::<Seq<char>>::empty());
    }
    while k < tokens.len()
        invariant
            k <= tokens.len(),
            all == texts_of(tokens@),
            first_place(all.take(k as int), t@) is None,
        decreases tokens.len() - k,
    {
        proof {
            assert(all.take(k + 1).drop_last() =~= all.take(k as int));
            assert(all.take(k + 1).last() == tokens@[k as int]@);
        }
        if same_chars(&tokens[k], t) {
            proof {
                lemma_first_place_stays(all, t@, k + 1);
            }
            return Some(k);
        }
        k = k + 1;
    }
    proof {
        assert(all.take(k as int) =~= all);
    }
    None
}

proof fn lemma_first_place_stays(tokens: Seq<Seq<char>>, t: Seq<char>, n: int)
    requires
        0 <= n <= tokens.len(),
        first_place(tokens.take(n), t) is Some,
    ensures
        first_place(tokens, t) == first_place(tokens.take(n), t),
    decreases tokens.len() - n,
{
    if n == tokens.len() {
        assert(tokens.take(n) =~= tokens);
    } else {
        assert(tokens.take(n + 1).drop_last() =~= tokens.take(n));
        lemma_first_place_stays(tokens, t, n + 1);
    }
}

/// The tokens of the first line of a text, where it has a line.
pub fn extract_csv_headers(text: &str) -> (r: Option<Vec<String>>)
    ensures
        match r {
            Some(tokens) => header_tokens(text@) == Some(labels_of(tokens@)),
            None => header_tokens(text@) is None,
        },
{
    let lines = split_lines(&chars_of(text));
    if lines.len() == 0 {
        return None;
    }
    assert(lines@[0]@ == lines_of(text@)[0]);
    let tokens = split_chars(&lines[0], ',');
    let mut out: Vec<String> = Vec::new();
    let mut i: usize = 0;
    while i < tokens.len()
        invariant
            i <= tokens.len(),
            out@.len() == i,
            forall|j: int| 0 <= j < i ==> (#[trigger] out@[j])@ == tokens@[j]@,
        decreases tokens.len() - i,
    {
        out.push(string_of(&tokens[i]));
        i = i + 1;
    }
    proof {
        assert(labels_of(out@) =~= texts_of(tokens@));
    }
    Some(out)
}

/// Reads the rows of a delimited text under the headers and kinds given,
/// where the text can be read under the headers.
fn read_csv<F: FloatOps>(
    text: &str,
    headers: &Vec<String>,
    datatypes: &Vec<FlexDataType>,
    ops: &F,
) -> (r: Option<Vec<FlexDataVector>>)
    requires
        headers@.len() == datatypes@.len(),
    ensures
        r is Some == csv_readable(text@, labels_of(headers@)),
        r matches Some(rows) ==> rows_read(
            ops,
            text@,
            labels_of(headers@),
            datatypes@,
            rows_of(rows@),
        ),
{
    let ghost names = labels_of(headers@);
    let chars = remove_char(&chars_of(text), '"');
    let lines = split_lines(&chars);
    let ghost all = csv_lines(text@);
    let raw: Vec<Vec<char>> = if lines.len() > 0 {
        assert(lines@[0]@ == all[0]);
        split_chars(&lines[0], ',')
    } else {
        Vec::new()
    };
    proof {
        assert(texts_of(raw@) =~= raw_headers(text@));
    }
    let ghost tokens = raw_headers(text@);
    proof {
        assert(all == texts_of(lines@));
        assert(all.len() == lines@.len());
    }
    // The place of each header in the header line.
    let mut header_positions: Vec<usize> = Vec::new();
    let mut j: usize = 0;
    while j < headers.len()
        invariant
            j <= headers.len(),
            names == labels_of(headers@),
            tokens == texts_of(raw@),
            tokens == raw_headers(text@),
            header_positions@.len() == j,
            forall|c: int|
                0 <= c < j ==> first_place(tokens, names[c]) == Some(
                    (#[trigger] header_positions@[c]) as int,
                ),
        decreases headers.len() - j,
    {
        let header = chars_of(headers[j].as_str());
        assert(header@ == names[j as int]);
        match find_token(&raw, &header) {
            Some(p) => {
                header_positions.push(p);
            },
            None => {
                assert(!(first_place(raw_headers(text@), names[j as int]) is Some));
                return None;
            },
        }
        j = j + 1;
    }
    // One row for each line behind the header line.
    let mut datavectors: Vec<FlexDataVector> = Vec::new();
    let mut l: usize = 1;
    while l < lines.len()
        invariant
            1 <= l,
            l == 1 || l <= lines@.len(),
            all == texts_of(lines@),
            all == csv_lines(text@),
            all.len() == lines@.len(),
            names == labels_of(headers@),
            tokens == raw_headers(text@),
            headers@.len() == datatypes@.len(),
            header_positions@.len() == headers@.len(),
            forall|c: int|
                0 <= c < headers@.len() ==> first_place(tokens, names[c]) == Some(
                    (#[trigger] header_positions@[c]) as int,
                ),
            datavectors@.len() == l - 1,
            forall|a: int, c: int|
                1 <= a < l && 0 <= c < names.len() ==> first_place(tokens, #[trigger] names[c])->0 < (
                #[trigger] split(all[a], ',')).len(),
            forall|r: int|
                0 <= r < l - 1 ==> (#[trigger] datavectors@[r])@.key == Key::Uint(r as usize)
                    && datavectors@[r]@.values.len() == names.len() && forall|c: int|
                    0 <= c < names.len() ==> cell_reads(
                        ops,
                        field(text@, names[c], r + 1),
                        datatypes@[c],
                        #[trigger] datavectors@[r]@.values[c],
                    ),
        decreases lines.len() - l,
    {
        assert(lines@[l as int]@ == all[l as int]);
        let fields = split_chars(&lines[l], ',');
        let mut data: Vec<FlexData> = Vec::new();
        let mut c: usize = 0;
        while c < headers.len()
            invariant
                c <= headers.len(),
                1 <= l < lines@.len(),
                all == csv_lines(text@),
                all.len() == lines@.len(),
                texts_of(fields@) == split(all[l as int], ','),
                names == labels_of(headers@),
                tokens == raw_headers(text@),
                headers@.len() == datatypes@.len(),
                header_positions@.len() == headers@.len(),
                forall|d: int|
                    0 <= d < headers@.len() ==> first_place(tokens, names[d]) == Some(
                        (#[trigger] header_positions@[d]) as int,
                    ),
                data@.len() == c,
                forall|d: int|
                    0 <= d < c ==> first_place(tokens, #[trigger] names[d])->0 < split(
                        all[l as int],
                        ',',
                    ).len(),
                forall|d: int|
                    0 <= d < c ==> cell_reads(
                        ops,
                        field(text@, names[d], l as int),
                        datatypes@[d],
                        (#[trigger] data@[d])@,
                    ),
            decreases headers.len() - c,
        {
            let k = header_positions[c];
            assert(first_place(tokens, names[c as int]) == Some(k as int));
            if k >= fields.len() {
                proof {
                    assert(texts_of(fields@).len() == fields@.len());
                    assert(!(first_place(raw_headers(text@), names[c as int])->0 < split(
                        csv_lines(text@)[l as int],
                        ',',
                    ).len()));
                }
                return None;
            }
            let token = string_of(&fields[k]);
            proof {
                assert(texts_of(fields@)[k as int] == fields@[k as int]@);
                assert(token@ == field(text@, names[c as int], l as int));
            }
            let value = generate_flexdata_from_str(token.as_str(), &datatypes[c], ops);
            let cell = match datatypes[c] {
                FlexDataType::NA => FlexData::NA,
                _ => value,
            };
            data.push(cell);
            c = c + 1;
        }
        let row = FlexDataVector::new(FlexIndex::Uint(l - 1), data);
        proof {
            assert forall|a: int, d: int| 1 <= a < l + 1 && 0 <= d < names.len() implies first_place(
                tokens,
                #[trigger] names[d],
            )->0 < (#[trigger] split(all[a], ',')).len() by {}
            assert(row@.values =~= views(data@));
            assert forall|d: int| 0 <= d < names.len() implies cell_reads(
                ops,
                field(text@, names[d], (l - 1) + 1),
                datatypes@[d],
                #[trigger] row@.values[d],
            ) by {
                assert(row@.values[d] == data@[d]@);
            }
        }
        datavectors.push(row);
        l = l + 1;
    }
    proof {
        let rows = rows_of(datavectors@);
        assert forall|c: int| 0 <= c < names.len() implies first_place(
            raw_headers(text@),
            #[trigger] names[c],
        ) is Some by {
            let p = header_positions@[c];
        }
        assert(csv_readable(text@, names));
        assert forall|r: int| 0 <= r < rows.len() implies (#[trigger] rows[r]).key == Key::Uint(
            r as usize,
        ) && rows[r].values.len() == names.len() && forall|c: int|
            0 <= c < names.len() ==> cell_reads(
                ops,
                field(text@, names[c], r + 1),
                datatypes@[c],
                #[trigger] rows[r].values[c],
            ) by {
            assert(rows[r] == datavectors@[r]@);
        }
        assert(rows.len() == datavectors@.len());
        assert(rows.len() == (if csv_lines(text@).len() > 0 {
            csv_lines(text@).len() - 1
        } else {
            0
        }));
        assert(rows_read(ops, text@, names, datatypes@, rows));
    }
    Some(datavectors)
}

impl FlexTable {
    /// The table as a delimited text: a header line, which leaves the field
    /// over the keys empty and names the columns, then one line for each row.
    pub fn to_csv<F: FloatOps>(&self, ops: &F) -> (r: String)
        ensures
            exists|fields: Seq<Seq<Seq<char>>>|
                #[trigger] fields_written(ops, self@.rows, fields) && r@ == lines_text(
                    table_lines(self@.labels, self@.rows, fields),
                ),
    {
        let mut out: Vec<char> = Vec::new();
        out.push(',');
        push_joined(&mut out, self.get_labels(), ',');
        out.push('\n');
        let ghost mut fields: Seq<Seq<Seq<char>>> = Seq::empty();
        let ghost rows = self@.rows;
        let ghost labels = self@.labels;
        let mut i: usize = 0;
        proof {
            let lines = table_lines(labels, rows.take(0), fields);
            assert(lines =~= seq![header_line(labels)]);
            assert(lines.drop_last() =~= Seq::<Seq<char>>::empty());
            assert(lines.last() == header_line(labels));
            assert(lines_text(lines.drop_last()) =~= Seq::<char>::empty());
            assert(lines_text(lines) =~= header_line(labels).push('\n'));
            assert(out@ =~= lines_text(lines));
        }
        while i < self.num_records()
            invariant
                i <= self@.rows.len(),
                rows == self@.rows,
                labels == self@.labels,
                fields_written(ops, rows.take(i as int), fields),
                out@ == lines_text(table_lines(labels, rows.take(i as int), fields)),
            decreases self@.rows.len() - i,
        {
            let ghost before = out@;
            let ghost old_fields = fields;
            let record = &self[i];
            let mut row: Vec<String> = Vec::new();
            let cell = match record.get_index() {
                FlexIndex::Uint(val) => unsigned_to_string(*val as u64),
                FlexIndex::Str(val) => val.clone(),
            };
            row.push(cell);
            let values = record.get_data();
            let mut j: usize = 0;
            while j < values.len()
                invariant
                    j <= values.len(),
                    views(values@) == rows[i as int].values,
                    i < rows.len(),
                    row@.len() == j + 1,
                    row@[0]@ == key_text(rows[i as int].key),
                    forall|c: int|
                        0 <= c < j ==> value_writes(ops, rows[i as int].values[c], (#[trigger] row@[c + 1])@),
                decreases values.len() - j,
            {
                assert(values@[j as int]@ == rows[i as int].values[j as int]);
                let ghost old_row = row@;
                let cell = match &values[j] {
                    FlexData::Str(val) => val.clone(),
                    FlexData::Dbl(val) => ops.to_fixed(*val),
                    FlexData::Uint(val) => unsigned_to_string(*val as u64),
                    FlexData::Int(val) => signed_to_string(*val as i64),
                    FlexData::Char(val) => {
                        let mut s = String::new();
                        s.push(*val);
                        proof {
                            assert(s@ =~= seq![*val]);
                        }
                        s
                    },
                    FlexData::NA => {
                        let mut s = String::new();
                        s.push('N');
                        s.push('/');
                        s.push('A');
                        proof {
                            assert(s@ =~= na_text());
                        }
                        s
                    },
                };
                row.push(cell);
                proof {
                    assert forall|c: int| 0 <= c < j + 1 implies value_writes(
                        ops,
                        rows[i as int].values[c],
                        (#[trigger] row@[c + 1])@,
                    ) by {
                        if c < j {
                            assert(row@[c + 1] == old_row[c + 1]);
                        }
                    }
                }
                j = j + 1;
            }
            push_joined(&mut out, &row, ',');
            out.push('\n');
            proof {
                let texts = Seq::new(values@.len(), |c: int| row@[c + 1]@);
                fields = fields.push(texts);
                assert(labels_of(row@) =~= seq![key_text(rows[i as int].key)] + texts);
                let part = rows.take(i as int);
                let grown = rows.take(i + 1);
                assert(grown.drop_last() =~= part);
                assert forall|a: int| 0 <= a < grown.len() implies (#[trigger] fields[a]).len()
                    == grown[a].values.len() && forall|c: int|
                    0 <= c < grown[a].values.len() ==> value_writes(
                        ops,
                        grown[a].values[c],
                        #[trigger] fields[a][c],
                    ) by {
                    if a < i {
                        assert(fields[a] == old_fields[a]);
                        assert(grown[a] == part[a]);
                    } else {
                        assert forall|c: int| 0 <= c < grown[a].values.len() implies value_writes(
                            ops,
                            grown[a].values[c],
                            #[trigger] fields[a][c],
                        ) by {
                            assert(fields[a][c] == row@[c + 1]@);
                        }
                    }
                }
                let lines = table_lines(labels, grown, fields);
                let earlier = table_lines(labels, part, old_fields);
                assert(lines.drop_last() =~= earlier) by {
                    assert forall|a: int| 0 <= a < earlier.len() implies lines.drop_last()[a]
                        == earlier[a] by {
                        if a > 0 {
                            assert(fields[a - 1] == old_fields[a - 1]);
                            assert(grown[a - 1] == part[a - 1]);
                        }
                    }
                }
                assert(lines.last() == row_line(rows[i as int].key, texts));
                assert(out@ =~= lines_text(lines));
            }
            i = i + 1;
        }
        proof {
            assert(rows.take(i as int) =~= rows);
        }
        string_of(&out)
    }

    /// The table that a delimited text holds under the headers and kinds
    /// given. Its first line names the columns; each line behind it gives a
    /// row, under the number of the row, counted from nought. A field that
    /// does not read as the kind of its column gives a missing value.
    pub fn from_csv<F: FloatOps>(
        text: &str,
        headers: Vec<String>,
        datatypes: Vec<FlexDataType>,
        ops: &F,
    ) -> (r: Self)
        requires
            headers@.len() == datatypes@.len(),
            csv_readable(text@, labels_of(headers@)),
        ensures
            r.wf(),
            r@.labels == labels_of(headers@),
            r@.datatypes == datatypes@,
            rows_read(ops, text@, labels_of(headers@), datatypes@, r@.rows),
    {
        let rows = read_csv(text, &headers, &datatypes, ops).unwrap();
        Self::from_rows_read(ops, text, headers, datatypes, rows)
    }

    /// The table that a delimited text holds under the headers and kinds
    /// given, where there are as many kinds as headers and the text can be
    /// read under the headers; else nothing.
    pub fn try_from_csv<F: FloatOps>(
        text: &str,
        headers: Vec<String>,
        datatypes: Vec<FlexDataType>,
        ops: &F,
    ) -> (r: Option<Self>)
        ensures
            r is Some == (headers@.len() == datatypes@.len() && csv_readable(
                text@,
                labels_of(headers@),
            )),
            r matches Some(table) ==> table.wf() && table@.labels == labels_of(headers@)
                && table@.datatypes == datatypes@ && rows_read(
                ops,
                text@,
                labels_of(headers@),
                datatypes@,
                table@.rows,
            ),
    {
        if headers.len() != datatypes.len() {
            return None;
        }
        match read_csv(text, &headers, &datatypes, ops) {
            Some(rows) => Some(Self::from_rows_read(ops, text, headers, datatypes, rows)),
            None => None,
        }
    }

    fn from_rows_read<F: FloatOps>(
        ops: &F,
        text: &str,
        headers: Vec<String>,
        datatypes: Vec<FlexDataType>,
        rows: Vec<FlexDataVector>,
    ) -> (r: Self)
        requires
            headers@.len() == datatypes@.len(),
            rows_read(ops, text@, labels_of(headers@), datatypes@, rows_of(rows@)),
        ensures
            r.wf(),
            r@.labels == labels_of(headers@),
            r@.datatypes == datatypes@,
            r@.rows == rows_of(rows@),
    {
        let count = rows.len();
        proof {
            let all = rows_of(rows@);
            assert(all.len() == count);
            assert forall|a: int, b: int| 0 <= a < all.len() && 0 <= b < all.len() && a != b implies (
            #[trigger] all[a]).key != (#[trigger] all[b]).key by {
                assert(all[a].key == Key::Uint(a as usize));
                assert(all[b].key == Key::Uint(b as usize));
            }
            assert forall|a: int| 0 <= a < all.len() implies (#[trigger] all[a]).values.len()
                == datatypes@.len() && forall|c: int|
                0 <= c < datatypes@.len() ==> (#[trigger] all[a].values[c]).fits(datatypes@[c]) by {
                assert forall|c: int| 0 <= c < datatypes@.len() implies (
                #[trigger] all[a].values[c]).fits(datatypes@[c]) by {
                    assert(cell_reads(
                        ops,
                        field(text@, labels_of(headers@)[c], a + 1),
                        datatypes@[c],
                        all[a].values[c],
                    ));
                }
            }
        }
        Self::from_typed(headers, datatypes, rows)
    }
}

} // verus!
