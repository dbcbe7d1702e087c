//! The law of delimited text: a table written and read again is the table.

use vstd::prelude::*;
use crate::csv::{
    cell_reads, csv_lines, csv_readable, field, fields_written, first_place, header_line,
    header_tokens, key_text, lines_text, na_text, raw_headers, row_line, rows_read, table_lines,
    value_writes,
};
use crate::flexdata::{Datum, FlexDataType};
use crate::flexdatavector::Row;
use crate::flextable::rows_fit;
use crate::float::FloatOps;
use crate::text::{
    all_digits, decimal, digit_char, digit_value, digits_value, is_digit, join, lemma_split_len,
    lines_of, signed_decimal, spells_i32, spells_u32, split, strip_cr, without,
};

verus! {

/// Whether a text holds the character.
pub open spec fn holds(s: Seq<char>, c: char) -> bool {
    exists|i: int| 0 <= i < s.len() && s[i] == c
}

/// Whether a text can stand as a field of a delimited text: it holds no
/// comma, no line feed, no carriage return and no quotation mark.
pub open spec fn plain(s: Seq<char>) -> bool {
    !holds(s, ',') && !holds(s, '\n') && !holds(s, '\r') && !holds(s, '"')
}

/// A text that does not hold a character is itself without it.
pub proof fn lemma_without_absent(s: Seq<char>, c: char)
    requires
        !holds(s, c),
    ensures
        without(s, c) == s,
    decreases s.len(),
{
    if s.len() > 0 {
        assert(s[s.len() - 1] != c);
        assert forall|i: int| 0 <= i < s.drop_last().len() implies s.drop_last()[i] != c by {
            assert(s[i] != c);
        }
        lemma_without_absent(s.drop_last(), c);
        assert(s.drop_last().push(s.last()) =~= s);
    } else {
        assert(s =~= Seq::<char>::empty());
    }
}

/// A text behind which stands a text without separators has the parts that
/// it had, the last of them longer by what stands behind.
pub proof fn lemma_split_append(s: Seq<char>, t: Seq<char>, sep: char)
    requires
        !holds(t, sep),
    ensures
        split(s + t, sep) == split(s, sep).drop_last().push(split(s, sep).last() + t),
    decreases t.len(),
{
    lemma_split_len(s, sep);
    let parts = split(s, sep);
    if t.len() == 0 {
        assert(s + t =~= s);
        assert(parts.last() + t =~= parts.last());
        assert(parts.drop_last().push(parts.last()) =~= parts);
    } else {
        let front = t.drop_last();
        assert forall|i: int| 0 <= i < front.len() implies front[i] != sep by {
            assert(t[i] != sep);
        }
        lemma_split_append(s, front, sep);
        assert((s + t).drop_last() =~= s + front);
        assert((s + t).last() == t.last());
        assert(t[t.len() - 1] != sep);
        let before = split(s + front, sep);
        assert(before.drop_last() =~= parts.drop_last());
        assert((parts.last() + front).push(t.last()) =~= parts.last() + t);
    }
}

/// Behind a separator the parts of a text follow an empty part.
pub proof fn lemma_split_prefix(t: Seq<char>, sep: char)
    ensures
        split(seq![sep] + t, sep) == seq![Seq::<char>::empty()] + split(t, sep),
    decreases t.len(),
{
    let empty = Seq::<char>::empty();
    if t.len() == 0 {
        assert(seq![sep] + t =~= empty.push(sep));
        assert(empty.push(sep).drop_last() =~= empty);
        assert(split(empty, sep) =~= seq![empty]);
        assert(split(empty.push(sep), sep) =~= seq![empty].push(empty));
        assert(seq![empty].push(empty) =~= seq![empty] + split(t, sep));
    } else {
        lemma_split_prefix(t.drop_last(), sep);
        lemma_split_len(t.drop_last(), sep);
        assert((seq![sep] + t).drop_last() =~= seq![sep] + t.drop_last());
        assert((seq![sep] + t).last() == t.last());
        let inner = split(t.drop_last(), sep);
        let shifted = seq![empty] + inner;
        if t.last() == sep {
            assert(shifted.push(empty) =~= seq![empty] + inner.push(empty));
        } else {
            assert(shifted.drop_last() =~= seq![empty] + inner.drop_last());
            assert(shifted.last() == inner.last());
            assert((seq![empty] + inner.drop_last()).push(inner.last().push(t.last())) =~= seq![
                empty,
            ] + inner.drop_last().push(inner.last().push(t.last())));
        }
    }
}

/// Parts without separators, put together and split again, are the parts.
pub proof fn lemma_split_join(parts: Seq<Seq<char>>, sep: char)
    requires
        parts.len() >= 1,
        forall|i: int| 0 <= i < parts.len() ==> !holds(#[trigger] parts[i], sep),
    ensures
        split(join(parts, sep), sep) == parts,
    decreases parts.len(),
{
    let empty = Seq::<char>::empty();
    if parts.len() == 1 {
        assert(split(empty, sep) =~= seq![empty]);
        lemma_split_append(empty, parts[0], sep);
        assert(empty + parts[0] =~= parts[0]);
        assert(seq![empty].drop_last().push(seq![empty].last() + parts[0]) =~= parts);
    } else {
        let front = parts.drop_last();
        assert forall|i: int| 0 <= i < front.len() implies !holds(#[trigger] front[i], sep) by {
            assert(front[i] == parts[i]);
        }
        lemma_split_join(front, sep);
        let head = join(front, sep).push(sep);
        assert(head.drop_last() =~= join(front, sep));
        assert(split(head, sep) == front.push(empty));
        lemma_split_append(head, parts.last(), sep);
        assert(front.push(empty).drop_last() =~= front);
        assert(empty + parts.last() =~= parts.last());
        assert(front.push(parts.last()) =~= parts);
    }
}

/// Lines without line feeds, each ended by one, split at the line feeds
/// into the lines and an empty part behind them.
pub proof fn lemma_split_lines_text(lines: Seq<Seq<char>>)
    requires
        forall|i: int| 0 <= i < lines.len() ==> !holds(#[trigger] lines[i], '\n'),
    ensures
        split(lines_text(lines), '\n') == lines.push(Seq::<char>::empty()),
    decreases lines.len(),
{
    let empty = Seq::<char>::empty();
    if lines.len() == 0 {
        assert(split(empty, '\n') =~= seq![empty]);
        assert(lines.push(empty) =~= seq![empty]);
    } else {
        let front = lines.drop_last();
        assert forall|i: int| 0 <= i < front.len() implies !holds(#[trigger] front[i], '\n') by {
            assert(front[i] == lines[i]);
        }
        lemma_split_lines_text(front);
        let head = lines_text(front);
        lemma_split_append(head, lines.last(), '\n');
        let body = head + lines.last();
        assert(front.push(empty).drop_last() =~= front);
        assert(empty + lines.last() =~= lines.last());
        assert(split(body, '\n') == front.push(lines.last()));
        assert(front.push(lines.last()) =~= lines);
        assert(lines_text(lines) =~= body.push('\n'));
        assert(body.push('\n').drop_last() =~= body);
    }
}

/// Lines without line feeds and carriage returns, each ended by a line
/// feed, are the lines of their text.
pub proof fn lemma_lines_of_lines_text(lines: Seq<Seq<char>>)
    requires
        forall|i: int|
            0 <= i < lines.len() ==> !holds(#[trigger] lines[i], '\n') && !holds(lines[i], '\r'),
    ensures
        lines_of(lines_text(lines)) == lines,
{
    lemma_split_lines_text(lines);
    let parts = split(lines_text(lines), '\n');
    assert(parts.last().len() == 0);
    assert forall|i: int| 0 <= i < lines.len() implies lines_of(lines_text(lines))[i]
        == lines[i] by {
        assert(parts[i] == lines[i]);
        if lines[i].len() > 0 && lines[i].last() == '\r' {
            assert(lines[i][lines[i].len() - 1] == '\r');
        }
        assert(strip_cr(lines[i]) == lines[i]);
    }
    assert(lines_of(lines_text(lines)) =~= lines);
}

/// Texts without a character, put together with a separator that is
/// another character, are without it.
pub proof fn lemma_join_without(parts: Seq<Seq<char>>, sep: char, c: char)
    requires
        sep != c,
        forall|i: int| 0 <= i < parts.len() ==> !holds(#[trigger] parts[i], c),
    ensures
        !holds(join(parts, sep), c),
    decreases parts.len(),
{
    if parts.len() == 1 {
    } else if parts.len() > 1 {
        let front = parts.drop_last();
        assert forall|i: int| 0 <= i < front.len() implies !holds(#[trigger] front[i], c) by {
            assert(front[i] == parts[i]);
        }
        lemma_join_without(front, sep, c);
        let whole = join(parts, sep);
        let head = join(front, sep);
        if holds(whole, c) {
            let i = choose|i: int| 0 <= i < whole.len() && whole[i] == c;
            if i < head.len() {
                assert(head[i] == c);
            } else if i > head.len() {
                assert(parts.last()[i - head.len() - 1] == c);
            }
        }
    }
}

/// Lines without a character other than the line feed, each ended by a
/// line feed, make a text without it.
pub proof fn lemma_lines_text_without(lines: Seq<Seq<char>>, c: char)
    requires
        c != '\n',
        forall|i: int| 0 <= i < lines.len() ==> !holds(#[trigger] lines[i], c),
    ensures
        !holds(lines_text(lines), c),
    decreases lines.len(),
{
    if lines.len() > 0 {
        let front = lines.drop_last();
        assert forall|i: int| 0 <= i < front.len() implies !holds(#[trigger] front[i], c) by {
            assert(front[i] == lines[i]);
        }
        lemma_lines_text_without(front, c);
        let whole = lines_text(lines);
        let head = lines_text(front);
        if holds(whole, c) {
            let i = choose|i: int| 0 <= i < whole.len() && whole[i] == c;
            if i < head.len() {
                assert(head[i] == c);
            } else if i < head.len() + lines.last().len() {
                assert(lines.last()[i - head.len()] == c);
            }
        }
    }
}

/// A token that stands once among tokens stands first where it stands.
pub proof fn lemma_first_place_unique(tokens: Seq<Seq<char>>, k: int)
    requires
        0 <= k < tokens.len(),
        forall|i: int| 0 <= i < tokens.len() && i != k ==> #[trigger] tokens[i] != tokens[k],
    ensures
        first_place(tokens, tokens[k]) == Some(k),
    decreases tokens.len(),
{
    let front = tokens.drop_last();
    if k == tokens.len() - 1 {
        lemma_first_place_absent(front, tokens[k]);
    } else {
        assert(front[k] == tokens[k]);
        assert forall|i: int| 0 <= i < front.len() && i != k implies #[trigger] front[i]
            != front[k] by {
            assert(front[i] == tokens[i]);
        }
        lemma_first_place_unique(front, k);
    }
}

/// A token that stands nowhere among tokens has no first place there.
pub proof fn lemma_first_place_absent(tokens: Seq<Seq<char>>, t: Seq<char>)
    requires
        forall|i: int| 0 <= i < tokens.len() ==> #[trigger] tokens[i] != t,
    ensures
        first_place(tokens, t) is None,
    decreases tokens.len(),
{
    if tokens.len() > 0 {
        let front = tokens.drop_last();
        assert forall|i: int| 0 <= i < front.len() implies #[trigger] front[i] != t by {
            assert(front[i] == tokens[i]);
        }
        lemma_first_place_absent(front, t);
        assert(tokens[tokens.len() - 1] != t);
    }
}

/// A number written in base ten is one digit or more, and they write it.
pub proof fn lemma_decimal(n: nat)
    ensures
        decimal(n).len() >= 1,
        all_digits(decimal(n)),
        digits_value(decimal(n)) == n,
    decreases n,
{
    if n < 10 {
        let s = decimal(n);
        assert(s.drop_last() =~= Seq::<char>::empty());
        assert(digits_value(s.drop_last()) == 0);
        assert(s.last() == digit_char(n as int));
        assert(is_digit(digit_char(n as int)));
        assert(digit_value(digit_char(n as int)) == n);
        assert(digits_value(s) == n);
    } else {
        lemma_decimal(n / 10);
        let front = decimal(n / 10);
        let s = decimal(n);
        let d = digit_char((n % 10) as int);
        assert(s.drop_last() =~= front);
        assert(s.last() == d);
        assert(is_digit(d));
        assert(digit_value(d) == n % 10);
        assert(digits_value(s) == 10 * digits_value(front) + digit_value(d));
        assert forall|i: int| 0 <= i < s.len() implies is_digit(#[trigger] s[i]) by {
            if i < front.len() {
                assert(s[i] == front[i]);
            }
        }
    }
}

/// An unsigned integer written in base ten reads as itself.
pub proof fn lemma_spells_u32(v: u32)
    ensures
        spells_u32(decimal(v as nat)) == Some(v),
{
    lemma_decimal(v as nat);
    let s = decimal(v as nat);
    assert(is_digit(s[0]));
}

/// A signed integer written in base ten reads as itself.
pub proof fn lemma_spells_i32(v: i32)
    ensures
        spells_i32(signed_decimal(v as int)) == Some(v),
{
    if v < 0 {
        let body = decimal((-v) as nat);
        lemma_decimal((-v) as nat);
        let s = signed_decimal(v as int);
        assert(s[0] == '-');
        assert(s.skip(1) =~= body);
    } else {
        lemma_decimal(v as nat);
        let s = decimal(v as nat);
        assert(is_digit(s[0]));
    }
}

/// A value of a kind, written as a plain field and read again under that
/// kind, is the value; but where the kind is `Dbl`, which the float
/// arithmetic writes and reads, and where a text is missing, whose place
/// the text `N/A` takes.
pub proof fn lemma_written_then_read<F: FloatOps>(
    ops: &F,
    v: Datum,
    t: FlexDataType,
    text: Seq<char>,
    r: Datum,
)
    requires
        v.fits(t),
        t != FlexDataType::Dbl,
        !(t == FlexDataType::Str && v is NA),
        value_writes(ops, v, text),
        cell_reads(ops, text, t, r),
    ensures
        r == v,
{
    match v {
        Datum::Uint(x) => {
            lemma_spells_u32(x);
        },
        Datum::Int(x) => {
            lemma_spells_i32(x);
        },
        Datum::NA => {
            let s = na_text();
            assert(s[0] == 'N');
            assert(!is_digit(s[0]));
            assert(s.len() == 3);
            if s.len() > 0 && s[0] == '+' {
            }
            assert(!all_digits(s));
        },
        _ => {},
    }
}

/// A table written as delimited text and read again under its labels and
/// kinds gives, in every column but those of the kind `Dbl`, the values that
/// it held, and in every column what the field written reads as. The labels
/// must be plain, not empty and all different, the keys and the fields must
/// be plain, and no text may be missing.
pub proof fn law_export_import<F: FloatOps>(
    ops: &F,
    labels: Seq<Seq<char>>,
    datatypes: Seq<FlexDataType>,
    rows: Seq<Row>,
    fields: Seq<Seq<Seq<char>>>,
    read: Seq<Row>,
)
    requires
        labels.len() == datatypes.len(),
        rows_fit(rows, datatypes),
        fields_written(ops, rows, fields),
        labels.no_duplicates(),
        forall|j: int| 0 <= j < labels.len() ==> plain(#[trigger] labels[j]) && labels[j].len() > 0,
        forall|i: int| 0 <= i < rows.len() ==> plain(key_text((#[trigger] rows[i]).key)),
        forall|i: int, j: int|
            0 <= i < rows.len() && 0 <= j < labels.len() ==> plain(#[trigger] fields[i][j]),
        forall|i: int, j: int|
            0 <= i < rows.len() && 0 <= j < labels.len() && datatypes[j] == FlexDataType::Str ==> !(
            #[trigger] rows[i].values[j] is NA),
        rows_read(ops, lines_text(table_lines(labels, rows, fields)), labels, datatypes, read),
    ensures
        csv_readable(lines_text(table_lines(labels, rows, fields)), labels),
        read.len() == rows.len(),
        forall|i: int, j: int|
            0 <= i < rows.len() && 0 <= j < labels.len() && datatypes[j] != FlexDataType::Dbl
                ==> #[trigger] read[i].values[j] == rows[i].values[j],
        forall|i: int, j: int|
            0 <= i < rows.len() && 0 <= j < labels.len() ==> cell_reads(
                ops,
                fields[i][j],
                datatypes[j],
                #[trigger] read[i].values[j],
            ),
{
    let lines = table_lines(labels, rows, fields);
    let text = lines_text(lines);
    let empty = Seq::<char>::empty();
    // The parts of each line.
    assert forall|l: int| 0 <= l < lines.len() implies !holds(#[trigger] lines[l], '\n') && !holds(
        lines[l],
        '\r',
    ) && !holds(lines[l], '"') by {
        lemma_line_plain(labels, rows, fields, l);
    }
    lemma_lines_text_without(lines, '"');
    lemma_without_absent(text, '"');
    lemma_lines_of_lines_text(lines);
    assert(csv_lines(text) == lines);
    assert(lines[0] == header_line(labels));
    assert(header_tokens(text) == Some(split(lines[0], ',')));
    // The header line: an empty token, then the labels.
    let raw = raw_headers(text);
    lemma_split_prefix(join(labels, ','), ',');
    if labels.len() >= 1 {
        assert forall|j: int| 0 <= j < labels.len() implies !holds(#[trigger] labels[j], ',') by {}
        lemma_split_join(labels, ',');
        assert(raw == seq![empty] + labels);
    }
    assert forall|j: int| 0 <= j < labels.len() implies first_place(raw, #[trigger] labels[j])
        == Some(j + 1) by {
        let tokens = seq![empty] + labels;
        assert(tokens[j + 1] == labels[j]);
        assert forall|i: int| 0 <= i < tokens.len() && i != j + 1 implies #[trigger] tokens[i]
            != tokens[j + 1] by {
            if i == 0 {
                assert(tokens[0].len() == 0);
            } else {
                assert(tokens[i] == labels[i - 1]);
            }
        }
        lemma_first_place_unique(tokens, j + 1);
    }
    // The line of each row: the text of the key, then the fields.
    assert forall|l: int| 1 <= l < lines.len() implies #[trigger] split(lines[l], ',') == seq![
        key_text(rows[l - 1].key),
    ] + fields[l - 1] by {
        let parts = seq![key_text(rows[l - 1].key)] + fields[l - 1];
        assert(lines[l] == row_line(rows[l - 1].key, fields[l - 1]));
        assert(rows[l - 1].values.len() == datatypes.len());
        assert forall|c: int| 0 <= c < parts.len() implies !holds(#[trigger] parts[c], ',') by {
            if c > 0 {
                assert(parts[c] == fields[l - 1][c - 1]);
                assert(plain(fields[l - 1][c - 1]));
            }
        }
        lemma_split_join(parts, ',');
    }
    assert forall|l: int, j: int| 1 <= l < csv_lines(text).len() && 0 <= j < labels.len() implies first_place(
        raw_headers(text),
        #[trigger] labels[j],
    )->0 < (#[trigger] split(csv_lines(text)[l], ',')).len() by {
        assert(rows[l - 1].values.len() == datatypes.len());
        assert(fields[l - 1].len() == labels.len());
    }
    assert(csv_readable(text, labels));
    assert(read.len() == rows.len());
    assert forall|i: int, j: int|
        0 <= i < rows.len() && 0 <= j < labels.len() && datatypes[j]
            != FlexDataType::Dbl implies #[trigger] read[i].values[j] == rows[i].values[j] by {
        assert(rows[i].values.len() == datatypes.len());
        assert(fields[i].len() == labels.len());
        let parts = split(lines[i + 1], ',');
        assert(parts == seq![key_text(rows[i].key)] + fields[i]);
        assert(field(text, labels[j], i + 1) == parts[j + 1]);
        assert(parts[j + 1] == fields[i][j]);
        assert(cell_reads(ops, field(text, labels[j], i + 1), datatypes[j], read[i].values[j]));
        assert(rows[i].values[j].fits(datatypes[j]));
        assert(value_writes(ops, rows[i].values[j], fields[i][j]));
        lemma_written_then_read(
            ops,
            rows[i].values[j],
            datatypes[j],
            fields[i][j],
            read[i].values[j],
        );
    }
    assert forall|i: int, j: int| 0 <= i < rows.len() && 0 <= j < labels.len() implies cell_reads(
        ops,
        fields[i][j],
        datatypes[j],
        #[trigger] read[i].values[j],
    ) by {
        assert(rows[i].values.len() == datatypes.len());
        assert(fields[i].len() == labels.len());
        let parts = split(lines[i + 1], ',');
        assert(parts == seq![key_text(rows[i].key)] + fields[i]);
        assert(field(text, labels[j], i + 1) == parts[j + 1]);
        assert(parts[j + 1] == fields[i][j]);
        assert(cell_reads(ops, field(text, labels[j], i + 1), datatypes[j], read[i].values[j]));
    }
}

/// A line of a table with plain labels, keys and fields holds no line feed,
/// no carriage return and no quotation mark.
pub proof fn lemma_line_plain(
    labels: Seq<Seq<char>>,
    rows: Seq<Row>,
    fields: Seq<Seq<Seq<char>>>,
    l: int,
)
    requires
        0 <= l < table_lines(labels, rows, fields).len(),
        fields.len() == rows.len(),
        forall|j: int| 0 <= j < labels.len() ==> plain(#[trigger] labels[j]),
        forall|i: int| 0 <= i < rows.len() ==> plain(key_text((#[trigger] rows[i]).key)),
        forall|i: int, j: int|
            0 <= i < rows.len() && 0 <= j < fields[i].len() ==> plain(#[trigger] fields[i][j]),
    ensures
        !holds(table_lines(labels, rows, fields)[l], '\n'),
        !holds(table_lines(labels, rows, fields)[l], '\r'),
        !holds(table_lines(labels, rows, fields)[l], '"'),
{
    let line = table_lines(labels, rows, fields)[l];
    if l == 0 {
        assert(line == header_line(labels));
        let body = join(labels, ',');
        lemma_join_without(labels, ',', '\n');
        lemma_join_without(labels, ',', '\r');
        lemma_join_without(labels, ',', '"');
        assert forall|c: char| c != ',' && holds(line, c) implies holds(body, c) by {
            let i = choose|i: int| 0 <= i < line.len() && line[i] == c;
            assert(body[i - 1] == c);
        }
    } else {
        let parts = seq![key_text(rows[l - 1].key)] + fields[l - 1];
        assert(line == join(parts, ','));
        assert forall|c: int| 0 <= c < parts.len() implies plain(#[trigger] parts[c]) by {
            if c > 0 {
                assert(parts[c] == fields[l - 1][c - 1]);
            }
        }
        lemma_join_without(parts, ',', '\n');
        lemma_join_without(parts, ',', '\r');
        lemma_join_without(parts, ',', '"');
    }
}

} // verus!
