//! Splitting delimited text into fields, and gathering parsed rows into one
//! row-major table.
use vstd::prelude::*;

verus! {

/// The pieces of `text` between occurrences of `separator`, as `str::split`
/// gives them: always at least one piece, empty pieces kept.
pub open spec fn split(text: Seq<u8>, separator: u8) -> Seq<Seq<u8>>
    decreases text.len(),
{
    if text.len() == 0 {
        seq![Seq::<u8>::empty()]
    } else {
        let before = split(text.drop_last(), separator);
        if text.last() == separator {
            before.push(Seq::<u8>::empty())
        } else {
            before.update(before.len() - 1, before.last().push(text.last()))
        }
    }
}

/// The pieces written one after the other with `separator` between them.
pub open spec fn join(pieces: Seq<Seq<u8>>, separator: u8) -> Seq<u8>
    decreases pieces.len(),
{
    if pieces.len() <= 1 {
        if pieces.len() == 0 {
            Seq::<u8>::empty()
        } else {
            pieces[0]
        }
    } else {
        join(pieces.drop_last(), separator) + seq![separator] + pieces.last()
    }
}

/// `split` never gives an empty list of pieces.
proof fn lemma_split_nonempty(text: Seq<u8>, separator: u8)
    ensures
        split(text, separator).len() >= 1,
    decreases text.len(),
{
    if text.len() > 0 {
        lemma_split_nonempty(text.drop_last(), separator);
    }
}

/// Splitting and joining again gives back the text, and no piece holds the
/// separator.
pub proof fn lemma_split_join(text: Seq<u8>, separator: u8)
    ensures
        join(split(text, separator), separator) == text,
        forall|k: int, j: int|
            0 <= k < split(text, separator).len() && 0 <= j < split(text, separator)[k].len()
                ==> #[trigger] split(text, separator)[k][j] != separator,
    decreases text.len(),
{
    if text.len() > 0 {
        let rest = text.drop_last();
        let before = split(rest, separator);
        lemma_split_nonempty(rest, separator);
        lemma_split_join(rest, separator);
        if text.last() == separator {
            let after = before.push(Seq::<u8>::empty());
            assert(after.drop_last() =~= before);
            assert(join(after, separator) =~= rest + seq![separator]);
            assert(rest.push(text.last()) =~= text);
        } else {
            let after = before.update(before.len() - 1, before.last().push(text.last()));
            assert(after.last() == before.last().push(text.last()));
            assert(text =~= rest.push(text.last()));
            if before.len() == 1 {
                assert(join(after, separator) =~= text);
            } else {
                assert(after.drop_last() =~= before.drop_last());
                let head = join(before.drop_last(), separator) + seq![separator];
                assert(join(before, separator) == head + before.last());
                assert(join(after, separator) == head + before.last().push(text.last()));
                assert(head + before.last().push(text.last()) =~= (head + before.last()).push(
                    text.last(),
                ));
            }
            assert forall|k: int, j: int|
                0 <= k < after.len() && 0 <= j < after[k].len() implies #[trigger] after[k][j]
                != separator by {
                if k < before.len() - 1 {
                    assert(after[k] == before[k]);
                } else if j < before.last().len() {
                    assert(after[k][j] == before[before.len() - 1][j]);
                }
            }
        }
    }
}

/// Gives the byte ranges of the pieces of `text` between occurrences of
/// `separator`.  The first range starts at the start of the text, the last
/// ends at its end, and every other range ends at a separator, just before
/// the next range starts.
pub fn field_bounds(text: &[u8], separator: u8) -> (r: Vec<(usize, usize)>)
    ensures
        r.len() == split(text@, separator).len(),
        r.len() >= 1,
        r[0].0 == 0,
        r[r.len() - 1].1 == text@.len(),
        forall|k: int|
            0 <= k < r.len() - 1 ==> #[trigger] r[k].1 < text@.len() && text@[r[k].1 as int]
                == separator && r[k].1 + 1 == r[k + 1].0,
        forall|k: int| 0 <= k < r.len() ==> #[trigger] r[k].0 <= r[k].1 <= text@.len(),
        forall|k: int|
            0 <= k < r.len() ==> #[trigger] text@.subrange(r[k].0 as int, r[k].1 as int) == split(
                text@,
                separator,
            )[k],
{
    let mut r: Vec<(usize, usize)> = Vec::new();
    let mut start: usize = 0;
    let mut i: usize = 0;
    while i < text.len()
        invariant
            i <= text@.len(),
            start <= i,
            r.len() + 1 == split(text@.take(i as int), separator).len(),
            forall|k: int| 0 <= k < r.len() ==> #[trigger] r[k].0 <= r[k].1 <= i,
            forall|k: int|
                0 <= k < r.len() ==> #[trigger] text@.subrange(r[k].0 as int, r[k].1 as int)
                    == split(text@.take(i as int), separator)[k],
            text@.subrange(start as int, i as int) == split(text@.take(i as int), separator).last(),
            r.len() == 0 ==> start == 0,
            r.len() > 0 ==> r[0].0 == 0 && r[r.len() - 1].1 + 1 == start,
            forall|k: int|
                0 <= k < r.len() ==> #[trigger] r[k].1 < i && text@[r[k].1 as int] == separator,
            forall|k: int| 0 <= k < r.len() - 1 ==> #[trigger] r[k].1 + 1 == r[k + 1].0,
        decreases text@.len() - i,
    {
        let ghost prefix = text@.take(i as int);
        let ghost next = text@.take(i + 1);
        proof {
            assert(next.drop_last() =~= prefix);
            lemma_split_nonempty(prefix, separator);
        }
        let ghost old_r = r@;
        let ghost old_start = start;
        if text[i] == separator {
            r.push((start, i));
            start = i + 1;
            proof {
                assert(next.last() == separator);
                assert(split(next, separator) == split(prefix, separator).push(Seq::<u8>::empty()));
                assert(text@.subrange(start as int, i + 1) =~= Seq::<u8>::empty());
                assert(prefix =~= next.subrange(0, i as int));
                assert forall|k: int| 0 <= k < r.len() implies #[trigger] r[k].0 <= r[k].1 <= i + 1
                    && text@.subrange(r[k].0 as int, r[k].1 as int) == split(
                    next,
                    separator,
                )[k] by {
                    if k < old_r.len() {
                        assert(r[k] == old_r[k]);
                        assert(text@.subrange(old_r[k].0 as int, old_r[k].1 as int) == split(
                            prefix,
                            separator,
                        )[k]);
                    } else {
                        assert(r[k] == (old_start, i));
                    }
                }
                assert forall|k: int| 0 <= k < r.len() implies #[trigger] r[k].1 < i + 1
                    && text@[r[k].1 as int] == separator by {
                    if k < old_r.len() {
                        assert(r[k] == old_r[k]);
                    }
                }
                assert forall|k: int| 0 <= k < r.len() - 1 implies #[trigger] r[k].1 + 1 == r[k
                    + 1].0 by {
                    assert(r[k] == old_r[k]);
                    if k + 1 < old_r.len() {
                        assert(r[k + 1] == old_r[k + 1]);
                    }
                }
            }
        } else {
            proof {
                let before = split(prefix, separator);
                assert(next.last() != separator);
                assert(split(next, separator) == before.update(
                    before.len() - 1,
                    before.last().push(next.last()),
                ));
                assert(text@.subrange(start as int, i + 1) =~= text@.subrange(
                    start as int,
                    i as int,
                ).push(text@[i as int]));
                assert forall|k: int| 0 <= k < r.len() implies #[trigger] r[k].0 <= r[k].1 <= i + 1
                    && text@.subrange(r[k].0 as int, r[k].1 as int) == split(
                    next,
                    separator,
                )[k] by {
                    assert(r[k] == old_r[k]);
                    assert(text@.subrange(old_r[k].0 as int, old_r[k].1 as int) == split(
                        prefix,
                        separator,
                    )[k]);
                }
                assert forall|k: int| 0 <= k < r.len() implies #[trigger] r[k].1 < i + 1
                    && text@[r[k].1 as int] == separator by {
                    assert(r[k] == old_r[k]);
                }
            }
        }
        i = i + 1;
    }
    proof {
        assert(text@.take(i as int) =~= text@);
        lemma_split_nonempty(text@, separator);
    }
    let ghost old_r = r@;
    let ghost whole = text@.take(i as int);
    r.push((start, i));
    proof {
        assert forall|k: int| 0 <= k < r.len() implies #[trigger] r[k].0 <= r[k].1 <= text@.len()
            && text@.subrange(r[k].0 as int, r[k].1 as int) == split(
            text@,
            separator,
        )[k] by {
            if k < old_r.len() {
                assert(r[k] == old_r[k]);
                assert(text@.subrange(old_r[k].0 as int, old_r[k].1 as int) == split(
                    whole,
                    separator,
                )[k]);
            } else {
                assert(r[k] == (start, i));
            }
        }
        assert forall|k: int| 0 <= k < r.len() - 1 implies #[trigger] r[k].1 < text@.len()
            && text@[r[k].1 as int] == separator && r[k].1 + 1 == r[k + 1].0 by {
            assert(r[k] == old_r[k]);
            if k + 1 < old_r.len() {
                assert(r[k + 1] == old_r[k + 1]);
            }
        }
    }
    r
}

/// One line of delimited text: how many fields it split into, and the
/// values of those fields when every one of them parsed.
pub struct ParsedLine<T> {
    pub fields: usize,
    pub values: Option<Vec<T>>,
}

/// A line takes part in the table unless it holds a single field.
pub open spec fn is_data_line<T>(line: ParsedLine<T>) -> bool {
    line.fields != 1
}

/// The values of the lines that take part and parsed, one after the other.
pub open spec fn table_values<T>(lines: Seq<ParsedLine<T>>) -> Seq<T>
    decreases lines.len(),
{
    if lines.len() == 0 {
        Seq::<T>::empty()
    } else {
        let last = lines.last();
        table_values(lines.drop_last()) + if is_data_line(last) && last.values is Some {
            last.values.unwrap()@
        } else {
            Seq::<T>::empty()
        }
    }
}

/// The number of lines that take part and parsed.
pub open spec fn table_rows<T>(lines: Seq<ParsedLine<T>>) -> nat
    decreases lines.len(),
{
    if lines.len() == 0 {
        0
    } else {
        let last = lines.last();
        table_rows(lines.drop_last()) + if is_data_line(last) && last.values is Some {
            1nat
        } else {
            0nat
        }
    }
}

/// The field count of the first line that takes part, whether or not it
/// parsed; zero when none does.
pub open spec fn table_columns<T>(lines: Seq<ParsedLine<T>>) -> nat
    decreases lines.len(),
{
    if lines.len() == 0 {
        0
    } else {
        let before = table_columns(lines.drop_last());
        if before != 0 {
            before
        } else if is_data_line(lines.last()) {
            lines.last().fields as nat
        } else {
            0
        }
    }
}

/// At most one row per line.
proof fn lemma_rows_bounded<T>(lines: Seq<ParsedLine<T>>)
    ensures
        table_rows(lines) <= lines.len(),
    decreases lines.len(),
{
    if lines.len() > 0 {
        lemma_rows_bounded(lines.drop_last());
    }
}

/// Gathers the lines of a delimited file into a row-major table: the values
/// of every line that has more than one field and parsed, how many such
/// lines there are, and the field count of the first line with more than one
/// field.
pub fn assemble_table<T: Copy>(lines: &Vec<ParsedLine<T>>) -> (r: (Vec<T>, usize, usize))
    ensures
        r.0@ == table_values(lines@),
        r.1 == table_rows(lines@),
        r.2 == table_columns(lines@),
{
    let mut all_data: Vec<T> = Vec::new();
    let mut num_rows: usize = 0;
    let mut num_columns: usize = 0;
    let mut i: usize = 0;
    while i < lines.len()
        invariant
            i <= lines@.len(),
            all_data@ == table_values(lines@.take(i as int)),
            num_rows == table_rows(lines@.take(i as int)),
            num_columns == table_columns(lines@.take(i as int)),
            num_rows <= i,
        decreases lines@.len() - i,
    {
        let line = &lines[i];
        proof {
            assert(lines@.take(i + 1).drop_last() =~= lines@.take(i as int));
            lemma_rows_bounded(lines@.take(i as int));
        }
        if line.fields != 1 {
            if num_columns == 0 {
                num_columns = line.fields;
            }
            match &line.values {
                Some(row) => {
                    let mut j: usize = 0;
                    let ghost base = all_data@;
                    while j < row.len()
                        invariant
                            j <= row@.len(),
                            all_data@ == base + row@.take(j as int),
                        decreases row@.len() - j,
                    {
                        all_data.push(row[j]);
                        j = j + 1;
                        proof {
                            assert(row@.take(j as int) =~= row@.take(j - 1).push(row@[j - 1]));
                        }
                    }
                    proof {
                        assert(row@.take(j as int) =~= row@);
                    }
                    num_rows = num_rows + 1;
                },
                None => {},
            }
        }
        i = i + 1;
    }
    proof {
        assert(lines@.take(i as int) =~= lines@);
    }
    (all_data, num_rows, num_columns)
}

/// When every line that takes part has the same field count and every one of
/// them parsed into that many values, the table holds rows times columns
/// values.
pub proof fn lemma_uniform_table<T>(lines: Seq<ParsedLine<T>>, columns: nat)
    requires
        columns != 1,
        forall|k: int|
            0 <= k < lines.len() && is_data_line(#[trigger] lines[k]) ==> (lines[k].fields
                == columns && lines[k].values is Some && lines[k].values.unwrap()@.len()
                == columns),
    ensures
        table_values(lines).len() == table_rows(lines) * columns,
        table_rows(lines) > 0 ==> table_columns(lines) == columns,
    decreases lines.len(),
{
    if lines.len() > 0 {
        let rest = lines.drop_last();
        assert forall|k: int|
            0 <= k < rest.len() && is_data_line(#[trigger] rest[k]) implies (rest[k].fields
            == columns && rest[k].values is Some && rest[k].values.unwrap()@.len() == columns) by {
            assert(rest[k] == lines[k]);
        }
        lemma_uniform_table(rest, columns);
        assert(lines.last() == lines[lines.len() - 1]);
        if is_data_line(lines.last()) {
            let k = lines.len() - 1;
            assert(is_data_line(lines[k]));
            assert(lines[k].values is Some && lines[k].values.unwrap()@.len() == columns);
            assert(table_values(lines) == table_values(rest) + lines.last().values.unwrap()@);
            assert(table_rows(lines) == table_rows(rest) + 1);
            assert((table_rows(rest) + 1) * columns == table_rows(rest) * columns + columns)
                by (nonlinear_arith);
            if table_rows(rest) == 0 {
                lemma_no_rows_no_columns(rest);
            }
        } else {
            assert(table_values(lines) == table_values(rest));
            assert(table_rows(lines) == table_rows(rest));
        }
    } else {
        assert(table_rows(lines) == 0);
        assert(0 * columns == 0) by (nonlinear_arith);
    }
}

/// Without rows, every line that takes part failed to parse; with uniform
/// lines that never happens, so no column count was fixed either.
proof fn lemma_no_rows_no_columns<T>(lines: Seq<ParsedLine<T>>)
    requires
        table_rows(lines) == 0,
        forall|k: int|
            0 <= k < lines.len() && is_data_line(#[trigger] lines[k]) ==> lines[k].values is Some,
    ensures
        table_columns(lines) == 0,
    decreases lines.len(),
{
    if lines.len() > 0 {
        let rest = lines.drop_last();
        assert forall|k: int|
            0 <= k < rest.len() && is_data_line(#[trigger] rest[k]) implies rest[k].values is Some by {
            assert(rest[k] == lines[k]);
        }
        assert(lines.last() == lines[lines.len() - 1]);
        lemma_no_rows_no_columns(rest);
    }
}

} // verus!
