//! Reading a comma-separated table: its header and, for each header, the column of raw
//! fields beneath it.
use vstd::prelude::*;
use crate::strings::{split_spec, strings_split, strings_trim, texts};
use crate::text::trim_spec;

verus! {

/// The pieces, trimmed, that are not empty.
pub open spec fn nonempty_trimmed(pieces: Seq<Seq<char>>) -> Seq<Seq<char>>
    decreases pieces.len(),
{
    if pieces.len() == 0 {
        Seq::empty()
    } else {
        let rest = nonempty_trimmed(pieces.drop_last());
        let t = trim_spec(pieces.last());
        if t.len() == 0 { rest } else { rest.push(t) }
    }
}

/// The non-blank lines of a text, trimmed.
pub open spec fn csv_lines(s: Seq<char>) -> Seq<Seq<char>> {
    nonempty_trimmed(split_spec(s, "\n"@))
}

/// The fields of a line, trimmed.
pub open spec fn csv_fields(line: Seq<char>) -> Seq<Seq<char>> {
    split_spec(line, ","@).map_values(|f: Seq<char>| trim_spec(f))
}

/// The fields at position `c` of the rows that have one, in order.
pub open spec fn csv_column(rows: Seq<Seq<char>>, c: int) -> Seq<Seq<char>>
    decreases rows.len(),
{
    if rows.len() == 0 {
        Seq::empty()
    } else {
        let rest = csv_column(rows.drop_last(), c);
        let f = csv_fields(rows.last());
        if c < f.len() { rest.push(f[c]) } else { rest }
    }
}

/// What a table reads as: no header and no columns for a text without a non-blank line;
/// otherwise the fields of the first line as headers and, for each, its column from the other
/// lines (a short line leaves the columns beyond it without a field).
pub open spec fn csv_table_spec(s: Seq<char>) -> (Seq<Seq<char>>, Seq<Seq<Seq<char>>>) {
    let lines = csv_lines(s);
    if lines.len() == 0 {
        (Seq::empty(), Seq::empty())
    } else {
        let headers = csv_fields(lines[0]);
        (headers, Seq::new(headers.len(), |c: int| csv_column(lines.drop_first(), c)))
    }
}

pub open spec fn columns_view(cols: Seq<Vec<String>>) -> Seq<Seq<Seq<char>>> {
    cols.map_values(|c: Vec<String>| texts(c@))
}

fn trimmed_fields(line: &str) -> (r: Vec<String>)
    ensures
        texts(r@) == csv_fields(line@),
{
    let parts = strings_split(line, ",");
    let mut out: Vec<String> = Vec::new();
    let mut i: usize = 0;
    while i < parts.len()
        invariant
            i <= parts@.len(),
            texts(out@) == texts(parts@).take(i as int).map_values(|f: Seq<char>| trim_spec(f)),
        decreases parts@.len() - i,
    {
        let t = strings_trim(parts[i].as_str());
        let ghost before = texts(out@);
        out.push(t);
        proof {
            assert(texts(out@) =~= before.push(t@));
            assert(texts(parts@).take(i + 1).map_values(|f: Seq<char>| trim_spec(f)) =~= texts(parts@).take(
                i as int,
            ).map_values(|f: Seq<char>| trim_spec(f)).push(trim_spec(parts@[i as int]@)));
        }
        i = i + 1;
    }
    assert(texts(parts@).take(parts@.len() as int) =~= texts(parts@));
    out
}

/// Splits a comma-separated text into its header and the raw fields of each column.
pub fn csv_table(csv: &str) -> (r: (Vec<String>, Vec<Vec<String>>))
    ensures
        texts(r.0@) == csv_table_spec(csv@).0,
        columns_view(r.1@) == csv_table_spec(csv@).1,
{
    let pieces = strings_split(csv, "\n");
    let mut lines: Vec<String> = Vec::new();
    let mut i: usize = 0;
    while i < pieces.len()
        invariant
            i <= pieces@.len(),
            texts(lines@) == nonempty_trimmed(texts(pieces@).take(i as int)),
        decreases pieces@.len() - i,
    {
        let t = strings_trim(pieces[i].as_str());
        let ghost before = texts(lines@);
        proof {
            assert(texts(pieces@).take(i + 1).drop_last() =~= texts(pieces@).take(i as int));
            assert(texts(pieces@).take(i + 1).last() == pieces@[i as int]@);
        }
        if t.unicode_len() > 0 {
            lines.push(t);
            assert(texts(lines@) =~= before.push(t@));
        }
        i = i + 1;
    }
    assert(texts(pieces@).take(pieces@.len() as int) =~= texts(pieces@));
    let ghost ls = texts(lines@);
    assert(ls == csv_lines(csv@));
    if lines.len() == 0 {
        let empty: Vec<Vec<String>> = Vec::new();
        let no_headers: Vec<String> = Vec::new();
        assert(columns_view(empty@) =~= Seq::<Seq<Seq<char>>>::empty());
        assert(texts(no_headers@) =~= Seq::<Seq<char>>::empty());
        return (no_headers, empty);
    }
    let headers = trimmed_fields(lines[0].as_str());
    let ghost rows = ls.drop_first();
    let mut cols: Vec<Vec<String>> = Vec::new();
    let mut c: usize = 0;
    while c < headers.len()
        invariant
            c <= headers@.len(),
            ls == texts(lines@),
            lines@.len() > 0,
            rows == ls.drop_first(),
            columns_view(cols@) == Seq::new(c as nat, |k: int| csv_column(rows, k)),
        decreases headers@.len() - c,
    {
        let mut col: Vec<String> = Vec::new();
        let mut j: usize = 1;
        while j < lines.len()
            invariant
                1 <= j <= lines@.len(),
                ls == texts(lines@),
                rows == ls.drop_first(),
                texts(col@) == csv_column(rows.take(j - 1), c as int),
            decreases lines@.len() - j,
        {
            let fields = trimmed_fields(lines[j].as_str());
            proof {
                assert(rows.take(j as int).drop_last() =~= rows.take(j - 1));
                assert(rows.take(j as int).last() == lines@[j as int]@);
            }
            if c < fields.len() {
                let ghost before = texts(col@);
                col.push(fields[c].clone());
                assert(texts(col@) =~= before.push(fields@[c as int]@));
            }
            j = j + 1;
        }
        assert(rows.take(lines@.len() - 1) =~= rows);
        let ghost before = columns_view(cols@);
        cols.push(col);
        proof {
            assert(columns_view(cols@) =~= before.push(csv_column(rows, c as int)));
            assert(Seq::new((c + 1) as nat, |k: int| csv_column(rows, k)) =~= Seq::new(c as nat, |k: int| csv_column(rows, k)).push(
                csv_column(rows, c as int),
            ));
        }
        c = c + 1;
    }
    (headers, cols)
}

} // verus!
