//! The table loader: splits a file's bytes into lines and comma-separated
//! fields, and builds a header-less table whose rows all share one column
//! count.
//!
//! A table keeps each cell as the raw bytes of its field; numeric
//! interpretation is the reducer's concern.

use vstd::prelude::*;

verus! {

/// Splits `s` at every occurrence of `sep`.  The result always holds one
/// piece more than `s` holds separators, in order; an empty `s` gives one
/// empty piece.
pub open spec fn split_on(s: Seq<u8>, sep: u8) -> Seq<Seq<u8>>
    decreases s.len(),
{
    if s.len() == 0 {
        seq![Seq::<u8>::empty()]
    } else if s[0] == sep {
        seq![Seq::<u8>::empty()] + split_on(s.drop_first(), sep)
    } else {
        let rest = split_on(s.drop_first(), sep);
        seq![seq![s[0]] + rest[0]] + rest.drop_first()
    }
}

/// A split never yields an empty piece list.
pub proof fn lemma_split_on_nonempty(s: Seq<u8>, sep: u8)
    ensures
        split_on(s, sep).len() >= 1,
    decreases s.len(),
{
    if s.len() == 0 {
    } else {
        lemma_split_on_nonempty(s.drop_first(), sep);
    }
}

/// No piece of a split holds the separator, and every piece's byte comes
/// from the split sequence.
pub proof fn lemma_split_pieces(s: Seq<u8>, sep: u8)
    ensures
        forall|j: int, k: int|
            0 <= j < split_on(s, sep).len() && 0 <= k < split_on(s, sep)[j].len() ==> {
                &&& (#[trigger] split_on(s, sep)[j][k]) != sep
                &&& s.contains(split_on(s, sep)[j][k])
            },
    decreases s.len(),
{
    if s.len() == 0 {
    } else {
        lemma_split_pieces(s.drop_first(), sep);
        let ps = split_on(s, sep);
        let rest = split_on(s.drop_first(), sep);
        lemma_split_on_nonempty(s.drop_first(), sep);
        assert forall|j: int, k: int|
            0 <= j < ps.len() && 0 <= k < ps[j].len() implies ps[j][k] != sep && s.contains(
            ps[j][k],
        ) by {
            if s[0] == sep {
                if j > 0 {
                    assert(ps[j] == rest[j - 1]);
                    assert(rest[j - 1][k] != sep && s.drop_first().contains(rest[j - 1][k]));
                    let t = choose|t: int|
                        0 <= t < s.drop_first().len() && s.drop_first()[t] == rest[j - 1][k];
                    assert(s[t + 1] == rest[j - 1][k]);
                }
            } else {
                if j == 0 {
                    if k == 0 {
                        assert(ps[0][0] == s[0]);
                    } else {
                        assert(ps[0] == seq![s[0]] + rest[0]);
                        assert(ps[0][k] == rest[0][k - 1]);
                        assert(rest[0][k - 1] != sep && s.drop_first().contains(rest[0][k - 1]));
                        let t = choose|t: int|
                            0 <= t < s.drop_first().len() && s.drop_first()[t] == rest[0][k - 1];
                        assert(s[t + 1] == rest[0][k - 1]);
                    }
                } else {
                    assert(ps[j] == rest.drop_first()[j - 1]);
                    assert(rest.drop_first()[j - 1] == rest[j]);
                    assert(rest[j][k] != sep && s.drop_first().contains(rest[j][k]));
                    let t = choose|t: int|
                        0 <= t < s.drop_first().len() && s.drop_first()[t] == rest[j][k];
                    assert(s[t + 1] == rest[j][k]);
                }
            }
        }
    }
}

/// The first piece of a split, with the rest of the pieces.
spec fn prepend_first(c: Seq<u8>, ps: Seq<Seq<u8>>) -> Seq<Seq<u8>> {
    seq![c + ps[0]] + ps.drop_first()
}

/// Splits `s` at every occurrence of `sep`, as `split_on` describes.
pub fn split_bytes(s: &Vec<u8>, sep: u8) -> (r: Vec<Vec<u8>>)
    ensures
        r.deep_view() == split_on(s@, sep),
{
    let mut pieces: Vec<Vec<u8>> = Vec::new();
    let mut cur: Vec<u8> = Vec::new();
    let mut i: usize = 0;
    proof {
        lemma_split_on_nonempty(s@, sep);
        assert(s@.skip(0) =~= s@);
        assert(prepend_first(cur@, split_on(s@, sep)) =~~= split_on(s@, sep));
    }
    while i < s.len()
        invariant
            i <= s@.len(),
            split_on(s@, sep) == pieces.deep_view() + prepend_first(
                cur@,
                split_on(s@.skip(i as int), sep),
            ),
        decreases s@.len() - i,
    {
        let ghost suffix = s@.skip(i as int);
        proof {
            assert(suffix.len() > 0);
            assert(suffix[0] == s@[i as int]);
            assert(suffix.drop_first() =~= s@.skip(i as int + 1));
            lemma_split_on_nonempty(s@.skip(i as int + 1), sep);
        }
        if s[i] == sep {
            let ghost old_pieces = pieces.deep_view();
            let ghost old_cur = cur@;
            pieces.push(cur);
            cur = Vec::new();
            proof {
                assert(pieces.deep_view() =~~= old_pieces.push(old_cur));
                assert(prepend_first(old_cur, split_on(suffix, sep)) =~~= seq![old_cur]
                    + split_on(s@.skip(i as int + 1), sep));
                assert(prepend_first(cur@, split_on(s@.skip(i as int + 1), sep)) =~~= split_on(
                    s@.skip(i as int + 1),
                    sep,
                ));
                assert(pieces.deep_view() + prepend_first(
                    cur@,
                    split_on(s@.skip(i as int + 1), sep),
                ) =~~= old_pieces + prepend_first(old_cur, split_on(suffix, sep)));
            }
        } else {
            let ghost old_cur = cur@;
            cur.push(s[i]);
            proof {
                let rest = split_on(s@.skip(i as int + 1), sep);
                assert(cur@ =~= old_cur + seq![s@[i as int]]);
                assert(split_on(suffix, sep) == prepend_first(seq![s@[i as int]], rest));
                assert(prepend_first(old_cur, prepend_first(seq![s@[i as int]], rest)) =~~=
                    prepend_first(old_cur + seq![s@[i as int]], rest));
            }
        }
        i = i + 1;
    }
    proof {
        assert(s@.skip(s@.len() as int) =~= Seq::<u8>::empty());
        assert(prepend_first(cur@, split_on(Seq::<u8>::empty(), sep)) =~~= seq![cur@]);
    }
    let ghost old_pieces = pieces.deep_view();
    let ghost last = cur@;
    pieces.push(cur);
    proof {
        assert(pieces.deep_view() =~~= old_pieces.push(last));
        assert(old_pieces.push(last) =~~= old_pieces + seq![last]);
    }
    pieces
}

/// The lines of a file's bytes: pieces between newline bytes, with a
/// single trailing newline ending the last line rather than opening an
/// empty one.  An empty file has no lines.
pub open spec fn split_lines(s: Seq<u8>) -> Seq<Seq<u8>> {
    if s.len() == 0 {
        Seq::<Seq<u8>>::empty()
    } else if s.last() == 10u8 {
        split_on(s, 10u8).drop_last()
    } else {
        split_on(s, 10u8)
    }
}

/// Splits a file's bytes into lines, as `split_lines` describes.
pub fn split_lines_bytes(s: &Vec<u8>) -> (r: Vec<Vec<u8>>)
    ensures
        r.deep_view() == split_lines(s@),
{
    if s.len() == 0 {
        let r: Vec<Vec<u8>> = Vec::new();
        proof {
            assert(r.deep_view() =~= Seq::<Seq<u8>>::empty());
        }
        return r;
    }
    let mut parts = split_bytes(s, 10u8);
    proof {
        lemma_split_on_nonempty(s@, 10u8);
        assert(parts.deep_view().len() == parts@.len());
    }
    if s[s.len() - 1] == 10u8 {
        let ghost before = parts.deep_view();
        parts.pop();
        proof {
            assert(parts.deep_view() =~= before.drop_last());
        }
    }
    parts
}

/// The table a file's bytes describe: each line split at commas.
pub open spec fn table_of(s: Seq<u8>) -> Seq<Seq<Seq<u8>>> {
    split_lines(s).map_values(|line: Seq<u8>| split_on(line, 44u8))
}

/// No cell of a table holds a newline byte: lines were split at newlines,
/// and cells at commas within one line.
pub proof fn lemma_table_cells_newline_free(contents: Seq<u8>)
    ensures
        forall|r: int, k: int|
            0 <= r < table_of(contents).len() && 0 <= k < table_of(contents)[r].len()
                ==> crate::bytes::count_byte(#[trigger] table_of(contents)[r][k], 10u8) == 0,
{
    let lines = split_lines(contents);
    lemma_split_pieces(contents, 10u8);
    assert forall|r: int, k: int|
        0 <= r < table_of(contents).len() && 0 <= k < table_of(contents)[r].len()
            implies crate::bytes::count_byte(table_of(contents)[r][k], 10u8) == 0 by {
        assert(table_of(contents)[r] == split_on(lines[r], 44u8));
        assert(lines[r] == split_on(contents, 10u8)[r]);
        lemma_split_pieces(lines[r], 44u8);
        let cell = table_of(contents)[r][k];
        assert forall|t: int| 0 <= t < cell.len() implies cell[t] != 10u8 by {
            assert(cell == split_on(lines[r], 44u8)[k]);
            assert(lines[r].contains(cell[t]));
            let u = choose|u: int| 0 <= u < lines[r].len() && lines[r][u] == cell[t];
            assert(split_on(contents, 10u8)[r][u] == cell[t]);
        }
        crate::bytes::lemma_count_byte_zero(cell, 10u8);
    }
}

/// All rows share the first row's column count.
pub open spec fn consistent_columns(rows: Seq<Seq<Seq<u8>>>) -> bool {
    forall|i: int| 0 <= i < rows.len() ==> (#[trigger] rows[i]).len() == rows[0].len()
}

/// An in-memory, header-less table: rows of cells, each cell the raw bytes
/// of one field.  A well-formed table's rows all share one column count.
#[derive(Debug, PartialEq, Eq)]
pub struct Table {
    pub rows: Vec<Vec<Vec<u8>>>,
}

impl View for Table {
    type V = Seq<Seq<Seq<u8>>>;

    open spec fn view(&self) -> Seq<Seq<Seq<u8>>> {
        self.rows.deep_view()
    }
}

impl Table {
    /// The well-formedness the loader establishes: a fixed column count.
    pub open spec fn wf(&self) -> bool {
        consistent_columns(self@)
    }

    /// The number of rows.
    pub fn num_rows(&self) -> (n: usize)
        ensures
            n == self@.len(),
    {
        self.rows.len()
    }
}

/// The one way loading a well-split file can fail: rows that do not share
/// one column count.
#[derive(Clone, Copy, Debug, PartialEq, Eq, Structural)]
pub enum ParseFault {
    InconsistentColumns,
}

/// Parses a file's bytes as a header-less comma-separated table.  Succeeds
/// exactly when every line holds as many fields as the first, and then
/// returns exactly the table the bytes describe.
pub fn parse_table(input: &Vec<u8>) -> (r: Result<Table, ParseFault>)
    ensures
        match r {
            Ok(t) => consistent_columns(table_of(input@)) && t@ == table_of(input@) && t.wf(),
            Err(e) => !consistent_columns(table_of(input@)) && e
                == ParseFault::InconsistentColumns,
        },
{
    let lines = split_lines_bytes(input);
    let ghost target = table_of(input@);
    proof {
        assert(lines.deep_view().len() == lines@.len());
        assert(target.len() == lines@.len());
    }
    let mut rows: Vec<Vec<Vec<u8>>> = Vec::new();
    let mut ncols: usize = 0;
    let mut j: usize = 0;
    proof {
        assert(rows.deep_view() =~= target.take(0));
    }
    while j < lines.len()
        invariant
            j <= lines@.len(),
            lines.deep_view().len() == lines@.len(),
            lines.deep_view() == split_lines(input@),
            target.len() == lines@.len(),
            target == table_of(input@),
            rows.deep_view() == target.take(j as int),
            forall|i: int| 0 <= i < j ==> (#[trigger] target[i]).len() == target[0].len(),
            j > 0 ==> ncols == target[0].len(),
        decreases lines@.len() - j,
    {
        let fields = split_bytes(&lines[j], 44u8);
        proof {
            assert(lines.deep_view()[j as int] == lines@[j as int].deep_view());
            assert(lines@[j as int].deep_view() =~= lines@[j as int]@);
            assert(lines.deep_view() == split_lines(input@));
            assert(target[j as int] == split_on(split_lines(input@)[j as int], 44u8));
            assert(split_lines(input@)[j as int] == lines@[j as int]@);
            assert(fields.deep_view() == target[j as int]);
            assert(fields.deep_view().len() == fields@.len());
        }
        if j == 0 {
            ncols = fields.len();
        } else if fields.len() != ncols {
            return Err(ParseFault::InconsistentColumns);
        }
        let ghost old_rows = rows.deep_view();
        rows.push(fields);
        proof {
            assert(rows.deep_view() =~= old_rows.push(target[j as int]));
            assert(rows.deep_view() =~= target.take(j as int + 1));
        }
        j = j + 1;
    }
    proof {
        assert(target.take(lines@.len() as int) =~= target);
    }
    Ok(Table { rows })
}

} // verus!
