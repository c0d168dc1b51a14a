//! The result writer: renders one comma-separated line per summary record
//! — stem, one-based row index, then the row's cells — quoting a field the
//! way standard CSV emission does, only when it holds a comma, a quote, or
//! a line break.

use vstd::prelude::*;
use crate::bytes::{count_byte, lemma_count_byte_add};

verus! {

/// The decimal digits of `n`, most significant first.
pub open spec fn dec_digits(n: nat) -> Seq<u8>
    decreases n,
{
    if n < 10 {
        seq![(n + 48) as u8]
    } else {
        dec_digits(n / 10).push((n % 10 + 48) as u8)
    }
}

/// Renders a non-negative index in decimal.
pub fn render_index(n: usize) -> (r: Vec<u8>)
    ensures
        r@ == dec_digits(n as nat),
    decreases n,
{
    if n < 10 {
        let mut r: Vec<u8> = Vec::new();
        r.push(48u8 + (n as u8));
        proof {
            assert(r@ =~= seq![(n + 48) as u8]);
        }
        r
    } else {
        let mut r = render_index(n / 10);
        r.push(48u8 + ((n % 10) as u8));
        r
    }
}

/// Whether CSV emission must quote the field: it holds a comma, a quote,
/// or a line break.
pub open spec fn needs_quoting(f: Seq<u8>) -> bool {
    exists|k: int|
        0 <= k < f.len() && ((#[trigger] f[k]) == 44 || f[k] == 34 || f[k] == 10 || f[k] == 13)
}

/// The field with every quote doubled.
pub open spec fn escape_quotes(f: Seq<u8>) -> Seq<u8>
    decreases f.len(),
{
    if f.len() == 0 {
        Seq::empty()
    } else {
        escape_quotes(f.drop_last()) + if f.last() == 34 {
            seq![34u8, 34u8]
        } else {
            seq![f.last()]
        }
    }
}

/// One rendered CSV field: quoted, with inner quotes doubled, exactly when
/// quoting is needed.
pub open spec fn render_field(f: Seq<u8>) -> Seq<u8> {
    if needs_quoting(f) {
        seq![34u8] + escape_quotes(f) + seq![34u8]
    } else {
        f
    }
}

/// Renders one field, as `render_field` describes.
pub fn render_field_bytes(f: &Vec<u8>) -> (r: Vec<u8>)
    ensures
        r@ == render_field(f@),
{
    let mut quote = false;
    let mut i: usize = 0;
    while i < f.len()
        invariant
            i <= f@.len(),
            quote == exists|k: int|
                0 <= k < i && ((#[trigger] f@[k]) == 44 || f@[k] == 34 || f@[k] == 10 || f@[k]
                    == 13),
        decreases f@.len() - i,
    {
        let b = f[i];
        if b == 44u8 || b == 34u8 || b == 10u8 || b == 13u8 {
            quote = true;
        }
        i = i + 1;
    }
    if !quote {
        let r = crate::bytes::copy_bytes(f);
        return r;
    }
    let mut r: Vec<u8> = Vec::new();
    r.push(34u8);
    let mut j: usize = 0;
    proof {
        assert(escape_quotes(f@.take(0)) =~= Seq::<u8>::empty());
        assert(r@ =~= seq![34u8] + escape_quotes(f@.take(0)));
    }
    while j < f.len()
        invariant
            j <= f@.len(),
            r@ == seq![34u8] + escape_quotes(f@.take(j as int)),
        decreases f@.len() - j,
    {
        let ghost pre = f@.take(j as int);
        proof {
            assert(f@.take(j as int + 1).drop_last() =~= pre);
            assert(f@.take(j as int + 1).last() == f@[j as int]);
        }
        let b = f[j];
        if b == 34u8 {
            r.push(34u8);
            r.push(34u8);
            proof {
                assert(r@ =~= seq![34u8] + (escape_quotes(pre) + seq![34u8, 34u8]));
            }
        } else {
            r.push(b);
            proof {
                assert(r@ =~= seq![34u8] + (escape_quotes(pre) + seq![f@[j as int]]));
            }
        }
        j = j + 1;
    }
    proof {
        assert(f@.take(f@.len() as int) =~= f@);
    }
    r.push(34u8);
    proof {
        assert(r@ =~= seq![34u8] + escape_quotes(f@) + seq![34u8]);
    }
    r
}

/// A summary record: the source file's stem, the one-based index of the
/// selected row, and that row's cells.
#[derive(Debug, PartialEq, Eq)]
pub struct ResultRecord {
    pub stem: Vec<u8>,
    pub row_index: usize,
    pub row: Vec<Vec<u8>>,
}

/// The mathematical shape of a summary record.
pub struct RecordModel {
    pub stem: Seq<u8>,
    pub row_index: int,
    pub row: Seq<Seq<u8>>,
}

impl View for ResultRecord {
    type V = RecordModel;

    open spec fn view(&self) -> RecordModel {
        RecordModel { stem: self.stem@, row_index: self.row_index as int, row: self.row.deep_view() }
    }
}

/// The rendered cells of a row, each preceded by a comma.
pub open spec fn render_cells(row: Seq<Seq<u8>>) -> Seq<u8>
    decreases row.len(),
{
    if row.len() == 0 {
        Seq::empty()
    } else {
        render_cells(row.drop_last()) + seq![44u8] + render_field(row.last())
    }
}

/// One output line: stem, one-based row index, then the row's cells,
/// comma-separated and newline-terminated.
pub open spec fn render_record(r: RecordModel) -> Seq<u8>
    recommends
        r.row_index >= 0,
{
    render_field(r.stem) + seq![44u8] + dec_digits(r.row_index as nat) + render_cells(r.row)
        + seq![10u8]
}

/// Renders one record's line, as `render_record` describes.
pub fn render_record_bytes(rec: &ResultRecord) -> (out: Vec<u8>)
    ensures
        out@ == render_record(rec@),
{
    let mut out = render_field_bytes(&rec.stem);
    out.push(44u8);
    let mut idx = render_index(rec.row_index);
    out.append(&mut idx);
    proof {
        assert(out@ =~= render_field(rec@.stem) + seq![44u8] + dec_digits(rec@.row_index as nat));
        assert(rec@.row.len() == rec.row@.len());
        assert(render_cells(rec@.row.take(0)) =~= Seq::<u8>::empty());
    }
    let ghost head = out@;
    let mut k: usize = 0;
    while k < rec.row.len()
        invariant
            k <= rec.row@.len(),
            rec@.row.len() == rec.row@.len(),
            rec@.row == rec.row.deep_view(),
            out@ == head + render_cells(rec@.row.take(k as int)),
        decreases rec.row@.len() - k,
    {
        let ghost pre = rec@.row.take(k as int);
        proof {
            assert(rec@.row.take(k as int + 1).drop_last() =~= pre);
            assert(rec@.row.take(k as int + 1).last() == rec@.row[k as int]);
            assert(rec.row.deep_view()[k as int] == rec.row@[k as int].deep_view());
            assert(rec.row@[k as int].deep_view() =~= rec.row@[k as int]@);
        }
        out.push(44u8);
        let mut cell = render_field_bytes(&rec.row[k]);
        out.append(&mut cell);
        proof {
            assert(out@ =~= head + (render_cells(pre) + seq![44u8] + render_field(
                rec@.row[k as int],
            )));
        }
        k = k + 1;
    }
    proof {
        assert(rec@.row.take(rec@.row.len() as int) =~= rec@.row);
    }
    out.push(10u8);
    proof {
        assert(out@ =~= render_record(rec@));
    }
    out
}

/// The writer's whole output: every record's line, in the order supplied.
pub open spec fn render_records(rs: Seq<RecordModel>) -> Seq<u8>
    decreases rs.len(),
{
    if rs.len() == 0 {
        Seq::empty()
    } else {
        render_records(rs.drop_last()) + render_record(rs.last())
    }
}

/// Serializes the records as delimited output, in the order supplied, one
/// line each, as `render_records` describes.
pub fn write_records(records: &Vec<ResultRecord>) -> (out: Vec<u8>)
    ensures
        out@ == render_records(records@.map_values(|r: ResultRecord| r@)),
{
    let ghost rs = records@.map_values(|r: ResultRecord| r@);
    let mut out: Vec<u8> = Vec::new();
    let mut i: usize = 0;
    proof {
        assert(render_records(rs.take(0)) =~= Seq::<u8>::empty());
        assert(out@ =~= render_records(rs.take(0)));
    }
    while i < records.len()
        invariant
            i <= records@.len(),
            rs == records@.map_values(|r: ResultRecord| r@),
            rs.len() == records@.len(),
            out@ == render_records(rs.take(i as int)),
        decreases records@.len() - i,
    {
        let ghost pre = rs.take(i as int);
        proof {
            assert(rs.take(i as int + 1).drop_last() =~= pre);
            assert(rs.take(i as int + 1).last() == rs[i as int]);
            assert(rs[i as int] == records@[i as int]@);
        }
        let mut line = render_record_bytes(&records[i]);
        out.append(&mut line);
        proof {
            assert(out@ =~= render_records(pre) + render_record(rs[i as int]));
        }
        i = i + 1;
    }
    proof {
        assert(rs.take(rs.len() as int) =~= rs);
    }
    out
}

/// A record is line-clean when neither its stem nor any of its cells holds
/// a newline byte.
pub open spec fn record_newline_free(r: RecordModel) -> bool {
    &&& count_byte(r.stem, 10u8) == 0
    &&& forall|k: int| 0 <= k < r.row.len() ==> count_byte(#[trigger] r.row[k], 10u8) == 0
}

/// The count of `b` in a one-byte sequence.
proof fn lemma_count_single(x: u8, b: u8)
    ensures
        count_byte(seq![x], b) == if x == b {
            1int
        } else {
            0int
        },
{
    assert(seq![x].drop_last() =~= Seq::<u8>::empty());
    assert(seq![x].last() == x);
    assert(count_byte(Seq::<u8>::empty(), b) == 0);
}

/// The count of `b` in a two-byte sequence.
proof fn lemma_count_pair(x: u8, y: u8, b: u8)
    ensures
        count_byte(seq![x, y], b) == count_byte(seq![x], b) + count_byte(seq![y], b),
{
    assert(seq![x, y] =~= seq![x] + seq![y]);
    lemma_count_byte_add(seq![x], seq![y], b);
}

/// Decimal digits hold no newline byte.
proof fn lemma_dec_digits_newline_free(n: nat)
    ensures
        count_byte(dec_digits(n), 10u8) == 0,
    decreases n,
{
    if n < 10 {
        assert(dec_digits(n) =~= seq![(n + 48) as u8]);
        lemma_count_single((n + 48) as u8, 10u8);
    } else {
        lemma_dec_digits_newline_free(n / 10);
        assert(dec_digits(n) =~= dec_digits(n / 10) + seq![(n % 10 + 48) as u8]);
        lemma_count_byte_add(dec_digits(n / 10), seq![(n % 10 + 48) as u8], 10u8);
        lemma_count_single((n % 10 + 48) as u8, 10u8);
    }
}

/// Doubling quotes adds no newline byte.
proof fn lemma_escape_newline_free(f: Seq<u8>)
    requires
        count_byte(f, 10u8) == 0,
    ensures
        count_byte(escape_quotes(f), 10u8) == 0,
    decreases f.len(),
{
    if f.len() > 0 {
        crate::bytes::lemma_count_byte_nonneg(f.drop_last(), 10u8);
        lemma_escape_newline_free(f.drop_last());
        if f.last() == 34 {
            lemma_count_byte_add(escape_quotes(f.drop_last()), seq![34u8, 34u8], 10u8);
            lemma_count_pair(34u8, 34u8, 10u8);
            lemma_count_single(34u8, 10u8);
        } else {
            lemma_count_byte_add(escape_quotes(f.drop_last()), seq![f.last()], 10u8);
            lemma_count_single(f.last(), 10u8);
            assert(count_byte(f.drop_last(), 10u8) == 0 && f.last() != 10u8) by {
                assert(count_byte(f, 10u8) == count_byte(f.drop_last(), 10u8) + if f.last()
                    == 10u8 {
                    1int
                } else {
                    0int
                });
                crate::bytes::lemma_count_byte_nonneg(f.drop_last(), 10u8);
            }
        }
    }
}

/// A rendered field of a line-clean value holds no newline byte.
proof fn lemma_render_field_newline_free(f: Seq<u8>)
    requires
        count_byte(f, 10u8) == 0,
    ensures
        count_byte(render_field(f), 10u8) == 0,
{
    if needs_quoting(f) {
        lemma_escape_newline_free(f);
        lemma_count_byte_add(seq![34u8], escape_quotes(f), 10u8);
        lemma_count_byte_add(seq![34u8] + escape_quotes(f), seq![34u8], 10u8);
        lemma_count_single(34u8, 10u8);
    }
}

/// The rendered cells of a line-clean row hold no newline byte.
proof fn lemma_render_cells_newline_free(row: Seq<Seq<u8>>)
    requires
        forall|k: int| 0 <= k < row.len() ==> count_byte(#[trigger] row[k], 10u8) == 0,
    ensures
        count_byte(render_cells(row), 10u8) == 0,
    decreases row.len(),
{
    if row.len() > 0 {
        assert(forall|k: int|
            0 <= k < row.len() - 1 ==> row.drop_last()[k] == #[trigger] row[k]);
        assert(forall|k: int|
            0 <= k < row.drop_last().len() ==> count_byte(#[trigger] row.drop_last()[k], 10u8)
                == 0);
        lemma_render_cells_newline_free(row.drop_last());
        lemma_render_field_newline_free(row.last());
        lemma_count_byte_add(render_cells(row.drop_last()), seq![44u8], 10u8);
        lemma_count_byte_add(render_cells(row.drop_last()) + seq![44u8], render_field(row.last()),
            10u8);
        lemma_count_single(44u8, 10u8);
    }
}

/// One rendered line of a line-clean record holds exactly one newline
/// byte: its terminator.
pub proof fn lemma_render_record_one_line(r: RecordModel)
    requires
        record_newline_free(r),
        r.row_index >= 0,
    ensures
        count_byte(render_record(r), 10u8) == 1,
{
    lemma_render_field_newline_free(r.stem);
    lemma_dec_digits_newline_free(r.row_index as nat);
    lemma_render_cells_newline_free(r.row);
    let a = render_field(r.stem);
    let b = seq![44u8];
    let c = dec_digits(r.row_index as nat);
    let d = render_cells(r.row);
    let e = seq![10u8];
    lemma_count_byte_add(a, b, 10u8);
    lemma_count_byte_add(a + b, c, 10u8);
    lemma_count_byte_add(a + b + c, d, 10u8);
    lemma_count_byte_add(a + b + c + d, e, 10u8);
    lemma_count_single(44u8, 10u8);
    lemma_count_single(10u8, 10u8);
}

/// The output has exactly as many lines as records written: one newline
/// byte per record, when every record is line-clean — never more lines,
/// and the count is exact.
pub proof fn lemma_output_line_count(rs: Seq<RecordModel>)
    requires
        forall|k: int| 0 <= k < rs.len() ==> record_newline_free(#[trigger] rs[k]),
        forall|k: int| 0 <= k < rs.len() ==> (#[trigger] rs[k]).row_index >= 0,
    ensures
        count_byte(render_records(rs), 10u8) == rs.len(),
    decreases rs.len(),
{
    if rs.len() > 0 {
        assert(forall|k: int| 0 <= k < rs.len() - 1 ==> rs.drop_last()[k] == #[trigger] rs[k]);
        lemma_output_line_count(rs.drop_last());
        lemma_render_record_one_line(rs.last());
        lemma_count_byte_add(render_records(rs.drop_last()), render_record(rs.last()), 10u8);
        assert(rs.last() == rs[rs.len() - 1]);
    }
}

} // verus!
