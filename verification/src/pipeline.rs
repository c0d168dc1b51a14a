//! The orchestrator: processes each discovered file's bytes into a summary
//! record — parse, reduce, render — skipping files that fail (the lenient
//! policy: a bad file is reported and excluded, the run goes on), and
//! emits the output lines in input order, so one input always gives one
//! output, byte for byte.

use vstd::prelude::*;
use crate::bytes::count_byte;
use crate::paths::{stem_of, stem_bytes, lemma_stem_avoids_byte};
use crate::reduce::{
    ReduceFault, arg_min_idx, column_is_numeric, find_min_row, lemma_arg_min_idx,
};
use crate::table::{
    consistent_columns, lemma_table_cells_newline_free, parse_table, table_of,
};
use crate::writer::{
    RecordModel, ResultRecord, record_newline_free, render_records, write_records,
    lemma_output_line_count,
};

verus! {

/// The designated column of the fixed schema: the third column, zero-based.
pub const TARGET_COLUMN: usize = 2;

/// How processing one file can fail; the run as a whole never does.
#[derive(Clone, Copy, Debug, PartialEq, Eq, Structural)]
pub enum SummaryFault {
    /// The file's rows do not share one column count.
    ParseError,
    /// The file has no rows.
    EmptyTableError,
    /// The table has no column at the target index.
    ColumnNotFoundError,
    /// A cell of the target column is not numeric.
    NonNumericColumnError,
}

/// What processing one file yields: the summary record of its minimum row,
/// or the first fault found, checking the column count, then emptiness,
/// then the target column's presence, then its numeric cells.
pub open spec fn process_spec(path: Seq<u8>, contents: Seq<u8>, col: int) -> Result<
    RecordModel,
    SummaryFault,
> {
    let rows = table_of(contents);
    if !consistent_columns(rows) {
        Err(SummaryFault::ParseError)
    } else if rows.len() == 0 {
        Err(SummaryFault::EmptyTableError)
    } else if col >= rows[0].len() {
        Err(SummaryFault::ColumnNotFoundError)
    } else if !column_is_numeric(rows, col) {
        Err(SummaryFault::NonNumericColumnError)
    } else {
        let i = arg_min_idx(rows, col, rows.len() as int);
        Ok(RecordModel { stem: stem_of(path), row_index: i + 1, row: rows[i] })
    }
}

/// Processes one file: parses its bytes, finds the minimum row of column
/// `col`, and builds the record — exactly as `process_spec` says.
pub fn process_file(path: &Vec<u8>, contents: &Vec<u8>, col: usize) -> (r: Result<
    ResultRecord,
    SummaryFault,
>)
    ensures
        match r {
            Ok(rec) => process_spec(path@, contents@, col as int) == Ok::<
                RecordModel,
                SummaryFault,
            >(rec@),
            Err(e) => process_spec(path@, contents@, col as int) == Err::<
                RecordModel,
                SummaryFault,
            >(e),
        },
{
    let t = match parse_table(contents) {
        Ok(t) => t,
        Err(_) => {
            return Err(SummaryFault::ParseError);
        },
    };
    match find_min_row(&t, col) {
        Ok((i, row)) => {
            let stem = stem_bytes(path);
            proof {
                lemma_arg_min_idx(t@, col as int, t@.len() as int);
            }
            let rec = ResultRecord { stem, row_index: i + 1, row };
            proof {
                assert(rec@ == RecordModel {
                    stem: stem_of(path@),
                    row_index: arg_min_idx(t@, col as int, t@.len() as int) + 1,
                    row: t@[i as int],
                });
            }
            Ok(rec)
        },
        Err(ReduceFault::EmptyTable) => Err(SummaryFault::EmptyTableError),
        Err(ReduceFault::ColumnNotFound) => Err(SummaryFault::ColumnNotFoundError),
        Err(ReduceFault::NonNumericColumn) => Err(SummaryFault::NonNumericColumnError),
    }
}

/// The records of the files that process successfully, in input order.
pub open spec fn records_spec(files: Seq<(Seq<u8>, Seq<u8>)>, col: int) -> Seq<RecordModel>
    decreases files.len(),
{
    if files.len() == 0 {
        Seq::empty()
    } else {
        let rest = records_spec(files.drop_last(), col);
        match process_spec(files.last().0, files.last().1, col) {
            Ok(r) => rest.push(r),
            Err(_) => rest,
        }
    }
}

/// The files that fail, each with its input position and its fault.
pub open spec fn failures_spec(files: Seq<(Seq<u8>, Seq<u8>)>, col: int) -> Seq<
    (int, SummaryFault),
>
    decreases files.len(),
{
    if files.len() == 0 {
        Seq::empty()
    } else {
        let rest = failures_spec(files.drop_last(), col);
        match process_spec(files.last().0, files.last().1, col) {
            Ok(_) => rest,
            Err(e) => rest.push((files.len() - 1, e)),
        }
    }
}

/// The whole run's output: the successful records' lines, in input order.
pub open spec fn pipeline_spec(files: Seq<(Seq<u8>, Seq<u8>)>, col: int) -> Seq<u8> {
    render_records(records_spec(files, col))
}

/// Runs the pipeline over loaded files — each a path with its contents —
/// in order: the output bytes are exactly `pipeline_spec`, and the files
/// that were skipped are reported with their input positions and faults.
pub fn run_pipeline(files: &Vec<(Vec<u8>, Vec<u8>)>, col: usize) -> (r: (
    Vec<u8>,
    Vec<(usize, SummaryFault)>,
))
    ensures
        r.0@ == pipeline_spec(files.deep_view(), col as int),
        r.1@.map_values(|p: (usize, SummaryFault)| (p.0 as int, p.1)) == failures_spec(
            files.deep_view(),
            col as int,
        ),
{
    let ghost fv = files.deep_view();
    let mut records: Vec<ResultRecord> = Vec::new();
    let mut failures: Vec<(usize, SummaryFault)> = Vec::new();
    let mut i: usize = 0;
    proof {
        assert(fv.take(0) =~= Seq::<(Seq<u8>, Seq<u8>)>::empty());
        assert(records@.map_values(|r: ResultRecord| r@) =~= records_spec(fv.take(0), col as int));
        assert(failures@.map_values(|p: (usize, SummaryFault)| (p.0 as int, p.1)) =~=
            failures_spec(fv.take(0), col as int));
    }
    while i < files.len()
        invariant
            i <= files@.len(),
            fv == files.deep_view(),
            fv.len() == files@.len(),
            records@.map_values(|r: ResultRecord| r@) == records_spec(fv.take(i as int), col as int),
            failures@.map_values(|p: (usize, SummaryFault)| (p.0 as int, p.1)) == failures_spec(
                fv.take(i as int),
                col as int,
            ),
        decreases files@.len() - i,
    {
        let ghost pre = fv.take(i as int);
        proof {
            assert(fv.take(i as int + 1).drop_last() =~= pre);
            assert(fv.take(i as int + 1).last() == fv[i as int]);
            assert(fv[i as int] == files@[i as int].deep_view());
            assert(files@[i as int].deep_view().0 =~= files@[i as int].0@);
            assert(files@[i as int].deep_view().1 =~= files@[i as int].1@);
        }
        let pair = &files[i];
        match process_file(&pair.0, &pair.1, col) {
            Ok(rec) => {
                let ghost old_records = records@.map_values(|r: ResultRecord| r@);
                records.push(rec);
                proof {
                    assert(records@.map_values(|r: ResultRecord| r@) =~= old_records.push(rec@));
                }
            },
            Err(e) => {
                let ghost old_failures = failures@.map_values(
                    |p: (usize, SummaryFault)| (p.0 as int, p.1),
                );
                failures.push((i, e));
                proof {
                    assert(failures@.map_values(|p: (usize, SummaryFault)| (p.0 as int, p.1)) =~=
                        old_failures.push((i as int, e)));
                }
            },
        }
        i = i + 1;
    }
    proof {
        assert(fv.take(files@.len() as int) =~= fv);
    }
    let out = write_records(&records);
    (out, failures)
}

/// Determinism: the whole output is a function of the discovered files'
/// bytes and the target column alone, so re-running the pipeline over an
/// unchanged directory gives byte-identical output.
pub proof fn lemma_pipeline_deterministic(
    a: Seq<(Seq<u8>, Seq<u8>)>,
    b: Seq<(Seq<u8>, Seq<u8>)>,
    col: int,
)
    requires
        a == b,
    ensures
        pipeline_spec(a, col) == pipeline_spec(b, col),
{
}

/// Every successful record is line-clean with a positive row index: its
/// stem comes from a path free of newline bytes, and its cells from lines
/// split at newlines.
proof fn lemma_records_clean(files: Seq<(Seq<u8>, Seq<u8>)>, col: int)
    requires
        forall|k: int| 0 <= k < files.len() ==> count_byte((#[trigger] files[k]).0, 10u8) == 0,
    ensures
        forall|k: int|
            0 <= k < records_spec(files, col).len() ==> record_newline_free(
                #[trigger] records_spec(files, col)[k],
            ),
        forall|k: int|
            0 <= k < records_spec(files, col).len() ==> (#[trigger] records_spec(files, col)[k]).row_index
                >= 0,
    decreases files.len(),
{
    if files.len() > 0 {
        assert(forall|k: int|
            0 <= k < files.len() - 1 ==> files.drop_last()[k] == #[trigger] files[k]);
        lemma_records_clean(files.drop_last(), col);
        let rs = records_spec(files, col);
        let rest = records_spec(files.drop_last(), col);
        match process_spec(files.last().0, files.last().1, col) {
            Ok(r) => {
                let path = files.last().0;
                let contents = files.last().1;
                let rows = table_of(contents);
                assert(files.last() == files[files.len() - 1]);
                crate::bytes::lemma_count_byte_zero(path, 10u8);
                lemma_stem_avoids_byte(path, 10u8);
                crate::bytes::lemma_count_byte_zero(r.stem, 10u8);
                lemma_table_cells_newline_free(contents);
                let i = arg_min_idx(rows, col, rows.len() as int);
                lemma_arg_min_idx(rows, col, rows.len() as int);
                assert(r.row == rows[i]);
                assert(consistent_columns(rows));
                assert(rows[i].len() == rows[0].len());
                assert(forall|k: int|
                    0 <= k < r.row.len() ==> count_byte(#[trigger] r.row[k], 10u8) == 0);
                assert(record_newline_free(r));
                assert(forall|k: int| 0 <= k < rs.len() - 1 ==> rs[k] == rest[k]);
                assert(rs[rs.len() - 1] == r);
            },
            Err(_) => {
                assert(forall|k: int| 0 <= k < rs.len() ==> rs[k] == rest[k]);
            },
        }
    }
}

/// The output has exactly as many lines as files that processed
/// successfully — one newline byte per successful record, never more —
/// whenever no discovered path itself holds a newline byte.
pub proof fn lemma_pipeline_line_count(files: Seq<(Seq<u8>, Seq<u8>)>, col: int)
    requires
        forall|k: int| 0 <= k < files.len() ==> count_byte((#[trigger] files[k]).0, 10u8) == 0,
    ensures
        count_byte(pipeline_spec(files, col), 10u8) == records_spec(files, col).len(),
{
    lemma_records_clean(files, col);
    lemma_output_line_count(records_spec(files, col));
}

} // verus!
