//! The min-row reducer: the index of the row holding the minimum value of
//! a designated column, ties resolved by the lowest row index.

use vstd::prelude::*;
use crate::bytes::copy_bytes;
use crate::numeric::{is_numeric_field, field_value, parse_numeric_field};
use crate::table::Table;

verus! {

/// Every row's cell in column `col` is numeric.
pub open spec fn column_is_numeric(rows: Seq<Seq<Seq<u8>>>, col: int) -> bool {
    forall|i: int| 0 <= i < rows.len() ==> is_numeric_field(#[trigger] rows[i][col])
}

/// The value of row `i` in column `col`.
pub open spec fn column_value(rows: Seq<Seq<Seq<u8>>>, col: int, i: int) -> int {
    field_value(rows[i][col])
}

/// The index of the first minimum of column `col` among the first `n` rows.
pub open spec fn arg_min_idx(rows: Seq<Seq<Seq<u8>>>, col: int, n: int) -> int
    decreases n,
{
    if n <= 1 {
        0
    } else {
        let r = arg_min_idx(rows, col, n - 1);
        if column_value(rows, col, n - 1) < column_value(rows, col, r) {
            n - 1
        } else {
            r
        }
    }
}

/// The first minimum really is one: no row of the column holds a strictly
/// smaller value, and every earlier row holds a strictly greater one.
pub proof fn lemma_arg_min_idx(rows: Seq<Seq<Seq<u8>>>, col: int, n: int)
    requires
        1 <= n,
    ensures
        0 <= arg_min_idx(rows, col, n) < n,
        forall|j: int|
            0 <= j < n ==> #[trigger] column_value(rows, col, j) >= column_value(
                rows,
                col,
                arg_min_idx(rows, col, n),
            ),
        forall|j: int|
            0 <= j < arg_min_idx(rows, col, n) ==> #[trigger] column_value(rows, col, j)
                > column_value(rows, col, arg_min_idx(rows, col, n)),
    decreases n,
{
    if n > 1 {
        lemma_arg_min_idx(rows, col, n - 1);
    }
}

/// A cell of the table, by row and column.
fn cell_at<'a>(t: &'a Table, i: usize, col: usize) -> (c: &'a Vec<u8>)
    requires
        i < t@.len(),
        col < t@[i as int].len(),
    ensures
        c@ == t@[i as int][col as int],
{
    proof {
        assert(t@.len() == t.rows@.len());
        assert(t@[i as int] == t.rows@[i as int].deep_view());
        assert(t@[i as int].len() == t.rows@[i as int]@.len());
        assert(t.rows@[i as int].deep_view()[col as int] == t.rows@[i as int]@[
            col as int
        ].deep_view());
        assert(t.rows@[i as int]@[col as int].deep_view() =~= t.rows@[i as int]@[col as int]@);
    }
    &t.rows[i][col]
}

/// Copies one row of cells.
fn clone_row(r: &Vec<Vec<u8>>) -> (c: Vec<Vec<u8>>)
    ensures
        c.deep_view() == r.deep_view(),
{
    let mut c: Vec<Vec<u8>> = Vec::new();
    let mut k: usize = 0;
    proof {
        assert(c.deep_view() =~= r.deep_view().take(0));
    }
    while k < r.len()
        invariant
            k <= r@.len(),
            c.deep_view() == r.deep_view().take(k as int),
        decreases r@.len() - k,
    {
        let ghost before = c.deep_view();
        let piece = copy_bytes(&r[k]);
        c.push(piece);
        proof {
            assert(r.deep_view()[k as int] == r@[k as int].deep_view());
            assert(r@[k as int].deep_view() =~= r@[k as int]@);
            assert(c.deep_view() =~~= before.push(r@[k as int]@));
            assert(c.deep_view() =~= r.deep_view().take(k as int + 1));
        }
        k = k + 1;
    }
    proof {
        assert(r.deep_view().take(r@.len() as int) =~= r.deep_view());
    }
    c
}

/// How the reducer can fail: an empty table, a column the table does not
/// have, or a target column holding a cell that is not numeric.
#[derive(Clone, Copy, Debug, PartialEq, Eq, Structural)]
pub enum ReduceFault {
    EmptyTable,
    ColumnNotFound,
    NonNumericColumn,
}

/// Finds the row with the minimum value in column `col` of a well-formed
/// table: the returned index is the lowest index of a minimal value, and
/// the returned row is that row's cells.  Fails exactly on an empty table,
/// a missing column, or a column with a non-numeric cell, in that order of
/// checks.
pub fn find_min_row(t: &Table, col: usize) -> (r: Result<(usize, Vec<Vec<u8>>), ReduceFault>)
    requires
        t.wf(),
    ensures
        match r {
            Ok(p) => {
                &&& t@.len() > 0
                &&& (col as int) < t@[0].len()
                &&& column_is_numeric(t@, col as int)
                &&& (p.0 as int) < t@.len()
                &&& p.0 as int == arg_min_idx(t@, col as int, t@.len() as int)
                &&& p.1.deep_view() == t@[p.0 as int]
                &&& forall|j: int|
                    0 <= j < t@.len() ==> #[trigger] column_value(t@, col as int, j)
                        >= column_value(t@, col as int, p.0 as int)
                &&& forall|j: int|
                    0 <= j < p.0 ==> #[trigger] column_value(t@, col as int, j) > column_value(
                        t@,
                        col as int,
                        p.0 as int,
                    )
            },
            Err(ReduceFault::EmptyTable) => t@.len() == 0,
            Err(ReduceFault::ColumnNotFound) => t@.len() > 0 && col as int >= t@[0].len(),
            Err(ReduceFault::NonNumericColumn) => {
                &&& t@.len() > 0
                &&& (col as int) < t@[0].len()
                &&& !column_is_numeric(t@, col as int)
            },
        },
{
    let nrows = t.rows.len();
    proof {
        assert(t@.len() == t.rows@.len());
    }
    if nrows == 0 {
        return Err(ReduceFault::EmptyTable);
    }
    proof {
        assert(t@[0].len() == t.rows@[0].deep_view().len());
        assert(t@[0] == t.rows@[0].deep_view());
        assert(t@[0].len() == t.rows@[0]@.len());
    }
    let ncols = t.rows[0].len();
    if col >= ncols {
        return Err(ReduceFault::ColumnNotFound);
    }
    let first = cell_at(t, 0, col);
    let mut best_v: i64 = match parse_numeric_field(first) {
        Some(v) => v,
        None => {
            return Err(ReduceFault::NonNumericColumn);
        },
    };
    let mut best_i: usize = 0;
    let mut i: usize = 1;
    while i < nrows
        invariant
            1 <= i <= nrows == t@.len(),
            t.wf(),
            (col as int) < t@[0].len(),
            forall|j: int| 0 <= j < i ==> is_numeric_field(#[trigger] t@[j][col as int]),
            (best_i as int) < i,
            best_i as int == arg_min_idx(t@, col as int, i as int),
            best_v as int == column_value(t@, col as int, best_i as int),
        decreases nrows - i,
    {
        proof {
            assert(t@[i as int].len() == t@[0].len());
        }
        let cell = cell_at(t, i, col);
        match parse_numeric_field(cell) {
            Some(v) => {
                if v < best_v {
                    best_i = i;
                    best_v = v;
                }
            },
            None => {
                return Err(ReduceFault::NonNumericColumn);
            },
        }
        i = i + 1;
    }
    proof {
        lemma_arg_min_idx(t@, col as int, t@.len() as int);
        assert(t@[best_i as int].len() == t@[0].len());
    }
    let row = clone_row(&t.rows[best_i]);
    proof {
        assert(t@[best_i as int] == t.rows@[best_i as int].deep_view());
    }
    Ok((best_i, row))
}

} // verus!
