//! End-to-end and unit tests of the summary pipeline.

use csv_summary::paths::{
    cap_files, extension_bytes, path_has_extension, select_by_extension, select_by_prefix,
    stem_bytes,
};
use csv_summary::numeric::parse_numeric_field;
use csv_summary::pipeline::{process_file, run_pipeline, SummaryFault, TARGET_COLUMN};
use csv_summary::reduce::{find_min_row, ReduceFault};
use csv_summary::table::{parse_table, ParseFault};
use csv_summary::writer::{render_index, write_records, ResultRecord};

fn bv(s: &str) -> Vec<u8> {
    s.as_bytes().to_vec()
}

fn count_newlines(out: &[u8]) -> usize {
    out.iter().filter(|&&b| b == b'\n').count()
}

#[test]
fn min_row_is_first_minimum() {
    let t = parse_table(&bv("1,2,9\n1,2,3\n")).unwrap();
    let (i, row) = find_min_row(&t, TARGET_COLUMN).unwrap();
    assert_eq!(i, 1);
    assert_eq!(row, vec![bv("1"), bv("2"), bv("3")]);
}

#[test]
fn min_row_ties_take_lowest_index() {
    let t = parse_table(&bv("4,4,7\n1,1,7\n0,0,9\n")).unwrap();
    let (i, row) = find_min_row(&t, TARGET_COLUMN).unwrap();
    assert_eq!(i, 0);
    assert_eq!(row, vec![bv("4"), bv("4"), bv("7")]);
}

#[test]
fn min_row_handles_negative_values() {
    let t = parse_table(&bv("1,1,5\n2,2,-3\n3,3,0\n")).unwrap();
    let (i, row) = find_min_row(&t, TARGET_COLUMN).unwrap();
    assert_eq!(i, 1);
    assert_eq!(row[2], bv("-3"));
}

#[test]
fn min_row_of_empty_table_fails() {
    let t = parse_table(&bv("")).unwrap();
    assert_eq!(t.num_rows(), 0);
    assert_eq!(find_min_row(&t, TARGET_COLUMN), Err(ReduceFault::EmptyTable));
}

#[test]
fn min_row_of_missing_column_fails() {
    let t = parse_table(&bv("1,2\n3,4\n")).unwrap();
    assert_eq!(find_min_row(&t, TARGET_COLUMN), Err(ReduceFault::ColumnNotFound));
}

#[test]
fn min_row_of_text_column_fails() {
    let t = parse_table(&bv("1,2,x\n3,4,5\n")).unwrap();
    assert_eq!(find_min_row(&t, TARGET_COLUMN), Err(ReduceFault::NonNumericColumn));
}

#[test]
fn oversized_digit_runs_are_text() {
    let t = parse_table(&bv("1,1,1234567890123456789\n")).unwrap();
    assert_eq!(find_min_row(&t, TARGET_COLUMN), Err(ReduceFault::NonNumericColumn));
}

#[test]
fn inconsistent_columns_fail_to_parse() {
    assert_eq!(
        parse_table(&bv("1,2\n1,2,3\n")),
        Err(ParseFault::InconsistentColumns)
    );
}

#[test]
fn parse_keeps_raw_fields() {
    let t = parse_table(&bv("007,a b,-1\n")).unwrap();
    assert_eq!(t.rows, vec![vec![bv("007"), bv("a b"), bv("-1")]]);
}

#[test]
fn parse_without_trailing_newline() {
    let t = parse_table(&bv("1,2,3")).unwrap();
    assert_eq!(t.num_rows(), 1);
}

#[test]
fn numeric_fields_parse_exactly() {
    assert_eq!(parse_numeric_field(&bv("7")), Some(7));
    assert_eq!(parse_numeric_field(&bv("007")), Some(7));
    assert_eq!(parse_numeric_field(&bv("-5")), Some(-5));
    assert_eq!(parse_numeric_field(&bv("")), None);
    assert_eq!(parse_numeric_field(&bv("-")), None);
    assert_eq!(parse_numeric_field(&bv("12a")), None);
    assert_eq!(parse_numeric_field(&bv("1.5")), None);
    assert_eq!(parse_numeric_field(&bv("123456789012345678")), Some(123456789012345678));
    assert_eq!(parse_numeric_field(&bv("1234567890123456789")), None);
}

#[test]
fn two_files_give_two_summary_lines() {
    let files = vec![
        (bv("a.csv"), bv("1,2,9\n1,2,3\n")),
        (bv("b.csv"), bv("5,5,5\n")),
    ];
    let (out, failures) = run_pipeline(&files, TARGET_COLUMN);
    assert_eq!(out, bv("a,2,1,2,3\nb,1,5,5,5\n"));
    assert!(failures.is_empty());
}

#[test]
fn output_lines_match_successful_files() {
    let files = vec![
        (bv("a.csv"), bv("1,2,9\n1,2,3\n")),
        (bv("bad.csv"), bv("1,2\n1,2,3\n")),
        (bv("b.csv"), bv("5,5,5\n")),
    ];
    let (out, failures) = run_pipeline(&files, TARGET_COLUMN);
    assert_eq!(count_newlines(&out), 2);
    assert_eq!(failures, vec![(1, SummaryFault::ParseError)]);
}

#[test]
fn bad_file_is_excluded_and_reported() {
    let files = vec![(bv("bad.csv"), bv("1,2\n1,2,3\n"))];
    let (out, failures) = run_pipeline(&files, TARGET_COLUMN);
    assert!(out.is_empty());
    assert_eq!(failures, vec![(0, SummaryFault::ParseError)]);
}

#[test]
fn empty_file_set_gives_empty_output() {
    let files: Vec<(Vec<u8>, Vec<u8>)> = Vec::new();
    let (out, failures) = run_pipeline(&files, TARGET_COLUMN);
    assert!(out.is_empty());
    assert!(failures.is_empty());
}

#[test]
fn rerunning_gives_identical_bytes() {
    let files = vec![
        (bv("a.csv"), bv("1,2,9\n1,2,3\n")),
        (bv("b.csv"), bv("5,5,5\n")),
    ];
    let (first, _) = run_pipeline(&files, TARGET_COLUMN);
    let (second, _) = run_pipeline(&files, TARGET_COLUMN);
    assert_eq!(first, second);
}

#[test]
fn max_files_caps_the_run() {
    let mut paths = vec![bv("a.csv"), bv("b.csv")];
    cap_files(&mut paths, Some(1));
    assert_eq!(paths, vec![bv("a.csv")]);
    let files = vec![(bv("a.csv"), bv("1,2,9\n1,2,3\n"))];
    let (out, _) = run_pipeline(&files, TARGET_COLUMN);
    assert_eq!(count_newlines(&out), 1);
}

#[test]
fn cap_without_limit_keeps_everything() {
    let mut paths = vec![bv("a.csv"), bv("b.csv")];
    cap_files(&mut paths, None);
    assert_eq!(paths.len(), 2);
    cap_files(&mut paths, Some(9));
    assert_eq!(paths.len(), 2);
}

#[test]
fn selection_keeps_only_matching_extensions() {
    let paths = vec![bv("d/a.csv"), bv("d/b.txt"), bv("c.csv"), bv("e.CSV")];
    let sel = select_by_extension(&paths, &bv("csv"));
    assert_eq!(sel, vec![bv("d/a.csv"), bv("c.csv")]);
}

#[test]
fn selection_keeps_only_prefixed_names() {
    let names = vec![bv("fit1"), bv("other"), bv("fit_two"), bv("fi")];
    let sel = select_by_prefix(&names, &bv("fit"));
    assert_eq!(sel, vec![bv("fit1"), bv("fit_two")]);
}

#[test]
fn extension_and_stem_follow_the_file_name() {
    assert_eq!(stem_bytes(&bv("dir/a.csv")), bv("a"));
    assert_eq!(stem_bytes(&bv("a.tar.gz")), bv("a.tar"));
    assert_eq!(stem_bytes(&bv(".hidden")), bv(".hidden"));
    assert_eq!(extension_bytes(&bv("dir/a.csv")), Some(bv("csv")));
    assert_eq!(extension_bytes(&bv(".hidden")), None);
    assert_eq!(extension_bytes(&bv("plain")), None);
    assert_eq!(extension_bytes(&bv("a.")), Some(bv("")));
    assert!(path_has_extension(&bv("x/y.csv"), &bv("csv")));
    assert!(!path_has_extension(&bv("x/y.Csv"), &bv("csv")));
}

#[test]
fn index_renders_in_decimal() {
    assert_eq!(render_index(0), bv("0"));
    assert_eq!(render_index(10), bv("10"));
    assert_eq!(render_index(205), bv("205"));
}

#[test]
fn writer_quotes_fields_that_need_it() {
    let records = vec![ResultRecord {
        stem: bv("a,b"),
        row_index: 1,
        row: vec![bv("x\"y")],
    }];
    let out = write_records(&records);
    assert_eq!(out, bv("\"a,b\",1,\"x\"\"y\"\n"));
}

#[test]
fn writer_keeps_supplied_order() {
    let records = vec![
        ResultRecord { stem: bv("b"), row_index: 2, row: vec![bv("1")] },
        ResultRecord { stem: bv("a"), row_index: 1, row: vec![bv("2")] },
    ];
    let out = write_records(&records);
    assert_eq!(out, bv("b,2,1\na,1,2\n"));
}

#[test]
fn process_file_builds_the_record() {
    let rec = process_file(&bv("runs/a.csv"), &bv("1,2,9\n1,2,3\n"), TARGET_COLUMN).unwrap();
    assert_eq!(rec.stem, bv("a"));
    assert_eq!(rec.row_index, 2);
    assert_eq!(rec.row, vec![bv("1"), bv("2"), bv("3")]);
}

#[test]
fn process_file_reports_each_fault() {
    let col = TARGET_COLUMN;
    assert_eq!(
        process_file(&bv("a.csv"), &bv("1,2\n1,2,3\n"), col),
        Err(SummaryFault::ParseError)
    );
    assert_eq!(process_file(&bv("a.csv"), &bv(""), col), Err(SummaryFault::EmptyTableError));
    assert_eq!(
        process_file(&bv("a.csv"), &bv("1,2\n"), col),
        Err(SummaryFault::ColumnNotFoundError)
    );
    assert_eq!(
        process_file(&bv("a.csv"), &bv("1,2,x\n"), col),
        Err(SummaryFault::NonNumericColumnError)
    );
}
