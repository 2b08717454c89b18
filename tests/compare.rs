use excel_merge::compare::{compare, CompareInput, CompareOutput};
use excel_merge::normalize::{normalize_key, CompareOptions};
use excel_merge::table::MergeError;

fn texts(v: &[&str]) -> Vec<String> {
    v.iter().map(|s| s.to_string()).collect()
}

fn rows(v: &[&[&str]]) -> Vec<Vec<String>> {
    v.iter().map(|r| texts(r)).collect()
}

fn plain() -> CompareOptions {
    CompareOptions { trim: false, case_insensitive: false }
}

fn input(
    lh: &[&str],
    lr: &[&[&str]],
    rh: &[&str],
    rr: &[&[&str]],
    key: &str,
    options: CompareOptions,
) -> CompareInput {
    CompareInput {
        left_headers: texts(lh),
        left_rows: rows(lr),
        right_headers: texts(rh),
        right_rows: rows(rr),
        key: key.to_string(),
        options,
    }
}

fn run(i: &CompareInput) -> CompareOutput {
    compare(i).expect("key column present")
}

#[test]
fn scenario_one_match_with_diff() {
    let i = input(&["id", "name"], &[&["1", "a"]], &["id", "name"], &[&["1", "b"]], "id", plain());
    let out = run(&i);
    assert_eq!(out.result.rows, rows(&[&["1", "a", "1", "b", "both", "name", "0"]]));
    assert!(out.left_only.rows.is_empty());
    assert!(out.right_only.rows.is_empty());
    assert!(out.duplicates.rows.is_empty());
    assert_eq!(
        out.result.headers,
        texts(&["L__id", "L__name", "R__id", "R__name", "match_status", "diff_cols", "dup_key_flag"])
    );
    assert_eq!(out.left_only.headers, out.result.headers);
    assert_eq!(out.duplicates.headers, out.result.headers);
}

#[test]
fn scenario_left_duplicates_take_the_key() {
    let i = input(
        &["id", "v"],
        &[&["1", "x"], &["1", "y"]],
        &["id", "v"],
        &[&["1", "z"]],
        "id",
        plain(),
    );
    let out = run(&i);
    assert_eq!(
        out.duplicates.rows,
        rows(&[&["1", "x", "", "", "left_only", "", "1"], &["1", "y", "", "", "left_only", "", "1"]])
    );
    assert!(out.result.rows.is_empty());
    assert!(out.right_only.rows.is_empty());
    assert!(out.left_only.rows.is_empty());
}

#[test]
fn right_duplicates_go_to_duplicates_and_drop_the_single_left_row() {
    let i = input(
        &["id"],
        &[&["1"]],
        &["id", "w"],
        &[&["1", "p"], &["1", "q"]],
        "id",
        plain(),
    );
    let out = run(&i);
    assert_eq!(
        out.duplicates.rows,
        rows(&[&["", "1", "p", "right_only", "", "1"], &["", "1", "q", "right_only", "", "1"]])
    );
    assert!(out.result.rows.is_empty());
    assert!(out.left_only.rows.is_empty());
    assert!(out.right_only.rows.is_empty());
}

#[test]
fn trimmed_case_folded_keys_match() {
    let opts = CompareOptions { trim: true, case_insensitive: true };
    let i = input(&["id", "n"], &[&[" A ", "x"]], &["id", "n"], &[&["a", "x"]], "id", opts);
    let out = run(&i);
    assert_eq!(out.result.rows, rows(&[&[" A ", "x", "a", "x", "both", "id", "0"]]));
    assert!(out.left_only.rows.is_empty());
    assert!(out.right_only.rows.is_empty());
}

#[test]
fn untrimmed_keys_do_not_match() {
    let i = input(&["id"], &[&[" A "]], &["id"], &[&["a"]], "id", plain());
    let out = run(&i);
    assert!(out.result.rows.is_empty());
    assert_eq!(out.left_only.rows, rows(&[&[" A ", "", "left_only", "", "0"]]));
    assert_eq!(out.right_only.rows, rows(&[&["", "a", "right_only", "", "0"]]));
}

#[test]
fn normalize_key_trims_then_lowercases() {
    let both = CompareOptions { trim: true, case_insensitive: true };
    assert_eq!(normalize_key("  HeLLo ", &both), "hello");
    let trim_only = CompareOptions { trim: true, case_insensitive: false };
    assert_eq!(normalize_key("  HeLLo ", &trim_only), "HeLLo");
    let fold_only = CompareOptions { trim: false, case_insensitive: true };
    assert_eq!(normalize_key("  HeLLo ", &fold_only), "  hello ");
    assert_eq!(normalize_key("  HeLLo ", &plain()), "  HeLLo ");
}

#[test]
fn key_column_missing_on_either_side() {
    let i = input(&["id"], &[&["1"]], &["code"], &[&["1"]], "id", plain());
    assert!(matches!(compare(&i), Err(MergeError::KeyColumnNotFound)));
    let j = input(&["code"], &[&["1"]], &["id"], &[&["1"]], "id", plain());
    assert!(matches!(compare(&j), Err(MergeError::KeyColumnNotFound)));
}

#[test]
fn key_columns_at_different_positions() {
    let i = input(
        &["id", "a"],
        &[&["7", "x"]],
        &["b", "id"],
        &[&["y", "7"]],
        "id",
        plain(),
    );
    let out = run(&i);
    assert_eq!(out.result.rows, rows(&[&["7", "x", "y", "7", "both", "", "0"]]));
}

#[test]
fn diff_lists_only_shared_headers_in_left_order() {
    let i = input(
        &["id", "c", "only_left", "b"],
        &[&["1", "x", "q", "y"]],
        &["b", "id", "c", "only_right"],
        &[&["z", "1", "w", "r"]],
        "id",
        plain(),
    );
    let out = run(&i);
    assert_eq!(out.result.rows.len(), 1);
    let row = &out.result.rows[0];
    assert_eq!(row[row.len() - 2], "c,b");
}

#[test]
fn missing_cells_read_as_empty_in_diff() {
    let i = input(&["id", "n"], &[&["1"]], &["id", "n"], &[&["1", ""]], "id", plain());
    let out = run(&i);
    assert_eq!(out.result.rows, rows(&[&["1", "1", "", "both", "", "0"]]));
    let j = input(&["id", "n"], &[&["1"]], &["id", "n"], &[&["1", "v"]], "id", plain());
    let out2 = run(&j);
    assert_eq!(out2.result.rows, rows(&[&["1", "1", "v", "both", "n", "0"]]));
}

#[test]
fn rows_without_key_cell_are_skipped() {
    let i = input(&["a", "id"], &[&["x"], &["y", "2"]], &["id"], &[], "id", plain());
    let out = run(&i);
    assert_eq!(out.left_only.rows, rows(&[&["y", "2", "", "left_only", "", "0"]]));
    assert!(out.duplicates.rows.is_empty());
}

#[test]
fn left_only_rows_are_cut_or_padded_to_width() {
    let i = input(&["id"], &[&["1", "extra", "more"]], &["id", "r"], &[], "id", plain());
    let out = run(&i);
    assert_eq!(out.left_only.rows, rows(&[&["1", "extra", "more", "left_only", "", "0"]]));
    let j = input(&["id"], &[&["1", "x", "y"]], &["id"], &[], "id", plain());
    let out2 = run(&j);
    assert_eq!(out2.left_only.rows, rows(&[&["1", "x", "left_only", "", "0"]]));
}

#[test]
fn right_duplicates_of_left_duplicated_key_are_not_emitted() {
    let i = input(
        &["id"],
        &[&["1"], &["1"]],
        &["id"],
        &[&["1"], &["1"], &["2"]],
        "id",
        plain(),
    );
    let out = run(&i);
    assert_eq!(
        out.duplicates.rows,
        rows(&[&["1", "", "left_only", "", "1"], &["1", "", "left_only", "", "1"]])
    );
    assert_eq!(out.right_only.rows, rows(&[&["", "2", "right_only", "", "0"]]));
}

#[test]
fn output_rows_follow_input_order() {
    let i = input(
        &["id"],
        &[&["3"], &["1"], &["2"], &["9"]],
        &["id"],
        &[&["2"], &["8"], &["3"], &["1"], &["7"]],
        "id",
        plain(),
    );
    let out = run(&i);
    let firsts: Vec<String> = out.result.rows.iter().map(|r| r[0].clone()).collect();
    assert_eq!(firsts, texts(&["3", "1", "2"]));
    let rights: Vec<String> = out.right_only.rows.iter().map(|r| r[1].clone()).collect();
    assert_eq!(rights, texts(&["8", "7"]));
    assert_eq!(out.left_only.rows, rows(&[&["9", "", "left_only", "", "0"]]));
}

#[test]
fn log_summarises_the_request() {
    let opts = CompareOptions { trim: true, case_insensitive: false };
    let mut lr: Vec<&[&str]> = Vec::new();
    for _ in 0..12 {
        lr.push(&["k"]);
    }
    let i = input(&["id"], &lr, &["id"], &[&["k"]], "id", opts);
    let out = run(&i);
    let log: Vec<(String, String)> = vec![
        ("left_rows".to_string(), "12".to_string()),
        ("right_rows".to_string(), "1".to_string()),
        ("key_column".to_string(), "id".to_string()),
        ("trim".to_string(), "true".to_string()),
        ("case_insensitive".to_string(), "false".to_string()),
    ];
    assert_eq!(out.log, log);
    assert_eq!(out.duplicates.rows.len(), 12);
}

#[test]
fn comparing_twice_gives_identical_output() {
    let i = input(
        &["id", "v"],
        &[&["1", "a"], &["2", "b"], &["2", "c"], &["4", "d"]],
        &["id", "v"],
        &[&["1", "x"], &["3", "y"], &["4", "d"], &["3", "z"]],
        "id",
        plain(),
    );
    let a = run(&i);
    let b = run(&i);
    assert_eq!(format!("{:?}", a), format!("{:?}", b));
    assert_eq!(a.result.rows.len(), 2);
    assert_eq!(a.duplicates.rows.len(), 4);
}

#[test]
fn every_keyed_row_lands_once_except_the_dropped_case() {
    let i = input(
        &["id"],
        &[&["1"], &["2"], &["2"], &["3"], &["5"]],
        &["id"],
        &[&["1"], &["3"], &["3"], &["4"], &["2"]],
        "id",
        plain(),
    );
    let out = run(&i);
    // "1" matches; "2" is duplicated on the left (its right row is not emitted);
    // "3" is duplicated on the right (its single left row is dropped);
    // "4" is right-only; "5" is left-only.
    assert_eq!(out.result.rows.len(), 1);
    assert_eq!(out.left_only.rows, rows(&[&["5", "", "left_only", "", "0"]]));
    assert_eq!(out.right_only.rows, rows(&[&["", "4", "right_only", "", "0"]]));
    assert_eq!(out.duplicates.rows.len(), 4);
    let statuses: Vec<String> =
        out.duplicates.rows.iter().map(|r| r[r.len() - 3].clone()).collect();
    assert_eq!(statuses, texts(&["left_only", "left_only", "right_only", "right_only"]));
}
