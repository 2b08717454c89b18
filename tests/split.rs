use excel_merge::split::{split, SplitInput, SplitOutput};
use excel_merge::table::MergeError;

fn texts(v: &[&str]) -> Vec<String> {
    v.iter().map(|s| s.to_string()).collect()
}

fn rows(v: &[&[&str]]) -> Vec<Vec<String>> {
    v.iter().map(|r| texts(r)).collect()
}

fn run(headers: &[&str], r: &[&[&str]], key: &str) -> SplitOutput {
    let input = SplitInput { headers: texts(headers), rows: rows(r), key: key.to_string() };
    split(&input).expect("key column present")
}

fn keys(out: &SplitOutput) -> Vec<String> {
    out.parts.iter().map(|p| p.key_value.clone()).collect()
}

#[test]
fn scenario_split_orders_by_code_point() {
    let out = run(&["k", "v"], &[&["b", "1"], &["", "2"], &["a", "3"]], "k");
    assert_eq!(keys(&out), texts(&["EMPTY", "a", "b"]));
    assert_eq!(out.parts[0].table.rows, rows(&[&["", "2"]]));
    assert_eq!(out.parts[1].table.rows, rows(&[&["a", "3"]]));
    assert_eq!(out.parts[2].table.rows, rows(&[&["b", "1"]]));
    for p in &out.parts {
        assert_eq!(p.table.headers, texts(&["k", "v"]));
    }
}

#[test]
fn split_groups_trimmed_values_and_keeps_rows_unchanged() {
    let out = run(&["v", "k"], &[&["1", " x "], &["2", "y"], &["3", "x"], &["4", "   "]], "k");
    assert_eq!(keys(&out), texts(&["EMPTY", "x", "y"]));
    assert_eq!(out.parts[0].table.rows, rows(&[&["4", "   "]]));
    assert_eq!(out.parts[1].table.rows, rows(&[&["1", " x "], &["3", "x"]]));
    assert_eq!(out.parts[2].table.rows, rows(&[&["2", "y"]]));
}

#[test]
fn split_missing_cell_goes_under_empty() {
    let out = run(&["v", "k"], &[&["1"], &["2", "z"]], "k");
    assert_eq!(keys(&out), texts(&["EMPTY", "z"]));
    assert_eq!(out.parts[0].table.rows, rows(&[&["1"]]));
}

#[test]
fn split_of_no_rows_has_no_parts() {
    let out = run(&["k"], &[], "k");
    assert!(out.parts.is_empty());
}

#[test]
fn split_sorts_prefixes_first_and_upper_case_before_lower() {
    let out = run(&["k"], &[&["ab"], &["a"], &["B"], &["abc"], &["a"]], "k");
    assert_eq!(keys(&out), texts(&["B", "a", "ab", "abc"]));
    assert_eq!(out.parts[1].table.rows.len(), 2);
}

#[test]
fn split_key_column_missing() {
    let input = SplitInput { headers: texts(&["a"]), rows: rows(&[&["1"]]), key: "k".to_string() };
    assert!(matches!(split(&input), Err(MergeError::KeyColumnNotFound)));
}
