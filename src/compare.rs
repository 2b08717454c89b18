//! Reconciliation of a left and a right table on a key column.
//!
//! Rows are grouped by their normalized key on each side. A key held by more
//! than one left row sends those rows to `duplicates`; otherwise a key held by
//! more than one right row sends those to `duplicates`. A key held by exactly
//! one row on each side is a match. A key held by one left row and no right
//! row is left-only, and one held by one right row and no left row is
//! right-only. Two cases emit nothing: the right rows of a key duplicated on
//! the left, and the single left row of a key duplicated on the right. A row
//! without a cell in the key column is skipped.
//!
//! Every output table lists its rows in input order; `duplicates` lists the
//! left rows before the right ones.
use vstd::prelude::*;
use crate::table::{
    TableData, MergeError, row_view, rows_view, fit, blanks, find_from, count_upto, find_header,
    copy_row, lemma_find_from, lemma_count_zero, lemma_rows_view_push,
};
use crate::normalize::{CompareOptions, normalized, normalize_key};
use crate::compare_rows::{
    join_names, diff_names, decimal, bool_text, decimal_string, bool_string, prefixed,
    header_positions, diff_columns, fit_row, shifted_row, joined_row, with_status,
};

verus! {

/// A reconciliation request.
#[derive(Debug)]
pub struct CompareInput {
    pub left_headers: Vec<String>,
    pub left_rows: Vec<Vec<String>>,
    pub right_headers: Vec<String>,
    pub right_rows: Vec<Vec<String>>,
    /// The name of the key column, looked up in each side's headers.
    pub key: String,
    pub options: CompareOptions,
}

/// The four tables of a reconciliation, which share one header list, and a
/// summary of the request.
#[derive(Debug)]
pub struct CompareOutput {
    pub result: TableData,
    pub left_only: TableData,
    pub right_only: TableData,
    pub duplicates: TableData,
    pub log: Vec<(String, String)>,
}

/// Where an input row goes.
#[derive(Debug, Clone, Copy, PartialEq, Eq)]
pub enum RowFate {
    Matched,
    LeftOnly,
    RightOnly,
    Duplicate,
    /// Its key is claimed by the duplicates of the other side.
    Dropped,
    /// It has no cell in the key column.
    NoKey,
}

/// The normalized key of each row, `None` for a row with no cell at `k`.
pub open spec fn key_list(rows: Seq<Seq<Seq<char>>>, k: int, options: CompareOptions) -> Seq<
    Option<Seq<char>>,
> {
    Seq::new(
        rows.len(),
        |i: int|
            if 0 <= k < rows[i].len() {
                Some(normalized(rows[i][k], options))
            } else {
                None
            },
    )
}

/// The characters of each key of a key list.
pub open spec fn keys_view(ks: Seq<Option<String>>) -> Seq<Option<Seq<char>>> {
    ks.map_values(
        |o: Option<String>|
            match o {
                Some(s) => Some(s@),
                None => None,
            },
    )
}

/// The characters of each entry of a log.
pub open spec fn log_view(log: Seq<(String, String)>) -> Seq<(Seq<char>, Seq<char>)> {
    log.map_values(|p: (String, String)| (p.0@, p.1@))
}

/// The fate of a keyed left row whose key is held by `lc` left rows and
/// `rc` right rows.
pub open spec fn left_fate_of(lc: nat, rc: nat) -> RowFate {
    if lc > 1 {
        RowFate::Duplicate
    } else if rc == 1 {
        RowFate::Matched
    } else if rc == 0 {
        RowFate::LeftOnly
    } else {
        RowFate::Dropped
    }
}

/// The fate of a keyed right row whose key is held by `lc` left rows and
/// `rc` right rows.
pub open spec fn right_fate_of(lc: nat, rc: nat) -> RowFate {
    if lc > 1 {
        RowFate::Dropped
    } else if rc > 1 {
        RowFate::Duplicate
    } else if lc == 1 {
        RowFate::Matched
    } else {
        RowFate::RightOnly
    }
}

/// The trailing duplicate flag.
pub open spec fn flag_text(f: RowFate) -> Seq<char> {
    if f == RowFate::Duplicate {
        "1"@
    } else {
        "0"@
    }
}

impl CompareInput {
    pub open spec fn left_headers_view(&self) -> Seq<Seq<char>> {
        row_view(self.left_headers@)
    }

    pub open spec fn right_headers_view(&self) -> Seq<Seq<char>> {
        row_view(self.right_headers@)
    }

    pub open spec fn left_view(&self) -> Seq<Seq<Seq<char>>> {
        rows_view(self.left_rows@)
    }

    pub open spec fn right_view(&self) -> Seq<Seq<Seq<char>>> {
        rows_view(self.right_rows@)
    }

    /// The key column on the left, -1 where it is missing.
    pub open spec fn left_key_index(&self) -> int {
        find_from(self.left_headers_view(), self.key@, 0)
    }

    /// The key column on the right, -1 where it is missing.
    pub open spec fn right_key_index(&self) -> int {
        find_from(self.right_headers_view(), self.key@, 0)
    }

    pub open spec fn left_keys(&self) -> Seq<Option<Seq<char>>> {
        key_list(self.left_view(), self.left_key_index(), self.options)
    }

    pub open spec fn right_keys(&self) -> Seq<Option<Seq<char>>> {
        key_list(self.right_view(), self.right_key_index(), self.options)
    }

    /// How many left rows hold `key`.
    pub open spec fn left_group_size(&self, key: Seq<char>) -> nat {
        count_upto(self.left_keys(), Some(key), self.left_keys().len() as int)
    }

    /// How many right rows hold `key`.
    pub open spec fn right_group_size(&self, key: Seq<char>) -> nat {
        count_upto(self.right_keys(), Some(key), self.right_keys().len() as int)
    }

    /// The number of cells before the trailing columns of an output row.
    pub open spec fn width(&self) -> nat {
        self.left_headers@.len() + self.right_headers@.len()
    }

    pub open spec fn left_fate(&self, i: int) -> RowFate {
        match self.left_keys()[i] {
            Some(k) => left_fate_of(self.left_group_size(k), self.right_group_size(k)),
            None => RowFate::NoKey,
        }
    }

    pub open spec fn right_fate(&self, j: int) -> RowFate {
        match self.right_keys()[j] {
            Some(k) => right_fate_of(self.left_group_size(k), self.right_group_size(k)),
            None => RowFate::NoKey,
        }
    }

    /// The right row whose key is that of left row `i` (the first of them).
    pub open spec fn partner(&self, i: int) -> int {
        find_from(self.right_keys(), self.left_keys()[i], 0)
    }

    /// The output row made of left row `i`.
    pub open spec fn left_out_row(&self, i: int) -> Seq<Seq<char>> {
        let l = self.left_view()[i];
        if self.left_fate(i) == RowFate::Matched {
            let r = self.right_view()[self.partner(i)];
            let diff = join_names(
                diff_names(
                    self.left_headers_view(),
                    self.right_headers_view(),
                    l,
                    r,
                    self.left_headers@.len() as int,
                ),
            );
            l + r + seq!["both"@, diff, "0"@]
        } else {
            fit(l, self.width()) + seq!["left_only"@, Seq::empty(), flag_text(self.left_fate(i))]
        }
    }

    /// The output row made of right row `j`.
    pub open spec fn right_out_row(&self, j: int) -> Seq<Seq<char>> {
        fit(blanks(self.left_headers@.len() as nat) + self.right_view()[j], self.width()) + seq![
            "right_only"@,
            Seq::empty(),
            flag_text(self.right_fate(j)),
        ]
    }

    /// The output rows of the first `n` left rows whose fate is `f`, in order.
    pub open spec fn left_collected(&self, f: RowFate, n: int) -> Seq<Seq<Seq<char>>>
        decreases n,
    {
        if n <= 0 {
            Seq::empty()
        } else {
            let prev = self.left_collected(f, n - 1);
            if self.left_fate(n - 1) == f {
                prev.push(self.left_out_row(n - 1))
            } else {
                prev
            }
        }
    }

    /// The output rows of the first `n` right rows whose fate is `f`, in order.
    pub open spec fn right_collected(&self, f: RowFate, n: int) -> Seq<Seq<Seq<char>>>
        decreases n,
    {
        if n <= 0 {
            Seq::empty()
        } else {
            let prev = self.right_collected(f, n - 1);
            if self.right_fate(n - 1) == f {
                prev.push(self.right_out_row(n - 1))
            } else {
                prev
            }
        }
    }

    /// The header list shared by the four output tables.
    pub open spec fn out_headers(&self) -> Seq<Seq<char>> {
        self.left_headers_view().map_values(|h: Seq<char>| "L__"@ + h)
            + self.right_headers_view().map_values(|h: Seq<char>| "R__"@ + h) + seq![
            "match_status"@,
            "diff_cols"@,
            "dup_key_flag"@,
        ]
    }

    /// The summary entries of the request.
    pub open spec fn out_log(&self) -> Seq<(Seq<char>, Seq<char>)> {
        seq![
            ("left_rows"@, decimal(self.left_rows@.len())),
            ("right_rows"@, decimal(self.right_rows@.len())),
            ("key_column"@, self.key@),
            ("trim"@, bool_text(self.options.trim)),
            ("case_insensitive"@, bool_text(self.options.case_insensitive)),
        ]
    }

    /// `out` is the reconciliation of this request.
    pub open spec fn reconciled_by(&self, out: CompareOutput) -> bool {
        &&& out.result.headers_view() == self.out_headers()
        &&& out.left_only.headers_view() == self.out_headers()
        &&& out.right_only.headers_view() == self.out_headers()
        &&& out.duplicates.headers_view() == self.out_headers()
        &&& out.result.rows_view() == self.left_collected(
            RowFate::Matched,
            self.left_rows@.len() as int,
        )
        &&& out.left_only.rows_view() == self.left_collected(
            RowFate::LeftOnly,
            self.left_rows@.len() as int,
        )
        &&& out.right_only.rows_view() == self.right_collected(
            RowFate::RightOnly,
            self.right_rows@.len() as int,
        )
        &&& out.duplicates.rows_view() == self.left_collected(
            RowFate::Duplicate,
            self.left_rows@.len() as int,
        ) + self.right_collected(RowFate::Duplicate, self.right_rows@.len() as int)
        &&& log_view(out.log@) == self.out_log()
    }
}

/// The normalized key of each row, `None` for a row with no cell at `k`.
pub fn key_column(rows: &Vec<Vec<String>>, k: usize, options: &CompareOptions) -> (ks: Vec<
    Option<String>,
>)
    ensures
        keys_view(ks@) == key_list(rows_view(rows@), k as int, *options),
{
    let ghost target = key_list(rows_view(rows@), k as int, *options);
    let mut ks: Vec<Option<String>> = Vec::new();
    let mut i: usize = 0;
    while i < rows.len()
        invariant
            0 <= i <= rows.len(),
            target == key_list(rows_view(rows@), k as int, *options),
            keys_view(ks@) == target.subrange(0, i as int),
        decreases rows.len() - i,
    {
        let row = &rows[i];
        let entry = if k < row.len() {
            Some(normalize_key(row[k].as_str(), options))
        } else {
            None
        };
        proof {
            assert(rows_view(rows@)[i as int] == row_view(row@));
            let ev = keys_view(seq![entry])[0];
            assert(ev == target[i as int]);
            assert(keys_view(ks@.push(entry)) =~= keys_view(ks@).push(ev));
        }
        ks.push(entry);
        i = i + 1;
        assert(keys_view(ks@) =~= target.subrange(0, i as int));
    }
    assert(target.subrange(0, i as int) =~= target);
    ks
}

/// How many rows hold `key`.
pub fn count_key(ks: &Vec<Option<String>>, key: &String) -> (c: usize)
    ensures
        c == count_upto(keys_view(ks@), Some(key@), ks.len() as int),
{
    let ghost kv = keys_view(ks@);
    let mut c: usize = 0;
    let mut i: usize = 0;
    while i < ks.len()
        invariant
            0 <= i <= ks.len(),
            kv == keys_view(ks@),
            c == count_upto(kv, Some(key@), i as int),
            c <= i,
        decreases ks.len() - i,
    {
        match &ks[i] {
            Some(k) => {
                if *k == *key {
                    c = c + 1;
                }
            },
            None => {},
        }
        i = i + 1;
    }
    c
}

/// The first row that holds `key`.
pub fn find_key(ks: &Vec<Option<String>>, key: &String) -> (r: Option<usize>)
    ensures
        match r {
            Some(j) => j as int == find_from(keys_view(ks@), Some(key@), 0),
            None => find_from(keys_view(ks@), Some(key@), 0) == -1,
        },
{
    let ghost kv = keys_view(ks@);
    let mut i: usize = 0;
    while i < ks.len()
        invariant
            0 <= i <= ks.len(),
            kv == keys_view(ks@),
            find_from(kv, Some(key@), 0) == find_from(kv, Some(key@), i as int),
        decreases ks.len() - i,
    {
        match &ks[i] {
            Some(k) => {
                if *k == *key {
                    return Some(i);
                }
            },
            None => {},
        }
        i = i + 1;
    }
    None
}

/// The rows of `a` followed by those of `b`, in views.
proof fn lemma_rows_view_add(a: Seq<Vec<String>>, b: Seq<Vec<String>>)
    ensures
        rows_view(a + b) == rows_view(a) + rows_view(b),
{
    assert(rows_view(a + b) =~= rows_view(a) + rows_view(b));
}

/// Reconciles the left and the right table of `input` on its key column.
/// Fails with `KeyColumnNotFound` where either side lacks the key column.
pub fn compare(input: &CompareInput) -> (r: Result<CompareOutput, MergeError>)
    requires
        input.left_headers.len() + input.right_headers.len() + 3 <= usize::MAX,
    ensures
        r is Err <==> (input.left_key_index() < 0 || input.right_key_index() < 0),
        match r {
            Ok(out) => input.reconciled_by(out),
            Err(e) => e == MergeError::KeyColumnNotFound,
        },
{
    let lk = match find_header(&input.left_headers, &input.key) {
        Some(k) => k,
        None => {
            return Err(MergeError::KeyColumnNotFound);
        },
    };
    let rk = match find_header(&input.right_headers, &input.key) {
        Some(k) => k,
        None => {
            return Err(MergeError::KeyColumnNotFound);
        },
    };
    let lks = key_column(&input.left_rows, lk, &input.options);
    let rks = key_column(&input.right_rows, rk, &input.options);
    let lw = input.left_headers.len();
    let width = lw + input.right_headers.len();
    let positions = header_positions(&input.left_headers, &input.right_headers);

    let mut result_rows: Vec<Vec<String>> = Vec::new();
    let mut left_only_rows: Vec<Vec<String>> = Vec::new();
    let mut left_dup_rows: Vec<Vec<String>> = Vec::new();
    let mut i: usize = 0;
    while i < input.left_rows.len()
        invariant
            0 <= i <= input.left_rows.len(),
            input.left_headers.len() + input.right_headers.len() + 3 <= usize::MAX,
            lk as int == input.left_key_index(),
            rk as int == input.right_key_index(),
            keys_view(lks@) == input.left_keys(),
            keys_view(rks@) == input.right_keys(),
            lw == input.left_headers.len(),
            width == input.width(),
            positions.len() == input.left_headers.len(),
            forall|k: int|
                0 <= k < positions.len() ==> match #[trigger] positions@[k] {
                    Some(p) => p as int == find_from(
                        row_view(input.right_headers@),
                        row_view(input.left_headers@)[k],
                        0,
                    ),
                    None => find_from(
                        row_view(input.right_headers@),
                        row_view(input.left_headers@)[k],
                        0,
                    ) == -1,
                },
            rows_view(result_rows@) == input.left_collected(RowFate::Matched, i as int),
            rows_view(left_only_rows@) == input.left_collected(RowFate::LeftOnly, i as int),
            rows_view(left_dup_rows@) == input.left_collected(RowFate::Duplicate, i as int),
        decreases input.left_rows.len() - i,
    {
        let row = &input.left_rows[i];
        proof {
            assert(input.left_view()[i as int] == row_view(row@));
        }
        match &lks[i] {
            Some(k) => {
                let lc = count_key(&lks, k);
                let rc = count_key(&rks, k);
                proof {
                    assert(input.left_keys()[i as int] == Some(k@));
                }
                if lc > 1 {
                    let out = with_status(
                        fit_row(row, width),
                        "left_only".to_string(),
                        String::new(),
                        "1".to_string(),
                    );
                    proof {
                        lemma_rows_view_push(left_dup_rows@, out);
                    }
                    left_dup_rows.push(out);
                } else if rc == 1 {
                    match find_key(&rks, k) {
                        Some(p) => {
                            proof {
                                lemma_find_from(keys_view(rks@), Some(k@), 0);
                            }
                            let right = &input.right_rows[p];
                            proof {
                                assert(input.right_view()[p as int] == row_view(right@));
                            }
                            let diff = diff_columns(
                                &input.left_headers,
                                &input.right_headers,
                                &positions,
                                row,
                                right,
                            );
                            let out = with_status(
                                joined_row(row, right),
                                "both".to_string(),
                                diff,
                                "0".to_string(),
                            );
                            proof {
                                lemma_rows_view_push(result_rows@, out);
                            }
                            result_rows.push(out);
                        },
                        None => {
                            proof {
                                lemma_find_from(keys_view(rks@), Some(k@), 0);
                                lemma_count_zero(
                                    keys_view(rks@),
                                    Some(k@),
                                    keys_view(rks@).len() as int,
                                );
                            }
                        },
                    }
                } else if rc == 0 {
                    let out = with_status(
                        fit_row(row, width),
                        "left_only".to_string(),
                        String::new(),
                        "0".to_string(),
                    );
                    proof {
                        lemma_rows_view_push(left_only_rows@, out);
                    }
                    left_only_rows.push(out);
                }
            },
            None => {},
        }
        i = i + 1;
    }

    let mut right_only_rows: Vec<Vec<String>> = Vec::new();
    let mut right_dup_rows: Vec<Vec<String>> = Vec::new();
    let mut j: usize = 0;
    while j < input.right_rows.len()
        invariant
            0 <= j <= input.right_rows.len(),
            keys_view(lks@) == input.left_keys(),
            keys_view(rks@) == input.right_keys(),
            lw == input.left_headers.len(),
            width == input.width(),
            rows_view(right_only_rows@) == input.right_collected(RowFate::RightOnly, j as int),
            rows_view(right_dup_rows@) == input.right_collected(RowFate::Duplicate, j as int),
        decreases input.right_rows.len() - j,
    {
        let row = &input.right_rows[j];
        proof {
            assert(input.right_view()[j as int] == row_view(row@));
        }
        match &rks[j] {
            Some(k) => {
                let lc = count_key(&lks, k);
                let rc = count_key(&rks, k);
                proof {
                    assert(input.right_keys()[j as int] == Some(k@));
                }
                if lc > 1 {
                } else if rc > 1 {
                    let out = with_status(
                        shifted_row(row, lw, width),
                        "right_only".to_string(),
                        String::new(),
                        "1".to_string(),
                    );
                    proof {
                        lemma_rows_view_push(right_dup_rows@, out);
                    }
                    right_dup_rows.push(out);
                } else if lc == 0 {
                    let out = with_status(
                        shifted_row(row, lw, width),
                        "right_only".to_string(),
                        String::new(),
                        "0".to_string(),
                    );
                    proof {
                        lemma_rows_view_push(right_only_rows@, out);
                    }
                    right_only_rows.push(out);
                }
            },
            None => {},
        }
        j = j + 1;
    }

    let mut headers = prefixed("L__", &input.left_headers);
    let mut right_headers = prefixed("R__", &input.right_headers);
    let ghost lpart = row_view(headers@);
    let ghost rpart = row_view(right_headers@);
    headers.append(&mut right_headers);
    headers.push("match_status".to_string());
    headers.push("diff_cols".to_string());
    headers.push("dup_key_flag".to_string());
    assert(row_view(headers@) =~= input.out_headers()) by {
        assert(row_view(headers@) =~= lpart + rpart + seq![
            "match_status"@,
            "diff_cols"@,
            "dup_key_flag"@,
        ]);
    }

    let ghost left_dups = left_dup_rows@;
    let ghost right_dups = right_dup_rows@;
    let mut duplicates_rows = left_dup_rows;
    duplicates_rows.append(&mut right_dup_rows);
    proof {
        lemma_rows_view_add(left_dups, right_dups);
    }

    let mut log: Vec<(String, String)> = Vec::new();
    log.push(("left_rows".to_string(), decimal_string(input.left_rows.len())));
    log.push(("right_rows".to_string(), decimal_string(input.right_rows.len())));
    log.push(("key_column".to_string(), input.key.clone()));
    log.push(("trim".to_string(), bool_string(input.options.trim)));
    log.push(("case_insensitive".to_string(), bool_string(input.options.case_insensitive)));
    assert(log_view(log@) =~= input.out_log());

    let out = CompareOutput {
        result: TableData { headers: copy_row(&headers), rows: result_rows },
        left_only: TableData { headers: copy_row(&headers), rows: left_only_rows },
        right_only: TableData { headers: copy_row(&headers), rows: right_only_rows },
        duplicates: TableData { headers: headers, rows: duplicates_rows },
        log: log,
    };
    Ok(out)
}

} // verus!
