//! What holds of every reconciliation.
use vstd::prelude::*;
use crate::table::{
    cell, find_from, lemma_find_from, lemma_count_zero, lemma_count_two, lemma_count_positive,
};
use crate::compare::{CompareInput, CompareOutput, RowFate, log_view};
use crate::compare_rows::diff_names;

verus! {

/// Every row of `rows` has at least the three trailing columns, with
/// `status` first among them.
pub open spec fn all_status(rows: Seq<Seq<Seq<char>>>, status: Seq<char>) -> bool {
    forall|t: int|
        0 <= t < rows.len() ==> (#[trigger] rows[t]).len() >= 3 && rows[t][rows[t].len() - 3]
            == status
}

/// Every row of `rows` has at least the three trailing columns, with `flag` last.
pub open spec fn all_flag(rows: Seq<Seq<Seq<char>>>, flag: Seq<char>) -> bool {
    forall|t: int|
        0 <= t < rows.len() ==> (#[trigger] rows[t]).len() >= 3 && rows[t][rows[t].len() - 1]
            == flag
}

/// Reconciling one request twice gives the same four tables and the same log.
pub proof fn lemma_compare_deterministic(input: CompareInput, a: CompareOutput, b: CompareOutput)
    requires
        input.reconciled_by(a),
        input.reconciled_by(b),
    ensures
        a.result.headers_view() == b.result.headers_view(),
        a.result.rows_view() == b.result.rows_view(),
        a.left_only.headers_view() == b.left_only.headers_view(),
        a.left_only.rows_view() == b.left_only.rows_view(),
        a.right_only.headers_view() == b.right_only.headers_view(),
        a.right_only.rows_view() == b.right_only.rows_view(),
        a.duplicates.headers_view() == b.duplicates.headers_view(),
        a.duplicates.rows_view() == b.duplicates.rows_view(),
        log_view(a.log@) == log_view(b.log@),
{
}

/// Each collected left row comes from a left row of that fate.
proof fn lemma_left_collected_source(input: CompareInput, f: RowFate, n: int, t: int)
    requires
        0 <= n <= input.left_rows@.len(),
        0 <= t < input.left_collected(f, n).len(),
    ensures
        exists|i: int|
            0 <= i < n && input.left_fate(i) == f && input.left_collected(f, n)[t]
                == #[trigger] input.left_out_row(i),
    decreases n,
{
    let prev = input.left_collected(f, n - 1);
    if t < prev.len() {
        lemma_left_collected_source(input, f, n - 1, t);
        let i = choose|i: int|
            0 <= i < n - 1 && input.left_fate(i) == f && prev[t] == #[trigger] input.left_out_row(
                i,
            );
        assert(input.left_collected(f, n)[t] == prev[t]);
        assert(input.left_out_row(i) == input.left_collected(f, n)[t]);
    } else {
        assert(input.left_out_row(n - 1) == input.left_collected(f, n)[t]);
    }
}

/// Each collected right row comes from a right row of that fate.
proof fn lemma_right_collected_source(input: CompareInput, f: RowFate, n: int, t: int)
    requires
        0 <= n <= input.right_rows@.len(),
        0 <= t < input.right_collected(f, n).len(),
    ensures
        exists|j: int|
            0 <= j < n && input.right_fate(j) == f && input.right_collected(f, n)[t]
                == #[trigger] input.right_out_row(j),
    decreases n,
{
    let prev = input.right_collected(f, n - 1);
    if t < prev.len() {
        lemma_right_collected_source(input, f, n - 1, t);
        let j = choose|j: int|
            0 <= j < n - 1 && input.right_fate(j) == f && prev[t]
                == #[trigger] input.right_out_row(j);
        assert(input.right_collected(f, n)[t] == prev[t]);
        assert(input.right_out_row(j) == input.right_collected(f, n)[t]);
    } else {
        assert(input.right_out_row(n - 1) == input.right_collected(f, n)[t]);
    }
}

/// A left row whose key is held by one row on each side has a partner on
/// the right with the same key, and is that right row's only left match.
proof fn lemma_partner(input: CompareInput, i: int)
    requires
        0 <= i < input.left_rows@.len(),
        input.left_fate(i) == RowFate::Matched,
    ensures
        0 <= input.partner(i) < input.right_rows@.len(),
        input.right_keys()[input.partner(i)] == input.left_keys()[i],
        input.left_keys()[i] is Some,
{
    let rk = input.right_keys();
    let x = input.left_keys()[i];
    lemma_find_from(rk, x, 0);
    if find_from(rk, x, 0) < 0 {
        lemma_count_zero(rk, x, rk.len() as int);
    }
}

/// The trailing columns of the rows of each output table: `result` rows are
/// `both`, `left_only` rows are `left_only`, `right_only` rows are
/// `right_only`, all of them flagged `0`, and `duplicates` rows are flagged `1`.
pub proof fn lemma_output_tags(input: CompareInput, out: CompareOutput)
    requires
        input.reconciled_by(out),
    ensures
        all_status(out.result.rows_view(), "both"@),
        all_flag(out.result.rows_view(), "0"@),
        all_status(out.left_only.rows_view(), "left_only"@),
        all_flag(out.left_only.rows_view(), "0"@),
        all_status(out.right_only.rows_view(), "right_only"@),
        all_flag(out.right_only.rows_view(), "0"@),
        all_flag(out.duplicates.rows_view(), "1"@),
{
    let nl = input.left_rows@.len() as int;
    let nr = input.right_rows@.len() as int;
    assert forall|t: int| 0 <= t < out.result.rows_view().len() implies {
        let row = #[trigger] out.result.rows_view()[t];
        row.len() >= 3 && row[row.len() - 3] == "both"@ && row[row.len() - 1] == "0"@
    } by {
        lemma_left_collected_source(input, RowFate::Matched, nl, t);
    }
    assert forall|t: int| 0 <= t < out.left_only.rows_view().len() implies {
        let row = #[trigger] out.left_only.rows_view()[t];
        row.len() >= 3 && row[row.len() - 3] == "left_only"@ && row[row.len() - 1] == "0"@
    } by {
        lemma_left_collected_source(input, RowFate::LeftOnly, nl, t);
    }
    assert forall|t: int| 0 <= t < out.right_only.rows_view().len() implies {
        let row = #[trigger] out.right_only.rows_view()[t];
        row.len() >= 3 && row[row.len() - 3] == "right_only"@ && row[row.len() - 1] == "0"@
    } by {
        lemma_right_collected_source(input, RowFate::RightOnly, nr, t);
    }
    let ld = input.left_collected(RowFate::Duplicate, nl);
    let rd = input.right_collected(RowFate::Duplicate, nr);
    assert forall|t: int| 0 <= t < out.duplicates.rows_view().len() implies {
        let row = #[trigger] out.duplicates.rows_view()[t];
        row.len() >= 3 && row[row.len() - 1] == "1"@
    } by {
        if t < ld.len() {
            lemma_left_collected_source(input, RowFate::Duplicate, nl, t);
            assert(out.duplicates.rows_view()[t] == ld[t]);
        } else {
            lemma_right_collected_source(input, RowFate::Duplicate, nr, t - ld.len());
            assert(out.duplicates.rows_view()[t] == rd[t - ld.len()]);
        }
    }
}

/// The status and flag texts differ from one another.
proof fn lemma_tags_differ()
    ensures
        "both"@ != "left_only"@,
        "both"@ != "right_only"@,
        "left_only"@ != "right_only"@,
        "0"@ != "1"@,
{
    reveal_strlit("both");
    reveal_strlit("left_only");
    reveal_strlit("right_only");
    reveal_strlit("0");
    reveal_strlit("1");
    assert("both"@.len() != "left_only"@.len());
    assert("both"@.len() != "right_only"@.len());
    assert("left_only"@.len() != "right_only"@.len());
    assert("0"@[0] != "1"@[0]);
}

/// A left row of fate `f` among the first `n` has its output row collected.
proof fn lemma_left_collected_holds(input: CompareInput, f: RowFate, n: int, i: int)
    requires
        0 <= i < n <= input.left_rows@.len(),
        input.left_fate(i) == f,
    ensures
        input.left_collected(f, n).contains(input.left_out_row(i)),
    decreases n,
{
    let c = input.left_collected(f, n);
    if i == n - 1 {
        assert(c[c.len() - 1] == input.left_out_row(i));
    } else {
        lemma_left_collected_holds(input, f, n - 1, i);
        let prev = input.left_collected(f, n - 1);
        let t = choose|t: int| 0 <= t < prev.len() && prev[t] == input.left_out_row(i);
        assert(c[t] == prev[t]);
    }
}

/// A right row of fate `f` among the first `n` has its output row collected.
proof fn lemma_right_collected_holds(input: CompareInput, f: RowFate, n: int, j: int)
    requires
        0 <= j < n <= input.right_rows@.len(),
        input.right_fate(j) == f,
    ensures
        input.right_collected(f, n).contains(input.right_out_row(j)),
    decreases n,
{
    let c = input.right_collected(f, n);
    if j == n - 1 {
        assert(c[c.len() - 1] == input.right_out_row(j));
    } else {
        lemma_right_collected_holds(input, f, n - 1, j);
        let prev = input.right_collected(f, n - 1);
        let t = choose|t: int| 0 <= t < prev.len() && prev[t] == input.right_out_row(j);
        assert(c[t] == prev[t]);
    }
}

/// Each row of `result` is a left row followed by a right row, both with a
/// key cell, whose keys normalize equal; no other table holds that row.
pub proof fn lemma_result_rows_keyed(input: CompareInput, out: CompareOutput, t: int)
    requires
        input.reconciled_by(out),
        0 <= t < out.result.rows_view().len(),
    ensures
        exists|i: int, j: int|
            0 <= i < input.left_rows@.len() && 0 <= j < input.right_rows@.len() && input.left_keys()[i] is Some
                && #[trigger] input.left_keys()[i] == #[trigger] input.right_keys()[j]
                && out.result.rows_view()[t].subrange(
                0,
                (input.left_view()[i].len() + input.right_view()[j].len()) as int,
            ) == input.left_view()[i] + input.right_view()[j],
        !out.left_only.rows_view().contains(out.result.rows_view()[t]),
        !out.right_only.rows_view().contains(out.result.rows_view()[t]),
        !out.duplicates.rows_view().contains(out.result.rows_view()[t]),
{
    let nl = input.left_rows@.len() as int;
    lemma_left_collected_source(input, RowFate::Matched, nl, t);
    let i = choose|i: int|
        0 <= i < nl && input.left_fate(i) == RowFate::Matched && input.left_collected(
            RowFate::Matched,
            nl,
        )[t] == #[trigger] input.left_out_row(i);
    lemma_partner(input, i);
    let j = input.partner(i);
    let l = input.left_view()[i];
    let r = input.right_view()[j];
    let row = out.result.rows_view()[t];
    assert(row.subrange(0, (l.len() + r.len()) as int) =~= l + r);
    assert(input.left_keys()[i] == input.right_keys()[j]);
    lemma_output_tags(input, out);
    lemma_tags_differ();
    if out.left_only.rows_view().contains(row) {
        let u = choose|u: int|
            0 <= u < out.left_only.rows_view().len() && out.left_only.rows_view()[u] == row;
        assert(out.left_only.rows_view()[u] == row);
    }
    if out.right_only.rows_view().contains(row) {
        let u = choose|u: int|
            0 <= u < out.right_only.rows_view().len() && out.right_only.rows_view()[u] == row;
        assert(out.right_only.rows_view()[u] == row);
    }
    if out.duplicates.rows_view().contains(row) {
        let u = choose|u: int|
            0 <= u < out.duplicates.rows_view().len() && out.duplicates.rows_view()[u] == row;
        assert(out.duplicates.rows_view()[u] == row);
    }
}

/// Where a left row with a key cell goes. Its output row is in exactly one
/// table, the one its fate names, except that the row is dropped, and in no
/// table, exactly when its key is held by it alone on the left and by
/// several rows on the right.
pub proof fn lemma_left_row_placed(input: CompareInput, out: CompareOutput, i: int)
    requires
        input.reconciled_by(out),
        0 <= i < input.left_rows@.len(),
        input.left_keys()[i] is Some,
    ensures
        ({
            let f = input.left_fate(i);
            let k = input.left_keys()[i]->Some_0;
            let row = input.left_out_row(i);
            &&& f == RowFate::Matched || f == RowFate::LeftOnly || f == RowFate::Duplicate || f
                == RowFate::Dropped
            &&& (f == RowFate::Dropped) <==> (input.left_group_size(k) == 1
                && input.right_group_size(k) > 1)
            &&& out.result.rows_view().contains(row) <==> f == RowFate::Matched
            &&& out.left_only.rows_view().contains(row) <==> f == RowFate::LeftOnly
            &&& out.duplicates.rows_view().contains(row) <==> f == RowFate::Duplicate
            &&& !out.right_only.rows_view().contains(row)
        }),
{
    let nl = input.left_rows@.len() as int;
    let f = input.left_fate(i);
    let k = input.left_keys()[i]->Some_0;
    let lks = input.left_keys();
    let row = input.left_out_row(i);
    lemma_count_positive(lks, Some(k), lks.len() as int, i);
    lemma_output_tags(input, out);
    lemma_tags_differ();
    if f == RowFate::Matched || f == RowFate::LeftOnly || f == RowFate::Duplicate {
        lemma_left_collected_holds(input, f, nl, i);
    }
    if f == RowFate::Duplicate {
        let ld = input.left_collected(RowFate::Duplicate, nl);
        let rd = input.right_collected(RowFate::Duplicate, input.right_rows@.len() as int);
        let t = choose|t: int| 0 <= t < ld.len() && ld[t] == row;
        assert((ld + rd)[t] == row);
    }
    let tables = seq![
        out.result.rows_view(),
        out.left_only.rows_view(),
        out.right_only.rows_view(),
        out.duplicates.rows_view(),
    ];
    assert forall|w: int| 0 <= w < 4 && #[trigger] tables[w].contains(row) implies (w == 0 && f
        == RowFate::Matched) || (w == 1 && f == RowFate::LeftOnly) || (w == 3 && f
        == RowFate::Duplicate) by {
        let u = choose|u: int| 0 <= u < tables[w].len() && tables[w][u] == row;
        assert(tables[w][u] == row);
        if w == 1 && f == RowFate::Dropped {
            lemma_left_collected_source(input, RowFate::LeftOnly, nl, u);
            let i2 = choose|i2: int|
                0 <= i2 < nl && input.left_fate(i2) == RowFate::LeftOnly && input.left_collected(
                    RowFate::LeftOnly,
                    nl,
                )[u] == #[trigger] input.left_out_row(i2);
            let lk = input.left_key_index();
            lemma_find_from(input.left_headers_view(), input.key@, 0);
            assert(lks[i2] is Some);
            assert(0 <= lk < input.left_view()[i].len());
            assert(0 <= lk < input.left_view()[i2].len());
            assert(lk < input.left_headers@.len());
            assert(row[lk] == input.left_view()[i][lk]);
            assert(input.left_out_row(i2)[lk] == input.left_view()[i2][lk]);
            assert(input.left_out_row(i2)[lk] == row[lk]);
            assert(lks[i2] == lks[i]);
            lemma_count_two(lks, Some(k), lks.len() as int, if i < i2 { i } else { i2 }, if i < i2 { i2 } else { i });
        }
    }
    assert(out.result.rows_view().contains(row) == tables[0].contains(row));
    assert(out.left_only.rows_view().contains(row) == tables[1].contains(row));
    assert(out.right_only.rows_view().contains(row) == tables[2].contains(row));
    assert(out.duplicates.rows_view().contains(row) == tables[3].contains(row));
}

/// A left header name is listed among the differing columns of a row pair
/// exactly when a left column of that name exists by name on the right and
/// its cells differ there; a name absent on the right is never listed.
pub proof fn lemma_diff_names_listed(
    lh: Seq<Seq<char>>,
    rh: Seq<Seq<char>>,
    l: Seq<Seq<char>>,
    r: Seq<Seq<char>>,
    n: int,
    name: Seq<char>,
)
    requires
        0 <= n <= lh.len(),
    ensures
        diff_names(lh, rh, l, r, n).contains(name) <==> exists|i: int|
            0 <= i < n && #[trigger] lh[i] == name && find_from(rh, name, 0) >= 0 && cell(l, i)
                != cell(r, find_from(rh, name, 0)),
        find_from(rh, name, 0) < 0 ==> !diff_names(lh, rh, l, r, n).contains(name),
    decreases n,
{
    if n > 0 {
        lemma_diff_names_listed(lh, rh, l, r, n - 1, name);
        let prev = diff_names(lh, rh, l, r, n - 1);
        let cur = diff_names(lh, rh, l, r, n);
        if cur.contains(name) {
            let u = choose|u: int| 0 <= u < cur.len() && cur[u] == name;
            if u < prev.len() {
                assert(prev[u] == name);
            }
        }
        if exists|i: int|
            0 <= i < n && #[trigger] lh[i] == name && find_from(rh, name, 0) >= 0 && cell(l, i)
                != cell(r, find_from(rh, name, 0)) {
            let i = choose|i: int|
                0 <= i < n && #[trigger] lh[i] == name && find_from(rh, name, 0) >= 0 && cell(l, i)
                    != cell(r, find_from(rh, name, 0));
            if i < n - 1 {
                let u = choose|u: int| 0 <= u < prev.len() && prev[u] == name;
                assert(cur[u] == name);
            } else {
                assert(cur[cur.len() - 1] == name);
            }
        }
    }
}

/// Where a right row with a key cell goes. A matched one is the partner of
/// the left row whose output row is in `result`; otherwise its output row is
/// in exactly one table, the one its fate names, except that the row is
/// dropped, and in no table, exactly when its key is duplicated on the left.
pub proof fn lemma_right_row_placed(input: CompareInput, out: CompareOutput, j: int)
    requires
        input.reconciled_by(out),
        0 <= j < input.right_rows@.len(),
        input.right_keys()[j] is Some,
    ensures
        ({
            let f = input.right_fate(j);
            let k = input.right_keys()[j]->Some_0;
            let row = input.right_out_row(j);
            &&& f == RowFate::Matched || f == RowFate::RightOnly || f == RowFate::Duplicate || f
                == RowFate::Dropped
            &&& (f == RowFate::Dropped) <==> input.left_group_size(k) > 1
            &&& f == RowFate::Matched ==> exists|i: int|
                0 <= i < input.left_rows@.len() && input.left_fate(i) == RowFate::Matched
                    && #[trigger] input.partner(i) == j && out.result.rows_view().contains(
                    input.left_out_row(i),
                )
            &&& out.right_only.rows_view().contains(row) <==> f == RowFate::RightOnly
            &&& out.duplicates.rows_view().contains(row) <==> f == RowFate::Duplicate
            &&& !out.result.rows_view().contains(row)
            &&& !out.left_only.rows_view().contains(row)
        }),
{
    let nl = input.left_rows@.len() as int;
    let nr = input.right_rows@.len() as int;
    let f = input.right_fate(j);
    let k = input.right_keys()[j]->Some_0;
    let lks = input.left_keys();
    let rks = input.right_keys();
    let row = input.right_out_row(j);
    lemma_count_positive(rks, Some(k), rks.len() as int, j);
    lemma_output_tags(input, out);
    lemma_tags_differ();
    if f == RowFate::Matched {
        lemma_find_from(lks, Some(k), 0);
        if find_from(lks, Some(k), 0) < 0 {
            lemma_count_zero(lks, Some(k), lks.len() as int);
        }
        let i = find_from(lks, Some(k), 0);
        assert(input.left_fate(i) == RowFate::Matched);
        lemma_find_from(rks, Some(k), 0);
        let j2 = input.partner(i);
        if j2 != j {
            lemma_count_two(rks, Some(k), rks.len() as int, if j < j2 { j } else { j2 }, if j < j2 { j2 } else { j });
        }
        lemma_left_collected_holds(input, RowFate::Matched, nl, i);
    }
    if f == RowFate::RightOnly {
        lemma_right_collected_holds(input, f, nr, j);
    }
    if f == RowFate::Duplicate {
        lemma_right_collected_holds(input, f, nr, j);
        let ld = input.left_collected(RowFate::Duplicate, nl);
        let rd = input.right_collected(RowFate::Duplicate, nr);
        let t = choose|t: int| 0 <= t < rd.len() && rd[t] == row;
        assert((ld + rd)[ld.len() + t] == row);
    }
    let tables = seq![
        out.result.rows_view(),
        out.left_only.rows_view(),
        out.right_only.rows_view(),
        out.duplicates.rows_view(),
    ];
    assert forall|w: int| 0 <= w < 4 && #[trigger] tables[w].contains(row) implies (w == 2 && f
        == RowFate::RightOnly) || (w == 3 && f == RowFate::Duplicate) by {
        let u = choose|u: int| 0 <= u < tables[w].len() && tables[w][u] == row;
        assert(tables[w][u] == row);
        if w == 2 && f != RowFate::RightOnly && f != RowFate::Duplicate {
            lemma_right_collected_source(input, RowFate::RightOnly, nr, u);
            let j2 = choose|j2: int|
                0 <= j2 < nr && input.right_fate(j2) == RowFate::RightOnly
                    && input.right_collected(RowFate::RightOnly, nr)[u]
                    == #[trigger] input.right_out_row(j2);
            let rk = input.right_key_index();
            let c = input.left_headers@.len() + rk;
            lemma_find_from(input.right_headers_view(), input.key@, 0);
            assert(rks[j2] is Some);
            assert(0 <= rk < input.right_view()[j].len());
            assert(0 <= rk < input.right_view()[j2].len());
            assert(c < input.width());
            assert(row[c] == input.right_view()[j][rk]);
            assert(input.right_out_row(j2)[c] == input.right_view()[j2][rk]);
            assert(rks[j2] == rks[j]);
        }
    }
    assert(out.result.rows_view().contains(row) == tables[0].contains(row));
    assert(out.left_only.rows_view().contains(row) == tables[1].contains(row));
    assert(out.right_only.rows_view().contains(row) == tables[2].contains(row));
    assert(out.duplicates.rows_view().contains(row) == tables[3].contains(row));
}

} // verus!
