//! Building the cells of an output row of the comparison.
use vstd::prelude::*;
use crate::table::{lemma_row_view_push, row_view, cell, fit, blanks, find_from, find_header, copy_row};

verus! {

/// Names joined with commas.
pub open spec fn join_names(names: Seq<Seq<char>>) -> Seq<char>
    decreases names.len(),
{
    if names.len() == 0 {
        Seq::empty()
    } else if names.len() == 1 {
        names[0]
    } else {
        join_names(names.drop_last()) + ","@ + names.last()
    }
}

/// The left header names among the first `n` whose column also exists by
/// name on the right (its first occurrence) and whose cell differs there.
pub open spec fn diff_names(
    lh: Seq<Seq<char>>,
    rh: Seq<Seq<char>>,
    l: Seq<Seq<char>>,
    r: Seq<Seq<char>>,
    n: int,
) -> Seq<Seq<char>>
    decreases n,
{
    if n <= 0 {
        Seq::empty()
    } else {
        let prev = diff_names(lh, rh, l, r, n - 1);
        let p = find_from(rh, lh[n - 1], 0);
        if p >= 0 && cell(l, n - 1) != cell(r, p) {
            prev.push(lh[n - 1])
        } else {
            prev
        }
    }
}

/// The decimal text of a digit.
pub open spec fn digit_text(d: nat) -> Seq<char> {
    if d == 0 {
        "0"@
    } else if d == 1 {
        "1"@
    } else if d == 2 {
        "2"@
    } else if d == 3 {
        "3"@
    } else if d == 4 {
        "4"@
    } else if d == 5 {
        "5"@
    } else if d == 6 {
        "6"@
    } else if d == 7 {
        "7"@
    } else if d == 8 {
        "8"@
    } else {
        "9"@
    }
}

/// The decimal text of a number, without leading zeros.
pub open spec fn decimal(n: nat) -> Seq<char>
    decreases n,
{
    if n < 10 {
        digit_text(n)
    } else {
        decimal(n / 10) + digit_text(n % 10)
    }
}

/// `true` or `false`.
pub open spec fn bool_text(b: bool) -> Seq<char> {
    if b {
        "true"@
    } else {
        "false"@
    }
}

pub fn digit_string(d: usize) -> (r: String)
    requires
        d < 10,
    ensures
        r@ == digit_text(d as nat),
{
    if d == 0 {
        "0".to_string()
    } else if d == 1 {
        "1".to_string()
    } else if d == 2 {
        "2".to_string()
    } else if d == 3 {
        "3".to_string()
    } else if d == 4 {
        "4".to_string()
    } else if d == 5 {
        "5".to_string()
    } else if d == 6 {
        "6".to_string()
    } else if d == 7 {
        "7".to_string()
    } else if d == 8 {
        "8".to_string()
    } else {
        "9".to_string()
    }
}

/// The decimal text of `n`.
pub fn decimal_string(n: usize) -> (r: String)
    ensures
        r@ == decimal(n as nat),
    decreases n,
{
    if n < 10 {
        digit_string(n)
    } else {
        let head = decimal_string(n / 10);
        let tail = digit_string(n % 10);
        head.concat(tail.as_str())
    }
}

/// `true` or `false`.
pub fn bool_string(b: bool) -> (r: String)
    ensures
        r@ == bool_text(b),
{
    if b {
        "true".to_string()
    } else {
        "false".to_string()
    }
}

/// Each header with `prefix` in front.
pub fn prefixed(prefix: &str, hs: &Vec<String>) -> (r: Vec<String>)
    ensures
        row_view(r@) == row_view(hs@).map_values(|h: Seq<char>| prefix@ + h),
{
    let mut r: Vec<String> = Vec::new();
    let mut i: usize = 0;
    while i < hs.len()
        invariant
            0 <= i <= hs.len(),
            row_view(r@) == row_view(hs@).subrange(0, i as int).map_values(
                |h: Seq<char>| prefix@ + h,
            ),
        decreases hs.len() - i,
    {
        let h = prefix.to_string().concat(hs[i].as_str());
        proof {
            lemma_row_view_push(r@, h);
        }
        r.push(h);
        i = i + 1;
        assert(row_view(r@) =~= row_view(hs@).subrange(0, i as int).map_values(
            |h: Seq<char>| prefix@ + h,
        ));
    }
    assert(row_view(hs@).subrange(0, i as int) =~= row_view(hs@));
    r
}

/// For each left header, the position of the first right header of that name.
pub fn header_positions(lh: &Vec<String>, rh: &Vec<String>) -> (m: Vec<Option<usize>>)
    ensures
        m.len() == lh.len(),
        forall|i: int|
            0 <= i < m.len() ==> match #[trigger] m@[i] {
                Some(p) => p as int == find_from(row_view(rh@), row_view(lh@)[i], 0),
                None => find_from(row_view(rh@), row_view(lh@)[i], 0) == -1,
            },
{
    let mut m: Vec<Option<usize>> = Vec::new();
    let mut i: usize = 0;
    while i < lh.len()
        invariant
            0 <= i <= lh.len(),
            m.len() == i,
            forall|k: int|
                0 <= k < i ==> match #[trigger] m@[k] {
                    Some(p) => p as int == find_from(row_view(rh@), row_view(lh@)[k], 0),
                    None => find_from(row_view(rh@), row_view(lh@)[k], 0) == -1,
                },
        decreases lh.len() - i,
    {
        let p = find_header(rh, &lh[i]);
        m.push(p);
        i = i + 1;
    }
    m
}

/// Whether the cell at `i` of `l` differs from the cell at `j` of `r`.
pub fn cells_differ(l: &Vec<String>, i: usize, r: &Vec<String>, j: usize) -> (d: bool)
    ensures
        d == (cell(row_view(l@), i as int) != cell(row_view(r@), j as int)),
{
    if i < l.len() && j < r.len() {
        !(l[i] == r[j])
    } else if i < l.len() {
        assert(l@[i as int]@.len() == 0 ==> l@[i as int]@ =~= Seq::<char>::empty());
        !l[i].as_str().is_empty()
    } else if j < r.len() {
        assert(r@[j as int]@.len() == 0 ==> r@[j as int]@ =~= Seq::<char>::empty());
        !r[j].as_str().is_empty()
    } else {
        false
    }
}

/// The names of the left columns whose cell differs from the right cell of
/// the same column name, joined with commas.
pub fn diff_columns(
    lh: &Vec<String>,
    rh: &Vec<String>,
    positions: &Vec<Option<usize>>,
    l: &Vec<String>,
    r: &Vec<String>,
) -> (s: String)
    requires
        positions.len() == lh.len(),
        forall|i: int|
            0 <= i < positions.len() ==> match #[trigger] positions@[i] {
                Some(p) => p as int == find_from(row_view(rh@), row_view(lh@)[i], 0),
                None => find_from(row_view(rh@), row_view(lh@)[i], 0) == -1,
            },
    ensures
        s@ == join_names(
            diff_names(row_view(lh@), row_view(rh@), row_view(l@), row_view(r@), lh.len() as int),
        ),
{
    let ghost lhv = row_view(lh@);
    let ghost rhv = row_view(rh@);
    let ghost lv = row_view(l@);
    let ghost rv = row_view(r@);
    let mut s = String::new();
    let mut listed: usize = 0;
    let mut i: usize = 0;
    while i < lh.len()
        invariant
            0 <= i <= lh.len(),
            positions.len() == lh.len(),
            lhv == row_view(lh@),
            rhv == row_view(rh@),
            lv == row_view(l@),
            rv == row_view(r@),
            forall|k: int|
                0 <= k < positions.len() ==> match #[trigger] positions@[k] {
                    Some(p) => p as int == find_from(rhv, lhv[k], 0),
                    None => find_from(rhv, lhv[k], 0) == -1,
                },
            s@ == join_names(diff_names(lhv, rhv, lv, rv, i as int)),
            listed == diff_names(lhv, rhv, lv, rv, i as int).len(),
            listed <= i,
        decreases lh.len() - i,
    {
        let ghost prev = diff_names(lhv, rhv, lv, rv, i as int);
        match positions[i] {
            Some(p) => {
                assert(positions@[i as int] == Some(p));
                if cells_differ(l, i, r, p) {
                    let ghost names = prev.push(lhv[i as int]);
                    assert(names.drop_last() =~= prev);
                    if listed == 0 {
                        s = lh[i].clone();
                    } else {
                        s.append(",");
                        s.append(lh[i].as_str());
                    }
                    listed = listed + 1;
                }
            },
            None => {
                assert(positions@[i as int] == None::<usize>);
            },
        }
        i = i + 1;
    }
    s
}

/// The cells of `row`, cut or padded with empty cells to `n`.
pub fn fit_row(row: &Vec<String>, n: usize) -> (r: Vec<String>)
    ensures
        row_view(r@) == fit(row_view(row@), n as nat),
{
    let mut r: Vec<String> = Vec::new();
    let mut i: usize = 0;
    while i < n
        invariant
            0 <= i <= n,
            row_view(r@) == fit(row_view(row@), n as nat).subrange(0, i as int),
        decreases n - i,
    {
        let c = if i < row.len() {
            row[i].clone()
        } else {
            String::new()
        };
        proof {
            lemma_row_view_push(r@, c);
        }
        r.push(c);
        i = i + 1;
        assert(row_view(r@) =~= fit(row_view(row@), n as nat).subrange(0, i as int));
    }
    assert(fit(row_view(row@), n as nat).subrange(0, i as int) =~= fit(row_view(row@), n as nat));
    r
}

/// The cells of `row` after `lw` empty cells, cut or padded to `n`.
pub fn shifted_row(row: &Vec<String>, lw: usize, n: usize) -> (r: Vec<String>)
    ensures
        row_view(r@) == fit(blanks(lw as nat) + row_view(row@), n as nat),
{
    let ghost target = fit(blanks(lw as nat) + row_view(row@), n as nat);
    let mut r: Vec<String> = Vec::new();
    let mut i: usize = 0;
    while i < n
        invariant
            0 <= i <= n,
            target == fit(blanks(lw as nat) + row_view(row@), n as nat),
            row_view(r@) == target.subrange(0, i as int),
        decreases n - i,
    {
        let c = if i < lw {
            String::new()
        } else if i - lw < row.len() {
            row[i - lw].clone()
        } else {
            String::new()
        };
        proof {
            lemma_row_view_push(r@, c);
        }
        r.push(c);
        i = i + 1;
        assert(row_view(r@) =~= target.subrange(0, i as int));
    }
    assert(target.subrange(0, i as int) =~= target);
    r
}

/// The cells of `a` followed by those of `b`.
pub fn joined_row(a: &Vec<String>, b: &Vec<String>) -> (r: Vec<String>)
    ensures
        row_view(r@) == row_view(a@) + row_view(b@),
{
    let mut r = copy_row(a);
    let mut i: usize = 0;
    while i < b.len()
        invariant
            0 <= i <= b.len(),
            row_view(r@) == row_view(a@) + row_view(b@).subrange(0, i as int),
        decreases b.len() - i,
    {
        let c = b[i].clone();
        proof {
            lemma_row_view_push(r@, c);
        }
        r.push(c);
        i = i + 1;
        assert(row_view(r@) =~= row_view(a@) + row_view(b@).subrange(0, i as int));
    }
    assert(row_view(b@).subrange(0, i as int) =~= row_view(b@));
    r
}

/// The row with the three trailing columns appended.
pub fn with_status(row: Vec<String>, status: String, diff: String, flag: String) -> (r: Vec<String>)
    ensures
        row_view(r@) == row_view(row@) + seq![status@, diff@, flag@],
{
    let mut r = row;
    let ghost start = row_view(r@);
    r.push(status);
    r.push(diff);
    r.push(flag);
    assert(row_view(r@) =~= start + seq![status@, diff@, flag@]);
    r
}

} // verus!
