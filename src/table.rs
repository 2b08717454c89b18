//! The table model shared by both operations: headers, rows of text cells,
//! and the views through which contracts speak of them.
use vstd::prelude::*;

verus! {

/// A table: column names and rows of cells. Rows may be shorter or longer
/// than the header list; a cell read past the end of a row is empty.
#[derive(Debug)]
pub struct TableData {
    pub headers: Vec<String>,
    pub rows: Vec<Vec<String>>,
}

/// Why a request could not be served.
#[derive(Debug, Clone, Copy, PartialEq, Eq)]
pub enum MergeError {
    /// The request could not be decoded into the expected shape.
    MalformedInput,
    /// The key column is not among the relevant headers.
    KeyColumnNotFound,
}

/// The characters of each cell of a row.
pub open spec fn row_view(r: Seq<String>) -> Seq<Seq<char>> {
    r.map_values(|s: String| s@)
}

/// The characters of each cell of each row.
pub open spec fn rows_view(rows: Seq<Vec<String>>) -> Seq<Seq<Seq<char>>> {
    rows.map_values(|r: Vec<String>| row_view(r@))
}

/// Adding a cell to a row adds its characters to the view.
pub proof fn lemma_row_view_push(r: Seq<String>, x: String)
    ensures
        row_view(r.push(x)) == row_view(r).push(x@),
{
    assert(row_view(r.push(x)) =~= row_view(r).push(x@));
}

/// Adding a row to a list of rows adds its view.
pub proof fn lemma_rows_view_push(rows: Seq<Vec<String>>, x: Vec<String>)
    ensures
        rows_view(rows.push(x)) == rows_view(rows).push(row_view(x@)),
{
    assert(rows_view(rows.push(x)) =~= rows_view(rows).push(row_view(x@)));
}

impl TableData {
    pub open spec fn headers_view(&self) -> Seq<Seq<char>> {
        row_view(self.headers@)
    }

    pub open spec fn rows_view(&self) -> Seq<Seq<Seq<char>>> {
        rows_view(self.rows@)
    }
}

/// The cell at column `i`, empty where the row has no such cell.
pub open spec fn cell(row: Seq<Seq<char>>, i: int) -> Seq<char> {
    if 0 <= i < row.len() {
        row[i]
    } else {
        Seq::empty()
    }
}

/// A row cut or padded with empty cells to exactly `n` cells.
pub open spec fn fit(row: Seq<Seq<char>>, n: nat) -> Seq<Seq<char>> {
    Seq::new(n, |i: int| cell(row, i))
}

/// `n` empty cells.
pub open spec fn blanks(n: nat) -> Seq<Seq<char>> {
    Seq::new(n, |i: int| Seq::<char>::empty())
}

/// The first position at or after `start` where `s` holds `x`, or -1.
pub open spec fn find_from<A>(s: Seq<A>, x: A, start: int) -> int
    decreases s.len() - start,
{
    if start < 0 || start >= s.len() {
        -1
    } else if s[start] == x {
        start
    } else {
        find_from(s, x, start + 1)
    }
}

/// How many of the first `n` elements of `s` equal `x`.
pub open spec fn count_upto<A>(s: Seq<A>, x: A, n: int) -> nat
    decreases n,
{
    if n <= 0 {
        0
    } else {
        count_upto(s, x, n - 1) + if s[n - 1] == x {
            1nat
        } else {
            0nat
        }
    }
}

/// What `find_from` returns is a position of `x`, and no earlier one from `start` on.
pub proof fn lemma_find_from<A>(s: Seq<A>, x: A, start: int)
    requires
        0 <= start,
    ensures
        find_from(s, x, start) >= 0 ==> start <= find_from(s, x, start) < s.len() && s[find_from(
            s,
            x,
            start,
        )] == x,
        forall|j: int| start <= j < s.len() && j < find_from(s, x, start) ==> s[j] != x,
        find_from(s, x, start) < 0 ==> forall|j: int| start <= j < s.len() ==> s[j] != x,
    decreases s.len() - start,
{
    if start < s.len() && s[start] != x {
        lemma_find_from(s, x, start + 1);
    }
}

/// An element that occurs somewhere in the first `n` is counted.
pub proof fn lemma_count_positive<A>(s: Seq<A>, x: A, n: int, j: int)
    requires
        0 <= j < n <= s.len(),
        s[j] == x,
    ensures
        count_upto(s, x, n) >= 1,
    decreases n,
{
    if j < n - 1 {
        lemma_count_positive(s, x, n - 1, j);
    }
}

/// With no element equal to `x` among the first `n`, none is counted.
pub proof fn lemma_count_zero<A>(s: Seq<A>, x: A, n: int)
    requires
        n <= s.len(),
        forall|j: int| 0 <= j < n ==> s[j] != x,
    ensures
        count_upto(s, x, n) == 0,
    decreases n,
{
    if n > 0 {
        lemma_count_zero(s, x, n - 1);
    }
}

/// An element held at two positions among the first `n` is counted twice.
pub proof fn lemma_count_two<A>(s: Seq<A>, x: A, n: int, a: int, b: int)
    requires
        0 <= a < b < n <= s.len(),
        s[a] == x,
        s[b] == x,
    ensures
        count_upto(s, x, n) >= 2,
    decreases n,
{
    if b == n - 1 {
        lemma_count_positive(s, x, n - 1, a);
    } else {
        lemma_count_two(s, x, n - 1, a, b);
    }
}

/// The position of `name` in `headers`; the first one where it occurs more than once.
pub fn find_header(headers: &Vec<String>, name: &String) -> (r: Option<usize>)
    ensures
        match r {
            Some(i) => i as int == find_from(row_view(headers@), name@, 0),
            None => find_from(row_view(headers@), name@, 0) == -1,
        },
{
    let ghost hv = row_view(headers@);
    let mut i: usize = 0;
    while i < headers.len()
        invariant
            0 <= i <= headers.len(),
            hv == row_view(headers@),
            find_from(hv, name@, 0) == find_from(hv, name@, i as int),
        decreases headers.len() - i,
    {
        if headers[i] == *name {
            return Some(i);
        }
        i = i + 1;
    }
    None
}

/// A copy of a row, cell for cell.
pub fn copy_row(row: &Vec<String>) -> (r: Vec<String>)
    ensures
        r@ == row@,
{
    let mut r: Vec<String> = Vec::new();
    let mut i: usize = 0;
    while i < row.len()
        invariant
            0 <= i <= row.len(),
            r@ == row@.subrange(0, i as int),
        decreases row.len() - i,
    {
        r.push(row[i].clone());
        i = i + 1;
    }
    assert(r@ =~= row@);
    r
}

} // verus!
