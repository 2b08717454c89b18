//! Partitioning one table by the distinct values of a key column.
use vstd::prelude::*;
use crate::table::{
    TableData, MergeError, row_view, rows_view, find_from, find_header, copy_row,
    lemma_find_from, lemma_row_view_push, lemma_rows_view_push,
};
use crate::normalize::{trim_of, trim_text};

verus! {

/// A partitioning request.
#[derive(Debug)]
pub struct SplitInput {
    pub headers: Vec<String>,
    pub rows: Vec<Vec<String>>,
    /// The name of the key column.
    pub key: String,
}

/// The rows that share one key value.
#[derive(Debug)]
pub struct SplitPart {
    pub key_value: String,
    pub table: TableData,
}

/// One part per distinct key value, in ascending order of the value.
#[derive(Debug)]
pub struct SplitOutput {
    pub parts: Vec<SplitPart>,
}

/// The value under which a key cell groups its row: the cell trimmed, or
/// `EMPTY` where nothing is left.
pub open spec fn split_value(raw: Seq<char>) -> Seq<char> {
    if trim_of(raw).len() == 0 {
        "EMPTY"@
    } else {
        trim_of(raw)
    }
}

/// Lexicographic order on texts, character by character.
pub open spec fn lex_less(a: Seq<char>, b: Seq<char>) -> bool
    decreases a.len(),
{
    if a.len() == 0 {
        b.len() > 0
    } else if b.len() == 0 {
        false
    } else if a[0] != b[0] {
        (a[0] as u32) < (b[0] as u32)
    } else {
        lex_less(a.drop_first(), b.drop_first())
    }
}

/// No two texts are equal, and none is below an earlier one.
pub open spec fn ascending(s: Seq<Seq<char>>) -> bool {
    forall|p: int, q: int|
        #![trigger s[p], s[q]]
        0 <= p < q < s.len() ==> s[p] != s[q] && !lex_less(s[q], s[p])
}

/// The lexicographic order is transitive.
pub proof fn lemma_lex_less_transitive(a: Seq<char>, b: Seq<char>, c: Seq<char>)
    requires
        lex_less(a, b),
        lex_less(b, c),
    ensures
        lex_less(a, c),
    decreases a.len(),
{
    if a.len() > 0 && b.len() > 0 && c.len() > 0 && a[0] == b[0] && b[0] == c[0] {
        lemma_lex_less_transitive(a.drop_first(), b.drop_first(), c.drop_first());
    }
}

/// No text is below itself.
pub proof fn lemma_lex_less_irreflexive(a: Seq<char>)
    ensures
        !lex_less(a, a),
    decreases a.len(),
{
    if a.len() > 0 {
        lemma_lex_less_irreflexive(a.drop_first());
    }
}

/// The key value of each part.
pub open spec fn part_keys(parts: Seq<SplitPart>) -> Seq<Seq<char>> {
    parts.map_values(|p: SplitPart| p.key_value@)
}

impl SplitInput {
    pub open spec fn headers_view(&self) -> Seq<Seq<char>> {
        row_view(self.headers@)
    }

    pub open spec fn rows_view(&self) -> Seq<Seq<Seq<char>>> {
        rows_view(self.rows@)
    }

    /// The key column, -1 where it is missing.
    pub open spec fn key_index(&self) -> int {
        find_from(self.headers_view(), self.key@, 0)
    }

    /// The value under which each row is grouped; a row without a key cell
    /// goes under `EMPTY`.
    pub open spec fn values(&self) -> Seq<Seq<char>> {
        Seq::new(
            self.rows@.len(),
            |i: int|
                if 0 <= self.key_index() < self.rows_view()[i].len() {
                    split_value(self.rows_view()[i][self.key_index()])
                } else {
                    "EMPTY"@
                },
        )
    }

    /// The first `n` rows whose value is `v`, in order.
    pub open spec fn rows_valued(&self, v: Seq<char>, n: int) -> Seq<Seq<Seq<char>>>
        decreases n,
    {
        if n <= 0 {
            Seq::empty()
        } else {
            let prev = self.rows_valued(v, n - 1);
            if self.values()[n - 1] == v {
                prev.push(self.rows_view()[n - 1])
            } else {
                prev
            }
        }
    }

    /// `parts` partitions this table: one part per distinct value, each with
    /// the headers and the rows of its value in order, and no part's value
    /// below that of an earlier part.
    pub open spec fn parted_by(&self, parts: Seq<SplitPart>) -> bool {
        &&& forall|p: int|
            0 <= p < parts.len() ==> {
                &&& self.values().contains(#[trigger] parts[p].key_value@)
                &&& parts[p].table.headers_view() == self.headers_view()
                &&& parts[p].table.rows_view() == self.rows_valued(
                    parts[p].key_value@,
                    self.rows@.len() as int,
                )
            }
        &&& forall|i: int|
            0 <= i < self.rows@.len() ==> part_keys(parts).contains(#[trigger] self.values()[i])
        &&& ascending(part_keys(parts))
    }
}

/// Whether `a` comes before `b` in lexicographic order.
pub fn text_less(a: &String, b: &String) -> (r: bool)
    ensures
        r == lex_less(a@, b@),
{
    let sa = a.as_str();
    let sb = b.as_str();
    let la = sa.unicode_len();
    let lb = sb.unicode_len();
    assert(a@.subrange(0, la as int) =~= a@);
    assert(b@.subrange(0, lb as int) =~= b@);
    let mut i: usize = 0;
    while i < la && i < lb
        invariant
            0 <= i <= la,
            i <= lb,
            la == a@.len(),
            lb == b@.len(),
            sa@ == a@,
            sb@ == b@,
            lex_less(a@, b@) == lex_less(a@.subrange(i as int, la as int), b@.subrange(i as int, lb as int)),
        decreases la - i,
    {
        let ca = sa.get_char(i);
        let cb = sb.get_char(i);
        let ghost ra = a@.subrange(i as int, la as int);
        let ghost rb = b@.subrange(i as int, lb as int);
        if ca != cb {
            assert(ra[0] == ca && rb[0] == cb);
            return (ca as u32) < (cb as u32);
        }
        assert(ra.drop_first() =~= a@.subrange(i + 1, la as int));
        assert(rb.drop_first() =~= b@.subrange(i + 1, lb as int));
        i = i + 1;
    }
    i < lb
}

/// The value under which each row of `input` is grouped.
fn row_values(input: &SplitInput, k: usize) -> (vs: Vec<String>)
    requires
        k as int == input.key_index(),
    ensures
        row_view(vs@) == input.values(),
{
    let ghost target = input.values();
    let mut vs: Vec<String> = Vec::new();
    let mut i: usize = 0;
    while i < input.rows.len()
        invariant
            0 <= i <= input.rows.len(),
            k as int == input.key_index(),
            target == input.values(),
            row_view(vs@) == target.subrange(0, i as int),
        decreases input.rows.len() - i,
    {
        let row = &input.rows[i];
        proof {
            assert(input.rows_view()[i as int] == row_view(row@));
        }
        let v = if k < row.len() {
            let t = trim_text(row[k].as_str());
            if t.as_str().is_empty() {
                "EMPTY".to_string()
            } else {
                t
            }
        } else {
            "EMPTY".to_string()
        };
        proof {
            lemma_row_view_push(vs@, v);
        }
        vs.push(v);
        i = i + 1;
        assert(row_view(vs@) =~= target.subrange(0, i as int));
    }
    assert(target.subrange(0, i as int) =~= target);
    vs
}

/// The distinct texts of `vs`, each once, in ascending lexicographic order.
pub fn sorted_distinct(vs: &Vec<String>) -> (out: Vec<String>)
    ensures
        forall|p: int| 0 <= p < out.len() ==> row_view(vs@).contains(#[trigger] row_view(out@)[p]),
        forall|a: int| 0 <= a < vs.len() ==> row_view(out@).contains(#[trigger] row_view(vs@)[a]),
        ascending(row_view(out@)),
{
    let ghost vv = row_view(vs@);
    let mut out: Vec<String> = Vec::new();
    let mut idx: usize = 0;
    while idx < vs.len()
        invariant
            0 <= idx <= vs.len(),
            vv == row_view(vs@),
            forall|p: int| 0 <= p < out.len() ==> vv.contains(#[trigger] row_view(out@)[p]),
            forall|a: int| 0 <= a < idx ==> row_view(out@).contains(#[trigger] vv[a]),
            ascending(row_view(out@)),
        decreases vs.len() - idx,
    {
        let ghost ov = row_view(out@);
        let ghost x = vv[idx as int];
        match find_header(&out, &vs[idx]) {
            Some(j) => {
                proof {
                    lemma_find_from(ov, x, 0);
                    assert(ov[j as int] == x);
                    assert forall|a: int| 0 <= a < idx + 1 implies row_view(out@).contains(
                        #[trigger] vv[a],
                    ) by {
                        if a == idx {
                            assert(ov[j as int] == vv[a]);
                        }
                    }
                }
            },
            None => {
                proof {
                    lemma_find_from(ov, x, 0);
                }
                let mut pos: usize = 0;
                while pos < out.len()
                    invariant
                        0 <= pos <= out.len(),
                        idx < vs.len(),
                        ov == row_view(out@),
                        vv == row_view(vs@),
                        x == vs@[idx as int]@,
                        find_from(ov, x, 0) == -1,
                        forall|p: int| 0 <= p < out.len() ==> vv.contains(#[trigger] ov[p]),
                        forall|a: int| 0 <= a < idx ==> ov.contains(#[trigger] vv[a]),
                        ascending(ov),
                        forall|p: int| 0 <= p < pos ==> !lex_less(x, #[trigger] ov[p]),
                    ensures
                        0 <= pos <= out.len(),
                        forall|p: int| 0 <= p < pos ==> !lex_less(x, #[trigger] ov[p]),
                        pos < out.len() ==> lex_less(x, ov[pos as int]),
                    decreases out.len() - pos,
                {
                    if text_less(&vs[idx], &out[pos]) {
                        break;
                    }
                    pos = pos + 1;
                }
                let item = vs[idx].clone();
                out.insert(pos, item);
                proof {
                    lemma_find_from(ov, x, 0);
                    let nv = row_view(out@);
                    assert(nv =~= ov.insert(pos as int, x));
                    assert forall|p: int| 0 <= p < nv.len() implies vv.contains(
                        #[trigger] nv[p],
                    ) by {
                        if p == pos {
                            assert(vv[idx as int] == x);
                        } else if p > pos {
                            assert(nv[p] == ov[p - 1]);
                        } else {
                            assert(nv[p] == ov[p]);
                        }
                    }
                    assert forall|a: int| 0 <= a < idx + 1 implies nv.contains(
                        #[trigger] vv[a],
                    ) by {
                        if a == idx {
                            assert(nv[pos as int] == vv[a]);
                        } else {
                            assert(ov.contains(vv[a]));
                            let j = choose|j: int| 0 <= j < ov.len() && ov[j] == vv[a];
                            if j < pos {
                                assert(nv[j] == vv[a]);
                            } else {
                                assert(nv[j + 1] == vv[a]);
                            }
                        }
                    }
                    assert forall|p: int, q: int| 0 <= p < q < nv.len() implies #[trigger] nv[p]
                        != #[trigger] nv[q] && !lex_less(nv[q], nv[p]) by {
                        if q < pos {
                            assert(nv[p] == ov[p] && nv[q] == ov[q]);
                            assert(!lex_less(ov[q], ov[p]));
                        } else if q == pos {
                            assert(nv[p] == ov[p]);
                            assert(ov[p] != x);
                        } else if p < pos {
                            assert(nv[p] == ov[p] && nv[q] == ov[q - 1]);
                            assert(!lex_less(ov[q - 1], ov[p]));
                        } else if p == pos {
                            assert(nv[q] == ov[q - 1]);
                            assert(lex_less(x, ov[pos as int]));
                            assert(ov[q - 1] != x);
                            if q - 1 > pos {
                                assert(!lex_less(ov[q - 1], ov[pos as int]));
                            }
                            if lex_less(ov[q - 1], x) {
                                lemma_lex_less_transitive(ov[q - 1], x, ov[pos as int]);
                                if q - 1 == pos {
                                    lemma_lex_less_irreflexive(ov[pos as int]);
                                }
                            }
                        } else {
                            assert(nv[p] == ov[p - 1] && nv[q] == ov[q - 1]);
                            assert(!lex_less(ov[q - 1], ov[p - 1]));
                        }
                    }
                }
            },
        }
        idx = idx + 1;
    }
    out
}

/// The rows of `input` whose value is `v`, in order.
fn rows_of_value(input: &SplitInput, vs: &Vec<String>, v: &String) -> (rows: Vec<Vec<String>>)
    requires
        row_view(vs@) == input.values(),
    ensures
        rows_view(rows@) == input.rows_valued(v@, input.rows@.len() as int),
{
    assert(row_view(vs@).len() == vs.len());
    let mut rows: Vec<Vec<String>> = Vec::new();
    let mut i: usize = 0;
    while i < input.rows.len()
        invariant
            0 <= i <= input.rows.len(),
            vs.len() == input.rows.len(),
            row_view(vs@) == input.values(),
            rows_view(rows@) == input.rows_valued(v@, i as int),
        decreases input.rows.len() - i,
    {
        assert(row_view(vs@)[i as int] == vs@[i as int]@);
        if vs[i] == *v {
            let row = copy_row(&input.rows[i]);
            proof {
                assert(input.rows_view()[i as int] == row_view(row@));
                lemma_rows_view_push(rows@, row);
            }
            rows.push(row);
        }
        i = i + 1;
    }
    rows
}

/// Partitions the table of `input` by the distinct values of its key
/// column. Fails with `KeyColumnNotFound` where the headers lack the key.
pub fn split(input: &SplitInput) -> (r: Result<SplitOutput, MergeError>)
    ensures
        r is Err <==> input.key_index() < 0,
        match r {
            Ok(out) => input.parted_by(out.parts@),
            Err(e) => e == MergeError::KeyColumnNotFound,
        },
{
    let k = match find_header(&input.headers, &input.key) {
        Some(k) => k,
        None => {
            return Err(MergeError::KeyColumnNotFound);
        },
    };
    let vs = row_values(input, k);
    assert(row_view(vs@).len() == vs.len());
    let keys = sorted_distinct(&vs);
    let ghost kv = row_view(keys@);
    let mut parts: Vec<SplitPart> = Vec::new();
    let mut p: usize = 0;
    while p < keys.len()
        invariant
            0 <= p <= keys.len(),
            kv == row_view(keys@),
            row_view(vs@) == input.values(),
            part_keys(parts@) == kv.subrange(0, p as int),
            forall|q: int|
                0 <= q < p ==> {
                    &&& parts.len() == p
                    &&& (#[trigger] parts@[q]).table.headers_view() == input.headers_view()
                    &&& parts@[q].table.rows_view() == input.rows_valued(
                        parts@[q].key_value@,
                        input.rows@.len() as int,
                    )
                },
        decreases keys.len() - p,
    {
        let part = SplitPart {
            key_value: keys[p].clone(),
            table: TableData { headers: copy_row(&input.headers), rows: rows_of_value(input, &vs, &keys[p]) },
        };
        let ghost before = parts@;
        assert(part.key_value@ == kv[p as int]);
        parts.push(part);
        p = p + 1;
        assert(part_keys(parts@) =~= kv.subrange(0, p as int)) by {
            assert(parts@ == before.push(part));
            assert(part_keys(parts@) =~= part_keys(before).push(part.key_value@));
            assert(kv.subrange(0, p as int) =~= kv.subrange(0, p - 1).push(kv[p - 1]));
        }
        assert(forall|q: int| 0 <= q < p - 1 ==> parts@[q] == before[q]);
    }
    proof {
        let pk = part_keys(parts@);
        assert(pk =~= kv);
        assert forall|q: int| 0 <= q < parts@.len() implies input.values().contains(
            #[trigger] parts@[q].key_value@,
        ) by {
            assert(pk[q] == parts@[q].key_value@);
            assert(row_view(vs@).contains(kv[q]));
        }
        assert forall|i: int| 0 <= i < input.rows@.len() implies pk.contains(
            #[trigger] input.values()[i],
        ) by {
            assert(input.values()[i] == row_view(vs@)[i]);
        }
    }
    Ok(SplitOutput { parts })
}

} // verus!
