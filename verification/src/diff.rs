//! The whole-file split diff (old text on the left, working tree on the
//! right) and the repository-relative paths the Git views use.

use vstd::prelude::*;

use crate::markdown::{lemma_lines_last, lemma_lines_step, split_lines};
use crate::strs::{push_string, str_eq};
use crate::paths::{display_path_chars, display_path_spec};
use crate::text::{
    chars_of, concat, contains_char, decimal, drop_trailing, eq_chars, find, lower_ascii,
    lower_chars, replace_char, replace_chars, skip_leading, slice_vec, split_char, split_pieces,
    starts_with, starts_with_chars, string_of, strip_end, strip_start, CharSet,
};

verus! {

/// `str::lines`: the `split_inclusive('\n')` pieces without their `\n`,
/// and without a `\r` that stood before that `\n`.
pub open spec fn line_body(l: Seq<char>) -> Seq<char> {
    if l.len() > 0 && l.last() == '\n' {
        let t = l.drop_last();
        if t.len() > 0 && t.last() == '\r' {
            t.drop_last()
        } else {
            t
        }
    } else {
        l
    }
}

pub open spec fn lines_of(s: Seq<char>) -> Seq<Seq<char>> {
    split_lines(s).map_values(|l: Seq<char>| line_body(l))
}

fn line_body_of(v: &[char], lo: usize, hi: usize) -> (r: String)
    requires
        lo <= hi <= v@.len(),
    ensures
        r@ == line_body(v@.subrange(lo as int, hi as int)),
{
    let ghost l = v@.subrange(lo as int, hi as int);
    let mut end = hi;
    if end > lo && v[end - 1] == '\n' {
        end -= 1;
        if end > lo && v[end - 1] == '\r' {
            end -= 1;
        }
    }
    proof {
        if l.len() > 0 && l.last() == '\n' {
            assert(l.drop_last() =~= v@.subrange(lo as int, hi - 1));
            let t = l.drop_last();
            if t.len() > 0 && t.last() == '\r' {
                assert(t.drop_last() =~= v@.subrange(lo as int, hi - 2));
            }
        }
    }
    string_of(&slice_vec(v, lo, end))
}

/// The lines of a text, as `str::lines` gives them.
pub fn text_lines(s: &str) -> (r: Vec<String>)
    ensures
        r.deep_view() == lines_of(s@),
{
    let v = chars_of(s);
    let n = v.len();
    let mut out: Vec<String> = Vec::new();
    if n == 0 {
        proof {
            assert(out.deep_view() =~= lines_of(s@));
        }
        return out;
    }
    let ghost all = split_lines(v@);
    let mut start: usize = 0;
    proof {
        assert(v@.skip(0) =~= v@);
        assert(all.take(0) =~= Seq::<Seq<char>>::empty());
    }
    loop
        invariant
            v@ == s@,
            n == v@.len(),
            start < n,
            all == split_lines(v@),
            all.take(all.len() - split_lines(v@.skip(start as int)).len()).map_values(
                |l: Seq<char>| line_body(l),
            ) == out.deep_view(),
            all.skip(all.len() - split_lines(v@.skip(start as int)).len()) == split_lines(
                v@.skip(start as int),
            ),
            split_lines(v@.skip(start as int)).len() <= all.len(),
        decreases n - start,
    {
        let ghost rest = split_lines(v@.skip(start as int));
        let ghost j = all.len() - rest.len();
        match crate::markdown::find_from(&v, start, '\n') {
            Some(k) => {
                let next = start + k + 1;
                proof {
                    lemma_lines_step(v@, start as int, k as int);
                    assert(all[j] == all.skip(j)[0]);
                    assert(all.take(j + 1) =~= all.take(j).push(all[j]));
                    assert(all.skip(j + 1) =~= all.skip(j).drop_first());
                    assert((seq![v@.subrange(start as int, next as int)] + split_lines(
                        v@.skip(next as int),
                    )).drop_first() =~= split_lines(v@.skip(next as int)));
                }
                push_string(&mut out, line_body_of(&v, start, next));
                proof {
                    assert(all.take(j + 1).map_values(|l: Seq<char>| line_body(l)) =~= all.take(
                        j,
                    ).map_values(|l: Seq<char>| line_body(l)).push(line_body(all[j])));
                }
                if next == n {
                    proof {
                        assert(v@.skip(next as int) =~= Seq::<char>::empty());
                        assert(all.take(j + 1) =~= all);
                    }
                    return out;
                }
                start = next;
            },
            None => {
                proof {
                    lemma_lines_last(v@, start as int);
                    assert(all[j] == all.skip(j)[0]);
                    assert(all.take(j + 1) =~= all.take(j).push(all[j]));
                    assert(all.take(j + 1) =~= all);
                }
                push_string(&mut out, line_body_of(&v, start, n));
                proof {
                    assert(all.take(j + 1).map_values(|l: Seq<char>| line_body(l)) =~= all.take(
                        j,
                    ).map_values(|l: Seq<char>| line_body(l)).push(line_body(all[j])));
                }
                return out;
            },
        }
    }
}

/// Length of a longest common subsequence of `a[i..]` and `b[j..]`.
pub open spec fn lcs(a: Seq<Seq<char>>, b: Seq<Seq<char>>, i: int, j: int) -> nat
    decreases (a.len() - i) + (b.len() - j),
{
    if i < 0 || j < 0 || i >= a.len() || j >= b.len() {
        0
    } else if a[i] == b[j] {
        1 + lcs(a, b, i + 1, j + 1)
    } else {
        let down = lcs(a, b, i + 1, j);
        let right = lcs(a, b, i, j + 1);
        if down >= right {
            down
        } else {
            right
        }
    }
}

proof fn lemma_lcs_bound(a: Seq<Seq<char>>, b: Seq<Seq<char>>, i: int, j: int)
    requires
        0 <= i <= a.len(),
        0 <= j <= b.len(),
    ensures
        lcs(a, b, i, j) <= a.len() - i,
    decreases (a.len() - i) + (b.len() - j),
{
    if i < a.len() && j < b.len() {
        lemma_lcs_bound(a, b, i + 1, j + 1);
        lemma_lcs_bound(a, b, i + 1, j);
        lemma_lcs_bound(a, b, i, j + 1);
    }
}

/// Largest number of lines a side may have for a split diff.
pub const MAX_DIFF_LINES: usize = 2000;

/// One step of an edit script between two line lists.
#[derive(Clone, Copy, Debug, PartialEq, Eq)]
pub enum Op {
    /// `old[i]` and `new[j]` are the same line.
    Equal(usize, usize),
    /// `old[i]` was removed.
    Delete(usize),
    /// `new[j]` was added.
    Insert(usize),
}

/// The edit script from `(i, j)` on: walk the LCS table, preferring a
/// deletion when it keeps as many common lines as an insertion.
pub open spec fn ops_from(a: Seq<Seq<char>>, b: Seq<Seq<char>>, i: int, j: int) -> Seq<Op>
    decreases (a.len() - i) + (b.len() - j),
{
    if i < 0 || j < 0 || i > a.len() || j > b.len() {
        Seq::empty()
    } else if i < a.len() && j < b.len() {
        if a[i] == b[j] {
            seq![Op::Equal(i as usize, j as usize)] + ops_from(a, b, i + 1, j + 1)
        } else if lcs(a, b, i + 1, j) >= lcs(a, b, i, j + 1) {
            seq![Op::Delete(i as usize)] + ops_from(a, b, i + 1, j)
        } else {
            seq![Op::Insert(j as usize)] + ops_from(a, b, i, j + 1)
        }
    } else if i < a.len() {
        seq![Op::Delete(i as usize)] + ops_from(a, b, i + 1, j)
    } else if j < b.len() {
        seq![Op::Insert(j as usize)] + ops_from(a, b, i, j + 1)
    } else {
        Seq::empty()
    }
}

/// Row `i` of the LCS table: `lcs(a, b, i, j)` for `j` in `0..=b.len()`.
fn lcs_row(old: &[String], new: &[String], i: usize, below: &Vec<u32>) -> (row: Vec<u32>)
    requires
        i < old@.len(),
        old@.len() <= MAX_DIFF_LINES,
        new@.len() <= MAX_DIFF_LINES,
        below@.len() == new@.len() + 1,
        forall|j: int|
            0 <= j <= new@.len() ==> #[trigger] below@[j] as int == lcs(
                old.deep_view(),
                new.deep_view(),
                i + 1,
                j,
            ),
    ensures
        row@.len() == new@.len() + 1,
        forall|j: int|
            0 <= j <= new@.len() ==> #[trigger] row@[j] as int == lcs(
                old.deep_view(),
                new.deep_view(),
                i as int,
                j,
            ),
{
    let ghost a = old.deep_view();
    let ghost b = new.deep_view();
    let m = new.len();
    let mut row: Vec<u32> = Vec::new();
    let mut k: usize = 0;
    while k <= m
        invariant
            k <= m + 1,
            m == new@.len(),
            m <= MAX_DIFF_LINES,
            row@.len() == k,
            forall|j: int| 0 <= j < k ==> #[trigger] row@[j] == 0u32,
        decreases m + 1 - k,
    {
        row.push(0);
        k += 1;
    }
    proof {
        assert(lcs(a, b, i as int, m as int) == 0);
    }
    let mut j = m;
    while j > 0
        invariant
            j <= m,
            m == new@.len(),
            i < old@.len(),
            old@.len() <= MAX_DIFF_LINES,
            m <= MAX_DIFF_LINES,
            a == old.deep_view(),
            b == new.deep_view(),
            row@.len() == m + 1,
            below@.len() == m + 1,
            forall|jj: int|
                0 <= jj <= m ==> #[trigger] below@[jj] as int == lcs(a, b, i + 1, jj),
            forall|jj: int| j <= jj <= m ==> #[trigger] row@[jj] as int == lcs(a, b, i as int, jj),
        decreases j,
    {
        let jj = j - 1;
        proof {
            lemma_lcs_bound(a, b, i + 1, jj + 1);
            assert(old@[i as int]@ == a[i as int]);
            assert(new@[jj as int]@ == b[jj as int]);
        }
        let v = if str_eq(old[i].as_str(), new[jj].as_str()) {
            below[jj + 1] + 1
        } else {
            let down = below[jj];
            let right = row[jj + 1];
            if down >= right {
                down
            } else {
                right
            }
        };
        row.set(jj, v);
        j = jj;
    }
    row
}

/// The LCS table, one row per `i` from `old.len()` down to `0`:
/// `rows[old.len() - i][j] == lcs(old, new, i, j)`.
fn lcs_table(old: &[String], new: &[String]) -> (rows: Vec<Vec<u32>>)
    requires
        old@.len() <= MAX_DIFF_LINES,
        new@.len() <= MAX_DIFF_LINES,
    ensures
        rows@.len() == old@.len() + 1,
        forall|k: int| 0 <= k <= old@.len() ==> #[trigger] rows@[k]@.len() == new@.len() + 1,
        forall|k: int, j: int|
            0 <= k <= old@.len() && 0 <= j <= new@.len() ==> #[trigger] rows@[k]@[j] as int
                == lcs(old.deep_view(), new.deep_view(), old@.len() - k, j),
{
    let ghost a = old.deep_view();
    let ghost b = new.deep_view();
    let n = old.len();
    let m = new.len();
    let mut last: Vec<u32> = Vec::new();
    let mut k: usize = 0;
    while k <= m
        invariant
            k <= m + 1,
            m == new@.len(),
            m <= MAX_DIFF_LINES,
            last@.len() == k,
            forall|j: int| 0 <= j < k ==> #[trigger] last@[j] == 0u32,
        decreases m + 1 - k,
    {
        last.push(0);
        k += 1;
    }
    let mut rows: Vec<Vec<u32>> = Vec::new();
    rows.push(last);
    let mut i = n;
    while i > 0
        invariant
            i <= n,
            n == old@.len(),
            m == new@.len(),
            n <= MAX_DIFF_LINES,
            m <= MAX_DIFF_LINES,
            a == old.deep_view(),
            b == new.deep_view(),
            rows@.len() == n - i + 1,
            forall|r: int| 0 <= r < rows@.len() ==> #[trigger] rows@[r]@.len() == m + 1,
            forall|r: int, j: int|
                0 <= r < rows@.len() && 0 <= j <= m ==> #[trigger] rows@[r]@[j] as int == lcs(
                    a,
                    b,
                    n - r,
                    j,
                ),
        decreases i,
    {
        let ii = i - 1;
        let below = &rows[n - i];
        let row = lcs_row(old, new, ii, below);
        rows.push(row);
        i = ii;
    }
    rows
}

/// Every index in the script from `(i, j)` names a line that exists.
pub open spec fn ops_in_range(ops: Seq<Op>, n: int, m: int) -> bool {
    forall|k: int|
        0 <= k < ops.len() ==> match #[trigger] ops[k] {
            Op::Equal(l, r) => l < n && r < m,
            Op::Delete(l) => l < n,
            Op::Insert(r) => r < m,
        }
}

proof fn lemma_ops_in_range(a: Seq<Seq<char>>, b: Seq<Seq<char>>, i: int, j: int)
    requires
        0 <= i <= a.len(),
        0 <= j <= b.len(),
        a.len() <= MAX_DIFF_LINES,
        b.len() <= MAX_DIFF_LINES,
    ensures
        ops_in_range(ops_from(a, b, i, j), a.len() as int, b.len() as int),
    decreases (a.len() - i) + (b.len() - j),
{
    let ops = ops_from(a, b, i, j);
    if i < a.len() && j < b.len() {
        if a[i] == b[j] {
            lemma_ops_in_range(a, b, i + 1, j + 1);
        } else if lcs(a, b, i + 1, j) >= lcs(a, b, i, j + 1) {
            lemma_ops_in_range(a, b, i + 1, j);
        } else {
            lemma_ops_in_range(a, b, i, j + 1);
        }
    } else if i < a.len() {
        lemma_ops_in_range(a, b, i + 1, j);
    } else if j < b.len() {
        lemma_ops_in_range(a, b, i, j + 1);
    }
    if ops.len() > 0 {
        let rest = ops.drop_first();
        assert forall|k: int| 0 <= k < ops.len() implies match #[trigger] ops[k] {
            Op::Equal(l, r) => l < a.len() && r < b.len(),
            Op::Delete(l) => l < a.len(),
            Op::Insert(r) => r < b.len(),
        } by {
            if k > 0 {
                assert(ops[k] == rest[k - 1]);
            }
        }
    }
}

/// The edit script that turns `old` into `new` along a longest common
/// subsequence.
fn diff_ops(old: &[String], new: &[String]) -> (ops: Vec<Op>)
    requires
        old@.len() <= MAX_DIFF_LINES,
        new@.len() <= MAX_DIFF_LINES,
    ensures
        ops@ == ops_from(old.deep_view(), new.deep_view(), 0, 0),
{
    let ghost a = old.deep_view();
    let ghost b = new.deep_view();
    let n = old.len();
    let m = new.len();
    let table = lcs_table(old, new);
    let mut ops: Vec<Op> = Vec::new();
    let mut i: usize = 0;
    let mut j: usize = 0;
    while i < n || j < m
        invariant
            i <= n,
            j <= m,
            n == old@.len(),
            m == new@.len(),
            n <= MAX_DIFF_LINES,
            m <= MAX_DIFF_LINES,
            a == old.deep_view(),
            b == new.deep_view(),
            table@.len() == n + 1,
            forall|k: int| 0 <= k <= n ==> #[trigger] table@[k]@.len() == m + 1,
            forall|k: int, jj: int|
                0 <= k <= n && 0 <= jj <= m ==> #[trigger] table@[k]@[jj] as int == lcs(
                    a,
                    b,
                    n - k,
                    jj,
                ),
            ops@ + ops_from(a, b, i as int, j as int) == ops_from(a, b, 0, 0),
        decreases (n - i) + (m - j),
    {
        let ghost before = ops@;
        if i < n && j < m {
            proof {
                assert(old@[i as int]@ == a[i as int]);
                assert(new@[j as int]@ == b[j as int]);
            }
            if str_eq(old[i].as_str(), new[j].as_str()) {
                ops.push(Op::Equal(i, j));
                proof {
                    assert(ops@ + ops_from(a, b, i + 1, j + 1) =~= before + ops_from(a, b, i as int, j as int));
                }
                i += 1;
                j += 1;
            } else {
                let down = table[n - i - 1][j];
                let right = table[n - i][j + 1];
                proof {
                    assert(down as int == lcs(a, b, i + 1, j as int));
                    assert(right as int == lcs(a, b, i as int, j + 1));
                }
                if down >= right {
                    ops.push(Op::Delete(i));
                    proof {
                        assert(ops@ + ops_from(a, b, i + 1, j as int) =~= before + ops_from(a, b, i as int, j as int));
                    }
                    i += 1;
                } else {
                    ops.push(Op::Insert(j));
                    proof {
                        assert(ops@ + ops_from(a, b, i as int, j + 1) =~= before + ops_from(a, b, i as int, j as int));
                    }
                    j += 1;
                }
            }
        } else if i < n {
            ops.push(Op::Delete(i));
            proof {
                assert(ops@ + ops_from(a, b, i + 1, j as int) =~= before + ops_from(a, b, i as int, j as int));
            }
            i += 1;
        } else {
            ops.push(Op::Insert(j));
            proof {
                assert(ops@ + ops_from(a, b, i as int, j + 1) =~= before + ops_from(a, b, i as int, j as int));
            }
            j += 1;
        }
    }
    proof {
        assert(ops@ + Seq::<Op>::empty() =~= ops@);
    }
    ops
}

#[derive(Clone, Copy, Debug, PartialEq, Eq)]
pub enum RowKind {
    Same,
    Added,
    Removed,
    Changed,
}

/// One row of the split view: the old line on the left, the new on the right.
#[derive(Clone, Debug, PartialEq, Eq)]
pub struct SplitRow {
    pub left: Option<String>,
    pub right: Option<String>,
    pub kind: RowKind,
}

pub struct RowView {
    pub left: Option<Seq<char>>,
    pub right: Option<Seq<char>>,
    pub kind: RowKind,
}

impl View for SplitRow {
    type V = RowView;

    open spec fn view(&self) -> RowView {
        RowView { left: self.left.deep_view(), right: self.right.deep_view(), kind: self.kind }
    }
}

pub open spec fn rows_view(rows: Seq<SplitRow>) -> Seq<RowView> {
    rows.map_values(|r: SplitRow| r@)
}

/// First index from `k` on that holds an `Equal`, or the end.
pub open spec fn run_end(ops: Seq<Op>, k: int) -> int
    decreases ops.len() - k,
{
    if k < 0 || k >= ops.len() || ops[k] is Equal {
        k
    } else {
        run_end(ops, k + 1)
    }
}

pub proof fn lemma_run_end(ops: Seq<Op>, k: int)
    requires
        0 <= k <= ops.len(),
    ensures
        k <= run_end(ops, k) <= ops.len(),
        run_end(ops, k) < ops.len() ==> ops[run_end(ops, k)] is Equal,
        forall|t: int| k <= t < run_end(ops, k) ==> !(#[trigger] ops[t] is Equal),
    decreases ops.len() - k,
{
    if k < ops.len() && !(ops[k] is Equal) {
        lemma_run_end(ops, k + 1);
    }
}

/// The deleted old-line indices of a run, in order.
pub open spec fn deletes(ops: Seq<Op>) -> Seq<usize>
    decreases ops.len(),
{
    if ops.len() == 0 {
        Seq::empty()
    } else {
        let before = deletes(ops.drop_last());
        match ops.last() {
            Op::Delete(i) => before.push(i),
            _ => before,
        }
    }
}

/// The inserted new-line indices of a run, in order.
pub open spec fn inserts(ops: Seq<Op>) -> Seq<usize>
    decreases ops.len(),
{
    if ops.len() == 0 {
        Seq::empty()
    } else {
        let before = inserts(ops.drop_last());
        match ops.last() {
            Op::Insert(j) => before.push(j),
            _ => before,
        }
    }
}

pub open spec fn row_kind(left: bool, right: bool) -> RowKind {
    if left && right {
        RowKind::Changed
    } else if left {
        RowKind::Removed
    } else if right {
        RowKind::Added
    } else {
        RowKind::Same
    }
}

/// A run of deletions and insertions shown side by side: the `n`-th
/// deleted line beside the `n`-th inserted one.
pub open spec fn paired_rows(
    dels: Seq<usize>,
    ins: Seq<usize>,
    a: Seq<Seq<char>>,
    b: Seq<Seq<char>>,
) -> Seq<RowView> {
    let count = if dels.len() >= ins.len() {
        dels.len()
    } else {
        ins.len()
    };
    Seq::new(
        count,
        |n: int|
            RowView {
                left: if n < dels.len() {
                    Some(a[dels[n] as int])
                } else {
                    None
                },
                right: if n < ins.len() {
                    Some(b[ins[n] as int])
                } else {
                    None
                },
                kind: row_kind(n < dels.len(), n < ins.len()),
            },
    )
}

/// The rows for the script from op `k` on.
pub open spec fn rows_from(ops: Seq<Op>, a: Seq<Seq<char>>, b: Seq<Seq<char>>, k: int) -> Seq<
    RowView,
>
    decreases ops.len() - k,
{
    if k < 0 || k >= ops.len() {
        Seq::empty()
    } else {
        match ops[k] {
            Op::Equal(l, r) => seq![
                RowView { left: Some(a[l as int]), right: Some(b[r as int]), kind: RowKind::Same },
            ] + rows_from(ops, a, b, k + 1),
            _ => {
                proof {
                    lemma_run_end(ops, k);
                    lemma_run_end(ops, k + 1);
                }
                let e = run_end(ops, k);
                paired_rows(deletes(ops.subrange(k, e)), inserts(ops.subrange(k, e)), a, b)
                    + rows_from(ops, a, b, e)
            },
        }
    }
}

pub open spec fn too_large_message(n: nat, m: nat) -> Seq<char> {
    "File is too large for a split diff ("@ + decimal(n) + " / "@ + decimal(m) + " lines)."@
}

/// The rows of the split diff of `old` against `new`.
pub open spec fn split_rows_spec(old: Seq<char>, new: Seq<char>) -> Seq<RowView> {
    let a = lines_of(old);
    let b = lines_of(new);
    if a.len() > MAX_DIFF_LINES || b.len() > MAX_DIFF_LINES {
        seq![
            RowView {
                left: Some(too_large_message(a.len(), b.len())),
                right: None,
                kind: RowKind::Same,
            },
        ]
    } else {
        rows_from(ops_from(a, b, 0, 0), a, b, 0)
    }
}

fn copy_line(lines: &[String], i: usize) -> (r: String)
    requires
        i < lines@.len(),
    ensures
        r@ == lines.deep_view()[i as int],
{
    lines[i].clone()
}

/// Rows for the run `ops[start..end]` of deletions and insertions.
fn push_run(
    rows: &mut Vec<SplitRow>,
    ops: &[Op],
    start: usize,
    end: usize,
    before_lines: &[String],
    after_lines: &[String],
)
    requires
        start <= end <= ops@.len(),
        ops_in_range(ops@, before_lines@.len() as int, after_lines@.len() as int),
    ensures
        rows_view(final(rows)@) == rows_view(old(rows)@) + paired_rows(
            deletes(ops@.subrange(start as int, end as int)),
            inserts(ops@.subrange(start as int, end as int)),
            before_lines.deep_view(),
            after_lines.deep_view(),
        ),
{
    let ghost a = before_lines.deep_view();
    let ghost b = after_lines.deep_view();
    let mut dels: Vec<usize> = Vec::new();
    let mut ins: Vec<usize> = Vec::new();
    let mut k = start;
    proof {
        assert(ops@.subrange(start as int, start as int) =~= Seq::<Op>::empty());
    }
    while k < end
        invariant
            start <= k <= end <= ops@.len(),
            ops_in_range(ops@, before_lines@.len() as int, after_lines@.len() as int),
            dels@ == deletes(ops@.subrange(start as int, k as int)),
            ins@ == inserts(ops@.subrange(start as int, k as int)),
            forall|t: int| 0 <= t < dels@.len() ==> #[trigger] dels@[t] < before_lines@.len(),
            forall|t: int| 0 <= t < ins@.len() ==> #[trigger] ins@[t] < after_lines@.len(),
        decreases end - k,
    {
        proof {
            assert(ops@.subrange(start as int, k + 1).drop_last() =~= ops@.subrange(
                start as int,
                k as int,
            ));
            assert(ops@.subrange(start as int, k + 1).last() == ops@[k as int]);
        }
        match ops[k] {
            Op::Delete(i) => {
                dels.push(i);
            },
            Op::Insert(j) => {
                ins.push(j);
            },
            Op::Equal(_, _) => {},
        }
        k += 1;
    }
    let count = if dels.len() >= ins.len() {
        dels.len()
    } else {
        ins.len()
    };
    let ghost before = rows_view(rows@);
    let ghost expected = paired_rows(dels@, ins@, a, b);
    let mut t: usize = 0;
    while t < count
        invariant
            t <= count,
            count == expected.len(),
            expected == paired_rows(dels@, ins@, a, b),
            a == before_lines.deep_view(),
            b == after_lines.deep_view(),
            forall|x: int| 0 <= x < dels@.len() ==> #[trigger] dels@[x] < before_lines@.len(),
            forall|x: int| 0 <= x < ins@.len() ==> #[trigger] ins@[x] < after_lines@.len(),
            rows_view(rows@) == before + expected.take(t as int),
        decreases count - t,
    {
        let left = if t < dels.len() {
            Some(copy_line(before_lines, dels[t]))
        } else {
            None
        };
        let right = if t < ins.len() {
            Some(copy_line(after_lines, ins[t]))
        } else {
            None
        };
        let kind = if left.is_some() && right.is_some() {
            RowKind::Changed
        } else if left.is_some() {
            RowKind::Removed
        } else if right.is_some() {
            RowKind::Added
        } else {
            RowKind::Same
        };
        let row = SplitRow { left, right, kind };
        proof {
            assert(row@ == expected[t as int]);
        }
        let ghost prev = rows@;
        let ghost rv = row@;
        rows.push(row);
        proof {
            assert(rows_view(rows@) =~= rows_view(prev).push(rv));
            assert(expected.take(t + 1) =~= expected.take(t as int).push(expected[t as int]));
            assert(rows_view(rows@) =~= before + expected.take(t + 1));
        }
        t += 1;
    }
    proof {
        assert(expected.take(count as int) =~= expected);
    }
}

fn too_large(n: usize, m: usize) -> (r: String)
    ensures
        r@ == too_large_message(n as nat, m as nat),
{
    let text = crate::text::concat(&chars_of("File is too large for a split diff ("), &crate::text::decimal_chars(n as u128));
    let text = crate::text::concat(&text, &chars_of(" / "));
    let text = crate::text::concat(&text, &crate::text::decimal_chars(m as u128));
    let text = crate::text::concat(&text, &chars_of(" lines)."));
    string_of(&text)
}

/// Whole-file split diff: old on the left, working tree on the right.
///
/// Unchanged lines sit side by side; each run of changes pairs its removed
/// lines with its added ones. Texts over [`MAX_DIFF_LINES`] lines get one
/// row that says so.
pub fn split_diff_lines(old: &str, new: &str) -> (rows: Vec<SplitRow>)
    ensures
        rows_view(rows@) == split_rows_spec(old@, new@),
{
    let old_lines = text_lines(old);
    let new_lines = text_lines(new);
    let ghost a = old_lines.deep_view();
    let ghost b = new_lines.deep_view();
    if old_lines.len() > MAX_DIFF_LINES || new_lines.len() > MAX_DIFF_LINES {
        let row = SplitRow {
            left: Some(too_large(old_lines.len(), new_lines.len())),
            right: None,
            kind: RowKind::Same,
        };
        let rows = vec![row];
        proof {
            assert(rows_view(rows@) =~= split_rows_spec(old@, new@));
        }
        return rows;
    }
    let ops = diff_ops(old_lines.as_slice(), new_lines.as_slice());
    proof {
        lemma_ops_in_range(a, b, 0, 0);
    }
    let mut rows: Vec<SplitRow> = Vec::new();
    let mut index: usize = 0;
    while index < ops.len()
        invariant
            index <= ops@.len(),
            a == old_lines.deep_view(),
            b == new_lines.deep_view(),
            a == lines_of(old@),
            b == lines_of(new@),
            a.len() <= MAX_DIFF_LINES,
            b.len() <= MAX_DIFF_LINES,
            ops@ == ops_from(a, b, 0, 0),
            ops_in_range(ops@, a.len() as int, b.len() as int),
            rows_view(rows@) + rows_from(ops@, a, b, index as int) == rows_from(ops@, a, b, 0),
        decreases ops.len() - index,
    {
        let ghost before = rows_view(rows@);
        match ops[index] {
            Op::Equal(left, right) => {
                proof {
                    assert(ops@[index as int] == ops[index as int]);
                }
                let row = SplitRow {
                    left: Some(copy_line(old_lines.as_slice(), left)),
                    right: Some(copy_line(new_lines.as_slice(), right)),
                    kind: RowKind::Same,
                };
                rows.push(row);
                proof {
                    assert(rows_view(rows@) + rows_from(ops@, a, b, index + 1) =~= before
                        + rows_from(ops@, a, b, index as int));
                }
                index += 1;
            },
            _ => {
                let start = index;
                proof {
                    lemma_run_end(ops@, start as int);
                }
                while index < ops.len() && !matches!(ops[index], Op::Equal(_, _))
                    invariant
                        start <= index <= ops@.len(),
                        run_end(ops@, start as int) == run_end(ops@, index as int),
                    decreases ops.len() - index,
                {
                    index += 1;
                }
                push_run(&mut rows, ops.as_slice(), start, index, old_lines.as_slice(), new_lines.as_slice());
                proof {
                    assert(rows_view(rows@) + rows_from(ops@, a, b, index as int) =~= before
                        + rows_from(ops@, a, b, start as int));
                }
            },
        }
    }
    proof {
        assert(rows_view(rows@) + Seq::<RowView>::empty() =~= rows_view(rows@));
    }
    rows
}

/// The old-line indices a script keeps or deletes, in order.
pub open spec fn left_indices(ops: Seq<Op>) -> Seq<int>
    decreases ops.len(),
{
    if ops.len() == 0 {
        Seq::empty()
    } else {
        let rest = left_indices(ops.drop_first());
        match ops[0] {
            Op::Equal(l, _) => seq![l as int] + rest,
            Op::Delete(l) => seq![l as int] + rest,
            Op::Insert(_) => rest,
        }
    }
}

/// The new-line indices a script keeps or inserts, in order.
pub open spec fn right_indices(ops: Seq<Op>) -> Seq<int>
    decreases ops.len(),
{
    if ops.len() == 0 {
        Seq::empty()
    } else {
        let rest = right_indices(ops.drop_first());
        match ops[0] {
            Op::Equal(_, r) => seq![r as int] + rest,
            Op::Insert(r) => seq![r as int] + rest,
            Op::Delete(_) => rest,
        }
    }
}

/// The number of lines a script keeps unchanged.
pub open spec fn kept(ops: Seq<Op>) -> nat
    decreases ops.len(),
{
    if ops.len() == 0 {
        0
    } else {
        (if ops[0] is Equal {
            1nat
        } else {
            0nat
        }) + kept(ops.drop_first())
    }
}

pub open spec fn range_from(lo: int, hi: int) -> Seq<int> {
    Seq::new((hi - lo) as nat, |k: int| lo + k)
}

proof fn lemma_script(a: Seq<Seq<char>>, b: Seq<Seq<char>>, i: int, j: int)
    requires
        0 <= i <= a.len(),
        0 <= j <= b.len(),
        a.len() <= MAX_DIFF_LINES,
        b.len() <= MAX_DIFF_LINES,
    ensures
        left_indices(ops_from(a, b, i, j)) == range_from(i, a.len() as int),
        right_indices(ops_from(a, b, i, j)) == range_from(j, b.len() as int),
        kept(ops_from(a, b, i, j)) == lcs(a, b, i, j),
        forall|k: int|
            0 <= k < ops_from(a, b, i, j).len() ==> (#[trigger] ops_from(a, b, i, j)[k] matches Op::Equal(l, r)
                ==> a[l as int] == b[r as int]),
    decreases (a.len() - i) + (b.len() - j),
{
    let ops = ops_from(a, b, i, j);
    if i < a.len() || j < b.len() {
        let (ni, nj) = if i < a.len() && j < b.len() {
            if a[i] == b[j] {
                (i + 1, j + 1)
            } else if lcs(a, b, i + 1, j) >= lcs(a, b, i, j + 1) {
                (i + 1, j)
            } else {
                (i, j + 1)
            }
        } else if i < a.len() {
            (i + 1, j)
        } else {
            (i, j + 1)
        };
        lemma_script(a, b, ni, nj);
        let rest = ops_from(a, b, ni, nj);
        assert(ops.drop_first() =~= rest);
        if ni == i + 1 {
            assert(range_from(i, a.len() as int) =~= seq![i] + range_from(i + 1, a.len() as int));
        } else {
            assert(range_from(i, a.len() as int) =~= range_from(ni, a.len() as int));
        }
        if nj == j + 1 {
            assert(range_from(j, b.len() as int) =~= seq![j] + range_from(j + 1, b.len() as int));
        } else {
            assert(range_from(j, b.len() as int) =~= range_from(nj, b.len() as int));
        }
        assert forall|k: int| 0 <= k < ops.len() implies (#[trigger] ops[k] matches Op::Equal(l, r)
            ==> a[l as int] == b[r as int]) by {
            if k > 0 {
                assert(ops[k] == rest[k - 1]);
            }
        }
    } else {
        assert(range_from(i, a.len() as int) =~= Seq::<int>::empty());
        assert(range_from(j, b.len() as int) =~= Seq::<int>::empty());
    }
}

/// The split diff's edit script is a correct and shortest one: read through
/// its kept and deleted steps it lists every old line once, in order;
/// through its kept and inserted steps every new line once, in order; each
/// kept step pairs two equal lines; and it keeps as many lines as a longest
/// common subsequence of the two texts has.
pub proof fn diff_script_is_complete_and_longest(a: Seq<Seq<char>>, b: Seq<Seq<char>>)
    requires
        a.len() <= MAX_DIFF_LINES,
        b.len() <= MAX_DIFF_LINES,
    ensures
        left_indices(ops_from(a, b, 0, 0)) == range_from(0, a.len() as int),
        right_indices(ops_from(a, b, 0, 0)) == range_from(0, b.len() as int),
        kept(ops_from(a, b, 0, 0)) == lcs(a, b, 0, 0),
        forall|k: int|
            0 <= k < ops_from(a, b, 0, 0).len() ==> (#[trigger] ops_from(a, b, 0, 0)[k] matches Op::Equal(l, r)
                ==> a[l as int] == b[r as int]),
{
    lemma_script(a, b, 0, 0);
}

/// The old-side lines a list of rows shows, top to bottom.
pub open spec fn lefts(rows: Seq<RowView>) -> Seq<Seq<char>>
    decreases rows.len(),
{
    if rows.len() == 0 {
        Seq::empty()
    } else {
        lefts(rows.drop_last()) + match rows.last().left {
            Some(l) => seq![l],
            None => Seq::empty(),
        }
    }
}

/// The new-side lines a list of rows shows, top to bottom.
pub open spec fn rights(rows: Seq<RowView>) -> Seq<Seq<char>>
    decreases rows.len(),
{
    if rows.len() == 0 {
        Seq::empty()
    } else {
        rights(rows.drop_last()) + match rows.last().right {
            Some(r) => seq![r],
            None => Seq::empty(),
        }
    }
}

/// How many rows are unchanged lines.
pub open spec fn same_rows(rows: Seq<RowView>) -> nat
    decreases rows.len(),
{
    if rows.len() == 0 {
        0
    } else {
        same_rows(rows.drop_last()) + if rows.last().kind == RowKind::Same {
            1nat
        } else {
            0nat
        }
    }
}

proof fn lemma_rows_concat(x: Seq<RowView>, y: Seq<RowView>)
    ensures
        lefts(x + y) == lefts(x) + lefts(y),
        rights(x + y) == rights(x) + rights(y),
        same_rows(x + y) == same_rows(x) + same_rows(y),
    decreases y.len(),
{
    if y.len() == 0 {
        assert(x + y =~= x);
        assert(lefts(x) + lefts(y) =~= lefts(x));
        assert(rights(x) + rights(y) =~= rights(x));
    } else {
        lemma_rows_concat(x, y.drop_last());
        assert((x + y).drop_last() =~= x + y.drop_last());
        assert((x + y).last() == y.last());
        assert(lefts(x) + lefts(y) =~= lefts(x) + lefts(y.drop_last()) + match y.last().left {
            Some(l) => seq![l],
            None => Seq::<Seq<char>>::empty(),
        });
        assert(rights(x) + rights(y) =~= rights(x) + rights(y.drop_last()) + match y.last().right {
            Some(r) => seq![r],
            None => Seq::<Seq<char>>::empty(),
        });
    }
}

proof fn lemma_index_concat(x: Seq<Op>, y: Seq<Op>)
    ensures
        left_indices(x + y) == left_indices(x) + left_indices(y),
        right_indices(x + y) == right_indices(x) + right_indices(y),
        kept(x + y) == kept(x) + kept(y),
    decreases x.len(),
{
    if x.len() == 0 {
        assert(x + y =~= y);
        assert(left_indices(x) + left_indices(y) =~= left_indices(y));
        assert(right_indices(x) + right_indices(y) =~= right_indices(y));
    } else {
        lemma_index_concat(x.drop_first(), y);
        assert((x + y).drop_first() =~= x.drop_first() + y);
        assert((x + y)[0] == x[0]);
        assert(left_indices(x) + left_indices(y) =~= match x[0] {
            Op::Insert(_) => left_indices(x.drop_first()) + left_indices(y),
            Op::Equal(l, _) => seq![l as int] + (left_indices(x.drop_first()) + left_indices(y)),
            Op::Delete(l) => seq![l as int] + (left_indices(x.drop_first()) + left_indices(y)),
        });
        assert(right_indices(x) + right_indices(y) =~= match x[0] {
            Op::Delete(_) => right_indices(x.drop_first()) + right_indices(y),
            Op::Equal(_, r) => seq![r as int] + (right_indices(x.drop_first()) + right_indices(y)),
            Op::Insert(r) => seq![r as int] + (right_indices(x.drop_first()) + right_indices(y)),
        });
    }
}

pub open spec fn as_ints(v: Seq<usize>) -> Seq<int> {
    v.map_values(|u: usize| u as int)
}

/// In a run without unchanged lines, the old side is its deletions and the
/// new side its insertions.
proof fn lemma_run_indices(run: Seq<Op>)
    requires
        forall|t: int| 0 <= t < run.len() ==> !(#[trigger] run[t] is Equal),
    ensures
        left_indices(run) == as_ints(deletes(run)),
        right_indices(run) == as_ints(inserts(run)),
        kept(run) == 0,
    decreases run.len(),
{
    if run.len() > 0 {
        let init = run.drop_last();
        assert forall|t: int| 0 <= t < init.len() implies !(#[trigger] init[t] is Equal) by {
            assert(init[t] == run[t]);
        }
        lemma_run_indices(init);
        let last = seq![run.last()];
        assert(run =~= init + last);
        lemma_index_concat(init, last);
        assert(last.drop_first() =~= Seq::<Op>::empty());
        assert(!(run[run.len() - 1] is Equal));
        assert(left_indices(Seq::<Op>::empty()) == Seq::<int>::empty());
        assert(right_indices(Seq::<Op>::empty()) == Seq::<int>::empty());
        assert(kept(Seq::<Op>::empty()) == 0);
        assert(last[0] == run.last());
        assert(kept(last) == 0);
        match run.last() {
            Op::Delete(i) => {
                assert(left_indices(last) =~= seq![i as int]);
                assert(right_indices(last) =~= Seq::<int>::empty());
                assert(as_ints(deletes(init).push(i)) =~= as_ints(deletes(init)).push(i as int));
                assert(as_ints(deletes(run)) =~= as_ints(deletes(init)) + left_indices(last));
                assert(as_ints(inserts(run)) =~= as_ints(inserts(init)) + right_indices(last));
            },
            Op::Insert(j) => {
                assert(right_indices(last) =~= seq![j as int]);
                assert(left_indices(last) =~= Seq::<int>::empty());
                assert(as_ints(inserts(init).push(j)) =~= as_ints(inserts(init)).push(j as int));
                assert(as_ints(deletes(run)) =~= as_ints(deletes(init)) + left_indices(last));
                assert(as_ints(inserts(run)) =~= as_ints(inserts(init)) + right_indices(last));
            },
            Op::Equal(_, _) => {},
        }
    }
}

proof fn lemma_paired(dels: Seq<usize>, ins: Seq<usize>, a: Seq<Seq<char>>, b: Seq<Seq<char>>, n: int)
    requires
        0 <= n <= paired_rows(dels, ins, a, b).len(),
    ensures
        lefts(paired_rows(dels, ins, a, b).take(n)) == as_ints(dels).take(if n < dels.len() { n } else { dels.len() as int }).map_values(|l: int| a[l]),
        rights(paired_rows(dels, ins, a, b).take(n)) == as_ints(ins).take(if n < ins.len() { n } else { ins.len() as int }).map_values(|r: int| b[r]),
        same_rows(paired_rows(dels, ins, a, b).take(n)) == 0,
    decreases n,
{
    let p = paired_rows(dels, ins, a, b);
    if n > 0 {
        lemma_paired(dels, ins, a, b, n - 1);
        assert(p.take(n).drop_last() =~= p.take(n - 1));
        assert(p.take(n).last() == p[n - 1]);
        let dl = if n < dels.len() { n } else { dels.len() as int };
        let dl1 = if n - 1 < dels.len() { n - 1 } else { dels.len() as int };
        let il = if n < ins.len() { n } else { ins.len() as int };
        let il1 = if n - 1 < ins.len() { n - 1 } else { ins.len() as int };
        if n - 1 < dels.len() {
            assert(as_ints(dels).take(dl).map_values(|l: int| a[l]) =~= as_ints(dels).take(dl1).map_values(
                |l: int| a[l],
            ) + seq![a[dels[n - 1] as int]]);
        } else {
            assert(dl == dl1);
        }
        if n - 1 < ins.len() {
            assert(as_ints(ins).take(il).map_values(|r: int| b[r]) =~= as_ints(ins).take(il1).map_values(
                |r: int| b[r],
            ) + seq![b[ins[n - 1] as int]]);
        } else {
            assert(il == il1);
        }
    } else {
        assert(p.take(0) =~= Seq::<RowView>::empty());
        assert(as_ints(dels).take(0).map_values(|l: int| a[l]) =~= Seq::<Seq<char>>::empty());
        assert(as_ints(ins).take(0).map_values(|r: int| b[r]) =~= Seq::<Seq<char>>::empty());
    }
}

proof fn lemma_rows_from(ops: Seq<Op>, a: Seq<Seq<char>>, b: Seq<Seq<char>>, k: int)
    requires
        0 <= k <= ops.len(),
    ensures
        lefts(rows_from(ops, a, b, k)) == left_indices(ops.skip(k)).map_values(|l: int| a[l]),
        rights(rows_from(ops, a, b, k)) == right_indices(ops.skip(k)).map_values(|r: int| b[r]),
        same_rows(rows_from(ops, a, b, k)) == kept(ops.skip(k)),
    decreases ops.len() - k,
{
    let rows = rows_from(ops, a, b, k);
    if k == ops.len() {
        assert(ops.skip(k) =~= Seq::<Op>::empty());
        assert(left_indices(ops.skip(k)).map_values(|l: int| a[l]) =~= Seq::<Seq<char>>::empty());
        assert(right_indices(ops.skip(k)).map_values(|r: int| b[r]) =~= Seq::<Seq<char>>::empty());
    } else {
        match ops[k] {
            Op::Equal(l, r) => {
                lemma_rows_from(ops, a, b, k + 1);
                let row = seq![RowView { left: Some(a[l as int]), right: Some(b[r as int]), kind: RowKind::Same }];
                lemma_rows_concat(row, rows_from(ops, a, b, k + 1));
                assert(row.drop_last() =~= Seq::<RowView>::empty());
                assert(ops.skip(k).drop_first() =~= ops.skip(k + 1));
                assert(ops.skip(k)[0] == ops[k]);
                assert(left_indices(ops.skip(k)).map_values(|l: int| a[l]) =~= seq![a[l as int]]
                    + left_indices(ops.skip(k + 1)).map_values(|l: int| a[l]));
                assert(right_indices(ops.skip(k)).map_values(|r: int| b[r]) =~= seq![b[r as int]]
                    + right_indices(ops.skip(k + 1)).map_values(|r: int| b[r]));
                assert(lefts(Seq::<RowView>::empty()) == Seq::<Seq<char>>::empty());
                assert(rights(Seq::<RowView>::empty()) == Seq::<Seq<char>>::empty());
                assert(same_rows(Seq::<RowView>::empty()) == 0);
                assert(lefts(row) =~= seq![a[l as int]]);
                assert(rights(row) =~= seq![b[r as int]]);
            },
            _ => {
                lemma_run_end(ops, k);
                lemma_run_end(ops, k + 1);
                let e = run_end(ops, k);
                assert(e > k);
                let run = ops.subrange(k, e);
                lemma_rows_from(ops, a, b, e);
                let dels = deletes(run);
                let ins = inserts(run);
                let p = paired_rows(dels, ins, a, b);
                lemma_rows_concat(p, rows_from(ops, a, b, e));
                lemma_paired(dels, ins, a, b, p.len() as int);
                assert(p.take(p.len() as int) =~= p);
                assert(as_ints(dels).take(dels.len() as int) =~= as_ints(dels));
                assert(as_ints(ins).take(ins.len() as int) =~= as_ints(ins));
                assert forall|t: int| 0 <= t < run.len() implies !(#[trigger] run[t] is Equal) by {
                    assert(run[t] == ops[k + t]);
                }
                lemma_run_indices(run);
                assert(ops.skip(k) =~= run + ops.skip(e));
                lemma_index_concat(run, ops.skip(e));
                assert(left_indices(ops.skip(k)).map_values(|l: int| a[l]) =~= as_ints(dels).map_values(
                    |l: int| a[l],
                ) + left_indices(ops.skip(e)).map_values(|l: int| a[l]));
                assert(right_indices(ops.skip(k)).map_values(|r: int| b[r]) =~= as_ints(ins).map_values(
                    |r: int| b[r],
                ) + right_indices(ops.skip(e)).map_values(|r: int| b[r]));
            },
        }
    }
}

/// Every unchanged row shows one line on both sides.
pub open spec fn same_rows_match(rows: Seq<RowView>) -> bool {
    forall|i: int|
        0 <= i < rows.len() && (#[trigger] rows[i]).kind == RowKind::Same ==> rows[i].left is Some
            && rows[i].left == rows[i].right
}

proof fn lemma_same_rows_match(ops: Seq<Op>, a: Seq<Seq<char>>, b: Seq<Seq<char>>, k: int)
    requires
        0 <= k <= ops.len(),
        forall|t: int|
            0 <= t < ops.len() ==> (#[trigger] ops[t] matches Op::Equal(l, r) ==> a[l as int] == b[r as int]),
    ensures
        same_rows_match(rows_from(ops, a, b, k)),
    decreases ops.len() - k,
{
    if k < ops.len() {
        match ops[k] {
            Op::Equal(l, r) => {
                lemma_same_rows_match(ops, a, b, k + 1);
                let row = seq![RowView { left: Some(a[l as int]), right: Some(b[r as int]), kind: RowKind::Same }];
                let rest = rows_from(ops, a, b, k + 1);
                let all = row + rest;
                assert forall|i: int| 0 <= i < all.len() && (#[trigger] all[i]).kind == RowKind::Same implies all[i].left is Some
                    && all[i].left == all[i].right by {
                    if i > 0 {
                        assert(all[i] == rest[i - 1]);
                    }
                }
            },
            _ => {
                lemma_run_end(ops, k);
                lemma_run_end(ops, k + 1);
                let e = run_end(ops, k);
                lemma_same_rows_match(ops, a, b, e);
                let run = ops.subrange(k, e);
                let p = paired_rows(deletes(run), inserts(run), a, b);
                let rest = rows_from(ops, a, b, e);
                let all = p + rest;
                assert forall|i: int| 0 <= i < all.len() && (#[trigger] all[i]).kind == RowKind::Same implies all[i].left is Some
                    && all[i].left == all[i].right by {
                    if i >= p.len() {
                        assert(all[i] == rest[i - p.len()]);
                    } else {
                        assert(all[i] == p[i]);
                    }
                }
            },
        }
    }
}

/// The split view shows both texts whole: read down its left side, the rows
/// give every old line once, in order; down its right side every new line;
/// exactly as many rows are unchanged as a longest common subsequence of
/// the two line lists has lines; and each unchanged row shows the same line
/// on both sides. (Within the line limits of the view.)
pub proof fn split_rows_show_both_texts(old: Seq<char>, new: Seq<char>)
    requires
        lines_of(old).len() <= MAX_DIFF_LINES,
        lines_of(new).len() <= MAX_DIFF_LINES,
    ensures
        lefts(split_rows_spec(old, new)) == lines_of(old),
        rights(split_rows_spec(old, new)) == lines_of(new),
        same_rows(split_rows_spec(old, new)) == lcs(lines_of(old), lines_of(new), 0, 0),
        same_rows_match(split_rows_spec(old, new)),
{
    let a = lines_of(old);
    let b = lines_of(new);
    let ops = ops_from(a, b, 0, 0);
    lemma_script(a, b, 0, 0);
    lemma_rows_from(ops, a, b, 0);
    lemma_same_rows_match(ops, a, b, 0);
    assert(ops.skip(0) =~= ops);
    assert(range_from(0, a.len() as int).map_values(|l: int| a[l]) =~= a);
    assert(range_from(0, b.len() as int).map_values(|r: int| b[r]) =~= b);
}

/// One step along either text loses at most one common line, and never
/// gains one.
proof fn lemma_lcs_steps(a: Seq<Seq<char>>, b: Seq<Seq<char>>, i: int, j: int)
    requires
        0 <= i <= a.len(),
        0 <= j <= b.len(),
    ensures
        i < a.len() ==> lcs(a, b, i, j) >= lcs(a, b, i + 1, j),
        j < b.len() ==> lcs(a, b, i, j) >= lcs(a, b, i, j + 1),
        i < a.len() ==> lcs(a, b, i, j) <= 1 + lcs(a, b, i + 1, j),
        j < b.len() ==> lcs(a, b, i, j) <= 1 + lcs(a, b, i, j + 1),
    decreases (a.len() - i) + (b.len() - j),
{
    if i < a.len() && j < b.len() {
        lemma_lcs_steps(a, b, i + 1, j);
        lemma_lcs_steps(a, b, i, j + 1);
        lemma_lcs_steps(a, b, i + 1, j + 1);
    }
}

/// Fewer lines on either side never give a longer common subsequence.
proof fn lemma_lcs_monotone(a: Seq<Seq<char>>, b: Seq<Seq<char>>, i: int, j: int, i2: int, j2: int)
    requires
        0 <= i <= i2 <= a.len(),
        0 <= j <= j2 <= b.len(),
    ensures
        lcs(a, b, i, j) >= lcs(a, b, i2, j2),
    decreases (i2 - i) + (j2 - j),
{
    if i < i2 {
        lemma_lcs_steps(a, b, i, j);
        lemma_lcs_monotone(a, b, i + 1, j, i2, j2);
    } else if j < j2 {
        lemma_lcs_steps(a, b, i, j);
        lemma_lcs_monotone(a, b, i, j + 1, i2, j2);
    }
}

/// A stretch of the script from state `(i, j)` with no kept line ends at a
/// state `(i1, j1)` with the same common-subsequence length; it deletes
/// only old lines `i..i1` and inserts only new lines `j..j1`.
proof fn lemma_plain_stretch(a: Seq<Seq<char>>, b: Seq<Seq<char>>, i: int, j: int, e: int) -> (st: (int, int))
    requires
        0 <= i <= a.len(),
        0 <= j <= b.len(),
        a.len() <= MAX_DIFF_LINES,
        b.len() <= MAX_DIFF_LINES,
        0 <= e <= ops_from(a, b, i, j).len(),
        forall|t: int| 0 <= t < e ==> !(#[trigger] ops_from(a, b, i, j)[t] is Equal),
    ensures
        i <= st.0 <= a.len(),
        j <= st.1 <= b.len(),
        lcs(a, b, st.0, st.1) == lcs(a, b, i, j),
        forall|t: int| 0 <= t < e ==> (#[trigger] ops_from(a, b, i, j)[t] matches Op::Delete(x) ==> i <= x < st.0),
        forall|t: int| 0 <= t < e ==> (#[trigger] ops_from(a, b, i, j)[t] matches Op::Insert(y) ==> j <= y < st.1),
    decreases e,
{
    let s = ops_from(a, b, i, j);
    if e == 0 {
        (i, j)
    } else {
        assert(!(s[0] is Equal));
        let (ni, nj, first) = if i < a.len() && j < b.len() {
            if a[i] == b[j] {
                (i + 1, j + 1, Op::Equal(i as usize, j as usize))
            } else if lcs(a, b, i + 1, j) >= lcs(a, b, i, j + 1) {
                (i + 1, j, Op::Delete(i as usize))
            } else {
                (i, j + 1, Op::Insert(j as usize))
            }
        } else if i < a.len() {
            (i + 1, j, Op::Delete(i as usize))
        } else {
            (i, j + 1, Op::Insert(j as usize))
        };
        assert(s.len() > 0);
        assert(!(i < a.len() && j < b.len() && a[i] == b[j]));
        let rest = ops_from(a, b, ni, nj);
        assert(s == seq![first] + rest);
        assert(s[0] == first);
        lemma_lcs_steps(a, b, i, j);
        assert forall|t: int| 0 <= t < e - 1 implies !(#[trigger] rest[t] is Equal) by {
            assert(rest[t] == s[t + 1]);
        }
        let st = lemma_plain_stretch(a, b, ni, nj, e - 1);
        assert forall|t: int| 0 <= t < e implies (#[trigger] s[t] matches Op::Delete(x) ==> i <= x < st.0) by {
            if t > 0 {
                assert(s[t] == rest[t - 1]);
            }
        }
        assert forall|t: int| 0 <= t < e implies (#[trigger] s[t] matches Op::Insert(y) ==> j <= y < st.1) by {
            if t > 0 {
                assert(s[t] == rest[t - 1]);
            }
        }
        st
    }
}

/// Every suffix of the script is the script from some state.
proof fn lemma_script_suffix(a: Seq<Seq<char>>, b: Seq<Seq<char>>, i: int, j: int, k: int) -> (st: (int, int))
    requires
        0 <= i <= a.len(),
        0 <= j <= b.len(),
        0 <= k <= ops_from(a, b, i, j).len(),
    ensures
        0 <= st.0 <= a.len(),
        0 <= st.1 <= b.len(),
        ops_from(a, b, i, j).skip(k) == ops_from(a, b, st.0, st.1),
    decreases k,
{
    let s = ops_from(a, b, i, j);
    if k == 0 {
        assert(s.skip(0) =~= s);
        (i, j)
    } else {
        let (ni, nj) = if i < a.len() && j < b.len() {
            if a[i] == b[j] {
                (i + 1, j + 1)
            } else if lcs(a, b, i + 1, j) >= lcs(a, b, i, j + 1) {
                (i + 1, j)
            } else {
                (i, j + 1)
            }
        } else if i < a.len() {
            (i + 1, j)
        } else {
            (i, j + 1)
        };
        let rest = ops_from(a, b, ni, nj);
        assert(s == seq![s[0]] + rest);
        let st = lemma_script_suffix(a, b, ni, nj, k - 1);
        assert(s.skip(k) =~= rest.skip(k - 1));
        st
    }
}

/// Within one run of the script, no deleted line equals an inserted line:
/// such a pair would extend the longest common subsequence.
proof fn lemma_run_lines_differ(a: Seq<Seq<char>>, b: Seq<Seq<char>>, k: int)
    requires
        a.len() <= MAX_DIFF_LINES,
        b.len() <= MAX_DIFF_LINES,
        0 <= k < ops_from(a, b, 0, 0).len(),
    ensures
        ({
            let ops = ops_from(a, b, 0, 0);
            forall|p: int, q: int|
                k <= p < run_end(ops, k) && k <= q < run_end(ops, k) ==> (#[trigger] ops[p] matches Op::Delete(x)
                    ==> (#[trigger] ops[q] matches Op::Insert(y) ==> a[x as int] != b[y as int]))
        }),
{
    let ops = ops_from(a, b, 0, 0);
    lemma_run_end(ops, k);
    let e = run_end(ops, k);
    let (ik, jk) = lemma_script_suffix(a, b, 0, 0, k);
    let sk = ops.skip(k);
    assert forall|t: int| 0 <= t < e - k implies !(#[trigger] ops_from(a, b, ik, jk)[t] is Equal) by {
        assert(sk[t] == ops[k + t]);
    }
    let (i1, j1) = lemma_plain_stretch(a, b, ik, jk, e - k);
    assert forall|p: int, q: int|
        k <= p < e && k <= q < e implies (#[trigger] ops[p] matches Op::Delete(x) ==> (#[trigger] ops[q] matches Op::Insert(y)
            ==> a[x as int] != b[y as int])) by {
        assert(ops[p] == ops_from(a, b, ik, jk)[p - k]);
        assert(ops[q] == ops_from(a, b, ik, jk)[q - k]);
        if let Op::Delete(x) = ops[p] {
            if let Op::Insert(y) = ops[q] {
                if a[x as int] == b[y as int] {
                    lemma_lcs_monotone(a, b, ik, jk, x as int, y as int);
                    lemma_lcs_monotone(a, b, x + 1, y + 1, i1, j1);
                    assert(lcs(a, b, x as int, y as int) == 1 + lcs(a, b, x + 1, y + 1));
                    assert(false);
                }
            }
        }
    }
}

/// Each deleted index of a run comes from a `Delete` of the run, each
/// inserted index from an `Insert`.
proof fn lemma_run_members(run: Seq<Op>)
    ensures
        forall|n: int| 0 <= n < deletes(run).len() ==> exists|p: int| 0 <= p < run.len() && #[trigger] run[p] == Op::Delete(#[trigger] deletes(run)[n]),
        forall|n: int| 0 <= n < inserts(run).len() ==> exists|p: int| 0 <= p < run.len() && #[trigger] run[p] == Op::Insert(#[trigger] inserts(run)[n]),
    decreases run.len(),
{
    if run.len() > 0 {
        let init = run.drop_last();
        lemma_run_members(init);
        assert forall|n: int| 0 <= n < deletes(run).len() implies exists|p: int| 0 <= p < run.len() && #[trigger] run[p] == Op::Delete(#[trigger] deletes(run)[n]) by {
            if n < deletes(init).len() {
                let p = choose|p: int| 0 <= p < init.len() && #[trigger] init[p] == Op::Delete(deletes(init)[n]);
                assert(run[p] == init[p]);
            } else {
                assert(run[run.len() - 1] == run.last());
            }
        }
        assert forall|n: int| 0 <= n < inserts(run).len() implies exists|p: int| 0 <= p < run.len() && #[trigger] run[p] == Op::Insert(#[trigger] inserts(run)[n]) by {
            if n < inserts(init).len() {
                let p = choose|p: int| 0 <= p < init.len() && #[trigger] init[p] == Op::Insert(inserts(init)[n]);
                assert(run[p] == init[p]);
            } else {
                assert(run[run.len() - 1] == run.last());
            }
        }
    }
}

/// Rows marked changed show different lines on their two sides.
pub open spec fn changed_rows_differ(rows: Seq<RowView>) -> bool {
    forall|i: int| 0 <= i < rows.len() && (#[trigger] rows[i]).kind == RowKind::Changed ==> rows[i].left != rows[i].right
}

proof fn lemma_changed_rows(a: Seq<Seq<char>>, b: Seq<Seq<char>>, k: int)
    requires
        a.len() <= MAX_DIFF_LINES,
        b.len() <= MAX_DIFF_LINES,
        0 <= k <= ops_from(a, b, 0, 0).len(),
    ensures
        changed_rows_differ(rows_from(ops_from(a, b, 0, 0), a, b, k)),
    decreases ops_from(a, b, 0, 0).len() - k,
{
    let ops = ops_from(a, b, 0, 0);
    if k < ops.len() {
        match ops[k] {
            Op::Equal(l, r) => {
                lemma_changed_rows(a, b, k + 1);
                let row = seq![RowView { left: Some(a[l as int]), right: Some(b[r as int]), kind: RowKind::Same }];
                let rest = rows_from(ops, a, b, k + 1);
                let all = row + rest;
                assert forall|i: int| 0 <= i < all.len() && (#[trigger] all[i]).kind == RowKind::Changed implies all[i].left != all[i].right by {
                    assert(all[i] == rest[i - 1]);
                }
            },
            _ => {
                lemma_run_end(ops, k);
                lemma_run_end(ops, k + 1);
                let e = run_end(ops, k);
                lemma_changed_rows(a, b, e);
                lemma_run_lines_differ(a, b, k);
                let run = ops.subrange(k, e);
                lemma_run_members(run);
                let dels = deletes(run);
                let ins = inserts(run);
                let p = paired_rows(dels, ins, a, b);
                let rest = rows_from(ops, a, b, e);
                let all = p + rest;
                assert forall|i: int| 0 <= i < all.len() && (#[trigger] all[i]).kind == RowKind::Changed implies all[i].left != all[i].right by {
                    if i >= p.len() {
                        assert(all[i] == rest[i - p.len()]);
                    } else {
                        assert(all[i] == p[i]);
                        assert(i < dels.len() && i < ins.len());
                        let x = dels[i];
                        let y = ins[i];
                        let pp = choose|pp: int| 0 <= pp < run.len() && #[trigger] run[pp] == Op::Delete(dels[i]);
                        let qq = choose|qq: int| 0 <= qq < run.len() && #[trigger] run[qq] == Op::Insert(ins[i]);
                        assert(run[pp] == ops[k + pp]);
                        assert(run[qq] == ops[k + qq]);
                        assert(a[x as int] != b[y as int]);
                    }
                }
            },
        }
    }
}

/// A row the split view marks as changed shows two different lines: a
/// deleted line equal to an inserted one of the same run would have been
/// kept instead.
pub proof fn changed_rows_show_different_lines(old: Seq<char>, new: Seq<char>)
    ensures
        changed_rows_differ(split_rows_spec(old, new)),
{
    let a = lines_of(old);
    let b = lines_of(new);
    if a.len() > MAX_DIFF_LINES || b.len() > MAX_DIFF_LINES {
        let rows = split_rows_spec(old, new);
        assert forall|i: int| 0 <= i < rows.len() && (#[trigger] rows[i]).kind == RowKind::Changed implies rows[i].left != rows[i].right by {}
    } else {
        lemma_changed_rows(a, b, 0);
    }
}

/// A relative path piece that is empty or `..`.
pub open spec fn bad_segment(seg: Seq<char>) -> bool {
    seg.len() == 0 || seg == ".."@
}

/// Some `/`- or `\`-separated piece of `rel` is empty or `..`.
pub open spec fn has_bad_segment(rel: Seq<char>) -> bool {
    let segs = split_char(replace_char(rel, '\\', '/'), '/');
    exists|k: int| 0 <= k < segs.len() && #[trigger] bad_segment(segs[k])
}

fn bad_segments(rel: &[char]) -> (r: bool)
    ensures
        r == has_bad_segment(rel@),
{
    let slashed = replace_chars(rel, '\\', '/');
    proof {
        assert(slashed@.subrange(0, slashed@.len() as int) =~= slashed@);
    }
    let segs = split_pieces(&slashed, 0, slashed.len(), '/');
    let ghost sv = segs.deep_view();
    let mut k: usize = 0;
    while k < segs.len()
        invariant
            k <= segs@.len(),
            sv == segs.deep_view(),
            sv == split_char(replace_char(rel@, '\\', '/'), '/'),
            forall|t: int| 0 <= t < k ==> !#[trigger] bad_segment(sv[t]),
        decreases segs.len() - k,
    {
        let seg = segs[k].as_str();
        let c = chars_of(seg);
        if c.len() == 0 || str_eq(seg, "..") {
            proof {
                assert(bad_segment(sv[k as int]));
            }
            return true;
        }
        k += 1;
    }
    false
}

/// Where `path` sits inside `root`, both shown as display paths; `fold` says
/// whether case is ignored (Windows).
pub open spec fn git_relative_spec(root0: Seq<char>, path0: Seq<char>, fold: bool) -> Option<Seq<char>> {
    let root = strip_end(display_path_spec(root0), CharSet::PathSeparators);
    let path = display_path_spec(path0);
    let pc = if fold {
        lower_ascii(path)
    } else {
        path
    };
    let rc = if fold {
        lower_ascii(root)
    } else {
        root
    };
    if root.len() == 0 || pc == rc {
        None
    } else if starts_with(pc, rc.push('/')) || starts_with(pc, rc.push('\\')) {
        let rel = path.skip(rc.len() as int + 1);
        if rel.len() == 0 || has_bad_segment(rel) {
            None
        } else {
            Some(replace_char(rel, '\\', '/'))
        }
    } else if starts_with(pc, seq!['/']) || (pc.len() >= 2 && pc[1] == ':') {
        None
    } else if has_bad_segment(path) {
        None
    } else {
        Some(replace_char(path, '\\', '/'))
    }
}

/// Absolute explorer path → repo-relative path, when `path` is inside `root`.
/// A relative `path` is taken as already relative to the repository.
/// `ignore_case` is set on Windows, where paths compare without case.
pub fn git_relative(root: &str, path: &str, ignore_case: bool) -> (r: Option<String>)
    ensures
        r.deep_view() == git_relative_spec(root@, path@, ignore_case),
{
    let shown_root = display_path_chars(&chars_of(root));
    proof {
        assert(shown_root@.subrange(0, shown_root@.len() as int) =~= shown_root@);
    }
    let root_end = drop_trailing(&shown_root, 0, shown_root.len(), CharSet::PathSeparators);
    let root_v = slice_vec(&shown_root, 0, root_end);
    let path_v = display_path_chars(&chars_of(path));
    if root_v.len() == 0 {
        return None;
    }
    let pc = if ignore_case {
        lower_chars(&path_v)
    } else {
        slice_vec(&path_v, 0, path_v.len())
    };
    let rc = if ignore_case {
        lower_chars(&root_v)
    } else {
        slice_vec(&root_v, 0, root_v.len())
    };
    proof {
        assert(path_v@.subrange(0, path_v@.len() as int) =~= path_v@);
        assert(root_v@.subrange(0, root_v@.len() as int) =~= root_v@);
    }
    if eq_chars(&pc, &rc) {
        return None;
    }
    let mut with_slash = slice_vec(&rc, 0, rc.len());
    with_slash.push('/');
    let mut with_back = slice_vec(&rc, 0, rc.len());
    with_back.push('\\');
    proof {
        assert(rc@.subrange(0, rc@.len() as int) =~= rc@);
        assert(pc@.len() == path_v@.len());
    }
    if starts_with_chars(&pc, &with_slash) || starts_with_chars(&pc, &with_back) {
        assert(with_slash@.len() == rc@.len() + 1 && with_back@.len() == rc@.len() + 1);
        let plen = pc.len();
        assert(rc@.len() + 1 <= plen);
        let rel = slice_vec(&path_v, rc.len() + 1, path_v.len());
        proof {
            assert(rel@ =~= path_v@.skip(rc@.len() as int + 1));
        }
        if rel.len() == 0 || bad_segments(&rel) {
            return None;
        }
        return Some(string_of(&replace_chars(&rel, '\\', '/')));
    }
    let mut slash: Vec<char> = Vec::new();
    slash.push('/');
    proof {
        assert(slash@ =~= seq!['/']);
    }
    if starts_with_chars(&pc, &slash) || (pc.len() >= 2 && pc[1] == ':') {
        return None;
    }
    if bad_segments(&path_v) {
        return None;
    }
    Some(string_of(&replace_chars(&path_v, '\\', '/')))
}

pub open spec fn join_repo_spec(root0: Seq<char>, rel0: Seq<char>) -> Seq<char> {
    let root = strip_end(display_path_spec(root0), CharSet::PathSeparators);
    let rel = strip_start(rel0, CharSet::PathSeparators);
    if root.len() == 0 {
        rel
    } else {
        let sep = if root.contains('\\') && !root.contains('/') {
            '\\'
        } else {
            '/'
        };
        root.push(sep) + rel
    }
}

/// A repository-relative path under `root`, with the root's own separator.
pub fn join_repo(root: &str, rel: &str) -> (r: String)
    ensures
        r@ == join_repo_spec(root@, rel@),
{
    let shown = display_path_chars(&chars_of(root));
    proof {
        assert(shown@.subrange(0, shown@.len() as int) =~= shown@);
    }
    let end = drop_trailing(&shown, 0, shown.len(), CharSet::PathSeparators);
    let mut root_v = slice_vec(&shown, 0, end);
    let rel_v = chars_of(rel);
    proof {
        assert(rel_v@.subrange(0, rel_v@.len() as int) =~= rel_v@);
    }
    let start = skip_leading(&rel_v, 0, rel_v.len(), CharSet::PathSeparators);
    let rel_rest = slice_vec(&rel_v, start, rel_v.len());
    if root_v.len() == 0 {
        return string_of(&rel_rest);
    }
    let sep = if contains_char(&root_v, '\\') && !contains_char(&root_v, '/') {
        '\\'
    } else {
        '/'
    };
    root_v.push(sep);
    string_of(&concat(&root_v, &rel_rest))
}

/// Index of the first `\n` byte at or after `from`, or the end.
pub open spec fn find_newline(b: Seq<u8>, from: int) -> int
    decreases b.len() - from,
{
    if from < 0 || from >= b.len() {
        b.len() as int
    } else if b[from] == 10 {
        from
    } else {
        find_newline(b, from + 1)
    }
}

pub open spec fn highlighted(kind: RowKind) -> bool {
    kind is Added || kind is Changed
}

/// Background ranges (byte offsets into the right-hand text) for the added
/// and changed rows of a split diff, walking the text line by line along
/// the rows that have a right side. A row whose line differs from the text
/// advances by its own length; a carriage return before a newline stays
/// inside the range. The walk stops at an offset that is not a character
/// boundary.
pub open spec fn highlights_from(b: Seq<u8>, rows: Seq<RowView>, i: int, offset: int) -> Seq<
    (int, int, RowKind),
>
    decreases rows.len() - i,
{
    if i < 0 || i >= rows.len() {
        Seq::empty()
    } else {
        match rows[i].right {
            None => highlights_from(b, rows, i + 1, offset),
            Some(line) => if offset > b.len() || !vstd::utf8::is_char_boundary(b, offset) {
                Seq::empty()
            } else {
                let lb = vstd::utf8::encode_utf8(line);
                let raw_end = find_newline(b, offset);
                let raw = b.subrange(offset, raw_end);
                let trimmed = if raw.len() > 0 && raw.last() == 13 {
                    raw.drop_last()
                } else {
                    raw
                };
                let end = if trimmed == lb {
                    raw_end
                } else if offset + lb.len() <= b.len() {
                    offset + lb.len()
                } else {
                    b.len() as int
                };
                let next = if raw_end < b.len() && b[raw_end] == 10 {
                    raw_end + 1
                } else {
                    end
                };
                let here = if highlighted(rows[i].kind) && offset < next {
                    seq![(offset, next, rows[i].kind)]
                } else {
                    Seq::empty()
                };
                here + highlights_from(b, rows, i + 1, next)
            },
        }
    }
}

/// Indices of the rows that show a new-side line, in order.
pub open spec fn right_rows(rows: Seq<RowView>) -> Seq<int>
    decreases rows.len(),
{
    if rows.len() == 0 {
        Seq::empty()
    } else if rows.last().right is Some {
        right_rows(rows.drop_last()).push(rows.len() - 1)
    } else {
        right_rows(rows.drop_last())
    }
}

/// The split row that shows new-side line `line` (0-based), so the old side
/// can scroll along with the editor; `None` past the last line.
pub fn row_for_right_line(rows: &[SplitRow], line: usize) -> (r: Option<usize>)
    ensures
        match r {
            Some(i) => line < right_rows(rows_view(rows@)).len() && right_rows(rows_view(rows@))[line as int] == i,
            None => line >= right_rows(rows_view(rows@)).len(),
        },
{
    let ghost rv = rows_view(rows@);
    let mut seen: usize = 0;
    let mut i: usize = 0;
    proof {
        assert(rv.take(0) =~= Seq::<RowView>::empty());
    }
    while i < rows.len()
        invariant
            rv == rows_view(rows@),
            i <= rows@.len(),
            seen == right_rows(rv.take(i as int)).len(),
            seen <= line,
            seen <= i,
            forall|m: int| 0 <= m < seen ==> right_rows(rv.take(i as int))[m] == right_rows(rv)[m],
        decreases rows.len() - i,
    {
        proof {
            assert(rv.take(i + 1).drop_last() =~= rv.take(i as int));
            assert(rv.take(i + 1).last() == rows@[i as int]@);
            lemma_right_rows_prefix(rv, i + 1);
        }
        if rows[i].right.is_some() {
            if seen == line {
                proof {
                    assert(right_rows(rv.take(i + 1)) == right_rows(rv.take(i as int)).push(i as int));
                    assert(right_rows(rv.take(i + 1))[line as int] == i);
                }
                return Some(i);
            }
            seen += 1;
        }
        i += 1;
    }
    proof {
        assert(rv.take(i as int) =~= rv);
    }
    None
}

proof fn lemma_right_rows_prefix(rv: Seq<RowView>, k: int)
    requires
        0 <= k <= rv.len(),
    ensures
        right_rows(rv.take(k)).len() <= right_rows(rv).len(),
        forall|m: int| 0 <= m < right_rows(rv.take(k)).len() ==> right_rows(rv.take(k))[m] == right_rows(rv)[m],
    decreases rv.len() - k,
{
    if k < rv.len() {
        lemma_right_rows_prefix(rv, k + 1);
        assert(rv.take(k + 1).drop_last() =~= rv.take(k));
        let a = right_rows(rv.take(k));
        let b = right_rows(rv.take(k + 1));
        assert forall|m: int| 0 <= m < a.len() implies a[m] == b[m] by {}
    } else {
        assert(rv.take(k) =~= rv);
    }
}

/// A background range of the right-hand editor.
#[derive(Clone, Copy, Debug, PartialEq, Eq)]
pub struct DiffHighlight {
    pub start: usize,
    pub end: usize,
    pub kind: RowKind,
}

pub open spec fn highlights_view(v: Seq<DiffHighlight>) -> Seq<(int, int, RowKind)> {
    v.map_values(|h: DiffHighlight| (h.start as int, h.end as int, h.kind))
}

fn bytes_match(b: &[u8], lo: usize, hi: usize, p: &[u8]) -> (r: bool)
    requires
        lo <= hi <= b@.len(),
    ensures
        r == (b@.subrange(lo as int, hi as int) == p@),
{
    if hi - lo != p.len() {
        return false;
    }
    let mut k: usize = 0;
    while k < p.len()
        invariant
            lo <= hi <= b@.len(),
            hi - lo == p@.len(),
            k <= p@.len(),
            forall|j: int| 0 <= j < k ==> b@[lo + j] == p@[j],
        decreases p.len() - k,
    {
        if b[lo + k] != p[k] {
            proof {
                assert(b@.subrange(lo as int, hi as int)[k as int] != p@[k as int]);
            }
            return false;
        }
        k += 1;
    }
    proof {
        assert(b@.subrange(lo as int, hi as int) =~= p@);
    }
    true
}

/// The added and changed rows' backgrounds in the right-hand editor, whose
/// text is `text`; rows come from [`split_diff_lines`].
pub fn right_diff_highlights(text: &str, rows: &[SplitRow]) -> (r: Vec<DiffHighlight>)
    ensures
        highlights_view(r@) == highlights_from(vstd::utf8::encode_utf8(text@), rows_view(rows@), 0, 0),
{
    let b = text.as_bytes();
    let n = b.len();
    let ghost bs = vstd::utf8::encode_utf8(text@);
    let ghost rv = rows_view(rows@);
    let mut out: Vec<DiffHighlight> = Vec::new();
    let mut offset: usize = 0;
    let mut i: usize = 0;
    let mut stop = false;
    while i < rows.len() && !stop
        invariant
            b@ == bs,
            n == bs.len(),
            bs == vstd::utf8::encode_utf8(text@),
            rv == rows_view(rows@),
            i <= rows@.len(),
            offset <= n,
            stop ==> highlights_from(bs, rv, i as int, offset as int) == Seq::<(int, int, RowKind)>::empty(),
            highlights_from(bs, rv, 0, 0) == highlights_view(out@) + highlights_from(bs, rv, i as int, offset as int),
        decreases rows.len() - i + (if stop { 0int } else { 1int }),
    {
        proof {
            assert(rv[i as int] == rows@[i as int]@);
        }
        match &rows[i].right {
            None => {
                i += 1;
            },
            Some(line) => {
                if !text.is_char_boundary(offset) {
                    stop = true;
                } else {
                    let mut e = offset;
                    while e < n && b[e] != 10
                        invariant
                            b@ == bs,
                            n == bs.len(),
                            offset <= e <= n,
                            find_newline(bs, offset as int) == find_newline(bs, e as int),
                        decreases n - e,
                    {
                        e += 1;
                    }
                    let raw_end = e;
                    let tend = if raw_end > offset && b[raw_end - 1] == 13 {
                        raw_end - 1
                    } else {
                        raw_end
                    };
                    let lb = line.as_str().as_bytes();
                    let same = bytes_match(b, offset, tend, lb);
                    proof {
                        let raw = bs.subrange(offset as int, raw_end as int);
                        if raw_end > offset && b@[raw_end - 1] == 13 {
                            assert(raw.last() == 13);
                            assert(raw.drop_last() =~= bs.subrange(offset as int, tend as int));
                        } else {
                            assert(raw =~= bs.subrange(offset as int, tend as int));
                        }
                    }
                    let end = if same {
                        raw_end
                    } else if lb.len() <= n - offset {
                        offset + lb.len()
                    } else {
                        n
                    };
                    let next = if raw_end < n && b[raw_end] == 10 {
                        raw_end + 1
                    } else {
                        end
                    };
                    let kind = rows[i].kind;
                    let lit = match kind {
                        RowKind::Added | RowKind::Changed => true,
                        _ => false,
                    };
                    let ghost prev = highlights_view(out@);
                    if lit && offset < next {
                        out.push(DiffHighlight { start: offset, end: next, kind });
                        proof {
                            assert(highlights_view(out@) =~= prev + seq![(offset as int, next as int, kind)]);
                        }
                    }
                    proof {
                        assert(prev + highlights_from(bs, rv, i as int, offset as int) =~= highlights_view(out@)
                            + highlights_from(bs, rv, i + 1, next as int));
                    }
                    offset = next;
                    i += 1;
                }
            },
        }
    }
    proof {
        if !stop {
            assert(highlights_view(out@) + highlights_from(bs, rv, i as int, offset as int) =~= highlights_view(out@));
        } else {
            assert(highlights_view(out@) + Seq::<(int, int, RowKind)>::empty() =~= highlights_view(out@));
        }
    }
    out
}

} // verus!
