//! Highlighting for plain log files: which byte ranges get which theme
//! style. The patterns are regular expressions run by the `regex` crate;
//! this module decides which of their matches become tokens.

use vstd::prelude::*;
use vstd::utf8::*;

use core::ops::Range;

verus! {

/// The byte ranges that `Regex::new(pattern)` and `find_iter(haystack)`
/// report, in the order the iterator yields them.
pub uninterp spec fn regex_match_ranges(pattern: Seq<char>, haystack: Seq<char>) -> Seq<(int, int)>;

/// The patterns and their styles, in priority order. Quoted strings win over
/// keywords and numbers inside them; file references keep their line and
/// column.
pub open spec fn log_patterns() -> Seq<(Seq<char>, Seq<char>)> {
    seq![
        (r#"(?:\"(?:\\.|[^\"\\])*\"|'(?:\\.|[^'\\])*')"#@, "string"@),
        (r"(?:[A-Za-z]:[\\/]|\.{1,2}[\\/]|~[\\/]|[\\/])?[\w.~-]+(?:[\\/][\w.~-]+)*\.[A-Za-z][A-Za-z0-9]*(?::[0-9]+){1,2}"@, "label"@),
        (r"\b\d{4}[-/]\d{1,2}[-/]\d{1,2}(?:[T ]\d{1,2}:\d{2}(?::\d{2}(?:\.\d+)?)?(?:Z|[+-]\d{2}:?\d{2})?)?\b"@, "constant"@),
        (r"\b\d{1,2}:\d{2}(?::\d{2}(?:\.\d+)?)?\b"@, "constant"@),
        (r"(?i)\b(?:fail|failed|failure|error|fatal|critical|panic)\b"@, "keyword"@),
        (r"(?i)\b(?:warn|warning)\b"@, "constant"@),
        (r"(?i)\b(?:info|notice|success)\b"@, "function"@),
        (r"(?i)\b(?:debug|trace)\b"@, "comment"@),
        (r"\b[+-]?(?:\d+(?:\.\d*)?|\.\d+)(?:[eE][+-]?\d+)?\b"@, "number"@),
    ]
}

pub open spec fn is_log_pattern(p: Seq<char>) -> bool {
    exists|i: int| 0 <= i < log_patterns().len() && #[trigger] log_patterns()[i].0 == p
}

pub open spec fn ranges_view(v: Seq<(usize, usize)>) -> Seq<(int, int)> {
    v.map_values(|r: (usize, usize)| (r.0 as int, r.1 as int))
}

/// `Regex::new(pattern)` then `find_iter(haystack)`, each match as its byte
/// range. The regex crate documents that each match has `start <= end`,
/// that its range slices the haystack, and that successive matches do not
/// overlap; each of the log patterns is a valid expression, so compiling it
/// does not fail.
#[verifier::external_body]
fn find_all(pattern: &str, haystack: &str) -> (r: Vec<(usize, usize)>)
    requires
        is_log_pattern(pattern@),
    ensures
        ranges_view(r@) == regex_match_ranges(pattern@, haystack@),
        forall|k: int|
            0 <= k < r@.len() ==> #[trigger] r@[k].0 <= r@[k].1 <= encode_utf8(haystack@).len(),
        forall|k: int| 0 <= k < r@.len() - 1 ==> #[trigger] r@[k].1 <= r@[k + 1].0,
{
    match regex::Regex::new(pattern) {
        Ok(re) => re.find_iter(haystack).map(|m| (m.start(), m.end())).collect(),
        Err(_) => Vec::new(),
    }
}

#[derive(Debug, PartialEq, Eq)]
pub struct Token {
    pub range: Range<usize>,
    pub style: &'static str,
}

/// A token as numbers: start, end, style.
pub struct TokenView {
    pub start: int,
    pub end: int,
    pub style: Seq<char>,
}

pub open spec fn token_view(t: Token) -> TokenView {
    TokenView { start: t.range.start as int, end: t.range.end as int, style: t.style@ }
}

pub open spec fn tokens_view(v: Seq<Token>) -> Seq<TokenView> {
    v.map_values(|t: Token| token_view(t))
}

/// Two byte ranges share a byte.
pub open spec fn overlaps(s1: int, e1: int, s2: int, e2: int) -> bool {
    (if s1 >= s2 {
        s1
    } else {
        s2
    }) < (if e1 <= e2 {
        e1
    } else {
        e2
    })
}

/// No token found so far uses a byte of `[s, e)`.
pub open spec fn free(found: Seq<TokenView>, s: int, e: int) -> bool {
    forall|k: int| 0 <= k < found.len() ==> !overlaps(#[trigger] found[k].start, found[k].end, s, e)
}

/// The tokens after offering the first `n` matches of one pattern.
pub open spec fn claim(found: Seq<TokenView>, ranges: Seq<(int, int)>, style: Seq<char>, n: int) -> Seq<
    TokenView,
>
    decreases n,
{
    if n <= 0 || n > ranges.len() {
        found
    } else {
        let before = claim(found, ranges, style, n - 1);
        let (s, e) = ranges[n - 1];
        if free(before, s, e) {
            before.push(TokenView { start: s, end: e, style })
        } else {
            before
        }
    }
}

/// The tokens after the first `n` patterns, in the order they were found.
pub open spec fn found_upto(text: Seq<char>, n: int) -> Seq<TokenView>
    decreases n,
{
    if n <= 0 || n > log_patterns().len() {
        Seq::empty()
    } else {
        let (pattern, style) = log_patterns()[n - 1];
        let ranges = regex_match_ranges(pattern, text);
        claim(found_upto(text, n - 1), ranges, style, ranges.len() as int)
    }
}

/// `x` placed after every token that starts no later (a stable insertion).
pub open spec fn insert_by_start(sorted: Seq<TokenView>, x: TokenView) -> Seq<TokenView>
    decreases sorted.len(),
{
    if sorted.len() == 0 {
        seq![x]
    } else if sorted.last().start <= x.start {
        sorted.push(x)
    } else {
        insert_by_start(sorted.drop_last(), x).push(sorted.last())
    }
}

/// The stable sort by start offset.
pub open spec fn sort_by_start(s: Seq<TokenView>) -> Seq<TokenView>
    decreases s.len(),
{
    if s.len() == 0 {
        s
    } else {
        insert_by_start(sort_by_start(s.drop_last()), s.last())
    }
}

/// The highlighted tokens of a log text.
pub open spec fn tokens_spec(text: Seq<char>) -> Seq<TokenView> {
    sort_by_start(found_upto(text, 9))
}

fn patterns() -> (r: Vec<(&'static str, &'static str)>)
    ensures
        r@.len() == 9,
        forall|i: int|
            0 <= i < 9 ==> (#[trigger] r@[i]).0@ == log_patterns()[i].0 && r@[i].1@
                == log_patterns()[i].1,
{
    let r = vec![
        (r#"(?:\"(?:\\.|[^\"\\])*\"|'(?:\\.|[^'\\])*')"#, "string"),
        (r"(?:[A-Za-z]:[\\/]|\.{1,2}[\\/]|~[\\/]|[\\/])?[\w.~-]+(?:[\\/][\w.~-]+)*\.[A-Za-z][A-Za-z0-9]*(?::[0-9]+){1,2}", "label"),
        (r"\b\d{4}[-/]\d{1,2}[-/]\d{1,2}(?:[T ]\d{1,2}:\d{2}(?::\d{2}(?:\.\d+)?)?(?:Z|[+-]\d{2}:?\d{2})?)?\b", "constant"),
        (r"\b\d{1,2}:\d{2}(?::\d{2}(?:\.\d+)?)?\b", "constant"),
        (r"(?i)\b(?:fail|failed|failure|error|fatal|critical|panic)\b", "keyword"),
        (r"(?i)\b(?:warn|warning)\b", "constant"),
        (r"(?i)\b(?:info|notice|success)\b", "function"),
        (r"(?i)\b(?:debug|trace)\b", "comment"),
        (r"\b[+-]?(?:\d+(?:\.\d*)?|\.\d+)(?:[eE][+-]?\d+)?\b", "number"),
    ];
    r
}

/// Where the stable insertion puts `x`.
pub open spec fn insert_pos(sorted: Seq<TokenView>, x: TokenView) -> int
    decreases sorted.len(),
{
    if sorted.len() == 0 {
        0
    } else if sorted.last().start <= x.start {
        sorted.len() as int
    } else {
        insert_pos(sorted.drop_last(), x)
    }
}

proof fn lemma_insert_pos(sorted: Seq<TokenView>, x: TokenView)
    ensures
        0 <= insert_pos(sorted, x) <= sorted.len(),
        insert_by_start(sorted, x) == sorted.insert(insert_pos(sorted, x), x),
    decreases sorted.len(),
{
    if sorted.len() > 0 && sorted.last().start > x.start {
        lemma_insert_pos(sorted.drop_last(), x);
        let p = insert_pos(sorted.drop_last(), x);
        assert(sorted.drop_last().insert(p, x).push(sorted.last()) =~= sorted.insert(p, x));
    } else if sorted.len() > 0 {
        assert(sorted.push(x) =~= sorted.insert(sorted.len() as int, x));
    } else {
        assert(seq![x] =~= sorted.insert(0, x));
    }
}

/// Byte `b` lies in a token of `found`.
pub open spec fn covered(found: Seq<TokenView>, b: int) -> bool {
    exists|k: int| 0 <= k < found.len() && #[trigger] found[k].start <= b < found[k].end
}

fn range_free(occupied: &Vec<bool>, s: usize, e: usize) -> (r: bool)
    requires
        s <= e <= occupied@.len(),
    ensures
        r == forall|b: int| s <= b < e ==> !#[trigger] occupied@[b],
{
    let mut b = s;
    while b < e
        invariant
            s <= b <= e <= occupied@.len(),
            forall|x: int| s <= x < b ==> !#[trigger] occupied@[x],
        decreases e - b,
    {
        if occupied[b] {
            return false;
        }
        b += 1;
    }
    true
}

fn mark(occupied: &mut Vec<bool>, s: usize, e: usize)
    requires
        s <= e <= old(occupied)@.len(),
    ensures
        final(occupied)@.len() == old(occupied)@.len(),
        forall|b: int|
            0 <= b < final(occupied)@.len() ==> #[trigger] final(occupied)@[b] == (old(occupied)@[b]
                || (s <= b < e)),
{
    let mut b = s;
    while b < e
        invariant
            s <= b <= e <= occupied@.len(),
            occupied@.len() == old(occupied)@.len(),
            forall|x: int|
                0 <= x < occupied@.len() ==> #[trigger] occupied@[x] == (old(occupied)@[x] || (s <= x
                    < b)),
        decreases e - b,
    {
        occupied.set(b, true);
        b += 1;
    }
}

proof fn lemma_free_iff(found: Seq<TokenView>, occupied: Seq<bool>, s: int, e: int)
    requires
        forall|b: int| 0 <= b < occupied.len() ==> #[trigger] occupied[b] == covered(found, b),
        0 <= s <= e <= occupied.len(),
    ensures
        free(found, s, e) == forall|b: int| s <= b < e ==> !#[trigger] occupied[b],
{
    if free(found, s, e) {
        assert forall|b: int| s <= b < e implies !#[trigger] occupied[b] by {
            if occupied[b] {
                let k = choose|k: int| 0 <= k < found.len() && #[trigger] found[k].start <= b < found[k].end;
                assert(overlaps(found[k].start, found[k].end, s, e));
            }
        }
    } else {
        let k = choose|k: int| 0 <= k < found.len() && overlaps(#[trigger] found[k].start, found[k].end, s, e);
        let b = if found[k].start >= s {
            found[k].start
        } else {
            s
        };
        assert(found[k].start <= b < found[k].end);
        assert(covered(found, b));
        assert(occupied[b]);
    }
}

/// The highlighted tokens of a log text, sorted by start. Earlier patterns
/// win: a match that shares a byte with a token already found is dropped.
pub fn tokens(text: &str) -> (r: Vec<Token>)
    ensures
        tokens_view(r@) == tokens_spec(text@),
{
    let bytes = text.as_bytes();
    let n = bytes.len();
    let ghost t = text@;
    let mut occupied: Vec<bool> = Vec::new();
    let mut i: usize = 0;
    while i < n
        invariant
            i <= n,
            occupied@.len() == i,
            forall|b: int| 0 <= b < i ==> !#[trigger] occupied@[b],
        decreases n - i,
    {
        occupied.push(false);
        i += 1;
    }
    let pats = patterns();
    let mut found: Vec<Token> = Vec::new();
    let mut p: usize = 0;
    while p < 9
        invariant
            p <= 9,
            n == encode_utf8(t).len(),
            t == text@,
            pats@.len() == 9,
            forall|i: int|
                0 <= i < 9 ==> (#[trigger] pats@[i]).0@ == log_patterns()[i].0 && pats@[i].1@
                    == log_patterns()[i].1,
            occupied@.len() == n,
            tokens_view(found@) == found_upto(t, p as int),
            forall|b: int| 0 <= b < n ==> #[trigger] occupied@[b] == covered(tokens_view(found@), b),
        decreases 9 - p,
    {
        let (pattern, style) = pats[p];
        proof {
            assert(is_log_pattern(pattern@)) by {
                assert(log_patterns()[p as int].0 == pattern@);
            }
        }
        let ranges = find_all(pattern, text);
        let ghost rv = ranges_view(ranges@);
        let ghost base = tokens_view(found@);
        let mut k: usize = 0;
        while k < ranges.len()
            invariant
                k <= ranges@.len(),
                n == encode_utf8(t).len(),
                occupied@.len() == n,
                rv == ranges_view(ranges@),
                forall|j: int|
                    0 <= j < ranges@.len() ==> #[trigger] ranges@[j].0 <= ranges@[j].1 <= n,
                style@ == log_patterns()[p as int].1,
                tokens_view(found@) == claim(base, rv, style@, k as int),
                forall|b: int| 0 <= b < n ==> #[trigger] occupied@[b] == covered(tokens_view(found@), b),
            decreases ranges.len() - k,
        {
            let (s, e) = ranges[k];
            proof {
                lemma_free_iff(tokens_view(found@), occupied@, s as int, e as int);
                assert(rv[k as int] == (s as int, e as int));
            }
            if range_free(&occupied, s, e) {
                let ghost before = tokens_view(found@);
                mark(&mut occupied, s, e);
                found.push(Token { range: Range { start: s, end: e }, style });
                proof {
                    let after = tokens_view(found@);
                    assert(after =~= before.push(TokenView { start: s as int, end: e as int, style: style@ }));
                    assert forall|b: int| 0 <= b < n implies #[trigger] occupied@[b] == covered(after, b) by {
                        if covered(before, b) {
                            let j = choose|j: int| 0 <= j < before.len() && #[trigger] before[j].start <= b < before[j].end;
                            assert(after[j] == before[j]);
                        }
                        if s <= b < e {
                            assert(after[before.len() as int].start <= b < after[before.len() as int].end);
                        }
                        if covered(after, b) {
                            let j = choose|j: int| 0 <= j < after.len() && #[trigger] after[j].start <= b < after[j].end;
                            if j < before.len() {
                                assert(before[j] == after[j]);
                            }
                        }
                    }
                }
            }
            k += 1;
        }
        proof {
            assert(found_upto(t, p + 1) == claim(found_upto(t, p as int), rv, style@, rv.len() as int));
        }
        p += 1;
    }
    let mut sorted: Vec<Token> = Vec::new();
    let ghost all = tokens_view(found@);
    let total = found.len();
    let mut rest = found;
    proof {
        assert(all.skip(0) =~= all);
        assert(all.take(0) =~= Seq::<TokenView>::empty());
    }
    while rest.len() > 0
        invariant
            sorted@.len() + rest@.len() == total,
            total == all.len(),
            tokens_view(rest@) == all.skip(sorted@.len() as int),
            tokens_view(sorted@) == sort_by_start(all.take(sorted@.len() as int)),
        decreases rest.len(),
    {
        let m = sorted.len();
        let ghost before_rest = rest@;
        let x = rest.remove(0);
        let ghost xv = token_view(x);
        let ghost prev = tokens_view(sorted@);
        proof {
            assert(xv == all[m as int]) by {
                assert(tokens_view(before_rest)[0] == all.skip(m as int)[0]);
            }
            assert(rest@ =~= before_rest.remove(0));
            assert forall|i: int| 0 <= i < rest@.len() implies tokens_view(rest@)[i] == all.skip(m + 1)[i] by {
                assert(rest@[i] == before_rest[i + 1]);
                assert(tokens_view(before_rest)[i + 1] == all.skip(m as int)[i + 1]);
            }
            assert(tokens_view(rest@) =~= all.skip(m + 1));
            assert(all.take(m + 1).drop_last() =~= all.take(m as int));
            assert(all.take(m + 1).last() == xv);
            lemma_insert_pos(prev, xv);
            assert(prev.take(m as int) =~= prev);
        }
        let mut j = m;
        while j > 0 && sorted[j - 1].range.start > x.range.start
            invariant
                j <= m,
                m == sorted@.len(),
                prev == tokens_view(sorted@),
                xv == token_view(x),
                insert_pos(prev, xv) == insert_pos(prev.take(j as int), xv),
            decreases j,
        {
            proof {
                assert(prev.take(j as int).drop_last() =~= prev.take(j - 1));
                assert(prev.take(j as int).last() == prev[j - 1]);
            }
            j -= 1;
        }
        proof {
            if j > 0 {
                assert(prev.take(j as int).last() == prev[j - 1]);
            } else {
                assert(prev.take(0) =~= Seq::<TokenView>::empty());
            }
        }
        sorted.insert(j, x);
        proof {
            assert(tokens_view(sorted@) =~= prev.insert(j as int, xv));
        }
    }
    proof {
        assert(all.take(all.len() as int) =~= all);
    }
    sorted
}

/// No two tokens share a byte.
pub open spec fn disjoint(s: Seq<TokenView>) -> bool {
    forall|i: int, j: int|
        0 <= i < j < s.len() ==> !overlaps(#[trigger] s[i].start, s[i].end, #[trigger] s[j].start, s[j].end)
}

/// Tokens come in order of their start offsets.
pub open spec fn sorted_by_start(s: Seq<TokenView>) -> bool {
    forall|i: int, j: int| 0 <= i < j < s.len() ==> #[trigger] s[i].start <= #[trigger] s[j].start
}

proof fn lemma_claim_disjoint(found: Seq<TokenView>, ranges: Seq<(int, int)>, style: Seq<char>, n: int)
    requires
        disjoint(found),
        0 <= n <= ranges.len(),
    ensures
        disjoint(claim(found, ranges, style, n)),
    decreases n,
{
    if n > 0 {
        lemma_claim_disjoint(found, ranges, style, n - 1);
        let before = claim(found, ranges, style, n - 1);
        let (s, e) = ranges[n - 1];
        if free(before, s, e) {
            let after = before.push(TokenView { start: s, end: e, style });
            assert forall|i: int, j: int| 0 <= i < j < after.len() implies !overlaps(
                #[trigger] after[i].start,
                after[i].end,
                #[trigger] after[j].start,
                after[j].end,
            ) by {
                if j == before.len() {
                    assert(!overlaps(before[i].start, before[i].end, s, e));
                } else {
                    assert(after[i] == before[i] && after[j] == before[j]);
                }
            }
        }
    }
}

proof fn lemma_found_disjoint(text: Seq<char>, n: int)
    requires
        0 <= n <= 9,
    ensures
        disjoint(found_upto(text, n)),
    decreases n,
{
    if n > 0 {
        lemma_found_disjoint(text, n - 1);
        let (pattern, style) = log_patterns()[n - 1];
        let ranges = regex_match_ranges(pattern, text);
        lemma_claim_disjoint(found_upto(text, n - 1), ranges, style, ranges.len() as int);
    }
}

proof fn lemma_insert_pos_bounds(sorted: Seq<TokenView>, x: TokenView)
    requires
        sorted_by_start(sorted),
    ensures
        forall|i: int| 0 <= i < insert_pos(sorted, x) ==> #[trigger] sorted[i].start <= x.start,
        forall|i: int| insert_pos(sorted, x) <= i < sorted.len() ==> #[trigger] sorted[i].start > x.start,
    decreases sorted.len(),
{
    lemma_insert_pos(sorted, x);
    if sorted.len() > 0 {
        if sorted.last().start <= x.start {
            assert forall|i: int| 0 <= i < sorted.len() implies #[trigger] sorted[i].start <= x.start by {
                if i < sorted.len() - 1 {
                    assert(sorted[i].start <= sorted[sorted.len() - 1].start);
                }
            }
        } else {
            let t = sorted.drop_last();
            assert(sorted_by_start(t)) by {
                assert forall|i: int, j: int| 0 <= i < j < t.len() implies #[trigger] t[i].start <= #[trigger] t[j].start by {
                    assert(t[i] == sorted[i] && t[j] == sorted[j]);
                }
            }
            lemma_insert_pos_bounds(t, x);
            let p = insert_pos(t, x);
            assert forall|i: int| p <= i < sorted.len() implies #[trigger] sorted[i].start > x.start by {
                if i < sorted.len() - 1 {
                    assert(sorted[i] == t[i]);
                }
            }
            assert forall|i: int| 0 <= i < p implies #[trigger] sorted[i].start <= x.start by {
                assert(sorted[i] == t[i]);
            }
        }
    }
}

proof fn lemma_sort(s: Seq<TokenView>)
    ensures
        sorted_by_start(sort_by_start(s)),
        sort_by_start(s).len() == s.len(),
        forall|i: int| 0 <= i < sort_by_start(s).len() ==> exists|k: int| 0 <= k < s.len() && #[trigger] sort_by_start(s)[i] == s[k],
        disjoint(s) ==> disjoint(sort_by_start(s)),
    decreases s.len(),
{
    if s.len() > 0 {
        let t = s.drop_last();
        let x = s.last();
        lemma_sort(t);
        let st = sort_by_start(t);
        lemma_insert_pos(st, x);
        lemma_insert_pos_bounds(st, x);
        let p = insert_pos(st, x);
        let r = st.insert(p, x);
        assert(sort_by_start(s) == r);
        assert forall|i: int, j: int| 0 <= i < j < r.len() implies #[trigger] r[i].start <= #[trigger] r[j].start by {
            if j < p {
                assert(r[i] == st[i] && r[j] == st[j]);
            } else if j == p {
                assert(r[i] == st[i]);
            } else if i < p {
                assert(r[i] == st[i] && r[j] == st[j - 1]);
            } else if i == p {
                assert(r[j] == st[j - 1]);
            } else {
                assert(r[i] == st[i - 1] && r[j] == st[j - 1]);
            }
        }
        assert forall|i: int| 0 <= i < r.len() implies exists|k: int| 0 <= k < s.len() && #[trigger] r[i] == s[k] by {
            if i < p {
                assert(r[i] == st[i]);
                let k = choose|k: int| 0 <= k < t.len() && st[i] == t[k];
                assert(s[k] == t[k]);
            } else if i == p {
                assert(r[i] == s[s.len() - 1]);
            } else {
                assert(r[i] == st[i - 1]);
                let k = choose|k: int| 0 <= k < t.len() && st[i - 1] == t[k];
                assert(s[k] == t[k]);
            }
        }
        if disjoint(s) {
            assert(disjoint(t)) by {
                assert forall|i: int, j: int| 0 <= i < j < t.len() implies !overlaps(
                    #[trigger] t[i].start,
                    t[i].end,
                    #[trigger] t[j].start,
                    t[j].end,
                ) by {
                    assert(t[i] == s[i] && t[j] == s[j]);
                }
            }
            assert forall|i: int| 0 <= i < st.len() implies !overlaps(#[trigger] st[i].start, st[i].end, x.start, x.end) by {
                let k = choose|k: int| 0 <= k < t.len() && st[i] == t[k];
                assert(t[k] == s[k]);
                assert(!overlaps(s[k].start, s[k].end, s[s.len() - 1].start, s[s.len() - 1].end));
            }
            assert forall|i: int, j: int| 0 <= i < j < r.len() implies !overlaps(
                #[trigger] r[i].start,
                r[i].end,
                #[trigger] r[j].start,
                r[j].end,
            ) by {
                if j < p {
                    assert(r[i] == st[i] && r[j] == st[j]);
                } else if j == p {
                    assert(r[i] == st[i]);
                } else if i < p {
                    assert(r[i] == st[i] && r[j] == st[j - 1]);
                } else if i == p {
                    assert(r[j] == st[j - 1]);
                    assert(!overlaps(st[j - 1].start, st[j - 1].end, x.start, x.end));
                } else {
                    assert(r[i] == st[i - 1] && r[j] == st[j - 1]);
                }
            }
        }
    }
}

/// Log tokens come sorted by start, and no two of them share a byte.
pub proof fn tokens_are_sorted_and_disjoint(text: Seq<char>)
    ensures
        sorted_by_start(tokens_spec(text)),
        disjoint(tokens_spec(text)),
{
    lemma_found_disjoint(text, 9);
    lemma_sort(found_upto(text, 9));
}

/// A styled run: byte range and the token style (`None`: the default text
/// style).
pub open spec fn run_view(r: (Range<usize>, Option<&'static str>)) -> (int, int, Option<Seq<char>>) {
    (
        r.0.start as int,
        r.0.end as int,
        match r.1 {
            Some(s) => Some(s@),
            None => None,
        },
    )
}

pub open spec fn runs_view(v: Seq<(Range<usize>, Option<&'static str>)>) -> Seq<(int, int, Option<Seq<char>>)> {
    v.map_values(|r: (Range<usize>, Option<&'static str>)| run_view(r))
}

pub open spec fn max_int(a: int, b: int) -> int {
    if a >= b {
        a
    } else {
        b
    }
}

pub open spec fn min_int(a: int, b: int) -> int {
    if a <= b {
        a
    } else {
        b
    }
}

/// The styled runs of `[cursor, end)` from token `k` on: default-styled gaps
/// between the parts of tokens that fall in the range.
pub open spec fn runs_from(tokens: Seq<TokenView>, k: int, cursor: int, end: int) -> Seq<(int, int, Option<Seq<char>>)>
    decreases tokens.len() - k,
{
    if k < 0 || k >= tokens.len() {
        if cursor < end {
            seq![(cursor, end, None)]
        } else {
            Seq::empty()
        }
    } else {
        let t = tokens[k];
        if t.end <= cursor || t.start >= end {
            runs_from(tokens, k + 1, cursor, end)
        } else {
            let s = max_int(t.start, cursor);
            let gap: Seq<(int, int, Option<Seq<char>>)> = if cursor < s {
                seq![(cursor, s, None)]
            } else {
                Seq::empty()
            };
            let te = min_int(t.end, end);
            if s < te {
                gap + seq![(s, te, Some(t.style))] + runs_from(tokens, k + 1, te, end)
            } else {
                gap + runs_from(tokens, k + 1, cursor, end)
            }
        }
    }
}

/// The styled runs of byte range `[start, end)` of a text of `text_len`
/// bytes; the range is first cut to the text.
pub open spec fn styles_spec(tokens: Seq<TokenView>, text_len: int, start: int, end: int) -> Seq<(int, int, Option<Seq<char>>)> {
    let e = min_int(end, text_len);
    runs_from(tokens, 0, min_int(start, e), e)
}

/// The highlighter of one log buffer: its length in bytes and its tokens.
pub struct LogHighlighter {
    pub text_len: usize,
    pub tokens: Vec<Token>,
}

impl LogHighlighter {
    /// An empty buffer.
    pub fn new() -> (r: Self)
        ensures
            r.text_len == 0,
            r.tokens@.len() == 0,
    {
        LogHighlighter { text_len: 0, tokens: Vec::new() }
    }

    /// Re-read the buffer's text.
    pub fn update(&mut self, text: &str)
        ensures
            final(self).text_len == encode_utf8(text@).len(),
            tokens_view(final(self).tokens@) == tokens_spec(text@),
    {
        let n = text.as_bytes().len();
        self.text_len = n;
        self.tokens = tokens(text);
    }

    /// Style runs covering `range` (cut to the text): token parts carry the
    /// token's style name, the gaps between them the default style.
    pub fn styles(&self, range: Range<usize>) -> (r: Vec<(Range<usize>, Option<&'static str>)>)
        ensures
            runs_view(r@) == styles_spec(tokens_view(self.tokens@), self.text_len as int, range.start as int, range.end as int),
    {
        let ghost tv = tokens_view(self.tokens@);
        let end = if range.end < self.text_len {
            range.end
        } else {
            self.text_len
        };
        let mut cursor = if range.start < end {
            range.start
        } else {
            end
        };
        let mut out: Vec<(Range<usize>, Option<&'static str>)> = Vec::new();
        let mut k: usize = 0;
        while k < self.tokens.len()
            invariant
                tv == tokens_view(self.tokens@),
                k <= self.tokens@.len(),
                cursor <= end,
                runs_view(out@) + runs_from(tv, k as int, cursor as int, end as int) == styles_spec(
                    tv,
                    self.text_len as int,
                    range.start as int,
                    range.end as int,
                ),
            decreases self.tokens.len() - k,
        {
            let t = &self.tokens[k];
            let ghost before = runs_view(out@);
            let ghost rest = runs_from(tv, k as int, cursor as int, end as int);
            proof {
                assert(tv[k as int] == token_view(*t));
            }
            if t.range.end <= cursor || t.range.start >= end {
                k += 1;
            } else {
                let s = if t.range.start >= cursor {
                    t.range.start
                } else {
                    cursor
                };
                if cursor < s {
                    out.push((Range { start: cursor, end: s }, None));
                }
                let te = if t.range.end <= end {
                    t.range.end
                } else {
                    end
                };
                let ghost mid = runs_view(out@);
                proof {
                    if cursor < s {
                        assert(mid =~= before.push((cursor as int, s as int, None::<Seq<char>>)));
                    } else {
                        assert(mid =~= before);
                    }
                }
                if s < te {
                    out.push((Range { start: s, end: te }, Some(t.style)));
                    proof {
                        assert(runs_view(out@) =~= mid.push((s as int, te as int, Some(t.style@))));
                        assert(rest =~= (mid.skip(before.len() as int)) + seq![(s as int, te as int, Some(t.style@))]
                            + runs_from(tv, k + 1, te as int, end as int));
                        assert(mid =~= before + mid.skip(before.len() as int));
                    }
                    cursor = te;
                } else {
                    proof {
                        assert(rest =~= (mid.skip(before.len() as int)) + runs_from(tv, k + 1, cursor as int, end as int));
                        assert(mid =~= before + mid.skip(before.len() as int));
                    }
                }
                k += 1;
            }
        }
        let ghost before = runs_view(out@);
        if cursor < end {
            out.push((Range { start: cursor, end }, None));
            proof {
                assert(runs_view(out@) =~= before.push((cursor as int, end as int, None::<Seq<char>>)));
            }
        }
        proof {
            assert(runs_view(out@) =~= before + runs_from(tv, k as int, cursor as int, end as int));
        }
        out
    }
}

/// `runs` cover `[from, to)` exactly: in order, each non-empty, each
/// starting where the previous one ended.
pub open spec fn tiles(runs: Seq<(int, int, Option<Seq<char>>)>, from: int, to: int) -> bool {
    &&& (runs.len() == 0 <==> from == to)
    &&& runs.len() > 0 ==> runs[0].0 == from && runs.last().1 == to
    &&& forall|i: int| 0 <= i < runs.len() ==> #[trigger] runs[i].0 < runs[i].1
    &&& forall|i: int| 0 <= i < runs.len() - 1 ==> #[trigger] runs[i].1 == runs[i + 1].0
}

proof fn lemma_tiles_concat(
    a: Seq<(int, int, Option<Seq<char>>)>,
    b: Seq<(int, int, Option<Seq<char>>)>,
    x: int,
    y: int,
    z: int,
)
    requires
        x <= y <= z,
        tiles(a, x, y),
        tiles(b, y, z),
    ensures
        tiles(a + b, x, z),
{
    let c = a + b;
    if a.len() == 0 {
        assert(c =~= b);
    } else if b.len() == 0 {
        assert(c =~= a);
    } else {
        assert(c[0] == a[0]);
        assert(c.last() == b.last());
        assert forall|i: int| 0 <= i < c.len() implies #[trigger] c[i].0 < c[i].1 by {
            if i >= a.len() {
                assert(c[i] == b[i - a.len()]);
            }
        }
        assert forall|i: int| 0 <= i < c.len() - 1 implies #[trigger] c[i].1 == c[i + 1].0 by {
            if i < a.len() - 1 {
                assert(c[i] == a[i] && c[i + 1] == a[i + 1]);
            } else if i == a.len() - 1 {
                assert(c[i] == a.last() && c[i + 1] == b[0]);
            } else {
                assert(c[i] == b[i - a.len()] && c[i + 1] == b[i + 1 - a.len()]);
            }
        }
    }
}

proof fn lemma_runs_from_tiles(tokens: Seq<TokenView>, k: int, cursor: int, end: int)
    requires
        0 <= k,
        cursor <= end,
        forall|j: int| 0 <= j < tokens.len() ==> #[trigger] tokens[j].start < tokens[j].end,
    ensures
        tiles(runs_from(tokens, k, cursor, end), cursor, end),
    decreases tokens.len() - k,
{
    if k >= tokens.len() {
        if cursor < end {
            let r = runs_from(tokens, k, cursor, end);
            assert(r =~= seq![(cursor, end, None::<Seq<char>>)]);
        }
    } else {
        let t = tokens[k];
        assert(t.start < t.end);
        if t.end <= cursor || t.start >= end {
            lemma_runs_from_tiles(tokens, k + 1, cursor, end);
        } else {
            let s = max_int(t.start, cursor);
            let te = min_int(t.end, end);
            let gap: Seq<(int, int, Option<Seq<char>>)> = if cursor < s {
                seq![(cursor, s, None)]
            } else {
                Seq::empty()
            };
            if s < te {
                lemma_runs_from_tiles(tokens, k + 1, te, end);
                let piece: Seq<(int, int, Option<Seq<char>>)> = seq![(s, te, Some(t.style))];
                lemma_tiles_concat(gap, piece, cursor, s, te);
                lemma_tiles_concat(gap + piece, runs_from(tokens, k + 1, te, end), cursor, te, end);
            } else {
                assert(cursor == end);
                lemma_runs_from_tiles(tokens, k + 1, cursor, end);
                assert(gap =~= Seq::<(int, int, Option<Seq<char>>)>::empty());
                assert(gap + runs_from(tokens, k + 1, cursor, end) =~= runs_from(tokens, k + 1, cursor, end));
            }
        }
    }
}

/// Style runs tile the requested range: for non-empty tokens, the runs of
/// [`LogHighlighter::styles`] cover the range cut to the text, in order,
/// with no gap, no overlap and no empty run.
pub proof fn style_runs_tile_the_range(tokens: Seq<TokenView>, text_len: int, start: int, end: int)
    requires
        forall|j: int| 0 <= j < tokens.len() ==> #[trigger] tokens[j].start < tokens[j].end,
    ensures
        ({
            let e = min_int(end, text_len);
            tiles(styles_spec(tokens, text_len, start, end), min_int(start, e), e)
        }),
{
    let e = min_int(end, text_len);
    lemma_runs_from_tiles(tokens, 0, min_int(start, e), e);
}

} // verus!
