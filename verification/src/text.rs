//! Character-level building blocks shared by the rest of the library.
//!
//! Strings are modelled by their view, a `Seq<char>`. The functions here work
//! on `Vec<char>` copies of a `&str` and turn the result back into a `String`.

use vstd::prelude::*;
use vstd::string::*;

verus! {

/// `String::push` appends one scalar value.
pub assume_specification[ String::push ](s: &mut String, ch: char)
    ensures
        final(s)@ == old(s)@.push(ch),
;

/// Unicode `White_Space`, the set `char::is_whitespace` and `str::trim` use.
pub open spec fn is_ws(c: char) -> bool {
    let u = c as u32;
    ||| 0x09 <= u <= 0x0d
    ||| u == 0x20
    ||| u == 0x85
    ||| u == 0xa0
    ||| u == 0x1680
    ||| 0x2000 <= u <= 0x200a
    ||| u == 0x2028
    ||| u == 0x2029
    ||| u == 0x202f
    ||| u == 0x205f
    ||| u == 0x3000
}

/// Character classes that the path and text helpers strip.
#[derive(Clone, Copy, PartialEq, Eq, Debug)]
pub enum CharSet {
    Whitespace,
    /// `/` and `\`.
    PathSeparators,
    /// `/` only.
    Slash,
    /// `\` only.
    Backslash,
    /// `"`.
    DoubleQuote,
    /// `|`.
    Pipe,
    /// `\r` and `\n`.
    LineEnd,
    /// `$`.
    Dollar,
}

pub open spec fn in_set(set: CharSet, c: char) -> bool {
    match set {
        CharSet::Whitespace => is_ws(c),
        CharSet::PathSeparators => c == '/' || c == '\\',
        CharSet::Slash => c == '/',
        CharSet::Backslash => c == '\\',
        CharSet::DoubleQuote => c == '"',
        CharSet::Pipe => c == '|',
        CharSet::LineEnd => c == '\r' || c == '\n',
        CharSet::Dollar => c == '$',
    }
}

pub fn is_whitespace(c: char) -> (b: bool)
    ensures
        b == is_ws(c),
{
    let u = c as u32;
    (0x09 <= u && u <= 0x0d) || u == 0x20 || u == 0x85 || u == 0xa0 || u == 0x1680 || (0x2000
        <= u && u <= 0x200a) || u == 0x2028 || u == 0x2029 || u == 0x202f || u == 0x205f || u
        == 0x3000
}

pub fn has(set: CharSet, c: char) -> (b: bool)
    ensures
        b == in_set(set, c),
{
    match set {
        CharSet::Whitespace => is_whitespace(c),
        CharSet::PathSeparators => c == '/' || c == '\\',
        CharSet::Slash => c == '/',
        CharSet::Backslash => c == '\\',
        CharSet::DoubleQuote => c == '"',
        CharSet::Pipe => c == '|',
        CharSet::LineEnd => c == '\r' || c == '\n',
        CharSet::Dollar => c == '$',
    }
}

/// `s` without its leading run of `set` characters.
pub open spec fn strip_start(s: Seq<char>, set: CharSet) -> Seq<char>
    decreases s.len(),
{
    if s.len() > 0 && in_set(set, s[0]) {
        strip_start(s.drop_first(), set)
    } else {
        s
    }
}

/// `s` without its trailing run of `set` characters (`trim_end_matches`).
pub open spec fn strip_end(s: Seq<char>, set: CharSet) -> Seq<char>
    decreases s.len(),
{
    if s.len() > 0 && in_set(set, s.last()) {
        strip_end(s.drop_last(), set)
    } else {
        s
    }
}

/// `str::trim`.
pub open spec fn trim(s: Seq<char>) -> Seq<char> {
    strip_end(strip_start(s, CharSet::Whitespace), CharSet::Whitespace)
}

pub open spec fn starts_with(s: Seq<char>, p: Seq<char>) -> bool {
    p.len() <= s.len() && s.take(p.len() as int) == p
}

pub open spec fn ends_with(s: Seq<char>, p: Seq<char>) -> bool {
    p.len() <= s.len() && s.skip(s.len() - p.len()) == p
}

/// Index of the first `c` in `s`.
pub open spec fn find(s: Seq<char>, c: char) -> Option<int>
    decreases s.len(),
{
    if s.len() == 0 {
        None
    } else if s[0] == c {
        Some(0)
    } else {
        match find(s.drop_first(), c) {
            Some(i) => Some(i + 1),
            None => None,
        }
    }
}

/// Index of the last `c` in `s`.
pub open spec fn rfind(s: Seq<char>, c: char) -> Option<int>
    decreases s.len(),
{
    if s.len() == 0 {
        None
    } else if s.last() == c {
        Some(s.len() - 1)
    } else {
        rfind(s.drop_last(), c)
    }
}

/// Every `from` replaced by `to`.
pub open spec fn replace_char(s: Seq<char>, from: char, to: char) -> Seq<char> {
    s.map_values(|x: char| if x == from { to } else { x })
}

pub open spec fn ascii_lower(c: char) -> char {
    if 'A' <= c <= 'Z' {
        ((c as u32) + 32) as char
    } else {
        c
    }
}

pub open spec fn ascii_upper(c: char) -> char {
    if 'a' <= c <= 'z' {
        ((c as u32) - 32) as char
    } else {
        c
    }
}

/// `str::to_ascii_lowercase`.
pub open spec fn lower_ascii(s: Seq<char>) -> Seq<char> {
    s.map_values(|x: char| ascii_lower(x))
}

pub open spec fn is_ascii_alpha(c: char) -> bool {
    ('a' <= c <= 'z') || ('A' <= c <= 'Z')
}

pub open spec fn is_ascii_digit(c: char) -> bool {
    '0' <= c <= '9'
}

/// `s.split(c)`: the pieces between occurrences of `c`.
pub open spec fn split_char(s: Seq<char>, c: char) -> Seq<Seq<char>>
    decreases s.len(),
{
    if s.len() == 0 {
        seq![Seq::<char>::empty()]
    } else {
        let prev = split_char(s.drop_last(), c);
        if s.last() == c {
            prev.push(Seq::<char>::empty())
        } else {
            prev.update(prev.len() - 1, prev.last().push(s.last()))
        }
    }
}

/// The pieces joined with `sep` between neighbours (`[T]::join`).
pub open spec fn join(parts: Seq<Seq<char>>, sep: Seq<char>) -> Seq<char>
    decreases parts.len(),
{
    if parts.len() == 0 {
        Seq::empty()
    } else if parts.len() == 1 {
        parts[0]
    } else {
        join(parts.drop_last(), sep) + sep + parts.last()
    }
}

pub proof fn lemma_split_nonempty(s: Seq<char>, c: char)
    ensures
        split_char(s, c).len() >= 1,
    decreases s.len(),
{
    if s.len() > 0 {
        lemma_split_nonempty(s.drop_last(), c);
    }
}

pub proof fn lemma_find_spec(s: Seq<char>, c: char)
    ensures
        match find(s, c) {
            Some(i) => 0 <= i < s.len() && s[i] == c && forall|j: int| 0 <= j < i ==> s[j] != c,
            None => forall|j: int| 0 <= j < s.len() ==> s[j] != c,
        },
    decreases s.len(),
{
    if s.len() > 0 && s[0] != c {
        lemma_find_spec(s.drop_first(), c);
        match find(s.drop_first(), c) {
            Some(i) => {
                assert forall|j: int| 0 <= j < i + 1 implies s[j] != c by {
                    if j > 0 {
                        assert(s[j] == s.drop_first()[j - 1]);
                    }
                }
            },
            None => {
                assert forall|j: int| 0 <= j < s.len() implies s[j] != c by {
                    if j > 0 {
                        assert(s[j] == s.drop_first()[j - 1]);
                    }
                }
            },
        }
    }
}

pub proof fn lemma_rfind_spec(s: Seq<char>, c: char)
    ensures
        match rfind(s, c) {
            Some(i) => 0 <= i < s.len() && s[i] == c && forall|j: int| i < j < s.len() ==> s[j]
                != c,
            None => forall|j: int| 0 <= j < s.len() ==> s[j] != c,
        },
    decreases s.len(),
{
    if s.len() > 0 && s.last() != c {
        lemma_rfind_spec(s.drop_last(), c);
        assert forall|j: int| 0 <= j < s.len() - 1 implies s[j] == s.drop_last()[j] by {}
    }
}

/// The characters of `s`, in order.
pub fn chars_of(s: &str) -> (v: Vec<char>)
    ensures
        v@ == s@,
{
    let mut v: Vec<char> = Vec::new();
    for c in it: s.chars()
        invariant
            v@ == it.seq().take(it.index() as int),
    {
        v.push(c);
    }
    v
}

/// A `String` holding exactly the characters of `v`.
pub fn string_of(v: &[char]) -> (s: String)
    ensures
        s@ == v@,
{
    let mut s = String::new();
    let mut i: usize = 0;
    while i < v.len()
        invariant
            i <= v.len(),
            s@ == v@.take(i as int),
        decreases v.len() - i,
    {
        s.push(v[i]);
        i += 1;
        proof {
            assert(v@.take(i as int) =~= v@.take(i - 1).push(v@[i - 1]));
        }
    }
    proof {
        assert(v@.take(v.len() as int) =~= v@);
    }
    s
}

/// A copy of `v[lo..hi]`.
pub fn slice_vec(v: &[char], lo: usize, hi: usize) -> (r: Vec<char>)
    requires
        lo <= hi <= v@.len(),
    ensures
        r@ == v@.subrange(lo as int, hi as int),
{
    let mut r: Vec<char> = Vec::new();
    let mut i = lo;
    while i < hi
        invariant
            lo <= i <= hi <= v@.len(),
            r@ == v@.subrange(lo as int, i as int),
        decreases hi - i,
    {
        r.push(v[i]);
        i += 1;
        proof {
            assert(v@.subrange(lo as int, i as int) =~= v@.subrange(lo as int, i - 1).push(
                v@[i - 1],
            ));
        }
    }
    r
}

/// `a` followed by `b`.
pub fn concat(a: &[char], b: &[char]) -> (r: Vec<char>)
    ensures
        r@ == a@ + b@,
{
    let mut r = slice_vec(a, 0, a.len());
    let mut i: usize = 0;
    proof {
        assert(a@.subrange(0, a@.len() as int) =~= a@);
    }
    while i < b.len()
        invariant
            i <= b.len(),
            r@ == a@ + b@.take(i as int),
        decreases b.len() - i,
    {
        r.push(b[i]);
        i += 1;
        proof {
            assert(a@ + b@.take(i as int) =~= (a@ + b@.take(i - 1)).push(b@[i - 1]));
        }
    }
    proof {
        assert(b@.take(b.len() as int) =~= b@);
    }
    r
}

pub fn eq_chars(a: &[char], b: &[char]) -> (r: bool)
    ensures
        r == (a@ == b@),
{
    if a.len() != b.len() {
        return false;
    }
    let mut i: usize = 0;
    while i < a.len()
        invariant
            a.len() == b.len(),
            i <= a.len(),
            forall|j: int| 0 <= j < i ==> a@[j] == b@[j],
        decreases a.len() - i,
    {
        if a[i] != b[i] {
            return false;
        }
        i += 1;
    }
    proof {
        assert(a@ =~= b@);
    }
    true
}

/// `a[lo..hi]` equals `p`.
pub fn range_eq(a: &[char], lo: usize, hi: usize, p: &[char]) -> (r: bool)
    requires
        lo <= hi <= a@.len(),
    ensures
        r == (a@.subrange(lo as int, hi as int) == p@),
{
    if hi - lo != p.len() {
        return false;
    }
    let mut i: usize = 0;
    while i < p.len()
        invariant
            hi - lo == p.len(),
            lo <= hi <= a@.len(),
            i <= p.len(),
            forall|j: int| 0 <= j < i ==> a@[lo + j] == p@[j],
        decreases p.len() - i,
    {
        if a[lo + i] != p[i] {
            assert(a@.subrange(lo as int, hi as int)[i as int] != p@[i as int]);
            return false;
        }
        i += 1;
    }
    proof {
        assert(a@.subrange(lo as int, hi as int) =~= p@);
    }
    true
}

pub fn starts_with_chars(a: &[char], p: &[char]) -> (r: bool)
    ensures
        r == starts_with(a@, p@),
{
    if p.len() > a.len() {
        return false;
    }
    proof {
        assert(a@.take(p.len() as int) =~= a@.subrange(0, p.len() as int));
    }
    range_eq(a, 0, p.len(), p)
}

pub fn ends_with_chars(a: &[char], p: &[char]) -> (r: bool)
    ensures
        r == ends_with(a@, p@),
{
    if p.len() > a.len() {
        return false;
    }
    proof {
        assert(a@.skip(a.len() - p.len()) =~= a@.subrange(a.len() - p.len(), a.len() as int));
    }
    range_eq(a, a.len() - p.len(), a.len(), p)
}

pub fn contains_char(a: &[char], c: char) -> (r: bool)
    ensures
        r == a@.contains(c),
{
    let mut i: usize = 0;
    while i < a.len()
        invariant
            i <= a.len(),
            forall|j: int| 0 <= j < i ==> a@[j] != c,
        decreases a.len() - i,
    {
        if a[i] == c {
            assert(a@[i as int] == c);
            return true;
        }
        i += 1;
    }
    false
}

/// First index of `c` in `a`.
pub fn find_char(a: &[char], c: char) -> (r: Option<usize>)
    ensures
        match r {
            Some(i) => find(a@, c) == Some(i as int) && i < a@.len() && a@[i as int] == c,
            None => find(a@, c) == None::<int>,
        },
{
    proof {
        lemma_find_spec(a@, c);
    }
    let mut i: usize = 0;
    while i < a.len()
        invariant
            i <= a.len(),
            forall|j: int| 0 <= j < i ==> a@[j] != c,
            match find(a@, c) {
                Some(k) => 0 <= k < a@.len() && a@[k] == c && forall|j: int|
                    0 <= j < k ==> a@[j] != c,
                None => forall|j: int| 0 <= j < a@.len() ==> a@[j] != c,
            },
        decreases a.len() - i,
    {
        if a[i] == c {
            return Some(i);
        }
        i += 1;
    }
    None
}

/// Last index of `c` in `a[..hi]`.
pub fn rfind_char(a: &[char], hi: usize, c: char) -> (r: Option<usize>)
    requires
        hi <= a@.len(),
    ensures
        match r {
            Some(i) => rfind(a@.take(hi as int), c) == Some(i as int) && i < hi && a@[i as int]
                == c,
            None => rfind(a@.take(hi as int), c) == None::<int>,
        },
{
    let ghost t = a@.take(hi as int);
    proof {
        lemma_rfind_spec(t, c);
    }
    let mut i: usize = hi;
    while i > 0
        invariant
            i <= hi <= a@.len(),
            t == a@.take(hi as int),
            forall|j: int| i <= j < hi ==> a@[j] != c,
            match rfind(t, c) {
                Some(k) => 0 <= k < t.len() && t[k] == c && forall|j: int|
                    k < j < t.len() ==> t[j] != c,
                None => forall|j: int| 0 <= j < t.len() ==> t[j] != c,
            },
        decreases i,
    {
        if a[i - 1] == c {
            assert(t[i - 1] == c);
            return Some(i - 1);
        }
        i -= 1;
    }
    None
}

/// First index of `p` inside `a[from..]`, searching left to right.
pub open spec fn occurs_at(s: Seq<char>, p: Seq<char>, i: int) -> bool {
    0 <= i && i + p.len() <= s.len() && s.subrange(i, i + p.len()) == p
}

/// Skip a leading run of `set` in `v[lo..hi]`.
pub fn skip_leading(v: &[char], lo: usize, hi: usize, set: CharSet) -> (r: usize)
    requires
        lo <= hi <= v@.len(),
    ensures
        lo <= r <= hi,
        v@.subrange(r as int, hi as int) == strip_start(v@.subrange(lo as int, hi as int), set),
{
    let mut i = lo;
    while i < hi && has(set, v[i])
        invariant
            lo <= i <= hi <= v@.len(),
            strip_start(v@.subrange(i as int, hi as int), set) == strip_start(
                v@.subrange(lo as int, hi as int),
                set,
            ),
        decreases hi - i,
    {
        proof {
            assert(v@.subrange(i as int, hi as int).drop_first() =~= v@.subrange(
                i + 1,
                hi as int,
            ));
        }
        i += 1;
    }
    proof {
        let s = v@.subrange(i as int, hi as int);
        if i < hi {
            assert(s[0] == v@[i as int]);
        }
    }
    i
}

/// Drop a trailing run of `set` from `v[lo..hi]`.
pub fn drop_trailing(v: &[char], lo: usize, hi: usize, set: CharSet) -> (r: usize)
    requires
        lo <= hi <= v@.len(),
    ensures
        lo <= r <= hi,
        v@.subrange(lo as int, r as int) == strip_end(v@.subrange(lo as int, hi as int), set),
{
    let mut j = hi;
    while j > lo && has(set, v[j - 1])
        invariant
            lo <= j <= hi <= v@.len(),
            strip_end(v@.subrange(lo as int, j as int), set) == strip_end(
                v@.subrange(lo as int, hi as int),
                set,
            ),
        decreases j,
    {
        proof {
            assert(v@.subrange(lo as int, j as int).drop_last() =~= v@.subrange(
                lo as int,
                j - 1,
            ));
        }
        j -= 1;
    }
    proof {
        let s = v@.subrange(lo as int, j as int);
        if j > lo {
            assert(s.last() == v@[j - 1]);
        }
    }
    j
}

/// `str::trim` on a character vector.
pub fn trim_chars(v: &[char]) -> (r: Vec<char>)
    ensures
        r@ == trim(v@),
{
    proof {
        assert(v@.subrange(0, v@.len() as int) =~= v@);
    }
    let lo = skip_leading(v, 0, v.len(), CharSet::Whitespace);
    let hi = drop_trailing(v, lo, v.len(), CharSet::Whitespace);
    slice_vec(v, lo, hi)
}

/// `s.trim()` as characters.
pub fn trim_str(s: &str) -> (r: Vec<char>)
    ensures
        r@ == trim(s@),
{
    let v = chars_of(s);
    trim_chars(&v)
}

/// `v.trim_end_matches(set)`.
pub fn strip_end_chars(v: &[char], set: CharSet) -> (r: Vec<char>)
    ensures
        r@ == strip_end(v@, set),
{
    proof {
        assert(v@.subrange(0, v@.len() as int) =~= v@);
    }
    let hi = drop_trailing(v, 0, v.len(), set);
    slice_vec(v, 0, hi)
}

/// Every `from` in `v` replaced by `to`.
pub fn replace_chars(v: &[char], from: char, to: char) -> (r: Vec<char>)
    ensures
        r@ == replace_char(v@, from, to),
{
    let mut r: Vec<char> = Vec::new();
    let mut i: usize = 0;
    while i < v.len()
        invariant
            i <= v.len(),
            r@ == replace_char(v@.take(i as int), from, to),
        decreases v.len() - i,
    {
        let c = v[i];
        r.push(if c == from { to } else { c });
        i += 1;
        proof {
            assert(replace_char(v@.take(i as int), from, to) =~= replace_char(
                v@.take(i - 1),
                from,
                to,
            ).push(if c == from { to } else { c }));
        }
    }
    proof {
        assert(v@.take(v.len() as int) =~= v@);
    }
    r
}

pub fn to_ascii_lower(c: char) -> (r: char)
    ensures
        r == ascii_lower(c),
{
    if 'A' <= c && c <= 'Z' {
        let u: u8 = ((c as u32) + 32) as u8;
        u as char
    } else {
        c
    }
}

pub fn lower_chars(v: &[char]) -> (r: Vec<char>)
    ensures
        r@ == lower_ascii(v@),
{
    let mut r: Vec<char> = Vec::new();
    let mut i: usize = 0;
    while i < v.len()
        invariant
            i <= v.len(),
            r@ == lower_ascii(v@.take(i as int)),
        decreases v.len() - i,
    {
        let c = to_ascii_lower(v[i]);
        r.push(c);
        i += 1;
        proof {
            assert(lower_ascii(v@.take(i as int)) =~= lower_ascii(v@.take(i - 1)).push(c));
        }
    }
    proof {
        assert(v@.take(v.len() as int) =~= v@);
    }
    r
}

} // verus!

verus! {

/// `p` occurs somewhere in `s`.
pub open spec fn contains_seq(s: Seq<char>, p: Seq<char>) -> bool {
    exists|i: int| occurs_at(s, p, i)
}

pub fn contains_chars(a: &[char], p: &[char]) -> (r: bool)
    ensures
        r == contains_seq(a@, p@),
{
    if p.len() > a.len() {
        assert forall|i: int| !occurs_at(a@, p@, i) by {}
        return false;
    }
    if p.len() == 0 {
        assert(a@.subrange(0, 0) =~= p@);
        assert(occurs_at(a@, p@, 0));
        return true;
    }
    let mut i: usize = 0;
    while i <= a.len() - p.len()
        invariant
            0 < p.len() <= a.len(),
            i <= a.len() - p.len() + 1,
            forall|j: int| 0 <= j < i ==> !occurs_at(a@, p@, j),
        decreases a.len() - i,
    {
        if range_eq(a, i, i + p.len(), p) {
            assert(occurs_at(a@, p@, i as int));
            return true;
        }
        i += 1;
    }
    assert forall|j: int| !occurs_at(a@, p@, j) by {}
    false
}

/// Whether every character of `s` is an ASCII digit.
pub open spec fn all_digits(s: Seq<char>) -> bool {
    forall|i: int| 0 <= i < s.len() ==> is_ascii_digit(#[trigger] s[i])
}

/// Decimal value of a digit string.
pub open spec fn digits_value(s: Seq<char>) -> int
    decreases s.len(),
{
    if s.len() == 0 {
        0
    } else {
        digits_value(s.drop_last()) * 10 + (s.last() as int - '0' as int)
    }
}

/// `s.parse::<u32>().ok()` for a non-empty digit string.
pub open spec fn parse_u32(s: Seq<char>) -> Option<u32> {
    if digits_value(s) <= u32::MAX {
        Some(digits_value(s) as u32)
    } else {
        None
    }
}

pub proof fn lemma_digits_value_nonneg(s: Seq<char>)
    requires
        all_digits(s),
    ensures
        digits_value(s) >= 0,
    decreases s.len(),
{
    if s.len() > 0 {
        assert(all_digits(s.drop_last())) by {
            assert forall|i: int| 0 <= i < s.drop_last().len() implies is_ascii_digit(
                #[trigger] s.drop_last()[i],
            ) by {
                assert(s.drop_last()[i] == s[i]);
            }
        }
        lemma_digits_value_nonneg(s.drop_last());
        assert(is_ascii_digit(s[s.len() - 1]));
    }
}

pub fn all_digits_chars(a: &[char], lo: usize, hi: usize) -> (r: bool)
    requires
        lo <= hi <= a@.len(),
    ensures
        r == all_digits(a@.subrange(lo as int, hi as int)),
{
    let mut i = lo;
    while i < hi
        invariant
            lo <= i <= hi <= a@.len(),
            forall|j: int| lo <= j < i ==> is_ascii_digit(a@[j]),
        decreases hi - i,
    {
        if !('0' <= a[i] && a[i] <= '9') {
            assert(!is_ascii_digit(a@.subrange(lo as int, hi as int)[i - lo]));
            return false;
        }
        i += 1;
    }
    assert forall|j: int| 0 <= j < hi - lo implies is_ascii_digit(
        #[trigger] a@.subrange(lo as int, hi as int)[j],
    ) by {
        assert(a@.subrange(lo as int, hi as int)[j] == a@[lo + j]);
    }
    true
}

/// `a[lo..hi].parse::<u32>().ok()` for a digit run.
pub fn parse_u32_chars(a: &[char], lo: usize, hi: usize) -> (r: Option<u32>)
    requires
        lo <= hi <= a@.len(),
        all_digits(a@.subrange(lo as int, hi as int)),
    ensures
        r == parse_u32(a@.subrange(lo as int, hi as int)),
{
    let mut acc: u64 = 0;
    let mut over = false;
    let mut i = lo;
    while i < hi
        invariant
            lo <= i <= hi <= a@.len(),
            all_digits(a@.subrange(lo as int, hi as int)),
            !over ==> acc as int == digits_value(a@.subrange(lo as int, i as int)) && acc
                <= u32::MAX,
            over ==> digits_value(a@.subrange(lo as int, i as int)) > u32::MAX,
        decreases hi - i,
    {
        let ghost prev = a@.subrange(lo as int, i as int);
        let ghost next = a@.subrange(lo as int, i + 1);
        proof {
            assert(next.drop_last() =~= prev);
            assert(next.last() == a@[i as int]);
            assert(a@[i as int] == a@.subrange(lo as int, hi as int)[i - lo]);
            assert(is_ascii_digit(a@[i as int]));
            assert(all_digits(prev)) by {
                assert forall|j: int| 0 <= j < prev.len() implies is_ascii_digit(#[trigger] prev[j]) by {
                    assert(prev[j] == a@.subrange(lo as int, hi as int)[j]);
                }
            }
            lemma_digits_value_nonneg(prev);
        }
        let d = (a[i] as u32 - '0' as u32) as u64;
        if !over {
            let next_acc = acc * 10 + d;
            if next_acc > u32::MAX as u64 {
                over = true;
            } else {
                acc = next_acc;
            }
        }
        i += 1;
    }
    if over {
        None
    } else {
        Some(acc as u32)
    }
}

} // verus!

verus! {

/// Index of the last character of `s` in `set`.
pub open spec fn rfind_set(s: Seq<char>, set: CharSet) -> Option<int>
    decreases s.len(),
{
    if s.len() == 0 {
        None
    } else if in_set(set, s.last()) {
        Some(s.len() - 1)
    } else {
        rfind_set(s.drop_last(), set)
    }
}

pub proof fn lemma_rfind_set_spec(s: Seq<char>, set: CharSet)
    ensures
        match rfind_set(s, set) {
            Some(i) => 0 <= i < s.len() && in_set(set, s[i]) && forall|j: int|
                i < j < s.len() ==> !in_set(set, s[j]),
            None => forall|j: int| 0 <= j < s.len() ==> !in_set(set, s[j]),
        },
    decreases s.len(),
{
    if s.len() > 0 && !in_set(set, s.last()) {
        lemma_rfind_set_spec(s.drop_last(), set);
        assert forall|j: int| 0 <= j < s.len() - 1 implies s[j] == s.drop_last()[j] by {}
    }
}

/// Last index in `a[..hi]` of a character in `set`.
pub fn rfind_set_chars(a: &[char], hi: usize, set: CharSet) -> (r: Option<usize>)
    requires
        hi <= a@.len(),
    ensures
        match r {
            Some(i) => rfind_set(a@.take(hi as int), set) == Some(i as int) && i < hi,
            None => rfind_set(a@.take(hi as int), set) is None,
        },
{
    let mut n = hi;
    while n > 0
        invariant
            n <= hi <= a@.len(),
            rfind_set(a@.take(n as int), set) == rfind_set(a@.take(hi as int), set),
        decreases n,
    {
        proof {
            assert(a@.take(n as int).drop_last() =~= a@.take(n - 1));
            assert(a@.take(n as int).last() == a@[n - 1]);
        }
        if has(set, a[n - 1]) {
            return Some(n - 1);
        }
        n -= 1;
    }
    None
}

} // verus!

verus! {

pub open spec fn digit_char(d: int) -> char {
    if d == 0 {
        '0'
    } else if d == 1 {
        '1'
    } else if d == 2 {
        '2'
    } else if d == 3 {
        '3'
    } else if d == 4 {
        '4'
    } else if d == 5 {
        '5'
    } else if d == 6 {
        '6'
    } else if d == 7 {
        '7'
    } else if d == 8 {
        '8'
    } else {
        '9'
    }
}

/// Decimal digits of `n`, most significant first.
pub open spec fn decimal(n: nat) -> Seq<char>
    decreases n,
{
    if n < 10 {
        seq![digit_char(n as int)]
    } else {
        decimal(n / 10).push(digit_char((n % 10) as int))
    }
}

pub proof fn lemma_decimal_len(n: nat)
    ensures
        decimal(n).len() >= 1,
        n >= 10 ==> decimal(n).len() >= 2,
    decreases n,
{
    if n >= 10 {
        lemma_decimal_len(n / 10);
    }
}

pub proof fn lemma_decimal_injective(a: nat, b: nat)
    requires
        decimal(a) == decimal(b),
    ensures
        a == b,
    decreases a,
{
    lemma_decimal_len(a);
    lemma_decimal_len(b);
    if a >= 10 && b >= 10 {
        assert(decimal(a).last() == decimal(b).last());
        assert(decimal(a).drop_last() =~= decimal(a / 10));
        assert(decimal(b).drop_last() =~= decimal(b / 10));
        lemma_decimal_injective(a / 10, b / 10);
        assert(decimal(a) == decimal(a / 10).push(digit_char((a % 10) as int)));
        assert(decimal(a).last() == digit_char((a % 10) as int));
        assert(decimal(b).last() == digit_char((b % 10) as int));
        assert(digit_char((a % 10) as int) == digit_char((b % 10) as int));
        assert(a % 10 == b % 10);
        assert(a == (a / 10) * 10 + a % 10);
        assert(b == (b / 10) * 10 + b % 10);
    } else if a < 10 && b < 10 {
        assert(decimal(a)[0] == decimal(b)[0]);
        assert(decimal(a)[0] == digit_char(a as int));
        assert(decimal(b)[0] == digit_char(b as int));
        assert(a == b);
    } else if a < 10 {
        assert(decimal(a).len() == 1);
    } else {
        assert(decimal(b).len() == 1);
    }
}

fn digit(d: u128) -> (c: char)
    requires
        d < 10,
    ensures
        c == digit_char(d as int),
{
    if d == 0 {
        '0'
    } else if d == 1 {
        '1'
    } else if d == 2 {
        '2'
    } else if d == 3 {
        '3'
    } else if d == 4 {
        '4'
    } else if d == 5 {
        '5'
    } else if d == 6 {
        '6'
    } else if d == 7 {
        '7'
    } else if d == 8 {
        '8'
    } else {
        '9'
    }
}

/// `n.to_string()` as characters.
pub fn decimal_chars(n: u128) -> (r: Vec<char>)
    ensures
        r@ == decimal(n as nat),
    decreases n,
{
    if n < 10 {
        let mut r = Vec::new();
        r.push(digit(n));
        assert(r@ =~= seq![digit_char(n as int)]);
        r
    } else {
        let mut r = decimal_chars(n / 10);
        r.push(digit(n % 10));
        r
    }
}

/// `v[lo..hi].split(sep)`, each piece as a string.
pub fn split_pieces(v: &[char], lo: usize, hi: usize, sep: char) -> (r: Vec<String>)
    requires
        lo <= hi <= v@.len(),
    ensures
        r.deep_view() == split_char(v@.subrange(lo as int, hi as int), sep),
{
    let ghost u = v@.subrange(lo as int, hi as int);
    let mut done: Vec<String> = Vec::new();
    let mut st = lo;
    let mut i = lo;
    proof {
        assert(u.take(0) =~= Seq::<char>::empty());
        assert(done.deep_view().push(u.subrange(0, 0)) =~= seq![Seq::<char>::empty()]);
    }
    while i < hi
        invariant
            lo <= st <= i <= hi <= v@.len(),
            u == v@.subrange(lo as int, hi as int),
            split_char(u.take(i - lo), sep) == done.deep_view().push(u.subrange(st - lo, i - lo)),
        decreases hi - i,
    {
        proof {
            assert(u.take(i - lo + 1).drop_last() =~= u.take(i - lo));
            assert(u.take(i - lo + 1).last() == v@[i as int]);
            assert(u[i - lo] == v@[i as int]);
        }
        if v[i] == sep {
            let ghost prev = done.deep_view();
            let piece = string_of(&slice_vec(v, st, i));
            done.push(piece);
            proof {
                assert(piece@ =~= u.subrange(st - lo, i - lo));
                assert(done.deep_view() =~= prev.push(u.subrange(st - lo, i - lo)));
                assert(u.subrange(i + 1 - lo, i + 1 - lo) =~= Seq::<char>::empty());
                assert(split_char(u.take(i - lo + 1), sep) =~= done.deep_view().push(
                    u.subrange(i + 1 - lo, i + 1 - lo),
                ));
            }
            st = i + 1;
        } else {
            proof {
                assert(u.subrange(st - lo, i - lo).push(v@[i as int]) =~= u.subrange(
                    st - lo,
                    i + 1 - lo,
                ));
                let prev = done.deep_view().push(u.subrange(st - lo, i - lo));
                assert(prev.update(prev.len() - 1, prev.last().push(v@[i as int]))
                    =~= done.deep_view().push(u.subrange(st - lo, i + 1 - lo)));
            }
        }
        i += 1;
    }
    let ghost prev = done.deep_view();
    let piece = string_of(&slice_vec(v, st, hi));
    done.push(piece);
    proof {
        assert(u.take(hi - lo) =~= u);
        assert(piece@ =~= u.subrange(st - lo, hi - lo));
        assert(done.deep_view() =~= prev.push(u.subrange(st - lo, hi - lo)));
    }
    done
}

/// Strict order of names: by character code, a proper prefix first.
pub open spec fn chars_lt(a: Seq<char>, b: Seq<char>) -> bool
    decreases a.len(),
{
    if a.len() == 0 {
        b.len() > 0
    } else if b.len() == 0 {
        false
    } else if a[0] != b[0] {
        (a[0] as u32) < (b[0] as u32)
    } else {
        chars_lt(a.drop_first(), b.drop_first())
    }
}

pub proof fn lemma_chars_lt_irreflexive(a: Seq<char>)
    ensures
        !chars_lt(a, a),
    decreases a.len(),
{
    if a.len() > 0 {
        lemma_chars_lt_irreflexive(a.drop_first());
    }
}

pub proof fn lemma_chars_lt_transitive(a: Seq<char>, b: Seq<char>, c: Seq<char>)
    requires
        chars_lt(a, b),
        chars_lt(b, c),
    ensures
        chars_lt(a, c),
    decreases a.len(),
{
    if a.len() > 0 && b.len() > 0 && c.len() > 0 {
        vstd::utf8::char_u32_cast(a[0], a[0] as u32);
        vstd::utf8::char_u32_cast(b[0], b[0] as u32);
        vstd::utf8::char_u32_cast(c[0], c[0] as u32);
        if a[0] == b[0] && b[0] == c[0] {
            lemma_chars_lt_transitive(a.drop_first(), b.drop_first(), c.drop_first());
        }
    }
}

pub proof fn lemma_chars_lt_total(a: Seq<char>, b: Seq<char>)
    requires
        a != b,
    ensures
        chars_lt(a, b) || chars_lt(b, a),
    decreases a.len(),
{
    if a.len() > 0 && b.len() > 0 {
        if a[0] == b[0] {
            assert(a.drop_first() != b.drop_first()) by {
                if a.drop_first() == b.drop_first() {
                    assert(a =~= seq![a[0]] + a.drop_first());
                    assert(b =~= seq![b[0]] + b.drop_first());
                }
            }
            lemma_chars_lt_total(a.drop_first(), b.drop_first());
        } else {
            vstd::utf8::char_u32_cast(a[0], a[0] as u32);
            vstd::utf8::char_u32_cast(b[0], b[0] as u32);
        }
    } else if a.len() == 0 && b.len() == 0 {
        assert(a =~= b);
    }
}

/// Where one value sorts relative to another.
#[derive(Clone, Copy, Debug, PartialEq, Eq, Structural)]
pub enum Rank {
    Before,
    Same,
    After,
}

pub fn compare_chars(a: &Vec<char>, b: &Vec<char>) -> (r: Rank)
    ensures
        r == Rank::Before <==> chars_lt(a@, b@),
        r == Rank::Same <==> a@ == b@,
        r == Rank::After <==> chars_lt(b@, a@),
{
    let mut i: usize = 0;
    proof {
        assert(a@.skip(0) =~= a@);
        assert(b@.skip(0) =~= b@);
    }
    while i < a.len() && i < b.len() && a[i] == b[i]
        invariant
            i <= a@.len(),
            i <= b@.len(),
            a@.take(i as int) == b@.take(i as int),
            chars_lt(a@, b@) == chars_lt(a@.skip(i as int), b@.skip(i as int)),
            chars_lt(b@, a@) == chars_lt(b@.skip(i as int), a@.skip(i as int)),
        decreases a.len() - i,
    {
        proof {
            assert(a@.skip(i as int).drop_first() =~= a@.skip(i + 1));
            assert(b@.skip(i as int).drop_first() =~= b@.skip(i + 1));
            assert(a@.take(i + 1) =~= a@.take(i as int).push(a@[i as int]));
            assert(b@.take(i + 1) =~= b@.take(i as int).push(b@[i as int]));
        }
        i += 1;
    }
    proof {
        lemma_chars_lt_irreflexive(a@);
        lemma_chars_lt_irreflexive(b@);
        if a@ != b@ {
            lemma_chars_lt_total(a@, b@);
        }
        if i == a.len() && i == b.len() {
            assert(a@ =~= a@.take(i as int));
            assert(b@ =~= b@.take(i as int));
        }
        if i < a.len() && i < b.len() {
            assert(a@[i as int] != b@[i as int]);
            assert(a@ != b@);
            vstd::utf8::char_u32_cast(a@[i as int], a@[i as int] as u32);
            vstd::utf8::char_u32_cast(b@[i as int], b@[i as int] as u32);
        }
        if i == a.len() && i < b.len() {
            assert(a@ != b@) by {
                assert(a@.len() != b@.len());
            }
        }
        if i < a.len() && i == b.len() {
            assert(a@.len() != b@.len());
        }
    }
    if i < a.len() && i < b.len() {
        if (a[i] as u32) < (b[i] as u32) {
            Rank::Before
        } else {
            Rank::After
        }
    } else if i == a.len() && i == b.len() {
        Rank::Same
    } else if i == a.len() {
        Rank::Before
    } else {
        Rank::After
    }
}


} // verus!
