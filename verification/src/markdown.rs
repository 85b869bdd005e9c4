//! The Markdown that the editor's preview understands: inline spans
//! (bold, italic, code, links, images, math), headings, list and task
//! items, table rows, and the marker/content split used when a preview line
//! is edited in place.

use vstd::prelude::*;
use vstd::string::*;

use crate::strs::push_string;
use crate::text::{
    all_digits, chars_of, concat, drop_trailing, find, in_set, is_ascii_digit, lemma_find_spec,
    skip_leading, slice_vec, split_char, starts_with, string_of, strip_end, strip_start, trim,
    trim_chars, CharSet,
};

verus! {

/// One inline span of a preview line.
#[derive(Debug, Clone, PartialEq, Eq)]
pub enum InlinePart {
    Text(String),
    Bold(String),
    Italic(String),
    Code(String),
    Link { text: String, href: String },
    Image { alt: String, src: String },
    Math(String),
}

pub enum PartView {
    Text(Seq<char>),
    Bold(Seq<char>),
    Italic(Seq<char>),
    Code(Seq<char>),
    Link(Seq<char>, Seq<char>),
    Image(Seq<char>, Seq<char>),
    Math(Seq<char>),
}

impl View for InlinePart {
    type V = PartView;

    open spec fn view(&self) -> PartView {
        match self {
            InlinePart::Text(s) => PartView::Text(s@),
            InlinePart::Bold(s) => PartView::Bold(s@),
            InlinePart::Italic(s) => PartView::Italic(s@),
            InlinePart::Code(s) => PartView::Code(s@),
            InlinePart::Link { text, href } => PartView::Link(text@, href@),
            InlinePart::Image { alt, src } => PartView::Image(alt@, src@),
            InlinePart::Math(s) => PartView::Math(s@),
        }
    }
}

pub open spec fn parts_view(parts: Seq<InlinePart>) -> Seq<PartView> {
    parts.map_values(|p: InlinePart| p@)
}

/// `[text](href)` opening at `start`: the text, the target, and the index
/// just past the `)`.
pub open spec fn link_like(c: Seq<char>, start: int) -> Option<(Seq<char>, Seq<char>, int)> {
    if start < 0 || start >= c.len() || c[start] != '[' {
        None
    } else {
        match find(c.skip(start + 1), ']') {
            None => None,
            Some(p) => {
                let close = p + start + 1;
                if close + 1 >= c.len() || c[close + 1] != '(' {
                    None
                } else {
                    match find(c.skip(close + 2), ')') {
                        None => None,
                        Some(q) => {
                            let end = q + close + 2;
                            Some((c.subrange(start + 1, close), c.subrange(close + 2, end), end + 1))
                        },
                    }
                }
            },
        }
    }
}

/// First index `i >= start` where `marker` appears twice in a row.
pub open spec fn closing_double(c: Seq<char>, start: int, marker: char) -> Option<int>
    decreases c.len() - start,
{
    if start < 0 || start + 1 >= c.len() {
        None
    } else if c[start] == marker && c[start + 1] == marker {
        Some(start)
    } else {
        closing_double(c, start + 1, marker)
    }
}

/// First index `j >= from` where a `$` (or `$$` when `delim` is 2) closes
/// a math span.
pub open spec fn math_close(c: Seq<char>, from: int, delim: int) -> Option<int>
    decreases c.len() - from,
{
    if from < 0 || from >= c.len() || from + delim - 1 >= c.len() {
        None
    } else if c[from] == '$' && (delim == 1 || c[from + 1] == '$') {
        Some(from)
    } else {
        math_close(c, from + 1, delim)
    }
}

/// What the parser does at index `i`: emit a span and jump, or keep the
/// character as plain text.
pub enum InlineStep {
    Emit(PartView, int),
    Plain,
}

pub open spec fn is_emphasis(ch: char) -> bool {
    ch == '*' || ch == '_'
}

pub open spec fn math_display(c: Seq<char>, i: int) -> bool {
    i + 1 < c.len() && c[i + 1] == '$'
}

pub open spec fn inline_step(c: Seq<char>, i: int) -> InlineStep {
    let display = math_display(c, i);
    let mstart = if display {
        i + 2
    } else {
        i + 1
    };
    let delim = if display {
        2int
    } else {
        1int
    };
    if c[i] == '!' && i + 1 < c.len() && c[i + 1] == '[' && link_like(c, i + 1) is Some {
        let l = link_like(c, i + 1)->0;
        InlineStep::Emit(PartView::Image(l.0, l.1), l.2)
    } else if c[i] == '[' && link_like(c, i) is Some {
        let l = link_like(c, i)->0;
        InlineStep::Emit(PartView::Link(l.0, l.1), l.2)
    } else if c[i] == '`' && find(c.skip(i + 1), '`') is Some {
        let end = find(c.skip(i + 1), '`')->0;
        InlineStep::Emit(PartView::Code(c.subrange(i + 1, i + 1 + end)), i + 2 + end)
    } else if c[i] == '$' && math_close(c, mstart, delim) is Some {
        let j = math_close(c, mstart, delim)->0;
        InlineStep::Emit(PartView::Math(trim(c.subrange(mstart, j))), j + delim)
    } else if is_emphasis(c[i]) && i + 1 < c.len() && c[i + 1] == c[i] && closing_double(
        c,
        i + 2,
        c[i],
    ) is Some {
        let end = closing_double(c, i + 2, c[i])->0;
        InlineStep::Emit(PartView::Bold(c.subrange(i + 2, end)), end + 2)
    } else if is_emphasis(c[i]) && find(c.skip(i + 1), c[i]) is Some && find(c.skip(i + 1), c[i])->0
        > 0 {
        let end = find(c.skip(i + 1), c[i])->0;
        InlineStep::Emit(PartView::Italic(c.subrange(i + 1, i + 1 + end)), i + 2 + end)
    } else {
        InlineStep::Plain
    }
}

/// Pending plain text, as a span when there is any.
pub open spec fn flush(buf: Seq<char>) -> Seq<PartView> {
    if buf.len() > 0 {
        seq![PartView::Text(buf)]
    } else {
        Seq::empty()
    }
}

/// The spans of `c[i..]`, with `buf` the plain text gathered before `i`.
pub open spec fn inline_parts(c: Seq<char>, i: int, buf: Seq<char>) -> Seq<PartView>
    decreases c.len() - i,
{
    if i < 0 || i >= c.len() {
        flush(buf)
    } else {
        match inline_step(c, i) {
            InlineStep::Emit(p, next) => if i < next <= c.len() {
                flush(buf) + seq![p] + inline_parts(c, next, Seq::empty())
            } else {
                flush(buf)
            },
            InlineStep::Plain => inline_parts(c, i + 1, buf.push(c[i])),
        }
    }
}

/// The inline spans of a preview line.
pub open spec fn parse_inline_spec(input: Seq<char>) -> Seq<PartView> {
    inline_parts(input, 0, Seq::empty())
}

proof fn lemma_link_like(c: Seq<char>, start: int)
    ensures
        link_like(c, start) matches Some(l) ==> {
            let close = start + 1 + l.0.len();
            &&& 0 <= start < close
            &&& close + 1 < c.len()
            &&& l.0 == c.subrange(start + 1, close)
            &&& l.1 == c.subrange(close + 2, l.2 - 1)
            &&& close + 2 <= l.2 - 1 < c.len()
        },
{
    if start >= 0 && start < c.len() && c[start] == '[' {
        lemma_find_spec(c.skip(start + 1), ']');
        if let Some(p) = find(c.skip(start + 1), ']') {
            let close = p + start + 1;
            if close + 1 < c.len() && c[close + 1] == '(' {
                lemma_find_spec(c.skip(close + 2), ')');
            }
        }
    }
}

proof fn lemma_closing_double(c: Seq<char>, start: int, marker: char)
    ensures
        closing_double(c, start, marker) matches Some(e) ==> start <= e && e + 1 < c.len()
            && c[e] == marker && c[e + 1] == marker,
    decreases c.len() - start,
{
    if start >= 0 && start + 1 < c.len() && !(c[start] == marker && c[start + 1] == marker) {
        lemma_closing_double(c, start + 1, marker);
    }
}

proof fn lemma_math_close(c: Seq<char>, from: int, delim: int)
    ensures
        math_close(c, from, delim) matches Some(j) ==> from <= j && j + delim - 1 < c.len(),
    decreases c.len() - from,
{
    if from >= 0 && from < c.len() && from + delim - 1 < c.len() && !(c[from] == '$' && (delim == 1 || c[from + 1]
        == '$')) {
        lemma_math_close(c, from + 1, delim);
    }
}

/// Index of the first `ch` in `a[from..]`, counted from `from`.
pub fn find_from(a: &[char], from: usize, ch: char) -> (r: Option<usize>)
    requires
        from <= a@.len(),
    ensures
        match r {
            Some(k) => find(a@.skip(from as int), ch) == Some(k as int) && from + k < a@.len(),
            None => find(a@.skip(from as int), ch) is None,
        },
{
    let ghost s = a@.skip(from as int);
    proof {
        lemma_find_spec(s, ch);
    }
    let mut i = from;
    while i < a.len()
        invariant
            from <= i <= a@.len(),
            s == a@.skip(from as int),
            forall|j: int| from <= j < i ==> a@[j] != ch,
            match find(s, ch) {
                Some(k) => 0 <= k < s.len() && s[k] == ch && forall|j: int|
                    0 <= j < k ==> s[j] != ch,
                None => forall|j: int| 0 <= j < s.len() ==> s[j] != ch,
            },
        decreases a.len() - i,
    {
        if a[i] == ch {
            proof {
                assert(s[i - from] == ch);
                if let Some(k) = find(s, ch) {
                    if k < i - from {
                        assert(a@[from + k] == ch);
                    }
                    if k > i - from {
                        assert(s[i - from] != ch);
                    }
                }
            }
            return Some(i - from);
        }
        i += 1;
    }
    proof {
        if let Some(k) = find(s, ch) {
            assert(a@[from + k] == ch);
        }
    }
    None
}

/// `[text](href)` opening at `start`: text, target and the index after `)`.
fn parse_link_like(chars: &[char], start: usize) -> (r: Option<(String, String, usize)>)
    ensures
        match r {
            Some((text, href, next)) => link_like(chars@, start as int) == Some(
                (text@, href@, next as int),
            ),
            None => link_like(chars@, start as int) is None,
        },
{
    if start >= chars.len() || chars[start] != '[' {
        return None;
    }
    let p = match find_from(chars, start + 1, ']') {
        Some(p) => p,
        None => {
            return None;
        },
    };
    let close = p + start + 1;
    if close + 1 >= chars.len() || chars[close + 1] != '(' {
        return None;
    }
    let q = match find_from(chars, close + 2, ')') {
        Some(q) => q,
        None => {
            return None;
        },
    };
    let end = q + close + 2;
    let text = string_of(&slice_vec(chars, start + 1, close));
    let href = string_of(&slice_vec(chars, close + 2, end));
    Some((text, href, end + 1))
}

/// First index `i >= start` where `marker` appears twice in a row.
fn find_closing_double(chars: &[char], start: usize, marker: char) -> (r: Option<usize>)
    ensures
        match r {
            Some(e) => closing_double(chars@, start as int, marker) == Some(e as int),
            None => closing_double(chars@, start as int, marker) is None,
        },
{
    if chars.len() < 2 {
        return None;
    }
    let mut i = start;
    while i < chars.len() - 1
        invariant
            start <= i,
            chars@.len() >= 2,
            closing_double(chars@, i as int, marker) == closing_double(
                chars@,
                start as int,
                marker,
            ),
        decreases chars.len() - i,
    {
        if chars[i] == marker && chars[i + 1] == marker {
            return Some(i);
        }
        i += 1;
    }
    None
}

fn find_math_close(chars: &[char], from: usize, delim: usize) -> (r: Option<usize>)
    requires
        delim == 1 || delim == 2,
    ensures
        match r {
            Some(j) => math_close(chars@, from as int, delim as int) == Some(j as int),
            None => math_close(chars@, from as int, delim as int) is None,
        },
{
    if chars.len() < delim {
        return None;
    }
    let mut j = from;
    while j < chars.len() - (delim - 1)
        invariant
            from <= j,
            chars@.len() >= delim,
            delim == 1 || delim == 2,
            math_close(chars@, j as int, delim as int) == math_close(
                chars@,
                from as int,
                delim as int,
            ),
        decreases chars.len() - j,
    {
        if chars[j] == '$' && (delim == 1 || chars[j + 1] == '$') {
            return Some(j);
        }
        j += 1;
    }
    None
}

fn push_text(out: &mut Vec<InlinePart>, buf: Vec<char>)
    ensures
        parts_view(final(out)@) == parts_view(old(out)@) + flush(buf@),
{
    if buf.len() > 0 {
        out.push(InlinePart::Text(string_of(&buf)));
        proof {
            assert(parts_view(final(out)@) =~= parts_view(old(out)@) + flush(buf@));
        }
    } else {
        proof {
            assert(parts_view(final(out)@) =~= parts_view(old(out)@) + flush(buf@));
        }
    }
}

/// The span that starts at `i`, with the index after it, when one does.
fn step_at(chars: &[char], i: usize) -> (r: Option<(InlinePart, usize)>)
    requires
        i < chars@.len(),
    ensures
        match r {
            Some((p, next)) => inline_step(chars@, i as int) == InlineStep::Emit(p@, next as int)
                && i < next <= chars@.len(),
            None => inline_step(chars@, i as int) is Plain,
        },
{
    let ghost c = chars@;
    proof {
        lemma_link_like(c, i as int);
        lemma_link_like(c, i + 1);
    }
    if chars[i] == '!' && i + 1 < chars.len() && chars[i + 1] == '[' {
        if let Some((alt, src, next)) = parse_link_like(chars, i + 1) {
            return Some((InlinePart::Image { alt, src }, next));
        }
    }
    if chars[i] == '[' {
        if let Some((text, href, next)) = parse_link_like(chars, i) {
            return Some((InlinePart::Link { text, href }, next));
        }
    }
    if chars[i] == '`' {
        if let Some(end) = find_from(chars, i + 1, '`') {
            let content = string_of(&slice_vec(chars, i + 1, i + 1 + end));
            return Some((InlinePart::Code(content), i + 2 + end));
        }
    }
    if chars[i] == '$' {
        let display = i + 1 < chars.len() && chars[i + 1] == '$';
        let start = if display {
            i + 2
        } else {
            i + 1
        };
        let delim: usize = if display {
            2
        } else {
            1
        };
        proof {
            lemma_math_close(c, start as int, delim as int);
        }
        if let Some(j) = find_math_close(chars, start, delim) {
            let content = string_of(&trim_chars(&slice_vec(chars, start, j)));
            return Some((InlinePart::Math(content), j + delim));
        }
    }
    if (chars[i] == '*' || chars[i] == '_') && i + 1 < chars.len() && chars[i + 1] == chars[i] {
        let marker = chars[i];
        proof {
            lemma_closing_double(c, i + 2, marker);
        }
        if let Some(end) = find_closing_double(chars, i + 2, marker) {
            let content = string_of(&slice_vec(chars, i + 2, end));
            return Some((InlinePart::Bold(content), end + 2));
        }
    }
    if chars[i] == '*' || chars[i] == '_' {
        let marker = chars[i];
        if let Some(end) = find_from(chars, i + 1, marker) {
            if end > 0 {
                let content = string_of(&slice_vec(chars, i + 1, i + 1 + end));
                return Some((InlinePart::Italic(content), i + 2 + end));
            }
        }
    }
    None
}

/// The inline spans of a preview line: `**bold**`/`__bold__`, `*italic*`/
/// `_italic_`, `` `code` ``, `[text](href)`, `![alt](src)`, and `$math$` or
/// `$$math$$` (trimmed). Anything else is plain text.
pub fn parse_inline_markdown(input: &str) -> (parts: Vec<InlinePart>)
    ensures
        parts_view(parts@) == parse_inline_spec(input@),
{
    let chars = chars_of(input);
    let ghost c = chars@;
    let mut out: Vec<InlinePart> = Vec::new();
    let mut buf: Vec<char> = Vec::new();
    let mut i: usize = 0;
    proof {
        assert(parts_view(out@) + inline_parts(c, 0, buf@) =~= inline_parts(c, 0, Seq::empty()));
    }
    while i < chars.len()
        invariant
            c == chars@,
            c == input@,
            i <= c.len(),
            parts_view(out@) + inline_parts(c, i as int, buf@) == parse_inline_spec(c),
        decreases chars.len() - i,
    {
        let ghost before = parts_view(out@);
        let ghost b = buf@;
        match step_at(&chars, i) {
            Some((part, next)) => {
                let ghost pv = part@;
                push_text(&mut out, buf);
                out.push(part);
                proof {
                    assert(parts_view(out@) =~= before + flush(b) + seq![pv]);
                    assert(parts_view(out@) + inline_parts(c, next as int, Seq::empty()) =~= before
                        + inline_parts(c, i as int, b));
                }
                buf = Vec::new();
                i = next;
            },
            None => {
                buf.push(chars[i]);
                i += 1;
            },
        }
    }
    push_text(&mut out, buf);
    proof {
        assert(parts_view(out@) =~= parse_inline_spec(c));
    }
    out
}

/// Length of the run of `ch` at the start of `s`.
pub open spec fn leading_run(s: Seq<char>, ch: char) -> nat
    decreases s.len(),
{
    if s.len() > 0 && s[0] == ch {
        1 + leading_run(s.drop_first(), ch)
    } else {
        0
    }
}

proof fn lemma_leading_run(s: Seq<char>, ch: char)
    ensures
        leading_run(s, ch) <= s.len(),
        forall|j: int| 0 <= j < leading_run(s, ch) ==> s[j] == ch,
        leading_run(s, ch) < s.len() ==> s[leading_run(s, ch) as int] != ch,
    decreases s.len(),
{
    if s.len() > 0 && s[0] == ch {
        lemma_leading_run(s.drop_first(), ch);
        assert forall|j: int| 0 <= j < leading_run(s, ch) implies s[j] == ch by {
            if j > 0 {
                assert(s[j] == s.drop_first()[j - 1]);
            }
        }
    }
}

fn count_leading(v: &[char], from: usize, ch: char) -> (r: usize)
    requires
        from <= v@.len(),
    ensures
        r == leading_run(v@.skip(from as int), ch),
        from + r <= v@.len(),
{
    let ghost s = v@.skip(from as int);
    proof {
        lemma_leading_run(s, ch);
    }
    let mut i = from;
    while i < v.len() && v[i] == ch
        invariant
            from <= i <= v@.len(),
            s == v@.skip(from as int),
            leading_run(v@.skip(i as int), ch) + (i - from) == leading_run(s, ch),
        decreases v.len() - i,
    {
        proof {
            assert(v@.skip(i as int).drop_first() =~= v@.skip(i + 1));
        }
        i += 1;
    }
    i - from
}

/// Number of leading whitespace characters of `s`.
pub open spec fn indent_of(s: Seq<char>) -> int {
    s.len() - strip_start(s, CharSet::Whitespace).len()
}

proof fn lemma_strip_start_suffix(s: Seq<char>, set: CharSet)
    ensures
        strip_start(s, set).len() <= s.len(),
        strip_start(s, set) == s.skip(s.len() - strip_start(s, set).len()),
    decreases s.len(),
{
    if s.len() > 0 && in_set(set, s[0]) {
        lemma_strip_start_suffix(s.drop_first(), set);
        assert(s.drop_first().skip(s.drop_first().len() - strip_start(s, set).len()) =~= s.skip(
            s.len() - strip_start(s, set).len(),
        ));
    } else {
        assert(s.skip(0) =~= s);
    }
}

/// Index of the first character of `v[from..]` outside the leading
/// whitespace run.
fn skip_ws(v: &[char], from: usize) -> (r: usize)
    requires
        from <= v@.len(),
    ensures
        from <= r <= v@.len(),
        r - from == indent_of(v@.skip(from as int)),
        v@.skip(r as int) == strip_start(v@.skip(from as int), CharSet::Whitespace),
{
    proof {
        assert(v@.subrange(from as int, v@.len() as int) =~= v@.skip(from as int));
    }
    let r = skip_leading(v, from, v.len(), CharSet::Whitespace);
    proof {
        assert(v@.subrange(r as int, v@.len() as int) =~= v@.skip(r as int));
    }
    r
}

/// `#` to `######` then the title (leading blanks dropped).
pub open spec fn heading_spec(s: Seq<char>) -> Option<(nat, Seq<char>)> {
    let h = leading_run(s, '#');
    if 1 <= h <= 6 {
        Some((h, strip_start(s.skip(h as int), CharSet::Whitespace)))
    } else {
        None
    }
}

/// A heading line: its depth and its text.
pub fn markdown_heading(line: &str) -> (r: Option<(usize, &str)>)
    ensures
        match r {
            Some((depth, text)) => heading_spec(line@) == Some((depth as nat, text@)),
            None => heading_spec(line@) is None,
        },
{
    let v = chars_of(line);
    let h = count_leading(&v, 0, '#');
    proof {
        assert(v@.skip(0) =~= v@);
    }
    if h < 1 || h > 6 {
        return None;
    }
    let k = skip_ws(&v, h);
    proof {
        assert(v@.skip(k as int) =~= v@.subrange(k as int, v@.len() as int));
    }
    Some((h, line.substring_char(k, v.len())))
}

/// First index `i >= from` with `c[i] == a` and `c[i + 1] == b`.
pub open spec fn first_pair(c: Seq<char>, from: int, a: char, b: char) -> Option<int>
    decreases c.len() - from,
{
    if from < 0 || from + 1 >= c.len() {
        None
    } else if c[from] == a && c[from + 1] == b {
        Some(from)
    } else {
        first_pair(c, from + 1, a, b)
    }
}

proof fn lemma_first_pair(c: Seq<char>, from: int, a: char, b: char)
    ensures
        first_pair(c, from, a, b) matches Some(k) ==> from <= k && k + 1 < c.len() && c[k] == a
            && c[k + 1] == b,
    decreases c.len() - from,
{
    if from >= 0 && from + 1 < c.len() && !(c[from] == a && c[from + 1] == b) {
        lemma_first_pair(c, from + 1, a, b);
    }
}

fn find_pair(v: &[char], from: usize, a: char, b: char) -> (r: Option<usize>)
    ensures
        match r {
            Some(k) => first_pair(v@, from as int, a, b) == Some(k as int),
            None => first_pair(v@, from as int, a, b) is None,
        },
{
    proof {
        lemma_first_pair(v@, from as int, a, b);
    }
    if v.len() < 2 {
        return None;
    }
    let mut i = from;
    while i < v.len() - 1
        invariant
            from <= i,
            v@.len() >= 2,
            first_pair(v@, i as int, a, b) == first_pair(v@, from as int, a, b),
        decreases v.len() - i,
    {
        if v[i] == a && v[i + 1] == b {
            return Some(i);
        }
        i += 1;
    }
    None
}

/// `N. text` with `N` one or more ASCII digits: the text after `. `.
pub open spec fn numbered_rest(s: Seq<char>) -> Option<Seq<char>> {
    match first_pair(s, 0, '.', ' ') {
        Some(k) => if k > 0 && all_digits(s.take(k)) {
            Some(s.skip(k + 2))
        } else {
            None
        },
        None => None,
    }
}

/// `- `, `* ` or `+ ` bullets, then numbered items.
pub open spec fn list_item_spec(s: Seq<char>) -> Option<Seq<char>> {
    if starts_with(s, "- "@) || starts_with(s, "* "@) || starts_with(s, "+ "@) {
        Some(s.skip(2))
    } else {
        numbered_rest(s)
    }
}

fn all_digits_in(v: &[char], hi: usize) -> (r: bool)
    requires
        hi <= v@.len(),
    ensures
        r == all_digits(v@.take(hi as int)),
{
    let mut i: usize = 0;
    while i < hi
        invariant
            i <= hi <= v@.len(),
            forall|j: int| 0 <= j < i ==> is_ascii_digit(v@[j]),
        decreases hi - i,
    {
        if !('0' <= v[i] && v[i] <= '9') {
            proof {
                assert(!is_ascii_digit(v@.take(hi as int)[i as int]));
            }
            return false;
        }
        i += 1;
    }
    proof {
        assert forall|j: int| 0 <= j < hi implies is_ascii_digit(#[trigger] v@.take(hi as int)[j]) by {
            assert(v@.take(hi as int)[j] == v@[j]);
        }
    }
    true
}

fn numbered_at(v: &[char]) -> (r: Option<usize>)
    ensures
        match r {
            Some(k) => first_pair(v@, 0, '.', ' ') == Some(k as int) && k > 0 && all_digits(
                v@.take(k as int),
            ) && k + 2 <= v@.len(),
            None => numbered_rest(v@) is None,
        },
{
    proof {
        lemma_first_pair(v@, 0, '.', ' ');
    }
    match find_pair(v, 0, '.', ' ') {
        Some(k) => {
            if k > 0 && all_digits_in(v, k) {
                Some(k)
            } else {
                None
            }
        },
        None => None,
    }
}

fn bullet(v: &[char], at: usize) -> (r: bool)
    requires
        at <= v@.len(),
    ensures
        r == (starts_with(v@.skip(at as int), "- "@) || starts_with(v@.skip(at as int), "* "@)
            || starts_with(v@.skip(at as int), "+ "@)),
        r ==> at + 2 <= v@.len(),
{
    let ghost s = v@.skip(at as int);
    proof {
        reveal_strlit("- ");
        reveal_strlit("* ");
        reveal_strlit("+ ");
        assert("- "@ =~= seq!['-', ' ']);
        assert("* "@ =~= seq!['*', ' ']);
        assert("+ "@ =~= seq!['+', ' ']);
    }
    if v.len() - at < 2 {
        return false;
    }
    let r = (v[at] == '-' || v[at] == '*' || v[at] == '+') && v[at + 1] == ' ';
    proof {
        assert(s.take(2) =~= seq![v@[at as int], v@[at + 1]]);
        if !r {
            assert(s.take(2) != "- "@ && s.take(2) != "* "@ && s.take(2) != "+ "@) by {
                if v@[at + 1] != ' ' {
                    assert(s.take(2)[1] != ' ');
                } else {
                    assert(s.take(2)[0] != '-' && s.take(2)[0] != '*' && s.take(2)[0] != '+');
                }
            }
        }
    }
    r
}

/// A list item line: its text after the marker.
pub fn markdown_list_item(line: &str) -> (r: Option<&str>)
    ensures
        match r {
            Some(text) => list_item_spec(line@) == Some(text@),
            None => list_item_spec(line@) is None,
        },
{
    let v = chars_of(line);
    proof {
        assert(v@.skip(0) =~= v@);
    }
    if bullet(&v, 0) {
        proof {
            assert(v@.skip(2) =~= v@.subrange(2, v@.len() as int));
        }
        return Some(line.substring_char(2, v.len()));
    }
    match numbered_at(&v) {
        Some(k) => {
            let n = v.len();
            proof {
                assert(v@.skip(k + 2) =~= v@.subrange(k + 2, v@.len() as int));
            }
            Some(line.substring_char(k + 2, n))
        },
        None => None,
    }
}

/// `- [ ] `, `- [x] `, `- [X] ` (or with `*`) after leading blanks: checked
/// or not, and the text after the marker.
pub open spec fn task_item_spec(s: Seq<char>) -> Option<(bool, Seq<char>)> {
    let t = strip_start(s, CharSet::Whitespace);
    if t.len() >= 6 && (t[0] == '-' || t[0] == '*') && t[1] == ' ' && t[2] == '[' && (t[3] == ' '
        || t[3] == 'x' || t[3] == 'X') && t[4] == ']' && t[5] == ' ' {
        Some((t[3] != ' ', t.skip(6)))
    } else {
        None
    }
}

/// A task list item: whether it is checked, and its text.
pub fn markdown_task_item(line: &str) -> (r: Option<(bool, &str)>)
    ensures
        match r {
            Some((done, text)) => task_item_spec(line@) == Some((done, text@)),
            None => task_item_spec(line@) is None,
        },
{
    let v = chars_of(line);
    let k = skip_ws(&v, 0);
    proof {
        assert(v@.skip(0) =~= v@);
    }
    let n = v.len();
    if n - k >= 6 && (v[k] == '-' || v[k] == '*') && v[k + 1] == ' ' && v[k + 2] == '[' && (v[k
        + 3] == ' ' || v[k + 3] == 'x' || v[k + 3] == 'X') && v[k + 4] == ']' && v[k + 5] == ' ' {
        proof {
            assert(v@.skip(k + 6) =~= v@.subrange(k + 6, n as int));
            assert(v@.skip(k as int).skip(6) =~= v@.skip(k + 6));
        }
        return Some((v[k + 3] != ' ', line.substring_char(k + 6, n)));
    }
    None
}

/// A cell of a table's rule row (`---`, `:--:`).
pub open spec fn is_rule_cell(c: Seq<char>) -> bool {
    c.len() > 0 && forall|i: int| 0 <= i < c.len() ==> #[trigger] c[i] == '-' || c[i] == ':' || c[i] == ' '
}

pub open spec fn trimmed_all(pieces: Seq<Seq<char>>) -> Seq<Seq<char>> {
    pieces.map_values(|p: Seq<char>| trim(p))
}

/// The trimmed cells between the outer pipes.
pub open spec fn table_cells(t: Seq<char>) -> Seq<Seq<char>> {
    trimmed_all(split_char(strip_end(strip_start(t, CharSet::Pipe), CharSet::Pipe), '|'))
}

/// `| a | b |` rows: their trimmed cells; a rule row gives no cells.
pub open spec fn table_row_spec(s: Seq<char>) -> Option<Seq<Seq<char>>> {
    let t = trim(s);
    if !(t.len() > 0 && t[0] == '|' && t.last() == '|') {
        None
    } else if forall|i: int| 0 <= i < table_cells(t).len() ==> #[trigger] is_rule_cell(table_cells(t)[i]) {
        Some(Seq::empty())
    } else {
        Some(table_cells(t))
    }
}

/// The pieces of `v[lo..hi]` between `sep` characters, each trimmed.
fn split_trimmed(v: &[char], lo: usize, hi: usize, sep: char) -> (r: Vec<String>)
    requires
        lo <= hi <= v@.len(),
    ensures
        r.deep_view() == trimmed_all(split_char(v@.subrange(lo as int, hi as int), sep)),
{
    let ghost u = v@.subrange(lo as int, hi as int);
    let ghost mut raw: Seq<Seq<char>> = Seq::empty();
    let mut done: Vec<String> = Vec::new();
    let mut st = lo;
    let mut i = lo;
    proof {
        assert(u.take(0) =~= Seq::<char>::empty());
        assert(raw.push(u.subrange(0, 0)) =~= seq![Seq::<char>::empty()]);
    }
    while i < hi
        invariant
            lo <= st <= i <= hi <= v@.len(),
            u == v@.subrange(lo as int, hi as int),
            split_char(u.take(i - lo), sep) == raw.push(u.subrange(st - lo, i - lo)),
            done.deep_view() == trimmed_all(raw),
        decreases hi - i,
    {
        proof {
            assert(u.take(i - lo + 1).drop_last() =~= u.take(i - lo));
            assert(u.take(i - lo + 1).last() == v@[i as int]);
        }
        if v[i] == sep {
            let piece = trim_chars(&slice_vec(v, st, i));
            let ghost cur = u.subrange(st - lo, i - lo);
            let ghost old_raw = raw;
            push_string(&mut done, string_of(&piece));
            proof {
                assert(cur =~= v@.subrange(st as int, i as int));
                raw = raw.push(cur);
                assert(trimmed_all(raw) =~= trimmed_all(old_raw).push(trim(cur)));
                assert(done.deep_view() =~= trimmed_all(raw));
                assert(u.subrange(i + 1 - lo, i + 1 - lo) =~= Seq::<char>::empty());
                assert(split_char(u.take(i - lo + 1), sep) =~= raw.push(u.subrange(i + 1 - lo, i + 1 - lo)));
            }
            st = i + 1;
        } else {
            proof {
                assert(u[i - lo] == v@[i as int]);
                assert(u.subrange(st - lo, i - lo).push(v@[i as int]) =~= u.subrange(st - lo, i + 1 - lo));
                let prev = raw.push(u.subrange(st - lo, i - lo));
                assert(prev.update(prev.len() - 1, prev.last().push(v@[i as int])) =~= raw.push(
                    u.subrange(st - lo, i + 1 - lo),
                ));
            }
        }
        i += 1;
    }
    let piece = trim_chars(&slice_vec(v, st, hi));
    push_string(&mut done, string_of(&piece));
    proof {
        assert(u.take(hi - lo) =~= u);
        assert(u.subrange(st - lo, hi - lo) =~= v@.subrange(st as int, hi as int));
        assert(trimmed_all(raw.push(u.subrange(st - lo, hi - lo))) =~= trimmed_all(raw).push(
            trim(u.subrange(st - lo, hi - lo)),
        ));
        assert(done.deep_view() =~= trimmed_all(raw.push(u.subrange(st - lo, hi - lo))));
    }
    done
}

fn rule_cell(c: &str) -> (r: bool)
    ensures
        r == is_rule_cell(c@),
{
    let v = chars_of(c);
    if v.len() == 0 {
        return false;
    }
    let mut i: usize = 0;
    while i < v.len()
        invariant
            i <= v@.len(),
            v@ == c@,
            forall|j: int| 0 <= j < i ==> #[trigger] v@[j] == '-' || v@[j] == ':' || v@[j] == ' ',
        decreases v.len() - i,
    {
        if !(v[i] == '-' || v[i] == ':' || v[i] == ' ') {
            return false;
        }
        i += 1;
    }
    true
}

/// A table row: its trimmed cells, or no cells for the `|---|---|` rule.
pub fn markdown_table_row(line: &str) -> (r: Option<Vec<String>>)
    ensures
        match r {
            Some(cells) => table_row_spec(line@) == Some(cells.deep_view()),
            None => table_row_spec(line@) is None,
        },
{
    let t = trim_chars(&chars_of(line));
    let n = t.len();
    if n == 0 || t[0] != '|' || t[n - 1] != '|' {
        return None;
    }
    proof {
        assert(t@.subrange(0, n as int) =~= t@);
    }
    let lo = skip_leading(&t, 0, n, CharSet::Pipe);
    let hi = drop_trailing(&t, lo, n, CharSet::Pipe);
    proof {
        assert(t@.subrange(lo as int, n as int) =~= strip_start(t@, CharSet::Pipe));
        assert(t@.subrange(lo as int, hi as int) =~= strip_end(strip_start(t@, CharSet::Pipe), CharSet::Pipe));
    }
    let cells = split_trimmed(&t, lo, hi, '|');
    let ghost cv = cells.deep_view();
    let mut k: usize = 0;
    while k < cells.len()
        invariant
            k <= cells@.len(),
            t@ == trim(line@),
            t@.len() > 0 && t@[0] == '|' && t@.last() == '|',
            cv == cells.deep_view(),
            cv == table_cells(t@),
            forall|j: int| 0 <= j < k ==> #[trigger] is_rule_cell(cv[j]),
        decreases cells.len() - k,
    {
        if !rule_cell(cells[k].as_str()) {
            proof {
                assert(!is_rule_cell(cv[k as int]));
                assert(t@ == trim(line@));
                assert(!(forall|i: int|
                    0 <= i < table_cells(t@).len() ==> #[trigger] is_rule_cell(table_cells(t@)[i])));
            }
            return Some(cells);
        }
        k += 1;
    }
    Some(Vec::new())
}

/// Whether `u8::is_ascii_whitespace` holds of `c`'s byte (for an ASCII `c`).
pub open spec fn ascii_blank(c: char) -> bool {
    c == ' ' || c == '\t' || c == '\n' || c == '\x0C' || c == '\r'
}

/// End of a heading marker (hashes, then at least one blank) at `indent`.
pub open spec fn heading_end(s: Seq<char>, indent: int) -> Option<int> {
    let content = s.skip(indent);
    let h = leading_run(content, '#') as int;
    let sp = indent_of(content.skip(h));
    if 1 <= h <= 6 && sp > 0 {
        Some(indent + h + sp)
    } else {
        None
    }
}

/// End of a `-`, `*` or `+` bullet and the blanks after it, at `indent`.
pub open spec fn bullet_end(s: Seq<char>, indent: int) -> Option<int> {
    let content = s.skip(indent);
    if content.len() >= 2 && (content[0] == '-' || content[0] == '*' || content[0] == '+')
        && ascii_blank(content[1]) {
        Some(indent + 1 + indent_of(content.skip(1)))
    } else {
        None
    }
}

/// End of an `N. ` marker at `indent`.
pub open spec fn number_end(s: Seq<char>, indent: int) -> Option<int> {
    let content = s.skip(indent);
    if numbered_rest(content) is Some {
        Some(indent + first_pair(content, 0, '.', ' ')->0 + 2)
    } else {
        None
    }
}

/// Where the Markdown marker of a line ends (heading hashes and the blanks
/// after them, `> `, a bullet and its blanks, or `N. `), if it has one.
pub open spec fn marker_end(s: Seq<char>) -> Option<int> {
    let indent = indent_of(s);
    if heading_end(s, indent) is Some {
        heading_end(s, indent)
    } else if starts_with(s.skip(indent), "> "@) {
        Some(indent + 2)
    } else if bullet_end(s, indent) is Some {
        bullet_end(s, indent)
    } else {
        number_end(s, indent)
    }
}

/// Marker, editable text and trailing part of a preview line.
pub open spec fn edit_parts_spec(s: Seq<char>, in_code: bool) -> (Seq<char>, Seq<char>, Seq<char>) {
    let e = Seq::<char>::empty();
    if in_code || trim(s).len() == 0 {
        (e, s, e)
    } else {
        match marker_end(s) {
            Some(m) => (s.take(m), s.skip(m), e),
            None => (e, s, e),
        }
    }
}

fn heading_marker(v: &[char], indent: usize) -> (r: Option<usize>)
    requires
        indent <= v@.len(),
    ensures
        match r {
            Some(e) => heading_end(v@, indent as int) == Some(e as int) && e <= v@.len(),
            None => heading_end(v@, indent as int) is None,
        },
{
    let n = v.len();
    let h = count_leading(v, indent, '#');
    proof {
        assert(v@.skip(indent as int).skip(h as int) =~= v@.skip(indent + h));
    }
    if 1 <= h && h <= 6 {
        let after = skip_ws(v, indent + h);
        if after > indent + h {
            return Some(after);
        }
    }
    None
}

fn quote_marker(v: &[char], indent: usize) -> (r: bool)
    requires
        indent <= v@.len(),
    ensures
        r == starts_with(v@.skip(indent as int), "> "@),
        r ==> indent + 2 <= v@.len(),
{
    let ghost content = v@.skip(indent as int);
    proof {
        reveal_strlit("> ");
        assert("> "@ =~= seq!['>', ' ']);
    }
    if v.len() - indent < 2 {
        return false;
    }
    let r = v[indent] == '>' && v[indent + 1] == ' ';
    proof {
        assert(content.take(2) =~= seq![v@[indent as int], v@[indent + 1]]);
        if !r {
            assert(content.take(2) != "> "@) by {
                if v@[indent as int] != '>' {
                    assert(content.take(2)[0] != "> "@[0]);
                } else {
                    assert(content.take(2)[1] != "> "@[1]);
                }
            }
        }
    }
    r
}

fn bullet_marker(v: &[char], indent: usize) -> (r: Option<usize>)
    requires
        indent <= v@.len(),
    ensures
        match r {
            Some(e) => bullet_end(v@, indent as int) == Some(e as int) && e <= v@.len(),
            None => bullet_end(v@, indent as int) is None,
        },
{
    let n = v.len();
    if n - indent >= 2 && (v[indent] == '-' || v[indent] == '*' || v[indent] == '+') && (v[indent
        + 1] == ' ' || v[indent + 1] == '\t' || v[indent + 1] == '\n' || v[indent + 1] == '\x0C'
        || v[indent + 1] == '\r') {
        let after = skip_ws(v, indent + 1);
        proof {
            assert(v@.skip(indent as int).skip(1) =~= v@.skip(indent + 1));
        }
        return Some(after);
    }
    None
}

fn find_marker_end(v: &[char]) -> (r: Option<usize>)
    ensures
        match r {
            Some(e) => marker_end(v@) == Some(e as int) && e <= v@.len(),
            None => marker_end(v@) is None,
        },
{
    let n = v.len();
    let indent = skip_ws(v, 0);
    proof {
        assert(v@.skip(0) =~= v@);
    }
    if let Some(e) = heading_marker(v, indent) {
        return Some(e);
    }
    if quote_marker(v, indent) {
        return Some(indent + 2);
    }
    if let Some(e) = bullet_marker(v, indent) {
        return Some(e);
    }
    number_marker(v, indent)
}

fn number_marker(v: &[char], indent: usize) -> (r: Option<usize>)
    requires
        indent <= v@.len(),
    ensures
        match r {
            Some(e) => number_end(v@, indent as int) == Some(e as int) && e <= v@.len(),
            None => number_end(v@, indent as int) is None,
        },
{
    let n = v.len();
    let rest = slice_vec(v, indent, n);
    proof {
        assert(rest@ =~= v@.skip(indent as int));
    }
    match numbered_at(&rest) {
        Some(k) => Some(indent + k + 2),
        None => None,
    }
}

/// Split a preview line into its Markdown marker (heading hashes, quote,
/// bullet or number), the text the inline editor shows, and a trailing part.
/// Code blocks and blank lines are edited whole.
pub fn markdown_edit_parts(line: &str, in_code: bool) -> (r: Option<(String, String, String)>)
    ensures
        r matches Some((p, c, s)) && (p@, c@, s@) == edit_parts_spec(line@, in_code),
{
    let v = chars_of(line);
    let n = v.len();
    if in_code || trim_chars(&v).len() == 0 {
        proof {
            assert(v@.subrange(0, n as int) =~= v@);
        }
        return Some((String::new(), string_of(&v), String::new()));
    }
    match find_marker_end(&v) {
        Some(e) => {
            proof {
                assert(v@.take(e as int) =~= v@.subrange(0, e as int));
                assert(v@.skip(e as int) =~= v@.subrange(e as int, n as int));
            }
            Some((string_of(&slice_vec(&v, 0, e)), string_of(&slice_vec(&v, e, n)), String::new()))
        },
        None => Some((String::new(), string_of(&v), String::new())),
    }
}

/// `str::split_inclusive('\n')`: the lines, each with its `\n` except
/// possibly the last; no lines for an empty text.
pub open spec fn split_lines(s: Seq<char>) -> Seq<Seq<char>>
    decreases s.len(),
{
    if s.len() == 0 {
        Seq::empty()
    } else {
        match find(s, '\n') {
            None => seq![s],
            Some(i) => {
                proof {
                    lemma_find_spec(s, '\n');
                }
                seq![s.take(i + 1)] + split_lines(s.skip(i + 1))
            },
        }
    }
}

/// The `\r`/`\n` run that ends a line.
pub open spec fn line_ending(l: Seq<char>) -> Seq<char> {
    l.skip(strip_end(l, CharSet::LineEnd).len() as int)
}

/// `source` with line `index` (counted as `split_inclusive` counts them; an
/// empty text has one empty line) replaced by `prefix + content + suffix`
/// and the line's own ending. An index past the end leaves `source` as is.
pub open spec fn replace_line_spec(
    source: Seq<char>,
    index: int,
    prefix: Seq<char>,
    content: Seq<char>,
    suffix: Seq<char>,
) -> Seq<char> {
    let lines = if source.len() == 0 {
        seq![Seq::<char>::empty()]
    } else {
        split_lines(source)
    };
    if index < 0 || index >= lines.len() {
        source
    } else {
        lines.take(index).flatten() + prefix + content + suffix + line_ending(lines[index])
            + lines.skip(index + 1).flatten()
    }
}

proof fn lemma_split_lines_flatten(t: Seq<char>)
    ensures
        split_lines(t).flatten() == t,
    decreases t.len(),
{
    if t.len() > 0 {
        lemma_find_spec(t, '\n');
        match find(t, '\n') {
            None => {
                seq![t].lemma_flatten_singleton();
            },
            Some(i) => {
                let rest = split_lines(t.skip(i + 1));
                lemma_split_lines_flatten(t.skip(i + 1));
                assert((seq![t.take(i + 1)] + rest).drop_first() =~= rest);
                assert((seq![t.take(i + 1)] + rest).first() == t.take(i + 1));
                assert(t.take(i + 1) + t.skip(i + 1) =~= t);
            },
        }
    }
}

proof fn lemma_strip_end_prefix(s: Seq<char>, set: CharSet)
    ensures
        strip_end(s, set).len() <= s.len(),
        strip_end(s, set) == s.take(strip_end(s, set).len() as int),
    decreases s.len(),
{
    if s.len() > 0 && in_set(set, s.last()) {
        lemma_strip_end_prefix(s.drop_last(), set);
        assert(s.drop_last().take(strip_end(s, set).len() as int) =~= s.take(
            strip_end(s, set).len() as int,
        ));
    } else {
        assert(s.take(s.len() as int) =~= s);
    }
}

pub proof fn lemma_lines_step(s: Seq<char>, start: int, k: int)
    requires
        0 <= start < s.len(),
        find(s.skip(start), '\n') == Some(k),
    ensures
        start + k + 1 <= s.len(),
        split_lines(s.skip(start)) == seq![s.subrange(start, start + k + 1)] + split_lines(
            s.skip(start + k + 1),
        ),
{
    let t = s.skip(start);
    lemma_find_spec(t, '\n');
    assert(t.take(k + 1) =~= s.subrange(start, start + k + 1));
    assert(t.skip(k + 1) =~= s.skip(start + k + 1));
}

pub proof fn lemma_lines_last(s: Seq<char>, start: int)
    requires
        0 <= start < s.len(),
        find(s.skip(start), '\n') is None,
    ensures
        split_lines(s.skip(start)) == seq![s.subrange(start, s.len() as int)],
{
    assert(s.skip(start) =~= s.subrange(start, s.len() as int));
}

/// The lines of `s` from `start` on: the first runs to `end`.
proof fn lemma_lines_at(s: Seq<char>, lines: Seq<Seq<char>>, start: int, end: int, j: int)
    requires
        0 <= start < end <= s.len(),
        0 <= j,
        lines.take(j).flatten() == s.take(start),
        lines.skip(j) == split_lines(s.skip(start)),
        lines.len() == j + split_lines(s.skip(start)).len(),
        split_lines(s.skip(start)) == seq![s.subrange(start, end)] + split_lines(s.skip(end)),
    ensures
        j < lines.len(),
        lines[j] == s.subrange(start, end),
        lines.take(j + 1).flatten() == s.take(end),
        lines.skip(j + 1) == split_lines(s.skip(end)),
        lines.len() == j + 1 + split_lines(s.skip(end)).len(),
{
    let piece = s.subrange(start, end);
    assert(lines.skip(j)[0] == piece);
    assert(lines[j] == piece);
    assert(lines.skip(j + 1) =~= lines.skip(j).drop_first());
    assert((seq![piece] + split_lines(s.skip(end))).drop_first() =~= split_lines(s.skip(end)));
    assert(lines.take(j + 1) =~= lines.take(j).push(piece));
    lines.take(j).lemma_flatten_push(piece);
    assert(s.take(start) + piece =~= s.take(end));
}

/// Replace one line of `source` with `prefix + content + suffix`, keeping
/// that line's `\n` or `\r\n`.
pub fn replace_markdown_line(
    source: &str,
    line_index: usize,
    prefix: &str,
    content: &str,
    suffix: &str,
) -> (r: String)
    ensures
        r@ == replace_line_spec(source@, line_index as int, prefix@, content@, suffix@),
{
    let v = chars_of(source);
    let n = v.len();
    let middle = concat(&concat(&chars_of(prefix), &chars_of(content)), &chars_of(suffix));
    if n == 0 {
        if line_index == 0 {
            proof {
                let lines = seq![Seq::<char>::empty()];
                assert(lines.take(0) =~= Seq::<Seq<char>>::empty());
                assert(lines.skip(1) =~= Seq::<Seq<char>>::empty());
                assert(line_ending(Seq::<char>::empty()) =~= Seq::<char>::empty());
                assert(middle@ =~= replace_line_spec(source@, 0, prefix@, content@, suffix@));
            }
            return string_of(&middle);
        }
        return string_of(&v);
    }
    let ghost lines = split_lines(v@);
    let mut start: usize = 0;
    let mut j: usize = 0;
    proof {
        assert(lines.take(0) =~= Seq::<Seq<char>>::empty());
        assert(v@.take(0) =~= Seq::<char>::empty());
        assert(lines.skip(0) =~= lines);
        assert(v@.skip(0) =~= v@);
    }
    while j < line_index
        invariant
            v@ == source@,
            n == v@.len(),
            0 < n,
            lines == split_lines(v@),
            start < n,
            j <= line_index,
            lines.take(j as int).flatten() == v@.take(start as int),
            lines.skip(j as int) == split_lines(v@.skip(start as int)),
            lines.len() == j + split_lines(v@.skip(start as int)).len(),
        decreases line_index - j,
    {
        match find_from(&v, start, '\n') {
            Some(k) => {
                let next = start + k + 1;
                proof {
                    lemma_lines_step(v@, start as int, k as int);
                    lemma_lines_at(v@, lines, start as int, next as int, j as int);
                }
                if next == n {
                    proof {
                        assert(v@.skip(next as int) =~= Seq::<char>::empty());
                    }
                    return string_of(&v);
                }
                start = next;
                j += 1;
            },
            None => {
                proof {
                    lemma_lines_last(v@, start as int);
                }
                return string_of(&v);
            },
        }
    }
    let end = match find_from(&v, start, '\n') {
        Some(k) => {
            proof {
                lemma_lines_step(v@, start as int, k as int);
            }
            start + k + 1
        },
        None => {
            proof {
                lemma_lines_last(v@, start as int);
                assert(v@.skip(n as int) =~= Seq::<char>::empty());
                assert(seq![v@.subrange(start as int, n as int)] =~= seq![v@.subrange(start as int, n as int)] + split_lines(v@.skip(n as int)));
            }
            n
        },
    };
    proof {
        lemma_lines_at(v@, lines, start as int, end as int, line_index as int);
        lemma_split_lines_flatten(v@.skip(end as int));
    }
    let body_end = drop_trailing(&v, start, end, CharSet::LineEnd);
    proof {
        let line = v@.subrange(start as int, end as int);
        lemma_strip_end_prefix(line, CharSet::LineEnd);
        assert(line_ending(line) =~= v@.subrange(body_end as int, end as int));
    }
    let head = slice_vec(&v, 0, start);
    let out = concat(&head, &middle);
    let out = concat(&out, &slice_vec(&v, body_end, end));
    let out = concat(&out, &slice_vec(&v, end, n));
    proof {
        assert(head@ =~= v@.take(start as int));
        assert(v@.subrange(end as int, n as int) =~= v@.skip(end as int));
        assert(out@ =~= replace_line_spec(source@, line_index as int, prefix@, content@, suffix@));
    }
    string_of(&out)
}

proof fn lemma_indent_bound(s: Seq<char>)
    ensures
        0 <= indent_of(s) <= s.len(),
        s.skip(indent_of(s)) == strip_start(s, CharSet::Whitespace),
{
    lemma_strip_start_suffix(s, CharSet::Whitespace);
}

proof fn lemma_marker_end_bound(s: Seq<char>)
    ensures
        marker_end(s) matches Some(m) ==> 0 <= m <= s.len(),
{
    let indent = indent_of(s);
    lemma_indent_bound(s);
    let content = s.skip(indent);
    let h = leading_run(content, '#') as int;
    lemma_leading_run(content, '#');
    lemma_indent_bound(content.skip(h));
    if content.len() >= 1 {
        lemma_indent_bound(content.skip(1));
    }
    lemma_first_pair(content, 0, '.', ' ');
    reveal_strlit("> ");
    assert(content.len() == s.len() - indent);
}

/// An edited preview line falls apart into marker, text and trailer that
/// put back together give the line itself.
pub proof fn edit_parts_reassemble(line: Seq<char>, in_code: bool)
    ensures
        ({
            let (p, c, t) = edit_parts_spec(line, in_code);
            p + c + t == line
        }),
{
    lemma_marker_end_bound(line);
    let (p, c, t) = edit_parts_spec(line, in_code);
    if !(in_code || trim(line).len() == 0) {
        if let Some(m) = marker_end(line) {
            assert(line.take(m) + line.skip(m) =~= line);
        }
    }
    assert(p + c + t =~= line);
}

/// Writing a line back with its own text (without its line ending) leaves
/// the whole text unchanged: every other line, and the line's `\n` or
/// `\r\n`, are kept.
pub proof fn replace_line_with_itself(source: Seq<char>, index: int, prefix: Seq<char>, content: Seq<char>, suffix: Seq<char>)
    requires
        0 <= index < split_lines(source).len(),
        prefix + content + suffix == strip_end(split_lines(source)[index], CharSet::LineEnd),
    ensures
        replace_line_spec(source, index, prefix, content, suffix) == source,
{
    let lines = split_lines(source);
    let line = lines[index];
    lemma_strip_end_prefix(line, CharSet::LineEnd);
    assert(strip_end(line, CharSet::LineEnd) + line_ending(line) =~= line);
    lemma_split_lines_flatten(source);
    assert(lines =~= lines.take(index) + seq![line] + lines.skip(index + 1));
    vstd::seq_lib::lemma_flatten_concat(lines.take(index) + seq![line], lines.skip(index + 1));
    vstd::seq_lib::lemma_flatten_concat(lines.take(index), seq![line]);
    seq![line].lemma_flatten_singleton();
    assert(source.len() > 0) by {
        if source.len() == 0 {
            assert(lines.len() == 0);
        }
    }
    assert(replace_line_spec(source, index, prefix, content, suffix) =~= lines.take(index).flatten()
        + (prefix + content + suffix + line_ending(line)) + lines.skip(index + 1).flatten());
}


/// A heading's depth is exactly the number of `#` the line opens with,
/// from one to six; a line opening with no `#` or more than six is no
/// heading.
pub proof fn heading_depth_is_the_hash_count(line: Seq<char>, h: int)
    requires
        0 <= h <= line.len(),
        forall|j: int| 0 <= j < h ==> line[j] == '#',
        h == line.len() || line[h] != '#',
    ensures
        1 <= h <= 6 ==> heading_spec(line) == Some((h as nat, strip_start(line.skip(h), CharSet::Whitespace))),
        !(1 <= h <= 6) ==> heading_spec(line) is None,
        heading_spec(line) matches Some((d, _)) ==> d == h,
{
    lemma_leading_run(line, '#');
    let r = leading_run(line, '#') as int;
    if r < h {
        assert(line[r] == '#');
    }
    if r > h {
        assert(line[h] == '#');
    }
    assert(r == h);
}
} // verus!
