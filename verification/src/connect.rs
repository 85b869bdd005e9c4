//! Host connect strings (WebSocket URL, the daemon's printed access URL, a
//! token), the Go to File `path[:line[:col]]` syntax, and the workspace the
//! window attaches to first.

use vstd::prelude::*;
use vstd::string::*;

use crate::escapes::{percent_decode, percent_decoded};
use crate::text::{
    all_digits, all_digits_chars, decimal, digit_char, digits_value, is_ascii_digit, is_ws, strip_start,
    chars_of, concat, contains_chars, contains_seq, ends_with,
    ends_with_chars, eq_chars, find, find_char, lemma_rfind_spec, lower_ascii, lower_chars,
    parse_u32, parse_u32_chars, replace_char, replace_chars, rfind, rfind_char, slice_vec,
    split_char, starts_with, starts_with_chars, string_of, strip_end, strip_end_chars, trim,
    trim_chars, trim_str, CharSet,
};

verus! {

/// Where the window connects.
#[derive(Debug, Clone, PartialEq, Eq)]
pub struct ConnectTarget {
    pub ws_url: String,
    pub token: Option<String>,
    /// Shown in the title bar (SSH destination). The WebSocket URL stays local.
    pub label: Option<String>,
    /// Absolute project directory to focus or create after connect.
    pub preferred_root: Option<String>,
}

/// Token carried by one `key=value` query pair.
pub open spec fn pair_token(pair: Seq<char>) -> Option<Seq<char>> {
    if starts_with(pair, "token="@) {
        let value = pair.skip(6);
        let value = match find(value, '#') {
            Some(i) => value.take(i),
            None => value,
        };
        if value.len() > 0 {
            Some(percent_decoded(value))
        } else {
            None
        }
    } else {
        None
    }
}

/// The last `token=` pair with a value wins.
pub open spec fn pairs_token(pairs: Seq<Seq<char>>) -> Option<Seq<char>>
    decreases pairs.len(),
{
    if pairs.len() == 0 {
        None
    } else {
        match pair_token(pairs.last()) {
            Some(t) => Some(t),
            None => pairs_token(pairs.drop_last()),
        }
    }
}

/// Split `input` at its first `?` into the base and the query token.
pub open spec fn split_query(input: Seq<char>) -> (Seq<char>, Option<Seq<char>>) {
    match find(input, '?') {
        None => (input, None),
        Some(i) => (input.take(i), pairs_token(split_char(input.skip(i + 1), '&'))),
    }
}

pub open spec fn ws_from_http_spec(scheme: Seq<char>, rest: Seq<char>) -> Seq<char> {
    let host = strip_end(rest, CharSet::Slash);
    if ends_with(host, "/ws"@) {
        scheme + host
    } else {
        scheme + host + "/ws"@
    }
}

/// WebSocket URL for a connect base (no query).
pub open spec fn to_ws_url_spec(base0: Seq<char>) -> Seq<char> {
    let base = strip_end(base0, CharSet::Slash);
    if starts_with(base, "ws://"@) || starts_with(base, "wss://"@) {
        if ends_with(base, "/ws"@) {
            base
        } else {
            base + "/ws"@
        }
    } else if starts_with(base, "http://"@) {
        ws_from_http_spec("ws://"@, base.skip(7))
    } else if starts_with(base, "https://"@) {
        ws_from_http_spec("wss://"@, base.skip(8))
    } else if contains_seq(base, "://"@) {
        base
    } else {
        "ws://"@ + base + "/ws"@
    }
}

/// The WebSocket URL of a `--backend` value: its query dropped.
pub open spec fn connect_url_spec(backend: Seq<char>) -> Seq<char> {
    to_ws_url_spec(split_query(trim(backend)).0)
}

/// The token of a connection: `--token` when given, else the `token` of the
/// backend's query.
pub open spec fn connect_token_spec(backend: Seq<char>, cli_token: Option<Seq<char>>) -> Option<Seq<char>> {
    match cli_token {
        Some(tok) => Some(tok),
        None => split_query(trim(backend)).1,
    }
}

/// `--token` wins over a `?token=` in the backend, and the URL is the same
/// whichever token is used: the query is dropped from it either way.
pub proof fn cli_token_wins_over_query(backend: Seq<char>, tok: Seq<char>)
    ensures
        connect_token_spec(backend, Some(tok)) == Some(tok),
        connect_url_spec(backend) == to_ws_url_spec(split_query(trim(backend)).0),
        split_query(trim(backend)).1 is Some ==> connect_token_spec(backend, None)
            == split_query(trim(backend)).1,
{
}

/// Turn a CLI `--backend` plus optional `--token` into a WebSocket URL.
///
/// Accepts `ws://…/ws`, `http://127.0.0.1:7420/?token=…` (the daemon banner
/// URL), or `host:port`. Query `token` fills in when `--token` is omitted.
pub fn parse_connect_target(backend: &str, cli_token: Option<String>) -> (t: ConnectTarget)
    ensures
        t.ws_url@ == connect_url_spec(backend@),
        t.token.deep_view() == connect_token_spec(backend@, cli_token.deep_view()),
        t.label is None,
        t.preferred_root is None,
{
    let trimmed = trim_str(backend);
    let (base, query_token) = split_query_token(&trimmed);
    let token = match cli_token {
        Some(tok) => Some(tok),
        None => query_token,
    };
    let ws_url = to_ws_url(&base);
    ConnectTarget { ws_url, token, label: None, preferred_root: None }
}

impl ConnectTarget {
    /// Title-bar text. SSH sessions show the destination next to the tunnel URL.
    pub fn chrome_label(&self) -> (r: String)
        ensures
            r@ == match self.label {
                Some(l) => if l@.len() > 0 {
                    l@ + "  "@ + self.ws_url@
                } else {
                    self.ws_url@
                },
                None => self.ws_url@,
            },
    {
        match &self.label {
            Some(label) => {
                let l = chars_of(label.as_str());
                if l.len() > 0 {
                    let gap = chars_of("  ");
                    let url = chars_of(self.ws_url.as_str());
                    let r = concat(&concat(&l, &gap), &url);
                    string_of(&r)
                } else {
                    self.ws_url.clone()
                }
            },
            None => self.ws_url.clone(),
        }
    }
}

/// Split at the first `?`; the query's `token` (percent-decoded) is returned.
pub fn split_query_token(input: &[char]) -> (r: (Vec<char>, Option<String>))
    ensures
        r.0@ == split_query(input@).0,
        r.1.deep_view() == split_query(input@).1,
{
    match find_char(input, '?') {
        None => (slice_vec(input, 0, input.len()), None),
        Some(q) => {
            proof {
                assert(input@.subrange(0, input@.len() as int) =~= input@);
            }
            let n = input.len();
            let base = slice_vec(input, 0, q);
            let query = slice_vec(input, q + 1, n);
            proof {
                assert(base@ =~= input@.take(q as int));
                assert(query@ =~= input@.skip(q + 1));
            }
            let token = query_token(&query);
            (base, token)
        },
    }
}

/// Token named by one query pair `q[lo..hi]`.
fn pair_token_of(q: &[char], lo: usize, hi: usize) -> (r: Option<String>)
    requires
        lo <= hi <= q@.len(),
    ensures
        r.deep_view() == pair_token(q@.subrange(lo as int, hi as int)),
{
    let pair = slice_vec(q, lo, hi);
    let key = chars_of("token=");
    proof {
        reveal_strlit("token=");
    }
    if !starts_with_chars(&pair, &key) {
        return None;
    }
    let value = slice_vec(&pair, 6, pair.len());
    proof {
        assert(value@ =~= pair@.skip(6));
    }
    let end = match find_char(&value, '#') {
        Some(i) => i,
        None => value.len(),
    };
    let v = slice_vec(&value, 0, end);
    proof {
        match find(value@, '#') {
            Some(i) => assert(v@ =~= value@.take(i)),
            None => assert(v@ =~= value@),
        }
    }
    if v.len() == 0 {
        return None;
    }
    let s = string_of(&v);
    let decoded = percent_decode(s.as_str());
    Some(string_of(&decoded))
}

/// The query token of `q` (the text after `?`).
fn query_token(q: &[char]) -> (r: Option<String>)
    ensures
        r.deep_view() == pairs_token(split_char(q@, '&')),
{
    let mut token: Option<String> = None;
    let mut start: usize = 0;
    let mut i: usize = 0;
    let ghost mut done: Seq<Seq<char>> = Seq::empty();
    proof {
        assert(q@.take(0) =~= Seq::<char>::empty());
        assert(q@.subrange(0, 0) =~= Seq::<char>::empty());
        assert(split_char(Seq::<char>::empty(), '&') =~= done.push(Seq::<char>::empty()));
    }
    while i < q.len()
        invariant
            start <= i <= q@.len(),
            split_char(q@.take(i as int), '&') == done.push(q@.subrange(start as int, i as int)),
            token.deep_view() == pairs_token(done),
        decreases q.len() - i,
    {
        let ghost t = q@.take(i + 1);
        proof {
            assert(t.drop_last() =~= q@.take(i as int));
            assert(t.last() == q@[i as int]);
        }
        if q[i] == '&' {
            let here = pair_token_of(q, start, i);
            proof {
                let piece = q@.subrange(start as int, i as int);
                assert(split_char(t, '&') =~= done.push(piece).push(Seq::<char>::empty()));
                assert(q@.subrange(i + 1, i + 1) =~= Seq::<char>::empty());
                assert(done.push(piece).drop_last() =~= done);
                assert(done.push(piece).last() == piece);
                done = done.push(piece);
            }
            if here.is_some() {
                token = here;
            }
            start = i + 1;
        } else {
            proof {
                let piece = q@.subrange(start as int, i as int);
                assert(piece.push(q@[i as int]) =~= q@.subrange(start as int, i + 1));
                assert(done.push(piece).update(done.len() as int, piece.push(q@[i as int]))
                    =~= done.push(q@.subrange(start as int, i + 1)));
            }
        }
        i += 1;
    }
    proof {
        assert(q@.take(q.len() as int) =~= q@);
    }
    let last = pair_token_of(q, start, q.len());
    proof {
        let piece = q@.subrange(start as int, q.len() as int);
        assert(done.push(piece).drop_last() =~= done);
        assert(done.push(piece).last() == piece);
    }
    if last.is_some() {
        last
    } else {
        token
    }
}

fn ws_from_http(scheme: &str, rest: &[char]) -> (r: Vec<char>)
    ensures
        r@ == ws_from_http_spec(scheme@, rest@),
{
    let host = strip_end_chars(rest, CharSet::Slash);
    let s = chars_of(scheme);
    let suffix = chars_of("/ws");
    if ends_with_chars(&host, &suffix) {
        concat(&s, &host)
    } else {
        concat(&concat(&s, &host), &suffix)
    }
}

fn to_ws_url(base0: &[char]) -> (r: String)
    ensures
        r@ == to_ws_url_spec(base0@),
{
    let base = strip_end_chars(base0, CharSet::Slash);
    let ws = chars_of("ws://");
    let wss = chars_of("wss://");
    let http = chars_of("http://");
    let https = chars_of("https://");
    let sep = chars_of("://");
    let suffix = chars_of("/ws");
    proof {
        reveal_strlit("http://");
        reveal_strlit("https://");
    }
    let r = if starts_with_chars(&base, &ws) || starts_with_chars(&base, &wss) {
        if ends_with_chars(&base, &suffix) {
            base
        } else {
            concat(&base, &suffix)
        }
    } else if starts_with_chars(&base, &http) {
        let rest = slice_vec(&base, 7, base.len());
        proof {
            assert(rest@ =~= base@.skip(7));
        }
        ws_from_http("ws://", &rest)
    } else if starts_with_chars(&base, &https) {
        let rest = slice_vec(&base, 8, base.len());
        proof {
            assert(rest@ =~= base@.skip(8));
        }
        ws_from_http("wss://", &rest)
    } else if contains_chars(&base, &sep) {
        base
    } else {
        concat(&concat(&ws, &base), &suffix)
    };
    string_of(&r)
}

/// `path[:line[:col]]`: the path and the parsed numbers.
pub open spec fn goto_spec(query: Seq<char>) -> (Seq<char>, Option<u32>, Option<u32>) {
    let q = trim(query);
    if q.len() == 0 {
        (Seq::empty(), None, None)
    } else {
        match rfind(q, ':') {
            None => (q, None, None),
            Some(i1) => {
                let part1 = q.subrange(i1 + 1, q.len() as int);
                if part1.len() == 0 || !all_digits(part1) {
                    (q, None, None)
                } else {
                    let seg1 = parse_u32(part1);
                    match rfind(q.take(i1), ':') {
                        None => (q.take(i1), seg1, None),
                        Some(i2) => {
                            let part2 = q.subrange(i2 + 1, i1);
                            if part2.len() == 0 || !all_digits(part2) {
                                (q.take(i1), seg1, None)
                            } else {
                                (q.take(i2), parse_u32(part2), seg1)
                            }
                        },
                    }
                }
            },
        }
    }
}

proof fn lemma_digit_char(d: int)
    requires
        0 <= d < 10,
    ensures
        digit_char(d) as int - '0' as int == d,
        is_ascii_digit(digit_char(d)),
{
    if d == 0 {
    } else if d == 1 {
    } else if d == 2 {
    } else if d == 3 {
    } else if d == 4 {
    } else if d == 5 {
    } else if d == 6 {
    } else if d == 7 {
    } else if d == 8 {
    } else {
    }
}

proof fn lemma_decimal_digits(n: nat)
    ensures
        decimal(n).len() >= 1,
        all_digits(decimal(n)),
        digits_value(decimal(n)) == n,
        !decimal(n).contains(':'),
    decreases n,
{
    crate::text::lemma_decimal_len(n);
    if n >= 10 {
        lemma_decimal_digits(n / 10);
        let d = decimal(n);
        assert(d.drop_last() =~= decimal(n / 10));
        assert(n == (n / 10) * 10 + n % 10) by (nonlinear_arith);
        let r = n % 10;
        assert(d.last() == digit_char(r as int));
        lemma_digit_char(r as int);
        assert(digits_value(d) == digits_value(d.drop_last()) * 10 + (d.last() as int - '0' as int));
        assert forall|i: int| 0 <= i < d.len() implies is_ascii_digit(#[trigger] d[i]) by {
            if i < d.len() - 1 {
                assert(d[i] == decimal(n / 10)[i]);
            }
        }
        assert(!d.contains(':')) by {
            if d.contains(':') {
                let j = choose|j: int| 0 <= j < d.len() && d[j] == ':';
                assert(is_ascii_digit(d[j]));
            }
        }
    } else {
        lemma_digit_char(n as int);
        let d = decimal(n);
        assert(d.drop_last() =~= Seq::<char>::empty());
        assert(digits_value(d) == digits_value(d.drop_last()) * 10 + (d.last() as int - '0' as int));
        assert(!decimal(n).contains(':')) by {
            if decimal(n).contains(':') {
                let j = choose|j: int| 0 <= j < decimal(n).len() && decimal(n)[j] == ':';
            }
        }
    }
}

proof fn lemma_strip_lens(s: Seq<char>)
    ensures
        strip_start(s, CharSet::Whitespace).len() <= s.len(),
        strip_end(s, CharSet::Whitespace).len() <= s.len(),
        s.len() > 0 && !is_ws(s[0]) ==> strip_start(s, CharSet::Whitespace) == s,
        s.len() > 0 && !is_ws(s.last()) ==> strip_end(s, CharSet::Whitespace) == s,
        s.len() == 0 ==> strip_start(s, CharSet::Whitespace) == s && strip_end(s, CharSet::Whitespace) == s,
    decreases s.len(),
{
    if s.len() > 0 {
        lemma_strip_lens(s.drop_first());
        lemma_strip_lens(s.drop_last());
    }
}

/// A text whose ends are not blank is its own trim; a trimmed non-empty
/// text has non-blank ends.
proof fn lemma_trim_ends(s: Seq<char>)
    ensures
        s.len() > 0 && !is_ws(s[0]) && !is_ws(s.last()) ==> trim(s) == s,
        s.len() > 0 && trim(s) == s ==> !is_ws(s[0]) && !is_ws(s.last()),
{
    lemma_strip_lens(s);
    let a = strip_start(s, CharSet::Whitespace);
    lemma_strip_lens(a);
    if s.len() > 0 && trim(s) == s {
        if is_ws(s[0]) {
            lemma_strip_lens(s.drop_first());
            assert(a == strip_start(s.drop_first(), CharSet::Whitespace));
        }
        if a == s && is_ws(s.last()) {
            lemma_strip_lens(s.drop_last());
        }
    }
}

proof fn lemma_rfind_after(x: Seq<char>, d: Seq<char>, c: char)
    requires
        !d.contains(c),
    ensures
        rfind(x + seq![c] + d, c) == Some(x.len() as int),
    decreases d.len(),
{
    if d.len() == 0 {
        assert(x + seq![c] + d =~= x.push(c));
    } else {
        assert(!d.drop_last().contains(c)) by {
            if d.drop_last().contains(c) {
                let j = choose|j: int| 0 <= j < d.drop_last().len() && d.drop_last()[j] == c;
                assert(d[j] == c);
            }
        }
        assert(d.last() != c) by {
            assert(d[d.len() - 1] == d.last());
        }
        lemma_rfind_after(x, d.drop_last(), c);
        assert((x + seq![c] + d).drop_last() =~= x + seq![c] + d.drop_last());
    }
}

/// Appending `:line` or `:line:col` to a plain path (a trimmed path that
/// carries no numbers of its own) reads back as exactly that path and those
/// numbers.
pub proof fn goto_numbers_round_trip(p: Seq<char>, line: u32, col: u32)
    requires
        trim(p) == p,
        goto_spec(p) == (p, None::<u32>, None::<u32>),
    ensures
        goto_spec(p + seq![':'] + decimal(line as nat)) == (p, Some(line), None::<u32>),
        goto_spec(p + seq![':'] + decimal(line as nat) + seq![':'] + decimal(col as nat)) == (
            p,
            Some(line),
            Some(col),
        ),
{
    let dl = decimal(line as nat);
    let dc = decimal(col as nat);
    lemma_decimal_digits(line as nat);
    lemma_decimal_digits(col as nat);
    lemma_trim_ends(p);
    // `p:line`
    let q1 = p + seq![':'] + dl;
    assert(q1[0] == if p.len() > 0 { p[0] } else { ':' });
    assert(q1.last() == dl.last());
    assert(is_ascii_digit(dl[dl.len() - 1]));
    lemma_trim_ends(q1);
    assert(trim(q1) == q1);
    lemma_rfind_after(p, dl, ':');
    assert(q1.subrange(p.len() as int + 1, q1.len() as int) =~= dl);
    assert(q1.take(p.len() as int) =~= p);
    assert(parse_u32(dl) == Some(line));
    crate::text::lemma_rfind_spec(p, ':');
    if rfind(p, ':') is Some {
        let i2 = rfind(p, ':')->0;
        let part = p.subrange(i2 + 1, p.len() as int);
        if part.len() > 0 && all_digits(part) {
            // Then `p` itself would read as carrying a number.
            crate::text::lemma_rfind_spec(p.take(i2), ':');
            assert(trim(p) == p);
            assert(p.len() > 0);
            if rfind(p.take(i2), ':') is Some {
                let i3 = rfind(p.take(i2), ':')->0;
                assert(goto_spec(p).0.len() <= i2);
            } else {
                assert(goto_spec(p).0 == p.take(i2));
            }
            assert(false);
        }
    }
    assert(q1.take(p.len() as int) == p);
    assert(rfind(trim(q1), ':') == Some(p.len() as int));
    assert(trim(q1).subrange(p.len() as int + 1, trim(q1).len() as int) == dl);
    assert(dl.len() != 0 && all_digits(dl));
    assert(trim(q1).take(p.len() as int) == p);
    if rfind(p, ':') is Some {
        let i2 = rfind(p, ':')->0;
        assert(q1.subrange(i2 + 1, p.len() as int) =~= p.subrange(i2 + 1, p.len() as int));
    }
    assert(goto_spec(q1) == (p, Some(line), None::<u32>));
    // `p:line:col`
    let x = p + seq![':'] + dl;
    let q2 = x + seq![':'] + dc;
    assert(q2[0] == if p.len() > 0 { p[0] } else { ':' });
    assert(q2.last() == dc.last());
    assert(is_ascii_digit(dc[dc.len() - 1]));
    lemma_trim_ends(q2);
    lemma_rfind_after(x, dc, ':');
    assert(q2.subrange(x.len() as int + 1, q2.len() as int) =~= dc);
    assert(q2.take(x.len() as int) =~= x);
    assert(x.subrange(p.len() as int + 1, x.len() as int) =~= dl);
    assert(x.take(p.len() as int) =~= p);
    assert(parse_u32(dc) == Some(col));
    lemma_rfind_after(p, dl, ':');
    assert(rfind(q2.take(x.len() as int), ':') == Some(p.len() as int));
    assert(rfind(trim(q2), ':') == Some(x.len() as int));
    assert(trim(q2).subrange(x.len() as int + 1, trim(q2).len() as int) == dc);
    assert(dc.len() != 0 && all_digits(dc));
    assert(q2.subrange(p.len() as int + 1, x.len() as int) =~= dl);
    assert(q2.take(p.len() as int) =~= p);
    assert(goto_spec(q2) == (p, Some(line), Some(col)));
}

/// Split `path[:line[:col]]` the way the command-palette Go to File prompt does.
pub fn parse_goto_spec(query: &str) -> (r: (String, Option<u32>, Option<u32>))
    ensures
        r.0@ == goto_spec(query@).0,
        r.1 == goto_spec(query@).1,
        r.2 == goto_spec(query@).2,
{
    let q = trim_str(query);
    if q.len() == 0 {
        return (String::new(), None, None);
    }
    proof {
        assert(q@.take(q@.len() as int) =~= q@);
    }
    let i1 = match rfind_char(&q, q.len(), ':') {
        None => return (string_of(&q), None, None),
        Some(i) => i,
    };
    proof {
        lemma_rfind_spec(q@, ':');
        assert(q@.subrange(i1 + 1, q@.len() as int) =~= q@.subrange(i1 + 1, q.len() as int));
    }
    if i1 + 1 == q.len() || !all_digits_chars(&q, i1 + 1, q.len()) {
        return (string_of(&q), None, None);
    }
    let seg1 = parse_u32_chars(&q, i1 + 1, q.len());
    let i2 = match rfind_char(&q, i1, ':') {
        None => {
            let p = slice_vec(&q, 0, i1);
            proof {
                assert(p@ =~= q@.take(i1 as int));
            }
            return (string_of(&p), seg1, None);
        },
        Some(i) => i,
    };
    proof {
        lemma_rfind_spec(q@.take(i1 as int), ':');
        assert(q@.take(i1 as int).subrange(i2 + 1, i1 as int) =~= q@.subrange(i2 + 1, i1 as int));
        assert(q@.take(i1 as int).take(i2 as int) =~= q@.take(i2 as int));
    }
    if i2 + 1 == i1 || !all_digits_chars(&q, i2 + 1, i1) {
        let p = slice_vec(&q, 0, i1);
        proof {
            assert(p@ =~= q@.take(i1 as int));
        }
        return (string_of(&p), seg1, None);
    }
    let seg2 = parse_u32_chars(&q, i2 + 1, i1);
    let p = slice_vec(&q, 0, i2);
    proof {
        assert(p@ =~= q@.take(i2 as int));
    }
    (string_of(&p), seg2, seg1)
}

/// One workspace as the daemon lists it.
#[derive(Debug, Clone, PartialEq, Eq)]
pub struct WorkspaceInfo {
    pub id: String,
    pub name: String,
    pub root: String,
    pub session_id: String,
    pub pty_count: u32,
    pub tab_count: u32,
}

/// What the host should do with the workspace list before attaching.
#[derive(Debug, Clone, PartialEq, Eq)]
pub enum BootAction {
    /// Switch to an existing workspace (creates nothing).
    Switch { id: String },
    /// Create a workspace, then switch to it. `None` root uses the daemon FS root.
    Create { root: Option<String> },
}

/// A root compared without trailing separators; Windows roots also ignore case
/// and slash direction.
pub open spec fn normalize_root_spec(path: Seq<char>, unix: bool) -> Seq<char> {
    let trimmed = trim(path);
    let stripped = strip_end(trimmed, CharSet::PathSeparators);
    let stripped = if stripped.len() == 0 {
        trimmed
    } else {
        stripped
    };
    if unix {
        stripped
    } else {
        lower_ascii(replace_char(stripped, '\\', '/'))
    }
}

pub open spec fn roots_equal_spec(left: Seq<char>, right: Seq<char>) -> bool {
    let unix = starts_with(left, seq!['/']) || starts_with(right, seq!['/']);
    normalize_root_spec(left, unix) == normalize_root_spec(right, unix)
}

/// Index of the first workspace whose root matches `root`.
pub open spec fn first_root_match(ws: Seq<WorkspaceInfo>, root: Seq<char>) -> Option<int>
    decreases ws.len(),
{
    if ws.len() == 0 {
        None
    } else {
        match first_root_match(ws.drop_last(), root) {
            Some(i) => Some(i),
            None => if roots_equal_spec(ws.last().root@, root) {
                Some(ws.len() - 1)
            } else {
                None
            },
        }
    }
}

pub open spec fn has_id(ws: Seq<WorkspaceInfo>, id: Seq<char>) -> bool {
    exists|i: int| 0 <= i < ws.len() && ws[i].id@ == id
}

pub enum BootActionView {
    Switch(Seq<char>),
    Create(Option<Seq<char>>),
}

pub open spec fn boot_view(a: BootAction) -> BootActionView {
    match a {
        BootAction::Switch { id } => BootActionView::Switch(id@),
        BootAction::Create { root } => BootActionView::Create(root.deep_view()),
    }
}

pub open spec fn plan_boot_spec(
    ws: Seq<WorkspaceInfo>,
    focused: Option<Seq<char>>,
    preferred: Option<Seq<char>>,
) -> BootActionView {
    let preferred = match preferred {
        Some(p) => if trim(p).len() > 0 {
            Some(trim(p))
        } else {
            None
        },
        None => None,
    };
    match preferred {
        Some(root) => match first_root_match(ws, root) {
            Some(i) => BootActionView::Switch(ws[i].id@),
            None => BootActionView::Create(Some(root)),
        },
        None => if ws.len() == 0 {
            BootActionView::Create(None)
        } else {
            match focused {
                Some(f) => if has_id(ws, f) {
                    BootActionView::Switch(f)
                } else {
                    BootActionView::Switch(ws[0].id@)
                },
                None => BootActionView::Switch(ws[0].id@),
            }
        },
    }
}

/// Pick the workspace to show. A preferred root (from `fresh-gui /path` while
/// a session is already up) switches to a matching workspace or creates one.
pub fn plan_workspace_boot(
    workspaces: &[WorkspaceInfo],
    focused_id: Option<&str>,
    preferred_root: Option<&str>,
) -> (r: BootAction)
    ensures
        boot_view(r) == plan_boot_spec(
            workspaces@,
            match focused_id {
                Some(f) => Some(f@),
                None => None,
            },
            match preferred_root {
                Some(p) => Some(p@),
                None => None,
            },
        ),
{
    if let Some(p) = preferred_root {
        let root = trim_str(p);
        if root.len() > 0 {
            let mut i: usize = 0;
            while i < workspaces.len()
                invariant
                    i <= workspaces@.len(),
                    root@ == trim(p@),
                    root@.len() > 0,
                    preferred_root == Some(p),
                    first_root_match(workspaces@.take(i as int), root@) is None,
                decreases workspaces.len() - i,
            {
                let ghost t = workspaces@.take(i + 1);
                proof {
                    assert(t.drop_last() =~= workspaces@.take(i as int));
                    assert(t.last() == workspaces@[i as int]);
                }
                let r = chars_of(workspaces[i].root.as_str());
                if roots_equal_chars(&r, &root) {
                    proof {
                        lemma_first_match_prefix(workspaces@, root@, i + 1);
                    }
                    let id = workspaces[i].id.clone();
                    assert(id@ == workspaces@[i as int].id@);
                    let r = BootAction::Switch { id };
                    assert(boot_view(r) == BootActionView::Switch(workspaces@[i as int].id@));
                    return r;
                }
                i += 1;
            }
            proof {
                assert(workspaces@.take(workspaces@.len() as int) =~= workspaces@);
            }
            return BootAction::Create { root: Some(string_of(&root)) };
        }
    }
    if workspaces.len() == 0 {
        return BootAction::Create { root: None };
    }
    if let Some(f) = focused_id {
        let fv = chars_of(f);
        let mut i: usize = 0;
        while i < workspaces.len()
            invariant
                i <= workspaces@.len(),
                fv@ == f@,
                focused_id == Some(f),
                workspaces@.len() > 0,
                match preferred_root {
                    Some(p) => trim(p@).len() == 0,
                    None => true,
                },
                forall|j: int| 0 <= j < i ==> workspaces@[j].id@ != f@,
            decreases workspaces.len() - i,
        {
            let id = chars_of(workspaces[i].id.as_str());
            if eq_chars(&id, &fv) {
                assert(workspaces@[i as int].id@ == f@);
                assert(has_id(workspaces@, f@));
                return BootAction::Switch { id: string_of(&fv) };
            }
            i += 1;
        }
    }
    BootAction::Switch { id: workspaces[0].id.clone() }
}

proof fn lemma_first_match_prefix(ws: Seq<WorkspaceInfo>, root: Seq<char>, k: int)
    requires
        1 <= k <= ws.len(),
        first_root_match(ws.take(k - 1), root) is None,
        roots_equal_spec(ws[k - 1].root@, root),
    ensures
        first_root_match(ws, root) == Some(k - 1),
    decreases ws.len() - k,
{
    let t = ws.take(k);
    assert(t.drop_last() =~= ws.take(k - 1));
    assert(first_root_match(t, root) == Some(k - 1));
    if k < ws.len() {
        lemma_first_match_extend(ws, root, k);
    } else {
        assert(t =~= ws);
    }
}

proof fn lemma_first_match_extend(ws: Seq<WorkspaceInfo>, root: Seq<char>, k: int)
    requires
        1 <= k <= ws.len(),
        first_root_match(ws.take(k), root) == Some(k - 1),
    ensures
        first_root_match(ws, root) == Some(k - 1),
    decreases ws.len() - k,
{
    if k < ws.len() {
        let t = ws.take(k + 1);
        assert(t.drop_last() =~= ws.take(k));
        assert(first_root_match(t, root) == Some(k - 1));
        lemma_first_match_extend_step(ws, root, k + 1, k - 1);
    } else {
        assert(ws.take(k) =~= ws);
    }
}

proof fn lemma_first_match_extend_step(ws: Seq<WorkspaceInfo>, root: Seq<char>, k: int, m: int)
    requires
        1 <= k <= ws.len(),
        first_root_match(ws.take(k), root) == Some(m),
    ensures
        first_root_match(ws, root) == Some(m),
    decreases ws.len() - k,
{
    if k < ws.len() {
        let t = ws.take(k + 1);
        assert(t.drop_last() =~= ws.take(k));
        lemma_first_match_extend_step(ws, root, k + 1, m);
    } else {
        assert(ws.take(k) =~= ws);
    }
}

fn normalize_root(path: &[char], unix: bool) -> (r: Vec<char>)
    ensures
        r@ == normalize_root_spec(path@, unix),
{
    let trimmed = trim_chars(path);
    let stripped = strip_end_chars(&trimmed, CharSet::PathSeparators);
    let stripped = if stripped.len() == 0 {
        trimmed
    } else {
        stripped
    };
    if unix {
        stripped
    } else {
        lower_chars(&replace_chars(&stripped, '\\', '/'))
    }
}

fn roots_equal_chars(left: &[char], right: &[char]) -> (r: bool)
    ensures
        r == roots_equal_spec(left@, right@),
{
    let slash = chars_of("/");
    proof {
        reveal_strlit("/");
        assert(slash@ =~= seq!['/']);
    }
    let unix = starts_with_chars(left, &slash) || starts_with_chars(right, &slash);
    eq_chars(&normalize_root(left, unix), &normalize_root(right, unix))
}

/// Two workspace roots name the same folder.
pub fn roots_equal(left: &str, right: &str) -> (r: bool)
    ensures
        r == roots_equal_spec(left@, right@),
{
    roots_equal_chars(&chars_of(left), &chars_of(right))
}


/// A `ws://` or `wss://` base keeps its scheme and always ends at the `/ws`
/// path: trailing slashes are dropped and `/ws` is added unless the base
/// already ends with it, the same for either scheme.
pub proof fn websocket_bases_keep_scheme_and_end_in_ws(base0: Seq<char>)
    requires
        starts_with(strip_end(base0, CharSet::Slash), "ws://"@) || starts_with(
            strip_end(base0, CharSet::Slash),
            "wss://"@,
        ),
    ensures
        ({
            let base = strip_end(base0, CharSet::Slash);
            let url = to_ws_url_spec(base0);
            &&& starts_with(url, "ws://"@) == starts_with(base, "ws://"@)
            &&& starts_with(url, "wss://"@) == starts_with(base, "wss://"@)
            &&& ends_with(url, "/ws"@)
            &&& ends_with(base, "/ws"@) ==> url == base
            &&& !ends_with(base, "/ws"@) ==> url == base + "/ws"@
        }),
{
    reveal_strlit("ws://");
    reveal_strlit("wss://");
    reveal_strlit("/ws");
    let base = strip_end(base0, CharSet::Slash);
    let url = to_ws_url_spec(base0);
    let w = "/ws"@;
    assert(base.len() >= 5);
    if ends_with(base, w) {
        assert(url == base);
    } else {
        let u = base + w;
        assert(url == u);
        assert(u.skip(u.len() - 3) =~= w);
        assert(ends_with(u, w));
        assert(u.take(5) =~= base.take(5));
        assert(starts_with(u, "ws://"@) == starts_with(base, "ws://"@));
        if base.len() >= 6 {
            assert(u.take(6) =~= base.take(6));
        } else {
            assert(!starts_with(base, "wss://"@));
            assert(u[5] == '/');
            assert(u.take(6)[5] == '/');
            assert("wss://"@[5] == '/');
            assert(u.take(6)[2] == base[2]);
            assert(starts_with(base, "ws://"@));
            assert(base.take(5)[2] == ':');
            assert(!starts_with(u, "wss://"@));
        }
        assert(starts_with(u, "wss://"@) == starts_with(base, "wss://"@));
    }
}


/// A text without `/` is its own slash-stripped form, and holds no scheme.
proof fn lemma_slashless(h: Seq<char>)
    requires
        !h.contains('/'),
    ensures
        strip_end(h, CharSet::Slash) == h,
        !starts_with(h, "ws://"@),
        !starts_with(h, "wss://"@),
        !starts_with(h, "http://"@),
        !starts_with(h, "https://"@),
        !contains_seq(h, "://"@),
        !ends_with(h, "/ws"@),
{
    reveal_strlit("ws://");
    reveal_strlit("wss://");
    reveal_strlit("http://");
    reveal_strlit("https://");
    reveal_strlit("://");
    reveal_strlit("/ws");
    if h.len() > 0 {
        assert(h[h.len() - 1] != '/');
    }
    if starts_with(h, "ws://"@) {
        assert(h.take(5)[3] == h[3]);
    }
    if starts_with(h, "wss://"@) {
        assert(h.take(6)[4] == h[4]);
    }
    if starts_with(h, "http://"@) {
        assert(h.take(7)[5] == h[5]);
    }
    if starts_with(h, "https://"@) {
        assert(h.take(8)[6] == h[6]);
    }
    if contains_seq(h, "://"@) {
        let i = choose|i: int| crate::text::occurs_at(h, "://"@, i);
        assert(h.subrange(i, i + 3)[1] == h[i + 1]);
    }
    if ends_with(h, "/ws"@) {
        assert(h.skip(h.len() - 3)[0] == h[h.len() - 3]);
    }
}

/// An `http://` or `https://` base becomes the matching WebSocket scheme
/// (`ws://`, `wss://`) on the same host with the `/ws` path, and a bare
/// `host:port` becomes `ws://host:port/ws`; trailing slashes do not matter.
pub proof fn http_and_bare_bases_become_websocket_urls(host: Seq<char>)
    requires
        host.len() > 0,
        !host.contains('/'),
    ensures
        to_ws_url_spec("http://"@ + host) == "ws://"@ + host + "/ws"@,
        to_ws_url_spec("https://"@ + host) == "wss://"@ + host + "/ws"@,
        to_ws_url_spec("http://"@ + host + "/"@) == "ws://"@ + host + "/ws"@,
        to_ws_url_spec(host) == "ws://"@ + host + "/ws"@,
{
    reveal_strlit("ws://");
    reveal_strlit("wss://");
    reveal_strlit("http://");
    reveal_strlit("https://");
    reveal_strlit("/");
    lemma_slashless(host);
    let a = "http://"@ + host;
    assert(a.last() == host.last());
    assert(strip_end(a, CharSet::Slash) == a);
    assert(a.take(7) =~= "http://"@);
    assert(a.skip(7) =~= host);
    assert(!starts_with(a, "ws://"@)) by {
        if starts_with(a, "ws://"@) {
            assert(a.take(5)[0] == a[0]);
        }
    }
    assert(!starts_with(a, "wss://"@)) by {
        if starts_with(a, "wss://"@) {
            assert(a.take(6)[0] == a[0]);
        }
    }
    let b = "https://"@ + host;
    assert(b.last() == host.last());
    assert(strip_end(b, CharSet::Slash) == b);
    assert(b.take(8) =~= "https://"@);
    assert(b.skip(8) =~= host);
    assert(!starts_with(b, "ws://"@)) by {
        if starts_with(b, "ws://"@) {
            assert(b.take(5)[0] == b[0]);
        }
    }
    assert(!starts_with(b, "wss://"@)) by {
        if starts_with(b, "wss://"@) {
            assert(b.take(6)[0] == b[0]);
        }
    }
    assert(!starts_with(b, "http://"@)) by {
        if starts_with(b, "http://"@) {
            assert(b.take(7)[4] == b[4]);
        }
    }
    let c = "http://"@ + host + "/"@;
    assert(c.drop_last() =~= a);
    assert(c.last() == '/');
    assert(strip_end(c, CharSet::Slash) == strip_end(a, CharSet::Slash));
}
} // verus!
