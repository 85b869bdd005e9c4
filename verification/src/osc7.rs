//! OSC 7 working-directory reports (shell integration).
//!
//! A shell announces its directory with `ESC ] 7 ; file://host/path` ended by
//! BEL or `ESC \`. PTY data arrives in chunks, so an unfinished sequence is
//! carried over to the next chunk.

use vstd::prelude::*;
use vstd::string::*;

use crate::escapes::{percent_decode_utf8, percent_decoded_utf8};
use crate::text::{
    chars_of, concat, find, find_char, slice_vec, starts_with, starts_with_chars, string_of,
    trim, trim_chars,
};

verus! {

/// The decoded path (percent escapes taken as UTF-8 bytes) when it is
/// absolute.
pub open spec fn decode_abs_spec(s: Seq<char>) -> Option<Seq<char>> {
    let d = percent_decoded_utf8(s);
    if d.len() > 0 && d[0] == '/' {
        Some(d)
    } else {
        None
    }
}

/// Directory named by an OSC 7 payload.
pub open spec fn parse_osc7_spec(data: Seq<char>) -> Option<Seq<char>> {
    if starts_with(data, "file://"@) {
        let rest = data.skip(7);
        let path = match find(rest, '/') {
            Some(i) => rest.skip(i),
            None => rest,
        };
        decode_abs_spec(path)
    } else {
        decode_abs_spec(trim(data))
    }
}

fn decode_abs(s: &[char]) -> (r: Option<Vec<char>>)
    ensures
        r.deep_view() == decode_abs_spec(s@),
{
    let text = string_of(s);
    let decoded = chars_of(percent_decode_utf8(text.as_str()).as_str());
    if decoded.len() > 0 && decoded[0] == '/' {
        Some(decoded)
    } else {
        None
    }
}

/// Parse OSC 7 payload (`file://host/path` or raw path) → absolute path.
pub fn parse_osc7(data: &str) -> (r: Option<String>)
    ensures
        r.deep_view() == parse_osc7_spec(data@),
{
    match parse_osc7_chars(&chars_of(data)) {
        Some(v) => Some(string_of(&v)),
        None => None,
    }
}

fn parse_osc7_chars(data: &[char]) -> (r: Option<Vec<char>>)
    ensures
        r.deep_view() == parse_osc7_spec(data@),
{
    let prefix = chars_of("file://");
    proof {
        reveal_strlit("file://");
    }
    if starts_with_chars(data, &prefix) {
        let rest = slice_vec(data, 7, data.len());
        proof {
            assert(rest@ =~= data@.skip(7));
        }
        let path = match find_char(&rest, '/') {
            Some(i) => {
                let p = slice_vec(&rest, i, rest.len());
                proof {
                    assert(p@ =~= rest@.skip(i as int));
                }
                p
            },
            None => rest,
        };
        decode_abs(&path)
    } else {
        decode_abs(&trim_chars(data))
    }
}

/// A sequence terminator at or after `e`: `(payload end, index after terminator)`.
pub open spec fn term_from(s: Seq<char>, e: int) -> Option<(int, int)>
    decreases s.len() - e,
{
    if e < 0 || e >= s.len() {
        None
    } else if s[e] == '\x07' {
        Some((e, e + 1))
    } else if s[e] == '\x1b' && e + 1 < s.len() && s[e + 1] == '\\' {
        Some((e, e + 2))
    } else {
        term_from(s, e + 1)
    }
}

pub open spec fn osc7_start_at(s: Seq<char>, i: int) -> bool {
    s[i] == '\x1b' && s[i + 1] == ']' && s[i + 2] == '7' && s[i + 3] == ';'
}

/// Scan `s` from `i`: the last directory reported and where the last complete
/// sequence ended.
pub open spec fn scan_from(s: Seq<char>, i: int, last: Option<Seq<char>>, last_end: int) -> (
    Option<Seq<char>>,
    int,
)
    decreases s.len() - i,
{
    if 0 <= i && i + 3 < s.len() {
        if osc7_start_at(s, i) {
            match term_from(s, i + 4) {
                Some((end, te)) => if i < te <= s.len() && i + 4 <= end {
                    let next = match parse_osc7_spec(s.subrange(i + 4, end)) {
                        Some(cwd) => Some(cwd),
                        None => last,
                    };
                    scan_from(s, te, next, te)
                } else {
                    (last, last_end)
                },
                None => (last, last_end),
            }
        } else {
            scan_from(s, i + 1, last, last_end)
        }
    } else {
        (last, last_end)
    }
}

/// Bytes in the UTF-8 encoding of `c`.
pub open spec fn utf8_len(c: char) -> int {
    let u = c as u32;
    if u < 0x80 {
        1
    } else if u < 0x800 {
        2
    } else if u < 0x10000 {
        3
    } else {
        4
    }
}

pub open spec fn bytes_len(s: Seq<char>) -> int
    decreases s.len(),
{
    if s.len() == 0 {
        0
    } else {
        bytes_len(s.drop_last()) + utf8_len(s.last())
    }
}

/// Start of the longest suffix of `rest` whose encoding fits in `keep`
/// bytes: the cut moves forward to the next character boundary when `keep`
/// bytes end inside a character.
pub open spec fn suffix_fit(rest: Seq<char>, keep: int) -> int
    decreases rest.len(),
{
    if rest.len() == 0 {
        0
    } else if utf8_len(rest.last()) <= keep {
        suffix_fit(rest.drop_last(), keep - utf8_len(rest.last()))
    } else {
        rest.len() as int
    }
}

/// Last start of `ESC ]` in `t`.
pub open spec fn rfind_osc(t: Seq<char>) -> Option<int>
    decreases t.len(),
{
    if t.len() < 2 {
        None
    } else if t[t.len() - 2] == '\x1b' && t[t.len() - 1] == ']' {
        Some(t.len() - 2)
    } else {
        rfind_osc(t.drop_last())
    }
}

/// The text after the last complete sequence, cut to its last 512 bytes at
/// a character boundary.
pub open spec fn carry_window(s: Seq<char>) -> Seq<char> {
    let rest = s.skip(scan_from(s, 0, None, 0).1);
    rest.skip(suffix_fit(rest, 512))
}

/// The carry kept for the next chunk: the tail from the last `ESC ]` on.
pub open spec fn next_carry(s: Seq<char>) -> Seq<char> {
    let tail = carry_window(s);
    match rfind_osc(tail) {
        Some(idx) => tail.skip(idx),
        None => Seq::empty(),
    }
}

fn utf8_width(c: char) -> (w: usize)
    ensures
        w == utf8_len(c),
{
    let u = c as u32;
    if u < 0x80 {
        1
    } else if u < 0x800 {
        2
    } else if u < 0x10000 {
        3
    } else {
        4
    }
}

/// Payload end and resume index for the sequence whose payload starts at `start`.
fn find_terminator(s: &[char], start: usize) -> (r: Option<(usize, usize)>)
    requires
        start <= s@.len(),
    ensures
        match r {
            Some((end, te)) => term_from(s@, start as int) == Some((end as int, te as int)) && start
                <= end < te <= s@.len(),
            None => term_from(s@, start as int) is None,
        },
{
    let mut end = start;
    while end < s.len()
        invariant
            start <= end <= s@.len(),
            term_from(s@, end as int) == term_from(s@, start as int),
        decreases s.len() - end,
    {
        if s[end] == '\x07' {
            return Some((end, end + 1));
        }
        if s[end] == '\x1b' && end + 1 < s.len() && s[end + 1] == '\\' {
            return Some((end, end + 2));
        }
        end += 1;
    }
    None
}

/// Where the kept carry window starts (see [`carry_window`]).
fn window_start(rest: &[char]) -> (k: usize)
    ensures
        k == suffix_fit(rest@, 512),
        k <= rest@.len(),
{
    let mut k = rest.len();
    let mut room: usize = 512;
    proof {
        assert(rest@.take(k as int) =~= rest@);
    }
    while k > 0 && utf8_width(rest[k - 1]) <= room
        invariant
            k <= rest@.len(),
            room <= 512,
            suffix_fit(rest@.take(k as int), room as int) == suffix_fit(rest@, 512),
        decreases k,
    {
        proof {
            assert(rest@.take(k as int).drop_last() =~= rest@.take(k - 1));
            assert(rest@.take(k as int).last() == rest@[k - 1]);
        }
        room = room - utf8_width(rest[k - 1]);
        k -= 1;
    }
    proof {
        if k > 0 {
            assert(rest@.take(k as int).last() == rest@[k - 1]);
        }
    }
    k
}

/// Last start of `ESC ]` in `t`.
fn rfind_osc_start(t: &[char]) -> (r: Option<usize>)
    ensures
        match r {
            Some(i) => rfind_osc(t@) == Some(i as int) && i <= t@.len(),
            None => rfind_osc(t@) is None,
        },
{
    let mut n = t.len();
    proof {
        assert(t@.take(n as int) =~= t@);
    }
    while n >= 2
        invariant
            n <= t@.len(),
            rfind_osc(t@.take(n as int)) == rfind_osc(t@),
        decreases n,
    {
        if t[n - 2] == '\x1b' && t[n - 1] == ']' {
            return Some(n - 2);
        }
        proof {
            assert(t@.take(n as int).drop_last() =~= t@.take(n - 1));
        }
        n -= 1;
    }
    None
}

/// Run the scan of [`scan_from`] over all of `s`.
fn scan(s: &[char]) -> (r: (Option<Vec<char>>, usize))
    ensures
        r.0.deep_view() == scan_from(s@, 0, None, 0).0,
        r.1 == scan_from(s@, 0, None, 0).1,
        r.1 <= s@.len(),
{
    let mut last: Option<Vec<char>> = None;
    let mut last_end: usize = 0;
    let mut i: usize = 0;
    while i < s.len() && s.len() - i > 3
        invariant
            i <= s@.len(),
            last_end <= s@.len(),
            scan_from(s@, i as int, last.deep_view(), last_end as int) == scan_from(
                s@,
                0,
                None,
                0,
            ),
        decreases s.len() - i,
    {
        if s[i] == '\x1b' && s[i + 1] == ']' && s[i + 2] == '7' && s[i + 3] == ';' {
            match find_terminator(s, i + 4) {
                Some((end, te)) => {
                    let payload = slice_vec(s, i + 4, end);
                    if let Some(cwd) = parse_osc7_chars(&payload) {
                        last = Some(cwd);
                    }
                    last_end = te;
                    i = te;
                },
                None => {
                    return (last, last_end);
                },
            }
        } else {
            i += 1;
        }
    }
    (last, last_end)
}

/// Scan a PTY chunk for OSC 7, keeping a short carry buffer for sequences
/// split across WebSocket frames. Returns the last directory reported.
///
/// The carry keeps at most the last 512 bytes after the last complete
/// sequence, cut at a character boundary.
pub fn feed_osc7_chunk(carry: &mut String, chunk: &str) -> (r: Option<String>)
    ensures
        r.deep_view() == scan_from(old(carry)@ + chunk@, 0, None, 0).0,
        final(carry)@ == next_carry(old(carry)@ + chunk@),
{
    let s = concat(&chars_of(carry.as_str()), &chars_of(chunk));
    let (last, last_end) = scan(&s);
    let rest = slice_vec(&s, last_end, s.len());
    proof {
        assert(rest@ =~= s@.skip(last_end as int));
    }
    let k = window_start(&rest);
    let tail = slice_vec(&rest, k, rest.len());
    proof {
        assert(tail@ =~= rest@.skip(k as int));
    }
    match rfind_osc_start(&tail) {
        Some(idx) => {
            let kept = slice_vec(&tail, idx, tail.len());
            proof {
                assert(kept@ =~= tail@.skip(idx as int));
            }
            *carry = string_of(&kept);
        },
        None => {
            *carry = String::new();
        },
    }
    match last {
        Some(v) => Some(string_of(&v)),
        None => None,
    }
}

proof fn lemma_bytes_len_concat(x: Seq<char>, y: Seq<char>)
    ensures
        bytes_len(x + y) == bytes_len(x) + bytes_len(y),
    decreases y.len(),
{
    if y.len() > 0 {
        assert((x + y).drop_last() =~= x + y.drop_last());
        assert((x + y).last() == y.last());
        lemma_bytes_len_concat(x, y.drop_last());
    } else {
        assert(x + y =~= x);
    }
}

proof fn lemma_bytes_len_bounds(s: Seq<char>)
    ensures
        bytes_len(s) >= s.len(),
    decreases s.len(),
{
    if s.len() > 0 {
        lemma_bytes_len_bounds(s.drop_last());
    }
}

/// The kept suffix fits in `keep` bytes.
proof fn lemma_suffix_fit(rest: Seq<char>, keep: int)
    requires
        keep >= 0,
    ensures
        0 <= suffix_fit(rest, keep) <= rest.len(),
        bytes_len(rest.skip(suffix_fit(rest, keep))) <= keep,
    decreases rest.len(),
{
    if rest.len() == 0 {
        assert(rest.skip(0) =~= Seq::<char>::empty());
    } else if utf8_len(rest.last()) <= keep {
        let t = rest.drop_last();
        lemma_suffix_fit(t, keep - utf8_len(rest.last()));
        let k = suffix_fit(t, keep - utf8_len(rest.last()));
        assert(rest.skip(k) =~= t.skip(k).push(rest.last()));
        assert(rest.skip(k).drop_last() =~= t.skip(k));
    } else {
        assert(rest.skip(rest.len() as int) =~= Seq::<char>::empty());
    }
}

/// A text that fits is kept whole.
proof fn lemma_suffix_fit_all(rest: Seq<char>, keep: int)
    requires
        bytes_len(rest) <= keep,
    ensures
        suffix_fit(rest, keep) == 0,
    decreases rest.len(),
{
    if rest.len() > 0 {
        lemma_bytes_len_bounds(rest.drop_last());
        lemma_suffix_fit_all(rest.drop_last(), keep - utf8_len(rest.last()));
    }
}

proof fn lemma_rfind_osc(t: Seq<char>)
    requires
        rfind_osc(t) is Some,
    ensures
        0 <= rfind_osc(t)->0,
        rfind_osc(t)->0 + 2 <= t.len(),
        t[rfind_osc(t)->0] == '\x1b',
        t[rfind_osc(t)->0 + 1] == ']',
    decreases t.len(),
{
    if !(t[t.len() - 2] == '\x1b' && t[t.len() - 1] == ']') {
        lemma_rfind_osc(t.drop_last());
    }
}

proof fn lemma_bytes_len_suffix(s: Seq<char>, k: int)
    requires
        0 <= k <= s.len(),
    ensures
        bytes_len(s.skip(k)) <= bytes_len(s),
{
    assert(s =~= s.take(k) + s.skip(k));
    lemma_bytes_len_concat(s.take(k), s.skip(k));
    lemma_bytes_len_bounds(s.take(k));
}

/// The carry stays small and to the point: at most 512 bytes, empty or
/// starting with `ESC ]`, and always the tail of what was scanned.
pub proof fn carry_is_a_short_sequence_tail(s: Seq<char>)
    ensures
        bytes_len(next_carry(s)) <= 512,
        next_carry(s).len() == 0 || (next_carry(s)[0] == '\x1b' && next_carry(s)[1] == ']'),
        next_carry(s).len() <= s.len(),
        next_carry(s) == s.skip(s.len() - next_carry(s).len()),
{
    let e = scan_from(s, 0, None, 0).1;
    lemma_scan_end(s, 0, None, 0);
    let rest = s.skip(e);
    lemma_suffix_fit(rest, 512);
    let k = suffix_fit(rest, 512);
    let tail = rest.skip(k);
    assert(tail =~= s.skip(e + k));
    match rfind_osc(tail) {
        Some(idx) => {
            lemma_rfind_osc(tail);
            lemma_bytes_len_suffix(tail, idx);
            assert(tail.skip(idx) =~= s.skip(e + k + idx));
        },
        None => {
            assert(s.skip(s.len() as int) =~= Seq::<char>::empty());
        },
    }
}

proof fn lemma_scan_end(s: Seq<char>, i: int, last: Option<Seq<char>>, last_end: int)
    requires
        0 <= last_end <= s.len(),
    ensures
        0 <= scan_from(s, i, last, last_end).1 <= s.len(),
    decreases s.len() - i,
{
    if 0 <= i && i + 3 < s.len() {
        if osc7_start_at(s, i) {
            match term_from(s, i + 4) {
                Some((end, te)) => if i < te <= s.len() && i + 4 <= end {
                    let next = match parse_osc7_spec(s.subrange(i + 4, end)) {
                        Some(cwd) => Some(cwd),
                        None => last,
                    };
                    lemma_scan_end(s, te, next, te);
                },
                None => {},
            }
        } else {
            lemma_scan_end(s, i + 1, last, last_end);
        }
    }
}

/// No BEL or ESC in `s` from `e` on.
pub open spec fn unterminated_from(s: Seq<char>, e: int) -> bool {
    forall|j: int| e <= j < s.len() ==> #[trigger] s[j] != '\x07' && s[j] != '\x1b'
}

proof fn lemma_term_none(s: Seq<char>, e: int)
    requires
        0 <= e,
        unterminated_from(s, e),
    ensures
        term_from(s, e) is None,
    decreases s.len() - e,
{
    if e < s.len() {
        lemma_term_none(s, e + 1);
    }
}

proof fn lemma_term_at_end(s: Seq<char>, e: int)
    requires
        0 <= e < s.len(),
        s.last() == '\x07',
        forall|j: int| e <= j < s.len() - 1 ==> #[trigger] s[j] != '\x07' && s[j] != '\x1b',
    ensures
        term_from(s, e) == Some((s.len() - 1, s.len() as int)),
    decreases s.len() - e,
{
    if e < s.len() - 1 {
        lemma_term_at_end(s, e + 1);
    }
}

proof fn lemma_rfind_only_head(t: Seq<char>, n: int)
    requires
        2 <= n <= t.len(),
        t[0] == '\x1b',
        t[1] == ']',
        forall|j: int| 2 <= j < t.len() ==> #[trigger] t[j] != '\x1b',
    ensures
        rfind_osc(t.take(n)) == Some(0int),
    decreases n,
{
    if n > 2 {
        assert(t.take(n).drop_last() =~= t.take(n - 1));
        assert(t.take(n)[n - 2] == t[n - 2]);
        lemma_rfind_only_head(t, n - 1);
    }
}

/// The `ESC ] 7 ;` that opens a directory report.
pub open spec fn osc7_head() -> Seq<char> {
    seq!['\x1b', ']', '7', ';']
}

/// A report split across two chunks is reported once, as if it had come in
/// one: feeding `ESC ] 7 ; a` to an empty carry reports nothing and keeps
/// the whole opening as carry; feeding `b BEL` next reports the directory
/// of `a + b` (exactly what one chunk `ESC ] 7 ; a b BEL` reports) and
/// leaves the carry empty. `a + b` holds no BEL or ESC, and the opening
/// fits the 512-byte window.
pub proof fn split_osc7_report_matches_one_chunk(a: Seq<char>, b: Seq<char>)
    requires
        unterminated_from(a + b, 0),
        4 + bytes_len(a) <= 512,
    ensures
        scan_from(Seq::<char>::empty() + (osc7_head() + a), 0, None, 0).0 is None,
        next_carry(Seq::<char>::empty() + (osc7_head() + a)) == osc7_head() + a,
        (osc7_head() + a) + (b + seq!['\x07']) == Seq::<char>::empty() + (osc7_head() + (a + b) + seq!['\x07']),
        scan_from((osc7_head() + a) + (b + seq!['\x07']), 0, None, 0).0 == parse_osc7_spec(a + b),
        next_carry((osc7_head() + a) + (b + seq!['\x07'])) == Seq::<char>::empty(),
{
    let h = osc7_head();
    let s1 = Seq::<char>::empty() + (h + a);
    assert(s1 =~= h + a);
    // First chunk: an opened sequence with no terminator.
    assert forall|j: int| 4 <= j < s1.len() implies #[trigger] s1[j] != '\x07' && s1[j] != '\x1b' by {
        assert(s1[j] == (a + b)[j - 4]);
    }
    lemma_term_none(s1, 4);
    assert(osc7_start_at(s1, 0));
    assert(scan_from(s1, 0, None, 0) == (None::<Seq<char>>, 0int));
    assert(s1.skip(0) =~= s1);
    lemma_bytes_len_concat(h, a);
    assert(h.drop_last().drop_last().drop_last().drop_last() =~= Seq::<char>::empty());
    assert(bytes_len(h) == 4) by {
        reveal_with_fuel(bytes_len, 5);
        assert(h.drop_last() =~= seq!['\x1b', ']', '7']);
        assert(h.drop_last().drop_last() =~= seq!['\x1b', ']']);
        assert(h.drop_last().drop_last().drop_last() =~= seq!['\x1b']);
    }
    lemma_suffix_fit_all(s1, 512);
    assert forall|j: int| 2 <= j < s1.len() implies #[trigger] s1[j] != '\x1b' by {
        if j >= 4 {
            assert(s1[j] == (a + b)[j - 4]);
        }
    }
    lemma_rfind_only_head(s1, s1.len() as int);
    assert(s1.take(s1.len() as int) =~= s1);
    assert(carry_window(s1) == s1);
    // Second chunk completes it.
    let s2 = (h + a) + (b + seq!['\x07']);
    assert(s2 =~= Seq::<char>::empty() + (h + (a + b) + seq!['\x07']));
    assert(s2.last() == '\x07');
    assert forall|j: int| 4 <= j < s2.len() - 1 implies #[trigger] s2[j] != '\x07' && s2[j] != '\x1b' by {
        assert(s2[j] == (a + b)[j - 4]);
    }
    lemma_term_at_end(s2, 4);
    assert(osc7_start_at(s2, 0));
    assert(s2.subrange(4, s2.len() - 1) =~= a + b);
    let n = s2.len() as int;
    assert(scan_from(s2, n, parse_osc7_spec(a + b), n) == (parse_osc7_spec(a + b), n));
    assert(scan_from(s2, 0, None, 0) == (parse_osc7_spec(a + b), n));
    assert(s2.skip(n) =~= Seq::<char>::empty());
    assert(suffix_fit(Seq::<char>::empty(), 512) == 0);
    assert(Seq::<char>::empty().skip(0) =~= Seq::<char>::empty());
}


/// A `file://` report names the directory from the first `/` after the
/// host on: `file://H/P` gives `/P` percent-decoded, for every host `H`
/// without a `/` (the empty host included).
pub proof fn file_url_path_starts_after_the_host(host: Seq<char>, path: Seq<char>)
    requires
        !host.contains('/'),
        path.len() > 0,
        path[0] == '/',
    ensures
        parse_osc7_spec("file://"@ + host + path) == decode_abs_spec(path),
        !path.contains('%') ==> parse_osc7_spec("file://"@ + host + path) == Some(path),
{
    if !path.contains('%') {
        crate::escapes::unescaped_text_decodes_to_itself(path);
    }
    reveal_strlit("file://");
    let data = "file://"@ + host + path;
    assert(data.take(7) =~= "file://"@);
    let rest = data.skip(7);
    assert(rest =~= host + path);
    crate::text::lemma_find_spec(rest, '/');
    assert(rest[host.len() as int] == '/');
    assert forall|k: int| 0 <= k < host.len() implies rest[k] != '/' by {
        assert(rest[k] == host[k]);
    }
    assert(find(rest, '/') == Some(host.len() as int));
    assert(rest.skip(host.len() as int) =~= path);
}

/// A bare absolute path without escapes and surrounding blanks is reported
/// as it stands.
pub proof fn plain_paths_come_back_unchanged(path: Seq<char>)
    requires
        path.len() > 0,
        path[0] == '/',
        trim(path) == path,
        !path.contains('%'),
    ensures
        parse_osc7_spec(path) == Some(path),
{
    reveal_strlit("file://");
    assert(!starts_with(path, "file://"@)) by {
        if starts_with(path, "file://"@) {
            assert(path.take(7)[0] == path[0]);
        }
    }
    crate::escapes::unescaped_text_decodes_to_itself(path);
}
} // verus!
