//! Editor and terminal text rules: which tokens are file paths (Ctrl-hover
//! links), language names from file names, LSP UTF-16 columns, tab titles
//! and the UI zoom chord.

use vstd::prelude::*;
use vstd::utf8::*;

use crate::diff::{lines_of, text_lines};
use crate::strs::str_eq;
use crate::terminal::{is_word_char, word_bounds_at_column, word_char};
use crate::text::{
    concat, is_ascii_alpha, replace_char, replace_chars, all_digits, chars_of, contains_char, decimal, decimal_chars, ends_with, ends_with_chars,
    lower_ascii, lower_chars, rfind, rfind_char, rfind_set, rfind_set_chars, slice_vec,
    starts_with, string_of, strip_end, strip_end_chars, CharSet,
};

verus! {

/// What `char::is_alphabetic` returns (the Unicode `Alphabetic` property).
pub uninterp spec fn unicode_alphabetic(c: char) -> bool;

/// `char::is_alphabetic`: true for Unicode letters. For ASCII that is
/// exactly `A`–`Z` and `a`–`z`.
#[verifier::external_body]
fn is_alphabetic(c: char) -> (r: bool)
    ensures
        r == unicode_alphabetic(c),
        (c as u32) < 0x80 ==> r == (('a' <= c <= 'z') || ('A' <= c <= 'Z')),
{
    c.is_alphabetic()
}

/// A letter: for ASCII `A`–`Z` and `a`–`z`, beyond ASCII what
/// `char::is_alphabetic` says.
pub open spec fn letter(c: char) -> bool {
    if (c as u32) < 0x80 {
        is_ascii_alpha(c)
    } else {
        unicode_alphabetic(c)
    }
}

/// The last `/`- or `\`-separated piece of a token.
pub open spec fn leaf(token: Seq<char>) -> Seq<char> {
    match rfind_set(token, CharSet::PathSeparators) {
        Some(k) => token.skip(k + 1),
        None => token,
    }
}

/// A token reads as a path: it has a separator, starts with `~`, or its
/// last piece has a dot and a letter (`main.rs`).
pub open spec fn looks_like_path(token: Seq<char>) -> bool {
    token.contains('/') || token.contains('\\') || (token.len() > 0 && token[0] == '~') || (leaf(
        token,
    ).contains('.') && exists|i: int| 0 <= i < leaf(token).len() && #[trigger] letter(leaf(token)[i]))
}

fn has_letter(v: &[char], lo: usize) -> (r: bool)
    requires
        lo <= v@.len(),
    ensures
        r == exists|i: int| 0 <= i < v@.skip(lo as int).len() && #[trigger] letter(v@.skip(lo as int)[i]),
{
    let ghost s = v@.skip(lo as int);
    let mut i = lo;
    while i < v.len()
        invariant
            lo <= i <= v@.len(),
            s == v@.skip(lo as int),
            forall|j: int| 0 <= j < i - lo ==> !#[trigger] letter(s[j]),
        decreases v.len() - i,
    {
        if is_alphabetic(v[i]) {
            proof {
                assert(s[i - lo] == v@[i as int]);
                assert(letter(s[i - lo]));
            }
            return true;
        }
        proof {
            assert(s[i - lo] == v@[i as int]);
        }
        i += 1;
    }
    false
}

fn token_is_path(token: &[char]) -> (r: bool)
    ensures
        r == looks_like_path(token@),
{
    if contains_char(token, '/') || contains_char(token, '\\') || (token.len() > 0 && token[0]
        == '~') {
        return true;
    }
    let n = token.len();
    let lo = match rfind_set_chars(token, n, CharSet::PathSeparators) {
        Some(k) => k + 1,
        None => 0,
    };
    proof {
        assert(token@.take(n as int) =~= token@);
        assert(token@.skip(0) =~= token@);
    }
    let leaf_v = slice_vec(token, lo, n);
    proof {
        assert(leaf_v@ =~= leaf(token@));
        assert(token@.skip(lo as int) =~= leaf(token@));
    }
    contains_char(&leaf_v, '.') && has_letter(token, lo)
}

/// The word run at `column` spans `start..end`.
pub open spec fn is_word_run(line: Seq<char>, column: int, start: int, end: int) -> bool {
    &&& 0 <= start <= column < end <= line.len()
    &&& forall|i: int| start <= i < end ==> is_word_char(#[trigger] line[i])
    &&& start == 0 || !is_word_char(line[start - 1])
    &&& end == line.len() || !is_word_char(line[end])
}

/// Character range of the path under `column` in a terminal line, for a
/// Ctrl-hover link. Words that do not look like paths get none.
pub fn terminal_link_range(line: &str, column: usize) -> (r: Option<(usize, usize)>)
    ensures
        match r {
            Some((s, e)) => is_word_run(line@, column as int, s as int, e as int) && looks_like_path(
                line@.subrange(s as int, e as int),
            ),
            None => forall|s: int, e: int|
                is_word_run(line@, column as int, s, e) ==> !looks_like_path(line@.subrange(s, e)),
        },
{
    let bounds = word_bounds_at_column(line, column);
    match bounds {
        None => {
            proof {
                assert forall|s: int, e: int| is_word_run(line@, column as int, s, e) implies !looks_like_path(
                    line@.subrange(s, e),
                ) by {
                    assert(is_word_char(line@[column as int]));
                }
            }
            None
        },
        Some((start, end)) => {
            let chars = chars_of(line);
            let token = slice_vec(&chars, start, end);
            if token_is_path(&token) {
                Some((start, end))
            } else {
                proof {
                    assert forall|s: int, e: int| is_word_run(line@, column as int, s, e) implies !looks_like_path(
                        line@.subrange(s, e),
                    ) by {
                        if s < start {
                            assert(is_word_char(line@[start - 1]));
                        }
                        if s > start {
                            assert(is_word_char(line@[s - 1]));
                        }
                        if e < end {
                            assert(is_word_char(line@[e as int]));
                        }
                        if e > end {
                            assert(is_word_char(line@[end as int]));
                        }
                        assert(s == start && e == end);
                    }
                }
                None
            }
        },
    }
}

/// A hover candidate becomes a link only with the secondary modifier (Ctrl,
/// or Cmd on macOS) held alone.
pub fn terminal_link_hover(
    candidate: Option<(usize, usize, usize)>,
    shift: bool,
    alt: bool,
    secondary: bool,
) -> (r: Option<(usize, usize, usize)>)
    ensures
        r == (if !shift && !alt && secondary {
            candidate
        } else {
            None
        }),
{
    if !shift && !alt && secondary {
        candidate
    } else {
        None
    }
}

/// Ctrl+Shift with `=` or `+` zooms the UI in.
pub fn is_ui_zoom_in_chord(key: &str, key_char: Option<&str>, control: bool, shift: bool, alt: bool) -> (r: bool)
    ensures
        r == (control && shift && !alt && (key@ == "="@ || key@ == "+"@ || (key_char is Some
            && key_char->0@ == "+"@))),
{
    control && shift && !alt && (str_eq(key, "=") || str_eq(key, "+") || match key_char {
        Some(k) => str_eq(k, "+"),
        None => false,
    })
}

/// UTF-8 length of a scalar (`char::len_utf8`).
pub open spec fn utf8_width(c: char) -> nat {
    encode_scalar(c as u32).len()
}

fn len_utf8(c: char) -> (r: usize)
    ensures
        r == utf8_width(c),
        1 <= r <= 4,
{
    let u = c as u32;
    proof {
        vstd::utf8::char_is_scalar(c);
    }
    if u <= 0x7F {
        1
    } else if u <= 0x7FF {
        2
    } else if u <= 0xFFFF {
        3
    } else {
        4
    }
}

proof fn lemma_encode_push(s: Seq<char>, c: char)
    ensures
        encode_utf8(s.push(c)) == encode_utf8(s) + encode_scalar(c as u32),
    decreases s.len(),
{
    if s.len() == 0 {
        assert(s.push(c).drop_first() =~= Seq::<char>::empty());
        assert(encode_utf8(s.push(c).drop_first()) =~= Seq::<u8>::empty());
        assert(encode_utf8(s.push(c)) =~= encode_scalar(c as u32));
        assert(encode_utf8(s) =~= Seq::<u8>::empty());
        assert(Seq::<u8>::empty() + encode_scalar(c as u32) =~= encode_scalar(c as u32));
    } else {
        assert(s.push(c).drop_first() =~= s.drop_first().push(c));
        lemma_encode_push(s.drop_first(), c);
        assert(encode_utf8(s.push(c)) =~= encode_utf8(s) + encode_scalar(c as u32));
    }
}

proof fn lemma_encode_split(s: Seq<char>, k: int)
    requires
        0 <= k <= s.len(),
    ensures
        encode_utf8(s) == encode_utf8(s.take(k)) + encode_utf8(s.skip(k)),
    decreases k,
{
    if k == 0 {
        assert(s.take(0) =~= Seq::<char>::empty());
        assert(s.skip(0) =~= s);
        assert(encode_utf8(s.take(0)) =~= Seq::<u8>::empty());
        assert(encode_utf8(s) =~= Seq::<u8>::empty() + encode_utf8(s));
    } else {
        lemma_encode_split(s.drop_first(), k - 1);
        assert(s.drop_first().take(k - 1) =~= s.take(k).drop_first());
        assert(s.drop_first().skip(k - 1) =~= s.skip(k));
        assert(s.take(k)[0] == s[0]);
        assert(encode_utf8(s) =~= encode_utf8(s.take(k)) + encode_utf8(s.skip(k)));
    }
}

/// Byte offset of character `k` in the UTF-8 text of `s`.
pub open spec fn byte_offset(s: Seq<char>, k: int) -> int {
    encode_utf8(s.take(k)).len() as int
}

/// The candidate path tokens of `c` from `i` on, as character ranges, with
/// `start` the beginning of the word run in progress. The end of the line
/// closes a run like a blank would.
pub open spec fn path_runs(c: Seq<char>, i: int, start: Option<int>) -> Seq<(int, int)>
    decreases c.len() + 1 - i,
{
    if i < 0 || i > c.len() {
        Seq::empty()
    } else if i < c.len() && is_word_char(c[i]) {
        path_runs(
            c,
            i + 1,
            if start is None {
                Some(i)
            } else {
                start
            },
        )
    } else {
        match start {
            Some(b) => (if looks_like_path(c.subrange(b, i)) {
                seq![(b, i)]
            } else {
                Seq::empty()
            }) + path_runs(c, i + 1, None),
            None => path_runs(c, i + 1, None),
        }
    }
}

/// A path token: its UTF-8 byte range and its first character's column.
pub open spec fn token_entry(c: Seq<char>, run: (int, int)) -> (int, int, int) {
    (byte_offset(c, run.0), byte_offset(c, run.1), run.0)
}

pub open spec fn tokens_view(v: Seq<(core::ops::Range<usize>, u32)>) -> Seq<(int, int, int)> {
    v.map_values(|t: (core::ops::Range<usize>, u32)| (t.0.start as int, t.0.end as int, t.1 as int))
}

/// Candidate path tokens and their character columns in one editor line.
/// Ranges are UTF-8 byte offsets, as editor decorations need.
pub fn editor_path_tokens(line: &str) -> (r: Vec<(core::ops::Range<usize>, u32)>)
    requires
        line@.len() < u32::MAX,
        encode_utf8(line@).len() <= usize::MAX,
    ensures
        tokens_view(r@) == path_runs(line@, 0, None).map_values(|run: (int, int)| token_entry(line@, run)),
{
    let c = chars_of(line);
    let n = c.len();
    let ghost cs = c@;
    let ghost all = path_runs(cs, 0, None).map_values(|run: (int, int)| token_entry(cs, run));
    let mut out: Vec<(core::ops::Range<usize>, u32)> = Vec::new();
    let mut start: Option<(usize, usize)> = None;
    let mut byte: usize = 0;
    let mut i: usize = 0;
    proof {
        assert(cs.take(0) =~= Seq::<char>::empty());
    }
    while i <= n
        invariant
            i <= n + 1,
            n == cs.len(),
            c@ == cs,
            cs == line@,
            n < u32::MAX,
            encode_utf8(cs).len() <= usize::MAX,
            i <= n ==> byte == byte_offset(cs, i as int),
            match start {
                Some((b, cb)) => cb < i && b == byte_offset(cs, cb as int),
                None => true,
            },
            all == path_runs(cs, 0, None).map_values(|run: (int, int)| token_entry(cs, run)),
            i <= n ==> tokens_view(out@) + path_runs(cs, i as int, match start {
                Some((b, cb)) => Some(cb as int),
                None => None,
            }).map_values(|run: (int, int)| token_entry(cs, run)) == all,
            i > n ==> tokens_view(out@) == all,
        decreases n + 1 - i,
    {
        let ghost before = tokens_view(out@);
        let ghost st = match start {
            Some((b, cb)) => Some(cb as int),
            None => None,
        };
        let word = i < n && word_char(c[i]);
        if word {
            if start.is_none() {
                start = Some((byte, i));
            }
        } else if let Some((b, cb)) = start {
            let token = slice_vec(&c, cb, i);
            if token_is_path(&token) {
                out.push((core::ops::Range { start: b, end: byte }, cb as u32));
            }
            start = None;
        }
        proof {
            let rest = path_runs(cs, i + 1, match start {
                Some((b, cb)) => Some(cb as int),
                None => None,
            });
            assert(path_runs(cs, i as int, st).map_values(|run: (int, int)| token_entry(cs, run))
                =~= (tokens_view(out@).skip(before.len() as int)) + rest.map_values(
                |run: (int, int)| token_entry(cs, run),
            )) by {
                if !word {
                    if let Some(b0) = st {
                        if looks_like_path(cs.subrange(b0, i as int)) {
                            assert(tokens_view(out@).skip(before.len() as int) =~= seq![
                                token_entry(cs, (b0, i as int)),
                            ]);
                        } else {
                            assert(tokens_view(out@).skip(before.len() as int) =~= Seq::<(int, int, int)>::empty());
                        }
                    } else {
                        assert(tokens_view(out@).skip(before.len() as int) =~= Seq::<(int, int, int)>::empty());
                    }
                } else {
                    assert(tokens_view(out@).skip(before.len() as int) =~= Seq::<(int, int, int)>::empty());
                }
            }
            assert(tokens_view(out@) =~= before + tokens_view(out@).skip(before.len() as int));
        }
        if i < n {
            proof {
                assert(cs.take(i + 1) =~= cs.take(i as int).push(cs[i as int]));
                lemma_encode_push(cs.take(i as int), cs[i as int]);
            }
            let w = len_utf8(c[i]);
            proof {
                assert(byte + w == byte_offset(cs, i + 1));
                lemma_encode_split(cs, i + 1);
            }
            byte = byte + w;
        } else {
            proof {
                assert(path_runs(cs, i + 1, None) =~= Seq::<(int, int)>::empty());
            }
        }
        i += 1;
    }
    out
}

/// UTF-16 code units of a scalar (`char::len_utf16`).
pub open spec fn utf16_width(c: char) -> int {
    if (c as u32) >= 0x10000 {
        2
    } else {
        1
    }
}

/// How many leading scalars of `s` fit in `budget` UTF-16 units.
pub open spec fn scalars_within(s: Seq<char>, budget: int) -> nat
    decreases s.len(),
{
    if s.len() == 0 || utf16_width(s[0]) > budget {
        0
    } else {
        1 + scalars_within(s.drop_first(), budget - utf16_width(s[0]))
    }
}

pub open spec fn utf16_column_spec(text: Seq<char>, line: int, utf16_col: int) -> nat {
    if 0 <= line < lines_of(text).len() {
        scalars_within(lines_of(text)[line], utf16_col)
    } else {
        0
    }
}

/// Turn an LSP (UTF-16) column on line `line` into a scalar column.
pub fn utf16_to_scalar_column(text: &str, line: u32, utf16_col: u32) -> (r: u32)
    ensures
        r == utf16_column_spec(text@, line as int, utf16_col as int),
{
    let lines = text_lines(text);
    if line as usize >= lines.len() {
        return 0;
    }
    let content = chars_of(lines[line as usize].as_str());
    let ghost s = content@;
    let mut units: u64 = 0;
    let mut scalars: u32 = 0;
    let mut i: usize = 0;
    proof {
        assert(s.skip(0) =~= s);
        assert(lines.deep_view()[line as int] == lines@[line as int]@);
    }
    while i < content.len()
        invariant
            i <= s.len(),
            s == content@,
            0 <= line < lines_of(text@).len(),
            s == lines_of(text@)[line as int],
            units <= utf16_col,
            scalars == i,
            scalars <= units,
            scalars_within(s, utf16_col as int) == i + scalars_within(s.skip(i as int), utf16_col
                - units),
        decreases content.len() - i,
    {
        let w: u64 = if (content[i] as u32) >= 0x10000 {
            2
        } else {
            1
        };
        proof {
            assert(s.skip(i as int)[0] == s[i as int]);
            assert(s.skip(i as int).drop_first() =~= s.skip(i + 1));
        }
        if units + w > utf16_col as u64 {
            return scalars;
        }
        units = units + w;
        scalars = scalars + 1;
        i += 1;
    }
    proof {
        assert(s.skip(i as int) =~= Seq::<char>::empty());
    }
    scalars
}

/// `str::rsplit(sep).next()`: the text after the last separator.
pub open spec fn after_last(s: Seq<char>, set: CharSet) -> Seq<char> {
    match rfind_set(s, set) {
        Some(k) => s.skip(k + 1),
        None => s,
    }
}

pub open spec fn after_last_dot(s: Seq<char>) -> Seq<char> {
    match rfind(s, '.') {
        Some(k) => s.skip(k + 1),
        None => s,
    }
}

/// A rotated or trace log: `.log`, `.logs`, `.trace`, or `.log.N` /
/// `.trace.N` with a numeric suffix.
pub open spec fn is_log_name(filename: Seq<char>) -> bool {
    let ext = after_last_dot(filename);
    ext == "log"@ || ext == "logs"@ || ext == "trace"@ || (all_digits(ext) && match rfind(
        filename,
        '.',
    ) {
        Some(k) => ends_with(filename.take(k), ".log"@) || ends_with(filename.take(k), ".trace"@),
        None => false,
    })
}

/// The language registered for a file extension.
pub open spec fn language_for_ext(ext: Seq<char>) -> Option<Seq<char>> {
    if ext == "rs"@ {
        Some("rust"@)
    } else if ext == "ts"@ {
        Some("typescript"@)
    } else if ext == "tsx"@ {
        Some("tsx"@)
    } else if ext == "js"@ || ext == "jsx"@ || ext == "mjs"@ {
        Some("javascript"@)
    } else if ext == "py"@ {
        Some("python"@)
    } else if ext == "go"@ {
        Some("go"@)
    } else if ext == "toml"@ {
        Some("toml"@)
    } else if ext == "json"@ || ext == "jsonc"@ {
        Some("json"@)
    } else if ext == "md"@ || ext == "markdown"@ {
        Some("markdown"@)
    } else if ext == "sh"@ || ext == "bash"@ || ext == "zsh"@ {
        Some("bash"@)
    } else if ext == "css"@ {
        Some("css"@)
    } else if ext == "html"@ || ext == "htm"@ {
        Some("html"@)
    } else if ext == "yml"@ || ext == "yaml"@ {
        Some("yaml"@)
    } else if ext == "c"@ || ext == "h"@ {
        Some("c"@)
    } else if ext == "cc"@ || ext == "cpp"@ || ext == "cxx"@ || ext == "hh"@ || ext == "hpp"@ || ext
        == "hxx"@ {
        Some("cpp"@)
    } else {
        None
    }
}

/// The editor language for `path`: logs first, then the language the
/// server reported, then the extension.
pub open spec fn language_spec(path: Seq<char>, reported: Option<Seq<char>>) -> Option<Seq<char>> {
    let filename = lower_ascii(after_last(path, CharSet::PathSeparators));
    if is_log_name(filename) {
        Some("log"@)
    } else if reported is Some && reported->0.len() > 0 {
        reported
    } else {
        language_for_ext(after_last_dot(filename))
    }
}

fn ext_language(ext: &str) -> (r: Option<&'static str>)
    ensures
        match r {
            Some(l) => language_for_ext(ext@) == Some(l@),
            None => language_for_ext(ext@) is None,
        },
{
    if str_eq(ext, "rs") {
        Some("rust")
    } else if str_eq(ext, "ts") {
        Some("typescript")
    } else if str_eq(ext, "tsx") {
        Some("tsx")
    } else if str_eq(ext, "js") || str_eq(ext, "jsx") || str_eq(ext, "mjs") {
        Some("javascript")
    } else if str_eq(ext, "py") {
        Some("python")
    } else if str_eq(ext, "go") {
        Some("go")
    } else if str_eq(ext, "toml") {
        Some("toml")
    } else if str_eq(ext, "json") || str_eq(ext, "jsonc") {
        Some("json")
    } else if str_eq(ext, "md") || str_eq(ext, "markdown") {
        Some("markdown")
    } else if str_eq(ext, "sh") || str_eq(ext, "bash") || str_eq(ext, "zsh") {
        Some("bash")
    } else if str_eq(ext, "css") {
        Some("css")
    } else if str_eq(ext, "html") || str_eq(ext, "htm") {
        Some("html")
    } else if str_eq(ext, "yml") || str_eq(ext, "yaml") {
        Some("yaml")
    } else if str_eq(ext, "c") || str_eq(ext, "h") {
        Some("c")
    } else if str_eq(ext, "cc") || str_eq(ext, "cpp") || str_eq(ext, "cxx") || str_eq(ext, "hh")
        || str_eq(ext, "hpp") || str_eq(ext, "hxx") {
        Some("cpp")
    } else {
        None
    }
}

fn all_digit_chars(v: &[char]) -> (r: bool)
    ensures
        r == all_digits(v@),
{
    let mut i: usize = 0;
    while i < v.len()
        invariant
            i <= v@.len(),
            forall|j: int| 0 <= j < i ==> crate::text::is_ascii_digit(#[trigger] v@[j]),
        decreases v.len() - i,
    {
        if !('0' <= v[i] && v[i] <= '9') {
            return false;
        }
        i += 1;
    }
    true
}

/// The editor language for a file: log files first, then the language the
/// server reported, then the extension.
pub fn language_from_path(path: &str, reported: Option<&str>) -> (r: Option<String>)
    ensures
        r.deep_view() == language_spec(path@, match reported {
            Some(s) => Some(s@),
            None => None,
        }),
{
    let p = chars_of(path);
    let n = p.len();
    let name_start = match rfind_set_chars(&p, n, CharSet::PathSeparators) {
        Some(k) => k + 1,
        None => 0,
    };
    proof {
        assert(p@.take(n as int) =~= p@);
        assert(p@.skip(0) =~= p@);
    }
    let filename = lower_chars(&slice_vec(&p, name_start, n));
    proof {
        assert(slice_vec_view(p@, name_start as int, n as int) == after_last(p@, CharSet::PathSeparators));
    }
    let fl = filename.len();
    let dot = rfind_char(&filename, fl, '.');
    proof {
        assert(filename@.take(fl as int) =~= filename@);
        assert(filename@.skip(0) =~= filename@);
    }
    let ext = match dot {
        Some(k) => slice_vec(&filename, k + 1, fl),
        None => slice_vec(&filename, 0, fl),
    };
    proof {
        assert(ext@ =~= after_last_dot(filename@));
    }
    let ext_s = string_of(&ext);
    let is_log = str_eq(ext_s.as_str(), "log") || str_eq(ext_s.as_str(), "logs") || str_eq(
        ext_s.as_str(),
        "trace",
    ) || (all_digit_chars(&ext) && match dot {
        Some(k) => {
            let base = slice_vec(&filename, 0, k);
            proof {
                assert(base@ =~= filename@.take(k as int));
            }
            ends_with_chars(&base, &chars_of(".log")) || ends_with_chars(&base, &chars_of(".trace"))
        },
        None => false,
    });
    if is_log {
        return Some("log".to_string());
    }
    if let Some(lang) = reported {
        if !lang.is_empty() {
            return Some(string_of(&chars_of(lang)));
        }
    }
    match ext_language(ext_s.as_str()) {
        Some(name) => Some(string_of(&chars_of(name))),
        None => None,
    }
}

pub open spec fn slice_vec_view(s: Seq<char>, lo: int, hi: int) -> Seq<char> {
    s.subrange(lo, hi)
}

/// Label shown on a tab for this client session.
///
/// `workspace_id` is the daemon workspace that owns this tab. Numbers restart
/// inside each workspace.
#[derive(Clone, Debug)]
pub struct SessionTabTitle {
    pub label: String,
    pub custom: bool,
    pub workspace_id: Option<String>,
}

impl SessionTabTitle {
    /// The default title of the `n`-th terminal: its number.
    pub fn numbered(n: u32) -> (t: Self)
        ensures
            t.label@ == decimal(n as nat),
            !t.custom,
            t.workspace_id is None,
    {
        SessionTabTitle { label: terminal_title(n), custom: false, workspace_id: None }
    }
}

/// Terminal titles are plain numbers: the first terminal is `1`, the next
/// is `2`, …
pub fn terminal_title(n: u32) -> (r: String)
    ensures
        r@ == decimal(n as nat),
{
    string_of(&decimal_chars(n as u128))
}

/// End (exclusive) of the line that starts at `from`: just past the next
/// `\n`, or the end of the text.
pub open spec fn line_end(c: Seq<char>, from: int) -> int
    decreases c.len() - from,
{
    if from >= c.len() {
        c.len() as int
    } else if c[from] == '\n' {
        from + 1
    } else {
        line_end(c, from + 1)
    }
}

pub proof fn lemma_line_end(c: Seq<char>, from: int)
    requires
        0 <= from < c.len(),
    ensures
        from < line_end(c, from) <= c.len(),
        forall|j: int| from <= j < line_end(c, from) - 1 ==> c[j] != '\n',
        line_end(c, from) < c.len() ==> c[line_end(c, from) - 1] == '\n',
    decreases c.len() - from,
{
    if c[from] != '\n' {
        if from + 1 < c.len() {
            lemma_line_end(c, from + 1);
        } else {
            assert(line_end(c, from + 1) == c.len());
        }
        assert forall|j: int| from <= j < line_end(c, from) - 1 implies c[j] != '\n' by {
            if j > from {
                assert(from + 1 <= j < line_end(c, from + 1) - 1);
            }
        }
    }
}

proof fn lemma_path_runs_bounds(c: Seq<char>, i: int, start: Option<int>)
    requires
        0 <= i,
        start matches Some(b) ==> 0 <= b < i,
    ensures
        forall|k: int|
            0 <= k < path_runs(c, i, start).len() ==> 0 <= (#[trigger] path_runs(c, i, start)[k]).0
                < path_runs(c, i, start)[k].1 <= c.len(),
    decreases c.len() + 1 - i,
{
    if i < 0 || i > c.len() {
    } else if i < c.len() && is_word_char(c[i]) {
        let next = if start is None {
            Some(i)
        } else {
            start
        };
        lemma_path_runs_bounds(c, i + 1, next);
        assert(path_runs(c, i, start) == path_runs(c, i + 1, next));
    } else {
        lemma_path_runs_bounds(c, i + 1, None);
        if start is None {
            assert(path_runs(c, i, start) == path_runs(c, i + 1, None));
        }
        let rest = path_runs(c, i + 1, None);
        match start {
            Some(b) => {
                let head: Seq<(int, int)> = if looks_like_path(c.subrange(b, i)) {
                    seq![(b, i)]
                } else {
                    Seq::empty()
                };
                let all = head + rest;
                assert(path_runs(c, i, start) == all);
                assert forall|k: int| 0 <= k < all.len() implies 0 <= (#[trigger] all[k]).0 < all[k].1 <= c.len() by {
                    if k >= head.len() {
                        assert(all[k] == rest[k - head.len()]);
                    }
                }
            },
            None => {},
        }
    }
}

/// The path-token candidates of one line: the line, the token's first
/// character column, and its byte range in the whole text (`base` is the
/// line's first byte).
pub open spec fn line_candidates(line: Seq<char>, base: int) -> Seq<(Seq<char>, int, int, int)> {
    path_runs(line, 0, None).map_values(
        |run: (int, int)|
            {
                let t = token_entry(line, run);
                (line, t.2, base + t.0, base + t.1)
            },
    )
}

/// Path-token candidates of `c` from the line starting at `from` on. Lines
/// are split after each `\n` and lose their trailing `\r`/`\n`.
pub open spec fn path_candidates(c: Seq<char>, from: int) -> Seq<(Seq<char>, int, int, int)>
    decreases c.len() - from,
{
    if from < 0 || from >= c.len() {
        Seq::empty()
    } else {
        let e = line_end(c, from);
        proof {
            lemma_line_end(c, from);
        }
        line_candidates(strip_end(c.subrange(from, e), CharSet::LineEnd), byte_offset(c, from))
            + path_candidates(c, e)
    }
}

pub open spec fn candidates_view(v: Seq<(String, u32, core::ops::Range<usize>)>) -> Seq<(Seq<char>, int, int, int)> {
    v.map_values(
        |x: (String, u32, core::ops::Range<usize>)|
            (x.0@, x.1 as int, x.2.start as int, x.2.end as int),
    )
}

proof fn lemma_strip_end_prefix(s: Seq<char>, set: CharSet)
    ensures
        strip_end(s, set).len() <= s.len(),
        strip_end(s, set) == s.take(strip_end(s, set).len() as int),
    decreases s.len(),
{
    if s.len() > 0 && crate::text::in_set(set, s.last()) {
        lemma_strip_end_prefix(s.drop_last(), set);
        let t = strip_end(s.drop_last(), set);
        assert(s.drop_last().take(t.len() as int) =~= s.take(t.len() as int));
    } else {
        assert(s.take(s.len() as int) =~= s);
    }
}

proof fn lemma_encode_prefix(s: Seq<char>, k: int)
    requires
        0 <= k <= s.len(),
    ensures
        encode_utf8(s.take(k)).len() <= encode_utf8(s).len(),
{
    lemma_encode_split(s, k);
}

/// Every path-token candidate of an editor text, in text order: the line
/// (without its line break), the token's first character column in it, and
/// the token's UTF-8 byte range in the whole text. Which one lies under the
/// pointer is for the editor's layout to say.
pub fn editor_path_candidates(text: &str) -> (r: Vec<(String, u32, core::ops::Range<usize>)>)
    requires
        text@.len() < u32::MAX,
        encode_utf8(text@).len() <= usize::MAX,
    ensures
        candidates_view(r@) == path_candidates(text@, 0),
{
    let c = chars_of(text);
    let n = c.len();
    let ghost cs = c@;
    let mut out: Vec<(String, u32, core::ops::Range<usize>)> = Vec::new();
    let mut from: usize = 0;
    let mut base: usize = 0;
    proof {
        assert(cs.take(0) =~= Seq::<char>::empty());
    }
    while from < n
        invariant
            cs == c@,
            cs == text@,
            n == cs.len(),
            n < u32::MAX,
            encode_utf8(cs).len() <= usize::MAX,
            from <= n,
            base == byte_offset(cs, from as int),
            candidates_view(out@) + path_candidates(cs, from as int) == path_candidates(cs, 0),
        decreases n - from,
    {
        proof {
            lemma_line_end(cs, from as int);
        }
        let ghost e_spec = line_end(cs, from as int);
        // Scan to the end of the line, counting its bytes.
        let mut e: usize = from;
        let mut next_base: usize = base;
        let mut done = false;
        while e < n && !done
            invariant
                cs == c@,
                n == cs.len(),
                encode_utf8(cs).len() <= usize::MAX,
                from < n,
                e_spec == line_end(cs, from as int),
                from <= e <= e_spec,
                done ==> e == e_spec,
                !done ==> e < e_spec || e == n,
                forall|j: int| from <= j < e_spec - 1 ==> cs[j] != '\n',
                e_spec < cs.len() ==> cs[e_spec - 1] == '\n',
                e_spec <= cs.len(),
                next_base == byte_offset(cs, e as int),
            decreases n - e, if done { 0int } else { 1int },
        {
            proof {
                assert(cs.take(e + 1) =~= cs.take(e as int).push(cs[e as int]));
                lemma_encode_push(cs.take(e as int), cs[e as int]);
                lemma_encode_prefix(cs, e + 1);
            }
            let w = len_utf8(c[e]);
            next_base = next_base + w;
            if c[e] == '\n' {
                done = true;
            }
            e += 1;
        }
        let seg = slice_vec(&c, from, e);
        let line = strip_end_chars(&seg, CharSet::LineEnd);
        proof {
            lemma_strip_end_prefix(seg@, CharSet::LineEnd);
            assert(seg@ =~= cs.skip(from as int).take(e - from));
            assert(line@ =~= cs.skip(from as int).take(line@.len() as int));
            lemma_encode_split(cs, from as int);
            lemma_encode_prefix(cs.skip(from as int), line@.len() as int);
        }
        let line_str = string_of(&line);
        let toks = editor_path_tokens(line_str.as_str());
        proof {
            assert(base as int + encode_utf8(line@).len() <= usize::MAX);
        }
        let ghost lc = line_candidates(line@, base as int);
        let ghost before = candidates_view(out@);
        let ghost runs = path_runs(line@, 0, None);
        proof {
            assert(line_str@ == line@);
            assert(tokens_view(toks@) == path_runs(line_str@, 0, None).map_values(
                |run: (int, int)| token_entry(line_str@, run),
            ));
            assert(toks@.len() == runs.len());
            assert forall|k: int| 0 <= k < toks@.len() implies #[trigger] tokens_view(toks@)[k] == token_entry(line@, runs[k]) by {
                assert(tokens_view(toks@)[k] == path_runs(line_str@, 0, None).map_values(
                    |run: (int, int)| token_entry(line_str@, run),
                )[k]);
            }
            lemma_path_runs_bounds(line@, 0, None);
            assert forall|k: int| 0 <= k < toks@.len() implies (#[trigger] toks@[k]).0.end <= encode_utf8(line@).len()
                && toks@[k].0.start <= encode_utf8(line@).len() by {
                assert(tokens_view(toks@)[k] == token_entry(line@, runs[k]));
                assert(tokens_view(toks@)[k].1 == toks@[k].0.end);
                assert(tokens_view(toks@)[k].0 == toks@[k].0.start);
                lemma_encode_prefix(line@, runs[k].1);
                lemma_encode_prefix(line@, runs[k].0);
            }
        }
        let mut t: usize = 0;
        while t < toks.len()
            invariant
                line_str@ == line@,
                toks@.len() == runs.len(),
                forall|k: int| 0 <= k < toks@.len() ==> #[trigger] tokens_view(toks@)[k] == token_entry(line@, runs[k]),
                runs == path_runs(line@, 0, None),
                lc == line_candidates(line@, base as int),
                t <= toks@.len(),
                candidates_view(out@) == before + lc.take(t as int),
                base as int + encode_utf8(line@).len() <= usize::MAX,
                forall|k: int| 0 <= k < toks@.len() ==> (#[trigger] toks@[k]).0.end <= encode_utf8(line@).len()
                    && toks@[k].0.start <= encode_utf8(line@).len(),
            decreases toks.len() - t,
        {
            let (start, end, col) = (toks[t].0.start, toks[t].0.end, toks[t].1);
            proof {
                assert(tokens_view(toks@)[t as int] == (start as int, end as int, col as int));
                assert(lc[t as int] == (line@, col as int, base + start, base + end));
            }
            proof {
                assert(toks@[t as int].0.end <= encode_utf8(line@).len());
                assert(toks@[t as int].0.start <= encode_utf8(line@).len());
            }
            let entry = (line_str.clone(), col, core::ops::Range { start: base + start, end: base + end });
            let ghost prev = out@;
            out.push(entry);
            proof {
                assert(lc.take(t + 1) =~= lc.take(t as int).push(lc[t as int]));
                assert(out@ == prev.push(entry));
                assert(candidates_view(out@) =~= candidates_view(prev).push(lc[t as int]));
            }
            t += 1;
        }
        proof {
            assert(lc.take(t as int) =~= lc);
            assert(cs.subrange(from as int, e as int) =~= seg@);
        }
        from = e;
        base = next_base;
    }
    proof {
        assert(path_candidates(cs, from as int) =~= Seq::<(Seq<char>, int, int, int)>::empty());
        assert(candidates_view(out@) =~= candidates_view(out@) + Seq::<(Seq<char>, int, int, int)>::empty());
    }
    out
}


/// The label of a row in the editor's problems list:
/// `{line}:{column} {source}: {message}`, line and UTF-16 column counted
/// from 1, the source `LSP` when the server names none, newlines in the
/// message shown as spaces.
pub open spec fn diagnostic_label_spec(line: u32, utf16_col: u32, source: Option<Seq<char>>, message: Seq<char>) -> Seq<char> {
    decimal(line as nat + 1) + ":"@ + decimal(utf16_col as nat + 1) + " "@ + match source {
        Some(s) => s,
        None => "LSP"@,
    } + ": "@ + replace_char(message, '\n', ' ')
}

pub fn diagnostic_label(line: u32, utf16_col: u32, source: Option<&str>, message: &str) -> (r: String)
    ensures
        r@ == diagnostic_label_spec(line, utf16_col, match source {
            Some(s) => Some(s@),
            None => None,
        }, message@),
{
    let src = match source {
        Some(s) => chars_of(s),
        None => chars_of("LSP"),
    };
    let a = concat(&decimal_chars(line as u128 + 1), &chars_of(":"));
    let b = concat(&a, &decimal_chars(utf16_col as u128 + 1));
    let c = concat(&b, &chars_of(" "));
    let d = concat(&c, &src);
    let e = concat(&d, &chars_of(": "));
    let f = concat(&e, &replace_chars(&chars_of(message), '\n', ' '));
    string_of(&f)
}
} // verus!
