//! User-visible paths.
//!
//! Windows `canonicalize` stores the extended-length form (`\\?\C:\...`,
//! `\\?\UNC\server\share`). Anything a person reads should be a normal path,
//! so drive and UNC verbatim prefixes are removed for display.

use vstd::prelude::*;
use vstd::string::*;

use crate::text::{
    chars_of, concat, is_ascii_alpha, replace_char, replace_chars, slice_vec, starts_with,
    starts_with_chars, string_of, trim, trim_chars, trim_str, ends_with, ends_with_chars,
};

verus! {

/// A verbatim prefix at the start of `t`: how many characters to drop and
/// what to write instead.
pub open spec fn verbatim_match(t: Seq<char>) -> Option<(int, Seq<char>)> {
    if starts_with(t, "\\\\?\\UNC\\"@) || starts_with(t, "\\\\?\\UNC/"@) || starts_with(
        t,
        "//?/UNC/"@,
    ) || starts_with(t, "//?/UNC\\"@) {
        Some((8, "\\\\"@))
    } else if (starts_with(t, "\\\\?\\"@) || starts_with(t, "//?/"@)) && t.len() >= 6
        && is_ascii_alpha(t[4]) && t[5] == ':' {
        Some((4, Seq::empty()))
    } else {
        None
    }
}

/// `path` with one leading drive or UNC verbatim prefix replaced.
pub open spec fn display_path_spec(path: Seq<char>) -> Seq<char> {
    let p = trim(path);
    match verbatim_match(p) {
        Some((n, repl)) => repl + p.skip(n),
        None => p,
    }
}

/// Every verbatim prefix in `t` replaced, left to right.
pub open spec fn strip_all_verbatim(t: Seq<char>) -> Seq<char>
    decreases t.len(),
{
    if t.len() == 0 {
        Seq::empty()
    } else {
        match verbatim_match(t) {
            Some((n, repl)) => if 0 < n <= t.len() {
                repl + strip_all_verbatim(t.skip(n))
            } else {
                Seq::empty()
            },
            None => seq![t[0]] + strip_all_verbatim(t.skip(1)),
        }
    }
}

proof fn lemma_verbatim_len(t: Seq<char>)
    ensures
        match verbatim_match(t) {
            Some((n, _)) => 0 < n <= t.len(),
            None => true,
        },
{
    reveal_strlit("\\\\?\\UNC\\");
    reveal_strlit("\\\\?\\UNC/");
    reveal_strlit("//?/UNC/");
    reveal_strlit("//?/UNC\\");
}

/// If `text[at..]` begins with a verbatim prefix, how many characters to drop
/// and what to write instead.
fn match_verbatim(text: &[char], at: usize) -> (r: Option<(usize, Vec<char>)>)
    requires
        at <= text@.len(),
    ensures
        match r {
            Some((n, repl)) => verbatim_match(text@.skip(at as int)) == Some(
                (n as int, repl@),
            ),
            None => verbatim_match(text@.skip(at as int)) is None,
        },
{
    let t = slice_vec(text, at, text.len());
    proof {
        assert(t@ =~= text@.skip(at as int));
    }
    let unc = chars_of("\\\\");
    let u1 = chars_of("\\\\?\\UNC\\");
    let u2 = chars_of("\\\\?\\UNC/");
    let u3 = chars_of("//?/UNC/");
    let u4 = chars_of("//?/UNC\\");
    let d1 = chars_of("\\\\?\\");
    let d2 = chars_of("//?/");
    proof {
        reveal_strlit("\\\\?\\UNC\\");
        reveal_strlit("\\\\?\\UNC/");
        reveal_strlit("//?/UNC/");
        reveal_strlit("//?/UNC\\");
    }
    if starts_with_chars(&t, &u1) || starts_with_chars(&t, &u2) || starts_with_chars(&t, &u3)
        || starts_with_chars(&t, &u4) {
        return Some((8, unc));
    }
    if (starts_with_chars(&t, &d1) || starts_with_chars(&t, &d2)) && t.len() >= 6 {
        let letter = t[4];
        if (('a' <= letter && letter <= 'z') || ('A' <= letter && letter <= 'Z')) && t[5] == ':' {
            return Some((4, Vec::new()));
        }
    }
    None
}

/// A single path for display. Drive and UNC verbatim prefixes are removed.
/// Device paths (`\\?\Volume{...}`) and ordinary paths are left alone.
pub fn display_path(path: &str) -> (r: String)
    ensures
        r@ == display_path_spec(path@),
{
    string_of(&display_path_chars(&chars_of(path)))
}

/// Each path as [`display_path`] shows it, in order.
pub fn display_paths(paths: &[String]) -> (r: Vec<String>)
    ensures
        r@.len() == paths@.len(),
        forall|i: int| 0 <= i < paths@.len() ==> #[trigger] r@[i]@ == display_path_spec(paths@[i]@),
{
    let mut out: Vec<String> = Vec::new();
    let mut i: usize = 0;
    while i < paths.len()
        invariant
            i <= paths@.len(),
            out@.len() == i,
            forall|j: int| 0 <= j < i ==> #[trigger] out@[j]@ == display_path_spec(paths@[j]@),
        decreases paths.len() - i,
    {
        out.push(display_path(paths[i].as_str()));
        i += 1;
    }
    out
}

pub fn display_path_chars(path: &[char]) -> (r: Vec<char>)
    ensures
        r@ == display_path_spec(path@),
{
    let p = trim_chars(path);
    proof {
        assert(p@.skip(0) =~= p@);
    }
    match match_verbatim(&p, 0) {
        Some((n, repl)) => {
            proof {
                lemma_verbatim_len(p@);
            }
            let rest = slice_vec(&p, n, p.len());
            proof {
                assert(rest@ =~= p@.skip(n as int));
            }
            concat(&repl, &rest)
        },
        None => p,
    }
}

/// Paths entered in the host UI name directories on the daemon. Infer the
/// daemon's path syntax from paths it supplied, never from the client's OS.
pub fn daemon_uses_unix_paths(config_path: Option<&str>, roots: &[&str]) -> (r: bool)
    ensures
        r == ((match config_path {
            Some(p) => starts_with(p@, seq!['/']),
            None => false,
        }) || exists|i: int| 0 <= i < roots@.len() && starts_with(roots@[i]@, seq!['/'])),
{
    let slash = chars_of("/");
    proof {
        reveal_strlit("/");
        assert(slash@ =~= seq!['/']);
    }
    if let Some(p) = config_path {
        if starts_with_chars(&chars_of(p), &slash) {
            return true;
        }
    }
    let mut i: usize = 0;
    while i < roots.len()
        invariant
            i <= roots@.len(),
            slash@ == seq!['/'],
            forall|j: int| 0 <= j < i ==> !starts_with(roots@[j]@, seq!['/']),
        decreases roots.len() - i,
    {
        if starts_with_chars(&chars_of(roots[i]), &slash) {
            return true;
        }
        i += 1;
    }
    false
}

pub open spec fn unquote(p: Seq<char>) -> Seq<char> {
    if p.len() >= 2 && ((p[0] == '"' && p.last() == '"') || (p[0] == '\'' && p.last() == '\'')) {
        p.subrange(1, p.len() - 1)
    } else {
        p
    }
}

pub open spec fn windows_path_message() -> Seq<char> {
    "This is a Windows path; the remote daemon is Linux. Use an absolute Unix path like /home/user/project"@
}

pub open spec fn unix_path_message() -> Seq<char> {
    "Use an absolute Unix path starting with /, such as /home/user/project"@
}

pub open spec fn root_for_daemon_spec(input: Seq<char>, unix: bool) -> Result<Seq<char>, Seq<char>> {
    let p = unquote(trim(input));
    if !unix {
        Ok(p)
    } else if (p.len() >= 2 && is_ascii_alpha(p[0]) && p[1] == ':') || starts_with(p, "\\\\"@)
        || starts_with(p, "//"@) {
        Err(windows_path_message())
    } else if starts_with(p, seq!['\\']) {
        Err(unix_path_message())
    } else {
        Ok(replace_char(p, '\\', '/'))
    }
}

/// A workspace root typed in the host UI, in the daemon's path syntax.
/// Surrounding quotes are dropped. A Unix daemon refuses Windows paths and
/// gets `/` separators.
pub fn workspace_root_for_daemon(input: &str, unix_daemon: bool) -> (r: Result<String, &'static str>)
    ensures
        match (r, root_for_daemon_spec(input@, unix_daemon)) {
            (Ok(s), Ok(t)) => s@ == t,
            (Err(e), Err(t)) => e@ == t,
            _ => false,
        },
{
    let t = trim_str(input);
    let n = t.len();
    let p = if n >= 2 && ((t[0] == '"' && t[n - 1] == '"') || (t[0] == '\'' && t[n - 1] == '\'')) {
        slice_vec(&t, 1, n - 1)
    } else {
        t
    };
    if !unix_daemon {
        return Ok(string_of(&p));
    }
    let bs2 = chars_of("\\\\");
    let fs2 = chars_of("//");
    let bs = chars_of("\\");
    proof {
        reveal_strlit("\\");
        assert(bs@ =~= seq!['\\']);
    }
    let drive = p.len() >= 2 && (('a' <= p[0] && p[0] <= 'z') || ('A' <= p[0] && p[0] <= 'Z'))
        && p[1] == ':';
    if drive || starts_with_chars(&p, &bs2) || starts_with_chars(&p, &fs2) {
        return Err(
            "This is a Windows path; the remote daemon is Linux. Use an absolute Unix path like /home/user/project",
        );
    }
    if starts_with_chars(&p, &bs) {
        return Err("Use an absolute Unix path starting with /, such as /home/user/project");
    }
    Ok(string_of(&replace_chars(&p, '\\', '/')))
}

/// Replace verbatim prefixes wherever they appear, including inside a status
/// line that quotes a path.
pub fn strip_verbatim_prefixes(text: &str) -> (r: String)
    ensures
        r@ == strip_all_verbatim(text@),
{
    let t = chars_of(text);
    let mut out: Vec<char> = Vec::new();
    let mut i: usize = 0;
    proof {
        assert(t@.skip(0) =~= t@);
    }
    while i < t.len()
        invariant
            i <= t@.len(),
            out@ + strip_all_verbatim(t@.skip(i as int)) == strip_all_verbatim(t@),
        decreases t.len() - i,
    {
        let ghost rest = t@.skip(i as int);
        proof {
            lemma_verbatim_len(rest);
        }
        match match_verbatim(&t, i) {
            Some((n, repl)) => {
                proof {
                    assert(rest.skip(n as int) =~= t@.skip(i + n));
                    assert(out@ + repl@ + strip_all_verbatim(t@.skip(i + n)) =~= out@ + (repl@
                        + strip_all_verbatim(rest.skip(n as int))));
                }
                out = concat(&out, &repl);
                i += n;
            },
            None => {
                proof {
                    assert(rest[0] == t@[i as int]);
                    assert(rest.skip(1) =~= t@.skip(i + 1));
                    assert(out@.push(t@[i as int]) + strip_all_verbatim(t@.skip(i + 1)) =~= out@
                        + (seq![rest[0]] + strip_all_verbatim(rest.skip(1))));
                }
                out.push(t[i]);
                i += 1;
            },
        }
    }
    proof {
        assert(t@.skip(t@.len() as int) =~= Seq::<char>::empty());
        assert(out@ + Seq::<char>::empty() =~= out@);
    }
    string_of(&out)
}

} // verus!
