//! Presentation helpers for the workspace rail: the secondary line of a
//! project row, the footer hint, and where a new shell starts.

use vstd::prelude::*;
use vstd::string::*;

use crate::paths::{display_path, display_path_chars, display_path_spec};
use crate::text::{
    chars_of, concat, eq_chars, lemma_rfind_set_spec, rfind_set, rfind_set_chars, slice_vec,
    starts_with, starts_with_chars, string_of, strip_end, strip_end_chars, trim, trim_str,
    CharSet,
};

verus! {

/// Character budget for the root line of a workspace row.
pub const WORKSPACE_ROOT_LABEL_MAX: usize = 34;

/// `text` shortened to `max` characters by replacing its middle with `…`.
pub open spec fn truncate_middle_spec(text: Seq<char>, max: int) -> Seq<char> {
    if max == 0 || text.len() <= max {
        text
    } else if max == 1 {
        seq!['…']
    } else {
        let keep = max - 1;
        let head = keep / 2;
        let tail = keep - head;
        text.take(head) + seq!['…'] + text.skip(text.len() - tail)
    }
}

/// `path` with the home directory folded to `~`.
pub open spec fn fold_home_spec(path: Seq<char>, home: Option<Seq<char>>) -> Seq<char> {
    match home {
        None => path,
        Some(h) => {
            let h = display_path_spec(h);
            let h = strip_end(h, CharSet::PathSeparators);
            if h.len() == 0 {
                path
            } else if path == h {
                seq!['~']
            } else if starts_with(path, h) && path.len() > h.len() && (path[h.len() as int] == '/'
                || path[h.len() as int] == '\\') {
                seq!['~'] + path.skip(h.len() as int)
            } else {
                path
            }
        },
    }
}

pub open spec fn root_label_spec(root: Seq<char>, home: Option<Seq<char>>) -> Seq<char> {
    let r = display_path_spec(root);
    if r.len() == 0 {
        "Default root"@
    } else {
        let r = if r == seq!['/'] || r == seq!['\\'] {
            r
        } else {
            strip_end(r, CharSet::PathSeparators)
        };
        if r.len() == 0 {
            "Default root"@
        } else {
            truncate_middle_spec(fold_home_spec(r, home), WORKSPACE_ROOT_LABEL_MAX as int)
        }
    }
}

fn truncate_middle(text: &[char], max_chars: usize) -> (r: Vec<char>)
    ensures
        r@ == truncate_middle_spec(text@, max_chars as int),
{
    if max_chars == 0 || text.len() <= max_chars {
        return slice_vec(text, 0, text.len());
    }
    if max_chars == 1 {
        let mut r = Vec::new();
        r.push('…');
        assert(r@ =~= seq!['…']);
        return r;
    }
    let keep = max_chars - 1;
    let head = keep / 2;
    let tail = keep - head;
    let start = slice_vec(text, 0, head);
    let end = slice_vec(text, text.len() - tail, text.len());
    let mut mid = Vec::new();
    mid.push('…');
    proof {
        assert(start@ =~= text@.take(head as int));
        assert(end@ =~= text@.skip(text.len() - tail));
        assert(mid@ =~= seq!['…']);
    }
    concat(&concat(&start, &mid), &end)
}

fn fold_home(path: &[char], home: Option<&str>) -> (r: Vec<char>)
    ensures
        r@ == fold_home_spec(path@, match home {
            Some(h) => Some(h@),
            None => None,
        }),
{
    let h = match home {
        None => return slice_vec(path, 0, path.len()),
        Some(h) => h,
    };
    let h = display_path_chars(&chars_of(h));
    let h = strip_end_chars(&h, CharSet::PathSeparators);
    if h.len() == 0 {
        return slice_vec(path, 0, path.len());
    }
    if eq_chars(path, &h) {
        let mut r = Vec::new();
        r.push('~');
        assert(r@ =~= seq!['~']);
        return r;
    }
    if starts_with_chars(path, &h) && path.len() > h.len() && (path[h.len()] == '/' || path[h.len()]
        == '\\') {
        let mut r = Vec::new();
        r.push('~');
        let rest = slice_vec(path, h.len(), path.len());
        proof {
            assert(rest@ =~= path@.skip(h@.len() as int));
            assert(r@ =~= seq!['~']);
        }
        return concat(&r, &rest);
    }
    slice_vec(path, 0, path.len())
}

/// Secondary line for one workspace row.
///
/// Home is folded to `~`. A long path keeps both ends and ellipsizes the
/// middle. An empty root is the daemon default and is labeled as such.
pub fn workspace_root_label(root: &str, home: Option<&str>) -> (r: String)
    ensures
        r@ == root_label_spec(root@, match home {
            Some(h) => Some(h@),
            None => None,
        }),
{
    let shown = display_path_chars(&chars_of(root));
    if shown.len() == 0 {
        return String::from_str("Default root");
    }
    let slash = chars_of("/");
    let backslash = chars_of("\\");
    proof {
        reveal_strlit("/");
        reveal_strlit("\\");
        assert(slash@ =~= seq!['/']);
        assert(backslash@ =~= seq!['\\']);
    }
    let r = if eq_chars(&shown, &slash) || eq_chars(&shown, &backslash) {
        shown
    } else {
        strip_end_chars(&shown, CharSet::PathSeparators)
    };
    if r.len() == 0 {
        return String::from_str("Default root");
    }
    let display = fold_home(&r, home);
    string_of(&truncate_middle(&display, WORKSPACE_ROOT_LABEL_MAX))
}

proof fn lemma_truncate_fits(text: Seq<char>, max: int)
    requires
        max >= 1,
    ensures
        truncate_middle_spec(text, max).len() <= max,
        text.len() > max ==> truncate_middle_spec(text, max).len() == max,
{
}

/// A workspace row's root line never exceeds [`WORKSPACE_ROOT_LABEL_MAX`]
/// characters, and a long root fills the budget exactly.
pub proof fn root_label_fits(root: Seq<char>, home: Option<Seq<char>>)
    ensures
        root_label_spec(root, home).len() <= WORKSPACE_ROOT_LABEL_MAX,
{
    reveal_strlit("Default root");
    let r = display_path_spec(root);
    if r.len() > 0 {
        let r2 = if r == seq!['/'] || r == seq!['\\'] {
            r
        } else {
            strip_end(r, CharSet::PathSeparators)
        };
        lemma_truncate_fits(fold_home_spec(r2, home), WORKSPACE_ROOT_LABEL_MAX as int);
    }
}

/// The rail shows for a daemon with the workspace capability, or for an
/// online session that names a root.
pub fn show_workspace_rail(workspace_cap: bool, online: bool, preferred_root: Option<&str>) -> (r:
    bool)
    ensures
        r == (workspace_cap || (online && match preferred_root {
            Some(p) => trim(p@).len() > 0,
            None => false,
        })),
{
    if workspace_cap {
        return true;
    }
    online && match preferred_root {
        Some(p) => trim_str(p).len() > 0,
        None => false,
    }
}

pub open spec fn nonempty_trimmed(value: Option<Seq<char>>) -> Option<Seq<char>> {
    match value {
        Some(v) => if trim(v).len() > 0 {
            Some(trim(v))
        } else {
            None
        },
        None => None,
    }
}

fn nonempty(value: Option<&str>) -> (r: Option<String>)
    ensures
        r.deep_view() == nonempty_trimmed(match value {
            Some(v) => Some(v@),
            None => None,
        }),
{
    match value {
        Some(v) => {
            let t = trim_str(v);
            if t.len() > 0 {
                Some(string_of(&t))
            } else {
                None
            }
        },
        None => None,
    }
}

/// Where a new shell starts. An explicit cwd (OSC 7 after the user `cd`s)
/// wins. Otherwise the workspace or session root.
pub fn choose_shell_cwd(explicit: Option<&str>, workspace_root: Option<&str>) -> (r: Option<String>)
    ensures
        r.deep_view() == match nonempty_trimmed(match explicit {
            Some(v) => Some(v@),
            None => None,
        }) {
            Some(e) => Some(e),
            None => nonempty_trimmed(match workspace_root {
                Some(v) => Some(v@),
                None => None,
            }),
        },
{
    match nonempty(explicit) {
        Some(e) => Some(e),
        None => nonempty(workspace_root),
    }
}

/// Footer copy when the list would otherwise look like unused chrome.
pub fn workspace_rail_hint(count: usize) -> (r: Option<&'static str>)
    ensures
        count == 0 ==> (r matches Some(s) && s@ == "No projects yet. + creates one."@),
        count == 1 ==> (r matches Some(s) && s@ == "One project open. + adds another."@),
        count >= 2 ==> r is None,
{
    match count {
        0 => Some("No projects yet. + creates one."),
        1 => Some("One project open. + adds another."),
        _ => None,
    }
}

/// The last non-empty segment of `path`, splitting at `/` and `\`.
pub open spec fn basename_spec(path: Seq<char>) -> Option<Seq<char>> {
    let t = strip_end(path, CharSet::PathSeparators);
    if t.len() == 0 {
        None
    } else {
        match rfind_set(t, CharSet::PathSeparators) {
            Some(i) => Some(t.skip(i + 1)),
            None => Some(t),
        }
    }
}

fn basename_bounds(p: &[char]) -> (r: Option<(usize, usize)>)
    ensures
        match r {
            Some((lo, hi)) => lo <= hi <= p@.len() && basename_spec(p@) == Some(
                p@.subrange(lo as int, hi as int),
            ),
            None => basename_spec(p@) is None,
        },
{
    proof {
        assert(p@.subrange(0, p@.len() as int) =~= p@);
    }
    let hi = crate::text::drop_trailing(p, 0, p.len(), CharSet::PathSeparators);
    if hi == 0 {
        return None;
    }
    let ghost t = p@.subrange(0, hi as int);
    proof {
        assert(p@.take(hi as int) =~= t);
        lemma_rfind_set_spec(t, CharSet::PathSeparators);
    }
    match rfind_set_chars(p, hi, CharSet::PathSeparators) {
        Some(i) => {
            proof {
                assert(t.skip(i + 1) =~= p@.subrange(i + 1, hi as int));
            }
            Some((i + 1, hi))
        },
        None => Some((0, hi)),
    }
}

/// The last non-empty path segment, splitting at `/` and `\`.
pub fn path_basename(path: &str) -> (r: Option<&str>)
    ensures
        match r {
            Some(b) => basename_spec(path@) == Some(b@),
            None => basename_spec(path@) is None,
        },
{
    let p = chars_of(path);
    match basename_bounds(&p) {
        Some((lo, hi)) => Some(path.substring_char(lo, hi)),
        None => None,
    }
}

pub open spec fn name_hint_spec(root: Seq<char>) -> Seq<char> {
    let r = display_path_spec(root);
    if r.len() == 0 {
        "Leave empty to use the daemon project folder."@
    } else {
        match basename_spec(r) {
            Some(b) => "Leave empty to use \""@ + b + "\"."@,
            None => "Leave empty to use the folder name."@,
        }
    }
}

/// Shown under the name field while it is blank. The daemon already turns an
/// empty name into the root basename; this only previews that.
pub fn empty_workspace_name_hint(root: &str) -> (r: String)
    ensures
        r@ == name_hint_spec(root@),
{
    let r = display_path_chars(&chars_of(root));
    if r.len() == 0 {
        return String::from_str("Leave empty to use the daemon project folder.");
    }
    match basename_bounds(&r) {
        Some((lo, hi)) => {
            let b = slice_vec(&r, lo, hi);
            let text = concat(&concat(&chars_of("Leave empty to use \""), &b), &chars_of("\"."));
            string_of(&text)
        },
        None => String::from_str("Leave empty to use the folder name."),
    }
}

pub open spec fn header_label_spec(root: Seq<char>) -> Seq<char> {
    let shown = display_path_spec(root);
    if shown.len() == 0 {
        "Explorer"@
    } else {
        match basename_spec(shown) {
            Some(b) => b,
            None => "Explorer"@,
        }
    }
}

/// Explorer header: the open folder's name, never the `\\?\` form.
pub fn explorer_header_label(root: &str) -> (r: String)
    ensures
        r@ == header_label_spec(root@),
{
    let shown = display_path_chars(&chars_of(root));
    if shown.len() == 0 {
        return String::from_str("Explorer");
    }
    match basename_bounds(&shown) {
        Some((lo, hi)) => string_of(&slice_vec(&shown, lo, hi)),
        None => String::from_str("Explorer"),
    }
}

} // verus!
