//! Explorer selection and path rules.
//!
//! Multi-select, drag sources, move and copy targets, new-file names, and the
//! Go to File pick, and the set of open folders live here.

use vstd::prelude::*;
use vstd::relations::injective_on;
use vstd::set_lib::{lemma_int_range, lemma_len_subset, lemma_map_size, set_int_range};
use vstd::string::*;

use crate::strs::{
    clone_range, index_of, lemma_index_of, lemma_remove_all_absent, lemma_remove_all_len,
    position, push_string, remove_all, str_eq,
};
use crate::text::{
    decimal, decimal_chars, lemma_decimal_injective,
    chars_of, concat, contains_char, drop_trailing, ends_with, ends_with_chars, eq_chars,
    is_ascii_alpha, join, split_char, lemma_rfind_set_spec, rfind_set, rfind_set_chars, slice_vec,
    starts_with, starts_with_chars, string_of, strip_end, strip_end_chars, trim, trim_str,
    CharSet,
};

verus! {

/// Why a click changed the selection.
#[derive(Clone, Copy, Debug, PartialEq, Eq)]
pub enum SelectGesture {
    /// Plain click. Replaces the selection.
    Replace,
    /// Ctrl/Cmd-click. Toggles the row.
    Toggle,
    /// Shift-click. Selects the visible range from the anchor.
    Range,
}

pub fn gesture_from_modifiers(shift: bool, toggle: bool) -> (g: SelectGesture)
    ensures
        g == (if shift {
            SelectGesture::Range
        } else if toggle {
            SelectGesture::Toggle
        } else {
            SelectGesture::Replace
        }),
{
    if shift {
        SelectGesture::Range
    } else if toggle {
        SelectGesture::Toggle
    } else {
        SelectGesture::Replace
    }
}

pub open spec fn is_placeholder_spec(id: Seq<char>) -> bool {
    ends_with(id, "/."@)
}

/// Lazy directory placeholders use `{path}/.` and are not real entries.
pub fn is_placeholder(id: &str) -> (r: bool)
    ensures
        r == is_placeholder_spec(id@),
{
    ends_with_chars(&chars_of(id), &chars_of("/."))
}

/// Parent directory of an absolute path. `/` has none.
///
/// A separator at index 2 after a drive letter keeps the drive root (`C:\`).
pub open spec fn parent_dir_spec(path: Seq<char>) -> Option<Seq<char>> {
    let p = strip_end(path, CharSet::PathSeparators);
    if p.len() == 0 || p == seq!['/'] {
        None
    } else {
        match rfind_set(p, CharSet::PathSeparators) {
            Some(ix) => if ix == 0 {
                Some(p.take(1))
            } else if ix == 2 && p[1] == ':' && (p[0] as u32) < 0x80 {
                Some(p.take(3))
            } else {
                Some(p.take(ix))
            },
            None => None,
        }
    }
}

pub fn parent_dir_chars(path: &[char]) -> (r: Option<Vec<char>>)
    ensures
        match r {
            Some(v) => parent_dir_spec(path@) == Some(v@),
            None => parent_dir_spec(path@) is None,
        },
{
    let p = strip_end_chars(path, CharSet::PathSeparators);
    if p.len() == 0 || (p.len() == 1 && p[0] == '/') {
        proof {
            if p.len() == 1 && p[0] == '/' {
                assert(p@ =~= seq!['/']);
            }
        }
        return None;
    }
    proof {
        assert(p@.take(p@.len() as int) =~= p@);
        lemma_rfind_set_spec(p@, CharSet::PathSeparators);
        assert(p@ != seq!['/']) by {
            if p@ == seq!['/'] {
                assert(p@.len() == 1 && p@[0] == '/');
            }
        }
    }
    match rfind_set_chars(&p, p.len(), CharSet::PathSeparators) {
        Some(ix) => {
            if ix == 0 {
                let r = slice_vec(&p, 0, 1);
                proof {
                    assert(r@ =~= p@.take(1));
                }
                Some(r)
            } else if ix == 2 && p[1] == ':' && (p[0] as u32) < 0x80 {
                let r = slice_vec(&p, 0, 3);
                proof {
                    assert(r@ =~= p@.take(3));
                }
                Some(r)
            } else {
                let r = slice_vec(&p, 0, ix);
                proof {
                    assert(r@ =~= p@.take(ix as int));
                }
                Some(r)
            }
        },
        None => None,
    }
}

/// Parent directory of an absolute path. `/` has none.
pub fn parent_dir(path: &str) -> (r: Option<String>)
    ensures
        r.deep_view() == parent_dir_spec(path@),
{
    match parent_dir_chars(&chars_of(path)) {
        Some(v) => Some(string_of(&v)),
        None => None,
    }
}

pub open spec fn same_or_descendant(path: Seq<char>, ancestor: Seq<char>) -> bool {
    let a = strip_end(ancestor, CharSet::Slash);
    path == a || starts_with(path, a.push('/'))
}

/// `path` is `ancestor` or a child of it. `/tmp` does not contain `/tmp2`.
pub fn is_same_or_descendant(path: &str, ancestor: &str) -> (r: bool)
    ensures
        r == same_or_descendant(path@, ancestor@),
{
    same_or_descendant_chars(&chars_of(path), &chars_of(ancestor))
}

fn same_or_descendant_chars(path: &[char], ancestor: &[char]) -> (r: bool)
    ensures
        r == same_or_descendant(path@, ancestor@),
{
    let a = strip_end_chars(ancestor, CharSet::Slash);
    if eq_chars(path, &a) {
        return true;
    }
    let mut prefix = a;
    let ghost a_view = prefix@;
    prefix.push('/');
    starts_with_chars(path, &prefix)
}

pub open spec fn singleton(c: Seq<char>) -> (Seq<Seq<char>>, Option<Seq<char>>) {
    (seq![c], Some(c))
}

/// The selection after a click, and the anchor for the next shift-click.
pub open spec fn selection_spec(
    selected: Seq<Seq<char>>,
    anchor: Option<Seq<char>>,
    visible: Seq<Seq<char>>,
    clicked: Seq<char>,
    gesture: SelectGesture,
) -> (Seq<Seq<char>>, Option<Seq<char>>) {
    match gesture {
        SelectGesture::Replace => singleton(clicked),
        SelectGesture::Toggle => {
            let next = remove_all(selected, clicked);
            let next = if next.len() == selected.len() {
                next.push(clicked)
            } else {
                next
            };
            (next, if next.len() > 0 {
                Some(next.last())
            } else {
                None
            })
        },
        SelectGesture::Range => match anchor {
            None => singleton(clicked),
            Some(a) => match index_of(visible, a) {
                None => singleton(clicked),
                Some(start) => match index_of(visible, clicked) {
                    None => (selected, Some(a)),
                    Some(end) => {
                        let lo = if start <= end {
                            start
                        } else {
                            end
                        };
                        let hi = if start <= end {
                            end
                        } else {
                            start
                        };
                        (visible.subrange(lo, hi + 1), Some(a))
                    },
                },
            },
        },
    }
}

fn single(clicked: &str) -> (r: (Vec<String>, Option<String>))
    ensures
        r.0.deep_view() == seq![clicked@],
        r.1.deep_view() == Some(clicked@),
{
    let mut v: Vec<String> = Vec::new();
    push_string(&mut v, String::from_str(clicked));
    proof {
        assert(v.deep_view() =~= seq![clicked@]);
    }
    (v, Some(String::from_str(clicked)))
}

/// New selection and the anchor to keep for the next shift-click.
///
/// The returned vec's last item is the primary row, except for a range,
/// which stays in visible order.
pub fn apply_selection(
    selected: &[String],
    anchor: Option<&str>,
    visible: &[String],
    clicked: &str,
    gesture: SelectGesture,
) -> (r: (Vec<String>, Option<String>))
    ensures
        (r.0.deep_view(), r.1.deep_view()) == selection_spec(
            selected.deep_view(),
            match anchor {
                Some(a) => Some(a@),
                None => None,
            },
            visible.deep_view(),
            clicked@,
            gesture,
        ),
{
    match gesture {
        SelectGesture::Replace => single(clicked),
        SelectGesture::Toggle => {
            let mut next: Vec<String> = Vec::new();
            let mut i: usize = 0;
            while i < selected.len()
                invariant
                    i <= selected@.len(),
                    next.deep_view() == remove_all(selected.deep_view().take(i as int), clicked@),
                decreases selected.len() - i,
            {
                proof {
                    assert(selected.deep_view().take(i + 1).drop_last() =~= selected.deep_view().take(
                        i as int,
                    ));
                    assert(selected.deep_view().take(i + 1).last() == selected@[i as int]@);
                }
                if !str_eq(selected[i].as_str(), clicked) {
                    push_string(&mut next, selected[i].clone());
                }
                i += 1;
            }
            proof {
                assert(selected.deep_view().take(selected@.len() as int) =~= selected.deep_view());
            }
            if next.len() == selected.len() {
                push_string(&mut next, String::from_str(clicked));
            }
            let anchor = if next.len() > 0 {
                Some(next[next.len() - 1].clone())
            } else {
                None
            };
            (next, anchor)
        },
        SelectGesture::Range => {
            let a = match anchor {
                None => return single(clicked),
                Some(a) => a,
            };
            let start = match position(visible, a) {
                None => return single(clicked),
                Some(s) => s,
            };
            let n = visible.len();
            let end = match position(visible, clicked) {
                None => return (clone_range(selected, 0, selected.len()), Some(String::from_str(a))),
                Some(e) => e,
            };
            proof {
                assert(selected.deep_view().subrange(0, selected@.len() as int) =~= selected.deep_view());
            }
            let (lo, hi) = if start <= end {
                (start, end)
            } else {
                (end, start)
            };
            (clone_range(visible, lo, hi + 1), Some(String::from_str(a)))
        },
    }
}

/// Toggling a row that is not selected, then toggling it again, gives back
/// the selection.
pub proof fn toggle_twice_restores(
    selected: Seq<Seq<char>>,
    anchor: Option<Seq<char>>,
    visible: Seq<Seq<char>>,
    clicked: Seq<char>,
)
    requires
        !selected.contains(clicked),
    ensures
        ({
            let once = selection_spec(selected, anchor, visible, clicked, SelectGesture::Toggle);
            selection_spec(once.0, once.1, visible, clicked, SelectGesture::Toggle).0 == selected
        }),
{
    lemma_remove_all_absent(selected, clicked);
    let once = selected.push(clicked);
    assert(once.drop_last() =~= selected);
    lemma_remove_all_len(once, clicked);
    assert(once.contains(clicked)) by {
        assert(once[once.len() - 1] == clicked);
    }
}

/// A range selection holds every visible row between the anchor and the
/// clicked row, both included.
pub proof fn range_covers_anchor_and_click(
    selected: Seq<Seq<char>>,
    anchor: Seq<char>,
    visible: Seq<Seq<char>>,
    clicked: Seq<char>,
)
    requires
        visible.contains(anchor),
        visible.contains(clicked),
    ensures
        ({
            let r = selection_spec(selected, Some(anchor), visible, clicked, SelectGesture::Range);
            r.0.contains(anchor) && r.0.contains(clicked) && r.1 == Some(anchor)
        }),
{
    lemma_index_of(visible, anchor);
    lemma_index_of(visible, clicked);
    let start = index_of(visible, anchor)->0;
    let end = index_of(visible, clicked)->0;
    let lo = if start <= end {
        start
    } else {
        end
    };
    let hi = if start <= end {
        end
    } else {
        start
    };
    let r = visible.subrange(lo, hi + 1);
    assert(r[start - lo] == anchor);
    assert(r[end - lo] == clicked);
}

/// Drag every selected path when the grabbed row is part of the selection.
pub fn drag_paths(selected: &[String], clicked: &str) -> (r: Vec<String>)
    ensures
        r.deep_view() == if selected.deep_view().contains(clicked@) {
            selected.deep_view()
        } else {
            seq![clicked@]
        },
{
    proof {
        lemma_index_of(selected.deep_view(), clicked@);
        assert(selected.deep_view().subrange(0, selected@.len() as int) =~= selected.deep_view());
    }
    match position(selected, clicked) {
        Some(_) => clone_range(selected, 0, selected.len()),
        None => single(clicked).0,
    }
}

pub open spec fn can_move(src: Seq<char>, destination: Seq<char>) -> bool {
    !same_or_descendant(destination, src) && parent_dir_spec(src) != Some(destination)
}

pub open spec fn can_copy(src: Seq<char>, destination: Seq<char>) -> bool {
    !same_or_descendant(destination, src)
}

pub open spec fn movable_spec(sources: Seq<Seq<char>>, destination: Seq<char>) -> Seq<Seq<char>>
    decreases sources.len(),
{
    if sources.len() == 0 {
        Seq::empty()
    } else {
        let p = movable_spec(sources.drop_last(), destination);
        if can_move(sources.last(), destination) {
            p.push(sources.last())
        } else {
            p
        }
    }
}

pub open spec fn copyable_spec(sources: Seq<Seq<char>>, destination: Seq<char>) -> Seq<Seq<char>>
    decreases sources.len(),
{
    if sources.len() == 0 {
        Seq::empty()
    } else {
        let p = copyable_spec(sources.drop_last(), destination);
        if can_copy(sources.last(), destination) {
            p.push(sources.last())
        } else {
            p
        }
    }
}

/// Sources that can move into `destination`. Drops no-ops and moves into self.
pub fn movable_sources(sources: &[String], destination: &str) -> (r: Vec<String>)
    ensures
        r.deep_view() == movable_spec(sources.deep_view(), destination@),
{
    let dest = chars_of(destination);
    let mut out: Vec<String> = Vec::new();
    let mut i: usize = 0;
    while i < sources.len()
        invariant
            i <= sources@.len(),
            dest@ == destination@,
            out.deep_view() == movable_spec(sources.deep_view().take(i as int), destination@),
        decreases sources.len() - i,
    {
        proof {
            assert(sources.deep_view().take(i + 1).drop_last() =~= sources.deep_view().take(
                i as int,
            ));
            assert(sources.deep_view().take(i + 1).last() == sources@[i as int]@);
        }
        let src = chars_of(sources[i].as_str());
        let keep = !same_or_descendant_chars(&dest, &src) && match parent_dir_chars(&src) {
            Some(p) => !eq_chars(&p, &dest),
            None => true,
        };
        if keep {
            push_string(&mut out, sources[i].clone());
        }
        i += 1;
    }
    proof {
        assert(sources.deep_view().take(sources@.len() as int) =~= sources.deep_view());
    }
    out
}

/// Sources that can be copied into `destination`. Same-folder copies stay;
/// the daemon gives those a unique name.
pub fn copyable_sources(sources: &[String], destination: &str) -> (r: Vec<String>)
    ensures
        r.deep_view() == copyable_spec(sources.deep_view(), destination@),
{
    let dest = chars_of(destination);
    let mut out: Vec<String> = Vec::new();
    let mut i: usize = 0;
    while i < sources.len()
        invariant
            i <= sources@.len(),
            dest@ == destination@,
            out.deep_view() == copyable_spec(sources.deep_view().take(i as int), destination@),
        decreases sources.len() - i,
    {
        proof {
            assert(sources.deep_view().take(i + 1).drop_last() =~= sources.deep_view().take(
                i as int,
            ));
            assert(sources.deep_view().take(i + 1).last() == sources@[i as int]@);
        }
        let src = chars_of(sources[i].as_str());
        if !same_or_descendant_chars(&dest, &src) {
            push_string(&mut out, sources[i].clone());
        }
        i += 1;
    }
    proof {
        assert(sources.deep_view().take(sources@.len() as int) =~= sources.deep_view());
    }
    out
}

/// Every source that can be moved into a folder can also be copied there.
pub proof fn movable_are_copyable(sources: Seq<Seq<char>>, destination: Seq<char>, x: Seq<char>)
    requires
        movable_spec(sources, destination).contains(x),
    ensures
        copyable_spec(sources, destination).contains(x),
    decreases sources.len(),
{
    if sources.len() > 0 {
        let p = movable_spec(sources.drop_last(), destination);
        let q = copyable_spec(sources.drop_last(), destination);
        let m = movable_spec(sources, destination);
        let k = choose|k: int| 0 <= k < m.len() && m[k] == x;
        if k < p.len() {
            assert(p[k] == x);
            movable_are_copyable(sources.drop_last(), destination, x);
            let j = choose|j: int| 0 <= j < q.len() && q[j] == x;
            let c = copyable_spec(sources, destination);
            assert(c[j] == x);
        } else {
            assert(x == sources.last());
            let c = copyable_spec(sources, destination);
            assert(c[c.len() - 1] == x);
        }
    }
}

/// `a` is `b` with some items left out, the rest in order.
pub open spec fn is_subsequence(a: Seq<Seq<char>>, b: Seq<Seq<char>>) -> bool
    decreases b.len(),
{
    if a.len() == 0 {
        true
    } else if b.len() == 0 {
        false
    } else {
        (a.last() == b.last() && is_subsequence(a.drop_last(), b.drop_last())) || is_subsequence(
            a,
            b.drop_last(),
        )
    }
}

/// The sources a drag can move are the sources it can copy with some left
/// out (those already in the folder), in the same order.
pub proof fn movable_sources_are_a_subsequence_of_copyable(sources: Seq<Seq<char>>, destination: Seq<char>)
    ensures
        is_subsequence(movable_spec(sources, destination), copyable_spec(sources, destination)),
    decreases sources.len(),
{
    if sources.len() > 0 {
        let t = sources.drop_last();
        movable_sources_are_a_subsequence_of_copyable(t, destination);
        let p = movable_spec(t, destination);
        let q = copyable_spec(t, destination);
        let x = sources.last();
        if can_move(x, destination) {
            assert(p.push(x).drop_last() =~= p);
            assert(q.push(x).drop_last() =~= q);
        } else if can_copy(x, destination) {
            assert(q.push(x).drop_last() =~= q);
            if p.len() > 0 {
                assert(is_subsequence(p, q.push(x)));
            }
        }
    }
}

proof fn lemma_split_extend(s: Seq<char>, x: Seq<char>, c: char)
    requires
        !x.contains(c),
    ensures
        split_char(s + x, c) == split_char(s, c).update(
            split_char(s, c).len() - 1,
            split_char(s, c).last() + x,
        ),
        split_char(s + x, c).len() == split_char(s, c).len(),
    decreases x.len(),
{
    crate::text::lemma_split_nonempty(s, c);
    let prev = split_char(s, c);
    if x.len() == 0 {
        assert(s + x =~= s);
        assert(prev.last() + x =~= prev.last());
        assert(prev.update(prev.len() - 1, prev.last()) =~= prev);
    } else {
        let y = x.drop_last();
        assert(!y.contains(c)) by {
            if y.contains(c) {
                let j = choose|j: int| 0 <= j < y.len() && y[j] == c;
                assert(x[j] == c);
            }
        }
        assert(x.last() != c) by {
            assert(x[x.len() - 1] == x.last());
        }
        lemma_split_extend(s, y, c);
        assert((s + x).drop_last() =~= s + y);
        assert((s + x).last() == x.last());
        let mid = split_char(s + y, c);
        assert(mid.last() == prev.last() + y);
        assert((prev.last() + y).push(x.last()) =~= prev.last() + x);
        assert(mid.update(mid.len() - 1, mid.last().push(x.last())) =~= prev.update(
            prev.len() - 1,
            prev.last() + x,
        ));
    }
}

/// Splitting the copied text at its newlines gives the paths back, when
/// there is at least one path and none holds a newline.
pub proof fn copied_paths_split_back(paths: Seq<Seq<char>>)
    requires
        paths.len() > 0,
        forall|i: int| 0 <= i < paths.len() ==> !(#[trigger] paths[i]).contains('\n'),
    ensures
        split_char(join(paths, seq!['\n']), '\n') == paths,
    decreases paths.len(),
{
    if paths.len() == 1 {
        lemma_split_extend(Seq::empty(), paths[0], '\n');
        assert(Seq::<char>::empty() + paths[0] =~= paths[0]);
        assert(Seq::<char>::empty() + paths[0] =~= paths[0]);
        assert(split_char(Seq::<char>::empty(), '\n').update(0, Seq::<char>::empty() + paths[0]) =~= paths);
    } else {
        let init = paths.drop_last();
        assert forall|i: int| 0 <= i < init.len() implies !(#[trigger] init[i]).contains('\n') by {
            assert(init[i] == paths[i]);
        }
        copied_paths_split_back(init);
        let head = join(init, seq!['\n']) + seq!['\n'];
        assert(join(paths, seq!['\n']) == head + paths.last());
        assert(head.drop_last() =~= join(init, seq!['\n']));
        assert(split_char(head, '\n') == init.push(Seq::<char>::empty()));
        assert(!paths.last().contains('\n')) by {
            assert(paths[paths.len() - 1] == paths.last());
        }
        lemma_split_extend(head, paths.last(), '\n');
        assert(Seq::<char>::empty() + paths.last() =~= paths.last());
        assert(init.push(Seq::<char>::empty()).update(init.len() as int, Seq::<char>::empty() + paths.last())
            =~= paths);
    }
}

/// Newline-separated absolute paths. Copy Path uses this text.
pub fn absolute_paths_text(paths: &[String]) -> (r: String)
    ensures
        r@ == join(paths.deep_view(), seq!['\n']),
{
    let mut out: Vec<char> = Vec::new();
    let mut i: usize = 0;
    let nl = chars_of("\n");
    proof {
        reveal_strlit("\n");
        assert(nl@ =~= seq!['\n']);
    }
    while i < paths.len()
        invariant
            i <= paths@.len(),
            nl@ == seq!['\n'],
            out@ == join(paths.deep_view().take(i as int), seq!['\n']),
        decreases paths.len() - i,
    {
        let p = chars_of(paths[i].as_str());
        proof {
            let t = paths.deep_view().take(i + 1);
            assert(t.drop_last() =~= paths.deep_view().take(i as int));
            assert(t.last() == p@);
            if i == 0 {
                assert(t.len() == 1 && t[0] == p@);
            }
        }
        if i == 0 {
            out = p;
        } else {
            out = concat(&concat(&out, &nl), &p);
        }
        i += 1;
    }
    proof {
        assert(paths.deep_view().take(paths@.len() as int) =~= paths.deep_view());
    }
    string_of(&out)
}

/// Editor-map key prefix for a buffer that has not been saved yet.
pub open spec fn untitled_prefix() -> Seq<char> {
    "untitled:"@
}

pub fn untitled_editor_key(buffer_id: &str) -> (r: String)
    ensures
        r@ == untitled_prefix() + buffer_id@,
{
    string_of(&concat(&chars_of("untitled:"), &chars_of(buffer_id)))
}

pub fn is_untitled_editor_key(path: &str) -> (r: bool)
    ensures
        r == starts_with(path@, untitled_prefix()),
{
    starts_with_chars(&chars_of(path), &chars_of("untitled:"))
}

pub open spec fn goto_exact(m: Seq<char>, q: Seq<char>) -> bool {
    m == q || ends_with(m, seq!['/'] + q) || ends_with(m, seq!['\\'] + q)
}

/// Index of the first match that is the query or ends in `/query` / `\query`.
pub open spec fn first_exact(matches: Seq<Seq<char>>, q: Seq<char>) -> Option<int>
    decreases matches.len(),
{
    if matches.len() == 0 {
        None
    } else {
        match first_exact(matches.drop_last(), q) {
            Some(i) => Some(i),
            None => if goto_exact(matches.last(), q) {
                Some(matches.len() - 1)
            } else {
                None
            },
        }
    }
}

pub open spec fn goto_target_spec(query: Seq<char>, matches: Seq<Seq<char>>) -> Seq<char> {
    let q = trim(query);
    if q.len() == 0 {
        Seq::empty()
    } else {
        match first_exact(matches, q) {
            Some(i) => matches[i],
            None => {
                let typed_path = q.contains('/') || q.contains('\\') || q.contains(':');
                if !typed_path && matches.len() > 0 {
                    matches[0]
                } else {
                    q
                }
            },
        }
    }
}

proof fn lemma_first_exact_bound(matches: Seq<Seq<char>>, q: Seq<char>)
    ensures
        match first_exact(matches, q) {
            Some(i) => 0 <= i < matches.len(),
            None => true,
        },
    decreases matches.len(),
{
    if matches.len() > 0 {
        lemma_first_exact_bound(matches.drop_last(), q);
    }
}

proof fn lemma_first_exact_extend(matches: Seq<Seq<char>>, q: Seq<char>, k: int)
    requires
        0 <= k <= matches.len(),
        first_exact(matches.take(k), q) is Some,
    ensures
        first_exact(matches, q) == first_exact(matches.take(k), q),
    decreases matches.len() - k,
{
    if k < matches.len() {
        assert(matches.take(k + 1).drop_last() =~= matches.take(k));
        lemma_first_exact_extend(matches, q, k + 1);
    } else {
        assert(matches.take(k) =~= matches);
    }
}

/// Path Ctrl+P should open. A unique or name-only match wins; a typed path
/// that already contains a separator is opened as written.
pub fn pick_goto_target(query: &str, matches: &[&str]) -> (r: String)
    ensures
        r@ == goto_target_spec(query@, matches.deep_view()),
{
    let q = trim_str(query);
    if q.len() == 0 {
        return String::new();
    }
    let mut with_slash: Vec<char> = Vec::new();
    with_slash.push('/');
    let with_slash = concat(&with_slash, &q);
    let mut with_backslash: Vec<char> = Vec::new();
    with_backslash.push('\\');
    let with_backslash = concat(&with_backslash, &q);
    proof {
        assert(with_slash@ =~= seq!['/'] + q@);
        assert(with_backslash@ =~= seq!['\\'] + q@);
    }
    let mut i: usize = 0;
    while i < matches.len()
        invariant
            i <= matches@.len(),
            q@ == trim(query@),
            q@.len() > 0,
            with_slash@ == seq!['/'] + q@,
            with_backslash@ == seq!['\\'] + q@,
            first_exact(matches.deep_view().take(i as int), q@) is None,
        decreases matches.len() - i,
    {
        let m = chars_of(matches[i]);
        proof {
            let t = matches.deep_view().take(i + 1);
            assert(t.drop_last() =~= matches.deep_view().take(i as int));
            assert(t.last() == m@);
        }
        if eq_chars(&m, &q) || ends_with_chars(&m, &with_slash) || ends_with_chars(
            &m,
            &with_backslash,
        ) {
            proof {
                lemma_first_exact_extend(matches.deep_view(), q@, i + 1);
            }
            return String::from_str(matches[i]);
        }
        i += 1;
    }
    proof {
        assert(matches.deep_view().take(matches@.len() as int) =~= matches.deep_view());
    }
    let typed_path = contains_char(&q, '/') || contains_char(&q, '\\') || contains_char(&q, ':');
    if !typed_path && matches.len() > 0 {
        return String::from_str(matches[0]);
    }
    string_of(&q)
}

pub open spec fn save_target_spec(parent: Seq<char>, input: Seq<char>) -> Seq<char> {
    let i = trim(input);
    if i.len() == 0 {
        Seq::empty()
    } else if starts_with(i, seq!['/']) || starts_with(i, seq!['\\']) || (i.len() >= 2
        && is_ascii_alpha(i[0]) && i[1] == ':') {
        i
    } else {
        let p = strip_end(parent, CharSet::PathSeparators);
        if p.len() == 0 {
            i
        } else {
            let sep = if p.contains('\\') && !p.contains('/') {
                '\\'
            } else {
                '/'
            };
            p.push(sep) + i
        }
    }
}

/// Absolute save path. A bare name or relative path is placed under `parent`.
pub fn save_target_path(parent: &str, input: &str) -> (r: String)
    ensures
        r@ == save_target_spec(parent@, input@),
{
    let i = trim_str(input);
    if i.len() == 0 {
        return String::new();
    }
    let absolute = i[0] == '/' || i[0] == '\\' || (i.len() >= 2 && (('a' <= i[0] && i[0] <= 'z')
        || ('A' <= i[0] && i[0] <= 'Z')) && i[1] == ':');
    proof {
        assert(i@.take(1)[0] == i@[0]);
        assert(starts_with(i@, seq!['/']) == (i@[0] == '/')) by {
            if i@[0] == '/' {
                assert(i@.take(1) =~= seq!['/']);
            }
        }
        assert(starts_with(i@, seq!['\\']) == (i@[0] == '\\')) by {
            if i@[0] == '\\' {
                assert(i@.take(1) =~= seq!['\\']);
            }
        }
    }
    if absolute {
        return string_of(&i);
    }
    let p = strip_end_chars(&chars_of(parent), CharSet::PathSeparators);
    if p.len() == 0 {
        return string_of(&i);
    }
    let sep = if contains_char(&p, '\\') && !contains_char(&p, '/') {
        '\\'
    } else {
        '/'
    };
    let mut head = p;
    head.push(sep);
    string_of(&concat(&head, &i))
}


/// The `k`-th fallback name for a new file: `untitled-k`.
pub open spec fn numbered_name(k: int) -> Seq<char> {
    "untitled-"@ + decimal(k as nat)
}

proof fn lemma_numbered_injective(a: int, b: int)
    requires
        a >= 0,
        b >= 0,
        numbered_name(a) == numbered_name(b),
    ensures
        a == b,
{
    reveal_strlit("untitled-");
    let p = "untitled-"@;
    assert(numbered_name(a).skip(p.len() as int) =~= decimal(a as nat));
    assert(numbered_name(b).skip(p.len() as int) =~= decimal(b as nat));
    lemma_decimal_injective(a as nat, b as nat);
}

/// If `untitled-2` … `untitled-n` are all taken, the list has at least
/// `n - 1` entries.
proof fn lemma_taken_names_bound(existing: Seq<Seq<char>>, n: int)
    requires
        n >= 2,
        forall|k: int| 2 <= k <= n ==> existing.contains(#[trigger] numbered_name(k)),
    ensures
        n - 1 <= existing.len(),
{
    let x = set_int_range(2, n + 1);
    let f = |k: int| numbered_name(k);
    lemma_int_range(2, n + 1);
    let y = x.map(f);
    assert(injective_on(f, x)) by {
        assert forall|a: int, b: int| x.contains(a) && x.contains(b) && #[trigger] f(a) == #[trigger] f(
            b,
        ) implies a == b by {
            lemma_numbered_injective(a, b);
        }
    }
    lemma_map_size(x, y, f);
    let all = existing.to_set();
    assert(y.subset_of(all)) by {
        assert forall|s: Seq<char>| y.contains(s) implies all.contains(s) by {
            let k = choose|k: int| x.contains(k) && f(k) == s;
            assert(existing.contains(numbered_name(k)));
        }
    }
    existing.lemma_cardinality_of_set();
    lemma_len_subset(y, all);
}

/// Name for a new file among `existing` names: `untitled`, then the first of
/// `untitled-2`, `untitled-3`, … that is free.
pub fn unused_file_name(existing: &[&str]) -> (r: String)
    ensures
        !existing.deep_view().contains(r@),
        existing.deep_view().contains("untitled"@) || r@ == "untitled"@,
        !existing.deep_view().contains("untitled"@) ==> r@ == "untitled"@,
        existing.deep_view().contains("untitled"@) ==> exists|n: int|
            n >= 2 && r@ == numbered_name(n) && forall|k: int|
                2 <= k < n ==> existing.deep_view().contains(#[trigger] numbered_name(k)),
{
    let names = crate::strs::to_strings(existing);
    let base = String::from_str("untitled");
    if position(&names, base.as_str()).is_none() {
        proof {
            lemma_index_of(names.deep_view(), "untitled"@);
        }
        return base;
    }
    proof {
        lemma_index_of(names.deep_view(), "untitled"@);
    }
    let prefix = chars_of("untitled-");
    let len = existing.len();
    let mut n: u128 = 2;
    loop
        invariant
            names.deep_view() == existing.deep_view(),
            existing@.len() == len,
            prefix@ == "untitled-"@,
            existing.deep_view().contains("untitled"@),
            2 <= n <= len + 2,
            forall|k: int| 2 <= k < n ==> existing.deep_view().contains(#[trigger] numbered_name(k)),
        decreases len + 2 - n,
    {
        let candidate = string_of(&concat(&prefix, &decimal_chars(n)));
        proof {
            lemma_index_of(names.deep_view(), candidate@);
        }
        if position(&names, candidate.as_str()).is_none() {
            assert(candidate@ == numbered_name(n as int));
            assert(n >= 2 && candidate@ == numbered_name(n as int) && forall|k: int|
                2 <= k < n ==> existing.deep_view().contains(#[trigger] numbered_name(k)));
            return candidate;
        }
        proof {
            assert(existing.deep_view().contains(numbered_name(n as int)));
            lemma_taken_names_bound(existing.deep_view(), n as int);
        }
        n = n + 1;
    }
}

/// Flat visible ids, skipping lazy placeholders.
pub open spec fn real_ids_spec(ids: Seq<Seq<char>>) -> Seq<Seq<char>>
    decreases ids.len(),
{
    if ids.len() == 0 {
        Seq::empty()
    } else {
        let p = real_ids_spec(ids.drop_last());
        if is_placeholder_spec(ids.last()) {
            p
        } else {
            p.push(ids.last())
        }
    }
}

pub fn real_ids(ids: &[&str]) -> (r: Vec<String>)
    ensures
        r.deep_view() == real_ids_spec(ids.deep_view()),
{
    let mut out: Vec<String> = Vec::new();
    let mut i: usize = 0;
    while i < ids.len()
        invariant
            i <= ids@.len(),
            out.deep_view() == real_ids_spec(ids.deep_view().take(i as int)),
        decreases ids.len() - i,
    {
        proof {
            assert(ids.deep_view().take(i + 1).drop_last() =~= ids.deep_view().take(i as int));
            assert(ids.deep_view().take(i + 1).last() == ids@[i as int]@);
        }
        if !is_placeholder(ids[i]) {
            push_string(&mut out, String::from_str(ids[i]));
        }
        i += 1;
    }
    proof {
        assert(ids.deep_view().take(ids@.len() as int) =~= ids.deep_view());
    }
    out
}


/// Folders the user has opened in the explorer tree.
///
/// A set of paths without duplicates; listing refreshes read it instead of
/// "every directory we have listed".
pub struct ExpandedSet {
    paths: Vec<String>,
}

impl View for ExpandedSet {
    type V = Set<Seq<char>>;

    closed spec fn view(&self) -> Set<Seq<char>> {
        self.paths.deep_view().to_set()
    }
}

impl ExpandedSet {
    pub closed spec fn well_formed(&self) -> bool {
        self.paths.deep_view().no_duplicates()
    }

    /// An empty set.
    pub fn new() -> (r: Self)
        ensures
            r@ == Set::<Seq<char>>::empty(),
            r.well_formed(),
    {
        let r = ExpandedSet { paths: Vec::new() };
        proof {
            assert(r.paths.deep_view() =~= Seq::<Seq<char>>::empty());
            assert(r@ =~= Set::<Seq<char>>::empty());
        }
        r
    }

    pub fn contains(&self, path: &str) -> (r: bool)
        ensures
            r == self@.contains(path@),
    {
        proof {
            lemma_index_of(self.paths.deep_view(), path@);
        }
        position(&self.paths, path).is_some()
    }

    pub fn len(&self) -> (r: usize)
        requires
            self.well_formed(),
        ensures
            r == self@.len(),
    {
        proof {
            self.paths.deep_view().unique_seq_to_set();
        }
        self.paths.len()
    }


    /// The open folders in ascending name order, each once: the order the
    /// workspace layout saves them in.
    pub fn sorted_paths(&self) -> (r: Vec<String>)
        requires
            self.well_formed(),
        ensures
            forall|a: int, b: int| 0 <= a < b < r@.len() ==> crate::text::chars_lt(#[trigger] r@[a]@, #[trigger] r@[b]@),
            r.deep_view().to_set() == self@,
    {
        let ghost src = self.paths.deep_view();
        let mut out: Vec<String> = Vec::new();
        let mut i: usize = 0;
        while i < self.paths.len()
            invariant
                i <= src.len(),
                src == self.paths.deep_view(),
                src.no_duplicates(),
                forall|a: int, b: int| 0 <= a < b < out@.len() ==> crate::text::chars_lt(#[trigger] out@[a]@, #[trigger] out@[b]@),
                forall|s: Seq<char>| out.deep_view().contains(s) <==> src.take(i as int).contains(s),
            decreases self.paths.len() - i,
        {
            let p = crate::text::chars_of(self.paths[i].as_str());
            proof {
                assert(src[i as int] == self.paths@[i as int]@);
                assert(!out.deep_view().contains(p@)) by {
                    if out.deep_view().contains(p@) {
                        let k = choose|k: int| 0 <= k < src.take(i as int).len() && src.take(i as int)[k] == p@;
                        assert(src[k] == src[i as int]);
                    }
                }
            }
            let mut j: usize = 0;
            while j < out.len() && crate::text::compare_chars(&crate::text::chars_of(out[j].as_str()), &p) == crate::text::Rank::Before
                invariant
                    j <= out@.len(),
                    forall|a: int| 0 <= a < j ==> crate::text::chars_lt(#[trigger] out@[a]@, p@),
                decreases out.len() - j,
            {
                j += 1;
            }
            let ghost old_out = out@;
            let ghost old_dv = out.deep_view();
            proof {
                if j < out@.len() {
                    assert(out.deep_view()[j as int] == out@[j as int]@);
                    assert(out@[j as int]@ != p@);
                    crate::text::lemma_chars_lt_total(out@[j as int]@, p@);
                    assert(crate::text::chars_lt(p@, out@[j as int]@));
                }
            }
            out.insert(j, crate::text::string_of(&p));
            proof {
                assert forall|a: int, b: int| 0 <= a < b < out@.len() implies crate::text::chars_lt(#[trigger] out@[a]@, #[trigger] out@[b]@) by {
                    if b < j {
                        assert(out@[a] == old_out[a] && out@[b] == old_out[b]);
                    } else if b == j {
                        assert(out@[a] == old_out[a]);
                    } else if a == j {
                        assert(out@[b] == old_out[b - 1]);
                        if b - 1 > j {
                            crate::text::lemma_chars_lt_transitive(p@, old_out[j as int]@, old_out[b - 1]@);
                        }
                    } else if a < j {
                        assert(out@[a] == old_out[a] && out@[b] == old_out[b - 1]);
                        crate::text::lemma_chars_lt_transitive(old_out[a]@, p@, old_out[j as int]@);
                        if b - 1 > j {
                            crate::text::lemma_chars_lt_transitive(old_out[a]@, old_out[j as int]@, old_out[b - 1]@);
                        }
                    } else {
                        assert(out@[a] == old_out[a - 1] && out@[b] == old_out[b - 1]);
                    }
                }
                assert(out.deep_view() =~= old_dv.insert(j as int, p@));
                assert forall|s: Seq<char>| out.deep_view().contains(s) <==> src.take(i + 1).contains(s) by {
                    assert(src.take(i + 1) =~= src.take(i as int).push(p@));
                    let nd = out.deep_view();
                    if nd.contains(s) {
                        let k = choose|k: int| 0 <= k < nd.len() && nd[k] == s;
                        if k < j {
                            assert(old_dv[k] == s);
                        } else if k > j {
                            assert(old_dv[k - 1] == s);
                        }
                    }
                    if old_dv.contains(s) {
                        let k = choose|k: int| 0 <= k < old_dv.len() && old_dv[k] == s;
                        if k < j {
                            assert(nd[k] == s);
                        } else {
                            assert(nd[k + 1] == s);
                        }
                    }
                    if s == p@ {
                        assert(nd[j as int] == s);
                    }
                    let pre = src.take(i as int);
                    let post = src.take(i + 1);
                    if post.contains(s) {
                        let k = choose|k: int| 0 <= k < post.len() && post[k] == s;
                        if k < i {
                            assert(pre[k] == s);
                        }
                    }
                    if pre.contains(s) {
                        let k = choose|k: int| 0 <= k < pre.len() && pre[k] == s;
                        assert(post[k] == s);
                    }
                    if s == p@ {
                        assert(post[i as int] == s);
                    }
                }
            }
            i += 1;
        }
        proof {
            assert(src.take(i as int) =~= src);
            assert(out.deep_view().to_set() =~= src.to_set());
        }
        out
    }

    /// The paths in insertion order.
    pub fn paths(&self) -> (r: &Vec<String>)
        ensures
            r.deep_view().to_set() == self@,
    {
        &self.paths
    }

    pub fn insert(&mut self, path: &str)
        requires
            old(self).well_formed(),
        ensures
            final(self).well_formed(),
            final(self)@ == old(self)@.insert(path@),
    {
        proof {
            lemma_index_of(self.paths.deep_view(), path@);
        }
        if position(&self.paths, path).is_some() {
            proof {
                assert(self@.contains(path@));
                assert(self@.insert(path@) =~= self@);
            }
            return;
        }
        let ghost before = self.paths.deep_view();
        push_string(&mut self.paths, String::from_str(path));
        proof {
            assert(self.paths.deep_view() == before.push(path@));
            assert(self@ =~= before.to_set().insert(path@)) by {
                assert forall|x: Seq<char>| self@.contains(x) <==> before.to_set().insert(path@).contains(x) by {
                    if self@.contains(x) {
                        let j = choose|j: int| 0 <= j < before.push(path@).len() && before.push(path@)[j] == x;
                        if j < before.len() {
                            assert(before[j] == x);
                        }
                    }
                    if before.contains(x) {
                        let j = choose|j: int| 0 <= j < before.len() && before[j] == x;
                        assert(before.push(path@)[j] == x);
                    }
                    if x == path@ {
                        assert(before.push(path@)[before.len() as int] == x);
                    }
                }
            }
            assert(self.paths.deep_view().no_duplicates()) by {
                assert forall|i: int, j: int|
                    0 <= i < self.paths.deep_view().len() && 0 <= j < self.paths.deep_view().len() && i != j
                    implies self.paths.deep_view()[i] != self.paths.deep_view()[j] by {
                    if i < before.len() && j < before.len() {
                    } else if i == before.len() {
                        assert(before[j] != path@);
                    } else {
                        assert(before[i] != path@);
                    }
                }
            }
        }
    }

    pub fn remove(&mut self, path: &str)
        requires
            old(self).well_formed(),
        ensures
            final(self).well_formed(),
            final(self)@ == old(self)@.remove(path@),
    {
        let ghost before = self.paths.deep_view();
        let mut kept: Vec<String> = Vec::new();
        let mut i: usize = 0;
        while i < self.paths.len()
            invariant
                i <= self.paths@.len(),
                before == self.paths.deep_view(),
                before.no_duplicates(),
                kept.deep_view() == remove_all(before.take(i as int), path@),
                kept.deep_view().no_duplicates(),
                forall|x: Seq<char>| kept.deep_view().contains(x) <==> (before.take(i as int).contains(x) && x != path@),
            decreases self.paths.len() - i,
        {
            let ghost t = before.take(i + 1);
            proof {
                assert(t.drop_last() =~= before.take(i as int));
                assert(t.last() == self.paths@[i as int]@);
            }
            if !str_eq(self.paths[i].as_str(), path) {
                let ghost k0 = kept.deep_view();
                let item = self.paths[i].clone();
                push_string(&mut kept, item);
                proof {
                    let x = before[i as int];
                    assert(!k0.contains(x)) by {
                        if k0.contains(x) {
                            assert(before.take(i as int).contains(x));
                            let j = choose|j: int| 0 <= j < i && before.take(i as int)[j] == x;
                            assert(before[j] == before[i as int]);
                        }
                    }
                    assert forall|a: int, b: int| 0 <= a < kept.deep_view().len() && 0 <= b < kept.deep_view().len() && a != b
                        implies kept.deep_view()[a] != kept.deep_view()[b] by {
                        if a < k0.len() && b < k0.len() {
                        } else if a == k0.len() {
                            assert(k0[b] != x);
                        } else {
                            assert(k0[a] != x);
                        }
                    }
                    assert forall|y: Seq<char>| kept.deep_view().contains(y) <==> (t.contains(y) && y != path@) by {
                        if kept.deep_view().contains(y) {
                            let j = choose|j: int| 0 <= j < kept.deep_view().len() && kept.deep_view()[j] == y;
                            if j < k0.len() {
                                assert(kept.deep_view() == k0.push(x));
                                assert(k0[j] == y);
                                assert(k0.contains(y));
                                assert(before.take(i as int).contains(y));
                                let m = choose|m: int| 0 <= m < before.take(i as int).len() && before.take(i as int)[m] == y;
                                assert(t[m] == y);
                            } else {
                                assert(t[i as int] == y);
                            }
                        }
                        if t.contains(y) && y != path@ {
                            let m = choose|m: int| 0 <= m < t.len() && t[m] == y;
                            if m < i {
                                assert(before.take(i as int)[m] == y);
                                assert(k0.contains(y));
                                let j = choose|j: int| 0 <= j < k0.len() && k0[j] == y;
                                assert(kept.deep_view()[j] == y);
                            } else {
                                assert(kept.deep_view()[k0.len() as int] == y);
                            }
                        }
                    }
                }
            } else {
                proof {
                    assert forall|y: Seq<char>| kept.deep_view().contains(y) <==> (t.contains(y) && y != path@) by {
                        if t.contains(y) && y != path@ {
                            let m = choose|m: int| 0 <= m < t.len() && t[m] == y;
                            if m < i {
                                assert(before.take(i as int)[m] == y);
                            }
                        }
                        if kept.deep_view().contains(y) {
                            let m = choose|m: int| 0 <= m < i && before.take(i as int)[m] == y;
                            assert(t[m] == y);
                        }
                    }
                }
            }
            i += 1;
        }
        proof {
            assert(before.take(before.len() as int) =~= before);
        }
        self.paths = kept;
        proof {
            assert(self@ =~= before.to_set().remove(path@));
        }
    }
}

/// Record the folder the tree just toggled. Placeholders are not folders.
pub fn record_tree_toggle(expanded: &mut ExpandedSet, path: &str, open: bool)
    requires
        old(expanded).well_formed(),
    ensures
        final(expanded).well_formed(),
        final(expanded)@ == if is_placeholder_spec(path@) {
            old(expanded)@
        } else if open {
            old(expanded)@.insert(path@)
        } else {
            old(expanded)@.remove(path@)
        },
{
    if is_placeholder(path) {
        return;
    }
    if open {
        expanded.insert(path);
    } else {
        expanded.remove(path);
    }
}

/// After a toggle a folder is open exactly when the toggle opened it; the
/// other folders keep their state.
pub proof fn toggle_sets_only_that_folder(before: Set<Seq<char>>, path: Seq<char>, open: bool, other: Seq<char>)
    requires
        !is_placeholder_spec(path),
        other != path,
    ensures
        ({
            let after = if open {
                before.insert(path)
            } else {
                before.remove(path)
            };
            after.contains(path) == open && after.contains(other) == before.contains(other)
        }),
{
}

} // verus!
