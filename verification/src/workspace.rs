//! Decisions of the workspace window that do not touch the UI: reading a
//! request-scoped error message, keying saved tabs, checking a saved split
//! layout, and batching PTY output between screen updates.

use vstd::prelude::*;

use crate::connect::WorkspaceInfo;
use crate::explorer::{parent_dir, parent_dir_spec};
use crate::launch::opt_str;
use crate::paths::{display_path, display_path_spec};
use crate::explorer::{is_untitled_editor_key, save_target_path, save_target_spec, untitled_prefix};
use crate::paths::{root_for_daemon_spec, workspace_root_for_daemon};
use crate::rail::{basename_spec, choose_shell_cwd, nonempty_trimmed, path_basename};
use crate::strs::{contains_str, str_eq};
use crate::restore::{TabView, WorkspaceTab, WorkspaceTabKind};
use crate::text::{
    chars_of, concat, decimal, decimal_chars, lower_ascii, lower_chars, slice_vec, starts_with, starts_with_chars, string_of,
    trim, trim_chars, trim_str, ends_with, ends_with_chars, eq_chars, strip_end, strip_end_chars, CharSet,
};

verus! {

/// Index of the first `": "` at or after `from`.
pub open spec fn find_colon_space(s: Seq<char>, from: int) -> Option<int>
    decreases s.len() - from,
{
    if from < 0 || from + 1 >= s.len() {
        None
    } else if s[from] == ':' && s[from + 1] == ' ' {
        Some(from)
    } else {
        find_colon_space(s, from + 1)
    }
}

/// `{request_id}: {path}` or `{request_id}: binary file: {path}`, split into
/// the request id and the trimmed path; `None` when either part is empty.
pub open spec fn request_parts(m: Seq<char>) -> Option<(Seq<char>, Seq<char>)> {
    match find_colon_space(m, 0) {
        None => None,
        Some(i) => {
            let id = m.take(i);
            let after = m.skip(i + 2);
            let rest = if starts_with(after, "binary file: "@) {
                trim(after.skip(13))
            } else {
                trim(after)
            };
            if id.len() == 0 || rest.len() == 0 {
                None
            } else {
                Some((id, rest))
            }
        },
    }
}

/// Splits a daemon error message that names the request it answers.
pub fn split_request_message(message: &str) -> (r: Option<(String, String)>)
    ensures
        match r {
            Some((id, path)) => request_parts(message@) == Some((id@, path@)),
            None => request_parts(message@) is None,
        },
{
    let v = chars_of(message);
    let n = v.len();
    let mut i: usize = 0;
    while i < n && i + 1 < n && !(v[i] == ':' && v[i + 1] == ' ')
        invariant
            n == v@.len(),
            i <= n,
            find_colon_space(v@, 0) == find_colon_space(v@, i as int),
        decreases n - i,
    {
        i += 1;
    }
    if !(i < n && i + 1 < n) {
        return None;
    }
    proof {
        assert(find_colon_space(v@, 0) == Some(i as int));
    }
    let id = slice_vec(&v, 0, i);
    let after = slice_vec(&v, i + 2, n);
    proof {
        assert(id@ =~= v@.take(i as int));
        assert(after@ =~= v@.skip(i + 2));
    }
    let rest = if starts_with_chars(&after, &chars_of("binary file: ")) {
        proof {
            reveal_strlit("binary file: ");
        }
        let tail = slice_vec(&after, 13, after.len());
        proof {
            assert(tail@ =~= after@.skip(13));
        }
        trim_chars(&tail)
    } else {
        trim_chars(&after)
    };
    if id.len() == 0 || rest.len() == 0 {
        None
    } else {
        Some((string_of(&id), string_of(&rest)))
    }
}

/// How git rows are looked up by path: the displayed path, lower-cased on
/// Windows where paths compare without case.
pub open spec fn git_lookup_key_spec(path: Seq<char>, windows: bool) -> Seq<char> {
    if windows {
        lower_ascii(display_path_spec(path))
    } else {
        display_path_spec(path)
    }
}

pub fn git_lookup_key(path: &str, windows: bool) -> (r: String)
    ensures
        r@ == git_lookup_key_spec(path@, windows),
{
    let shown = display_path(path);
    if windows {
        string_of(&lower_chars(&chars_of(shown.as_str())))
    } else {
        shown
    }
}

/// The key a saved tab is matched on: `pty:{id}` for a terminal, `file:{path}`
/// for an editor; none when the tab lacks the field its kind needs.
pub open spec fn tab_key_spec(tab: TabView) -> Option<Seq<char>> {
    match tab.kind {
        WorkspaceTabKind::Terminal => match tab.pty_id {
            Some(id) => Some("pty:"@ + id),
            None => None,
        },
        WorkspaceTabKind::Editor => match tab.path {
            Some(p) => Some("file:"@ + p),
            None => None,
        },
    }
}

pub fn tab_key(tab: &WorkspaceTab) -> (r: Option<String>)
    ensures
        r.deep_view() == tab_key_spec(tab@),
{
    match tab.kind {
        WorkspaceTabKind::Terminal => match &tab.pty_id {
            Some(id) => Some(string_of(&concat(&chars_of("pty:"), &chars_of(id.as_str())))),
            None => None,
        },
        WorkspaceTabKind::Editor => match &tab.path {
            Some(p) => Some(string_of(&concat(&chars_of("file:"), &chars_of(p.as_str())))),
            None => None,
        },
    }
}

/// The saved split layout of the center dock: tab groups hold indices into
/// the saved tab list. (Split sizes are pixel floats the window keeps.)
#[derive(Debug, PartialEq, Eq)]
pub enum LayoutNode {
    Tabs { tabs: Vec<u32>, active: u32 },
    Split { axis: String, children: Vec<LayoutNode> },
}

/// The tab indices a layout names, left to right.
pub open spec fn layout_tabs(node: LayoutNode) -> Seq<u32>
    decreases node,
{
    match node {
        LayoutNode::Tabs { tabs, .. } => tabs@,
        LayoutNode::Split { children, .. } => children_tabs(children@, children@.len() as int),
    }
}

/// The tab indices of the first `k` children.
pub open spec fn children_tabs(children: Seq<LayoutNode>, k: int) -> Seq<u32>
    decreases children, k,
{
    if k <= 0 || k > children.len() {
        Seq::empty()
    } else {
        children_tabs(children, k - 1) + layout_tabs(children[k - 1])
    }
}

fn collect_tabs(node: &LayoutNode, found: &mut Vec<u32>)
    ensures
        final(found)@ == old(found)@ + layout_tabs(*node),
    decreases node,
{
    match node {
        LayoutNode::Tabs { tabs, .. } => {
            let mut i: usize = 0;
            let ghost start = found@;
            while i < tabs.len()
                invariant
                    i <= tabs@.len(),
                    found@ == start + tabs@.take(i as int),
                decreases tabs.len() - i,
            {
                found.push(tabs[i]);
                i += 1;
                proof {
                    assert(tabs@.take(i as int) =~= tabs@.take(i - 1).push(tabs@[i - 1]));
                    assert(found@ =~= start + tabs@.take(i as int));
                }
            }
            proof {
                assert(tabs@.take(i as int) =~= tabs@);
            }
        },
        LayoutNode::Split { axis, children } => {
            let mut i: usize = 0;
            let ghost start = found@;
            while i < children.len()
                invariant
                    *node == (LayoutNode::Split { axis: *axis, children: *children }),
                    i <= children@.len(),
                    found@ == start + children_tabs(children@, i as int),
                decreases children.len() - i,
            {
                proof {
                    assert((*node)->Split_children == *children);
                    assert(decreases_to!(*node => (*node)->Split_children));
                    assert(decreases_to!((*node)->Split_children => (*node)->Split_children@));
                    assert(decreases_to!(children@ => children@[i as int]));
                    assert(decreases_to!(*node => children@[i as int]));
                }
                let ghost before = found@;
                collect_tabs(&children[i], found);
                i += 1;
                proof {
                    assert(found@ =~= start + children_tabs(children@, i as int));
                }
            }
        },
    }
}

/// Every tab of a list of `count` appears exactly once.
pub open spec fn each_tab_once(tabs: Seq<u32>, count: nat) -> bool {
    &&& tabs.len() == count
    &&& forall|i: int| 0 <= i < tabs.len() ==> tabs[i] < count
    &&& tabs.no_duplicates()
}

/// A saved layout can be restored only when it names each of the `count`
/// saved tabs exactly once (`count` is taken as a `u32`, as the daemon
/// stores indices).
pub fn complete_center(node: &LayoutNode, count: usize) -> (r: bool)
    ensures
        r == each_tab_once(layout_tabs(*node), (#[verifier::truncate] (count as u32)) as nat),
{
    let mut found: Vec<u32> = Vec::new();
    collect_tabs(node, &mut found);
    proof {
        assert(found@ =~= layout_tabs(*node));
    }
    #[verifier::truncate]
    let c = count as u32;
    if found.len() != c as usize {
        return false;
    }
    let mut seen: Vec<bool> = Vec::new();
    let mut k: usize = 0;
    while k < c as usize
        invariant
            k <= c,
            seen@.len() == k,
            forall|j: int| 0 <= j < k ==> !seen@[j],
        decreases c - k,
    {
        seen.push(false);
        k += 1;
    }
    let mut i: usize = 0;
    while i < found.len()
        invariant
            i <= found@.len(),
            found@ == layout_tabs(*node),
            c == count as u32,
            found@.len() == c,
            seen@.len() == c,
            forall|j: int| 0 <= j < i ==> found@[j] < c && seen@[found@[j] as int],
            forall|v: int| 0 <= v < c && seen@[v] ==> exists|j: int| 0 <= j < i && found@[j] == v,
            forall|a: int, b: int| 0 <= a < b < i ==> found@[a] != found@[b],
        decreases found.len() - i,
    {
        let t = found[i];
        if t >= c {
            return false;
        }
        if seen[t as usize] {
            proof {
                let j = choose|j: int| 0 <= j < i && found@[j] == t;
                assert(found@[j] == found@[i as int]);
            }
            return false;
        }
        seen.set(t as usize, true);
        i += 1;
        proof {
            assert forall|v: int| 0 <= v < c && seen@[v] implies exists|j: int| 0 <= j < i && found@[j] == v by {
                if v == t {
                    assert(found@[i - 1] == v);
                } else {
                    let j = choose|j: int| 0 <= j < i - 1 && found@[j] == v;
                    assert(0 <= j < i && found@[j] == v);
                }
            }
            assert forall|a: int, b: int| 0 <= a < b < i implies found@[a] != found@[b] by {
                if b == i - 1 {
                    assert(seen@[found@[a] as int] || a == i - 1);
                }
            }
        }
    }
    true
}

/// What a saved layout holds, as plain values.
pub enum LayoutShape {
    Tabs { tabs: Seq<u32>, active: u32 },
    Split { axis: Seq<char>, children: Seq<LayoutShape> },
}

pub open spec fn shape_of(node: LayoutNode) -> LayoutShape
    decreases node,
{
    match node {
        LayoutNode::Tabs { tabs, active } => LayoutShape::Tabs { tabs: tabs@, active },
        LayoutNode::Split { axis, children } => LayoutShape::Split {
            axis: axis@,
            children: shapes_of(children@, children@.len() as int),
        },
    }
}

/// Shapes of the first `k` nodes.
pub open spec fn shapes_of(children: Seq<LayoutNode>, k: int) -> Seq<LayoutShape>
    decreases children, k,
{
    if k <= 0 || k > children.len() {
        Seq::empty()
    } else {
        shapes_of(children, k - 1).push(shape_of(children[k - 1]))
    }
}

proof fn lemma_shapes_of_push(children: Seq<LayoutNode>, x: LayoutNode, k: int)
    requires
        0 <= k <= children.len(),
    ensures
        shapes_of(children.push(x), k) == shapes_of(children, k),
    decreases k,
{
    if k > 0 {
        lemma_shapes_of_push(children, x, k - 1);
        assert(children.push(x)[k - 1] == children[k - 1]);
    }
}

/// A pane of the center dock as the window holds it: a tab group (panel ids
/// and which one is active) or a split of child panes. Split sizes are
/// pixel floats and stay with the window.
pub enum PaneTree {
    Tabs { panels: Vec<u64>, active_ix: usize },
    Split { horizontal: bool, children: Vec<PaneTree> },
}

/// The saved index of panel `id`: the first entry of `indices` for it.
pub open spec fn panel_index(indices: Seq<(u64, u32)>, id: u64) -> Option<u32>
    decreases indices.len(),
{
    if indices.len() == 0 {
        None
    } else if indices[0].0 == id {
        Some(indices[0].1)
    } else {
        panel_index(indices.drop_first(), id)
    }
}

/// Saved indices of `panels`, skipping panels that are not saved.
pub open spec fn kept_indices(panels: Seq<u64>, indices: Seq<(u64, u32)>) -> Seq<u32>
    decreases panels.len(),
{
    if panels.len() == 0 {
        Seq::empty()
    } else {
        let rest = kept_indices(panels.drop_last(), indices);
        match panel_index(indices, panels.last()) {
            Some(i) => rest.push(i),
            None => rest,
        }
    }
}

/// The saved form of a pane: tab groups keep their saved panels (and are
/// dropped when none is saved), splits keep the children that remain (and
/// are dropped when none does).
pub open spec fn captured(node: PaneTree, indices: Seq<(u64, u32)>) -> Option<LayoutShape>
    decreases node,
{
    match node {
        PaneTree::Tabs { panels, active_ix } => {
            let tabs = kept_indices(panels@, indices);
            if tabs.len() == 0 {
                None
            } else {
                Some(LayoutShape::Tabs { tabs, active: active_ix as u32 })
            }
        },
        PaneTree::Split { horizontal, children } => {
            let kept = captured_children(children@, children@.len() as int, indices);
            if kept.len() == 0 {
                None
            } else {
                Some(
                    LayoutShape::Split {
                        axis: if horizontal {
                            "horizontal"@
                        } else {
                            "vertical"@
                        },
                        children: kept,
                    },
                )
            }
        },
    }
}

/// Saved forms of the first `k` children that remain.
pub open spec fn captured_children(children: Seq<PaneTree>, k: int, indices: Seq<(u64, u32)>) -> Seq<LayoutShape>
    decreases children, k,
{
    if k <= 0 || k > children.len() {
        Seq::empty()
    } else {
        let rest = captured_children(children, k - 1, indices);
        match captured(children[k - 1], indices) {
            Some(s) => rest.push(s),
            None => rest,
        }
    }
}

pub open spec fn opt_shape(n: Option<LayoutNode>) -> Option<LayoutShape> {
    match n {
        Some(n) => Some(shape_of(n)),
        None => None,
    }
}

fn panel_index_of(indices: &[(u64, u32)], id: u64) -> (r: Option<u32>)
    ensures
        r == panel_index(indices@, id),
{
    let mut i: usize = 0;
    proof {
        assert(indices@.skip(0) =~= indices@);
    }
    while i < indices.len()
        invariant
            i <= indices@.len(),
            panel_index(indices@.skip(i as int), id) == panel_index(indices@, id),
        decreases indices.len() - i,
    {
        proof {
            assert(indices@.skip(i as int).drop_first() =~= indices@.skip(i + 1));
            assert(indices@.skip(i as int)[0] == indices@[i as int]);
        }
        if indices[i].0 == id {
            return Some(indices[i].1);
        }
        i += 1;
    }
    proof {
        assert(indices@.skip(i as int) =~= Seq::<(u64, u32)>::empty());
    }
    None
}

/// The saved layout of a center-dock pane, with panel ids replaced by their
/// saved tab indices (`indices` maps a panel id to its index; the first entry
/// for an id counts). Unsaved panels are left out, and so are tab groups and
/// splits left empty; `None` when nothing of the pane is saved.
pub fn capture_center(node: &PaneTree, indices: &[(u64, u32)]) -> (r: Option<LayoutNode>)
    ensures
        opt_shape(r) == captured(*node, indices@),
    decreases node,
{
    match node {
        PaneTree::Tabs { panels, active_ix } => {
            let mut tabs: Vec<u32> = Vec::new();
            let mut i: usize = 0;
            proof {
                assert(panels@.take(0) =~= Seq::<u64>::empty());
            }
            while i < panels.len()
                invariant
                    i <= panels@.len(),
                    tabs@ == kept_indices(panels@.take(i as int), indices@),
                decreases panels.len() - i,
            {
                proof {
                    assert(panels@.take(i + 1).drop_last() =~= panels@.take(i as int));
                }
                match panel_index_of(indices, panels[i]) {
                    Some(ix) => tabs.push(ix),
                    None => {},
                }
                i += 1;
            }
            proof {
                assert(panels@.take(i as int) =~= panels@);
            }
            if tabs.len() == 0 {
                None
            } else {
                #[verifier::truncate]
                let active = *active_ix as u32;
                Some(LayoutNode::Tabs { tabs, active })
            }
        },
        PaneTree::Split { horizontal, children } => {
            let mut kept: Vec<LayoutNode> = Vec::new();
            let mut i: usize = 0;
            while i < children.len()
                invariant
                    *node == (PaneTree::Split { horizontal: *horizontal, children: *children }),
                    i <= children@.len(),
                    shapes_of(kept@, kept@.len() as int) == captured_children(children@, i as int, indices@),
                decreases children.len() - i,
            {
                proof {
                    assert((*node)->Split_children == *children);
                    assert(decreases_to!(*node => (*node)->Split_children));
                    assert(decreases_to!((*node)->Split_children => (*node)->Split_children@));
                    assert(decreases_to!(children@ => children@[i as int]));
                    assert(decreases_to!(*node => children@[i as int]));
                }
                let ghost before = kept@;
                match capture_center(&children[i], indices) {
                    Some(c) => {
                        kept.push(c);
                        proof {
                            lemma_shapes_of_push(before, c, before.len() as int);
                            assert(kept@ == before.push(c));
                        }
                    },
                    None => {},
                }
                i += 1;
            }
            if kept.len() == 0 {
                None
            } else {
                let axis = if *horizontal {
                    "horizontal".to_string()
                } else {
                    "vertical".to_string()
                };
                proof {
                    reveal_strlit("horizontal");
                    reveal_strlit("vertical");
                }
                Some(LayoutNode::Split { axis, children: kept })
            }
        },
    }
}

/// Whether a saved layout can be rebuilt with `panel_count` restored panels:
/// every tab group is non-empty and names only existing panels, and every
/// split is non-empty, `"horizontal"` or `"vertical"`, with restorable
/// children.
pub open spec fn restorable(node: LayoutShape, panel_count: int) -> bool
    decreases node,
{
    match node {
        LayoutShape::Tabs { tabs, .. } => {
            &&& tabs.len() > 0
            &&& forall|i: int| 0 <= i < tabs.len() ==> (tabs[i] as int) < panel_count
        },
        LayoutShape::Split { axis, children } => {
            &&& children.len() > 0
            &&& (axis == "horizontal"@ || axis == "vertical"@)
            &&& children_restorable(children, children.len() as int, panel_count)
        },
    }
}

/// The first `k` children are restorable.
pub open spec fn children_restorable(children: Seq<LayoutShape>, k: int, panel_count: int) -> bool
    decreases children, k,
{
    if k <= 0 || k > children.len() {
        true
    } else {
        children_restorable(children, k - 1, panel_count) && restorable(children[k - 1], panel_count)
    }
}

proof fn lemma_children_restorable(children: Seq<LayoutShape>, k: int, panel_count: int)
    requires
        0 <= k <= children.len(),
    ensures
        children_restorable(children, k, panel_count) <==> forall|j: int|
            0 <= j < k ==> #[trigger] restorable(children[j], panel_count),
    decreases k,
{
    if k > 0 {
        lemma_children_restorable(children, k - 1, panel_count);
        if children_restorable(children, k, panel_count) {
            assert forall|j: int| 0 <= j < k implies #[trigger] restorable(children[j], panel_count) by {
                if j < k - 1 {
                    assert(restorable(children[j], panel_count));
                }
            }
        }
        if forall|j: int| 0 <= j < k ==> #[trigger] restorable(children[j], panel_count) {
            assert(restorable(children[k - 1], panel_count));
            assert forall|j: int| 0 <= j < k - 1 implies #[trigger] restorable(children[j], panel_count) by {
                assert(restorable(children[j], panel_count));
            }
        }
    }
}

proof fn lemma_shapes_of(children: Seq<LayoutNode>, k: int)
    requires
        0 <= k <= children.len(),
    ensures
        shapes_of(children, k).len() == k,
        forall|j: int| 0 <= j < k ==> #[trigger] shapes_of(children, k)[j] == shape_of(children[j]),
    decreases k,
{
    if k > 0 {
        lemma_shapes_of(children, k - 1);
    }
}

/// Whether the window can rebuild a saved center layout from
/// `panel_count` restored panels (see [`restorable`]).
pub fn can_restore_center(node: &LayoutNode, panel_count: usize) -> (r: bool)
    ensures
        r == restorable(shape_of(*node), panel_count as int),
    decreases node,
{
    match node {
        LayoutNode::Tabs { tabs, active } => {
            if tabs.len() == 0 {
                return false;
            }
            let mut i: usize = 0;
            while i < tabs.len()
                invariant
                    *node == (LayoutNode::Tabs { tabs: *tabs, active: *active }),
                    i <= tabs@.len(),
                    forall|j: int| 0 <= j < i ==> (tabs@[j] as int) < panel_count,
                decreases tabs.len() - i,
            {
                if tabs[i] as usize >= panel_count {
                    assert(!((tabs@[i as int] as int) < panel_count));
                    return false;
                }
                i += 1;
            }
            true
        },
        LayoutNode::Split { axis, children } => {
            proof {
                lemma_shapes_of(children@, children@.len() as int);
                lemma_children_restorable(
                    shapes_of(children@, children@.len() as int),
                    children@.len() as int,
                    panel_count as int,
                );
            }
            if children.len() == 0 {
                return false;
            }
            proof {
                reveal_strlit("horizontal");
                reveal_strlit("vertical");
            }
            if !str_eq(axis.as_str(), "horizontal") && !str_eq(axis.as_str(), "vertical") {
                return false;
            }
            let mut i: usize = 0;
            while i < children.len()
                invariant
                    *node == (LayoutNode::Split { axis: *axis, children: *children }),
                    i <= children@.len(),
                    forall|j: int| 0 <= j < i ==> #[trigger] restorable(shape_of(children@[j]), panel_count as int),
                decreases children.len() - i,
            {
                proof {
                    assert((*node)->Split_children == *children);
                    assert(decreases_to!(*node => (*node)->Split_children));
                    assert(decreases_to!((*node)->Split_children => (*node)->Split_children@));
                    assert(decreases_to!(children@ => children@[i as int]));
                    assert(decreases_to!(*node => children@[i as int]));
                }
                if !can_restore_center(&children[i], panel_count) {
                    proof {
                        lemma_shapes_of(children@, children@.len() as int);
                        lemma_children_restorable(
                            shapes_of(children@, children@.len() as int),
                            children@.len() as int,
                            panel_count as int,
                        );
                        let sh = shapes_of(children@, children@.len() as int);
                        assert(sh[i as int] == shape_of(children@[i as int]));
                    }
                    return false;
                }
                i += 1;
            }
            proof {
                let sh = shapes_of(children@, children@.len() as int);
                assert forall|j: int| 0 <= j < children@.len() implies #[trigger] restorable(sh[j], panel_count as int) by {
                    assert(sh[j] == shape_of(children@[j]));
                }
            }
            true
        },
    }
}

proof fn lemma_panel_index_bound(indices: Seq<(u64, u32)>, id: u64, panel_count: int)
    requires
        forall|i: int| 0 <= i < indices.len() ==> (#[trigger] indices[i].1 as int) < panel_count,
    ensures
        panel_index(indices, id) matches Some(v) ==> (v as int) < panel_count,
    decreases indices.len(),
{
    if indices.len() > 0 && indices[0].0 != id {
        assert forall|i: int| 0 <= i < indices.drop_first().len() implies (#[trigger] indices.drop_first()[i].1 as int) < panel_count by {
            assert(indices.drop_first()[i] == indices[i + 1]);
        }
        lemma_panel_index_bound(indices.drop_first(), id, panel_count);
    }
}

proof fn lemma_kept_indices_bound(panels: Seq<u64>, indices: Seq<(u64, u32)>, panel_count: int)
    requires
        forall|i: int| 0 <= i < indices.len() ==> (#[trigger] indices[i].1 as int) < panel_count,
    ensures
        forall|j: int| 0 <= j < kept_indices(panels, indices).len() ==> (#[trigger] kept_indices(panels, indices)[j] as int)
            < panel_count,
    decreases panels.len(),
{
    if panels.len() > 0 {
        lemma_kept_indices_bound(panels.drop_last(), indices, panel_count);
        lemma_panel_index_bound(indices, panels.last(), panel_count);
        let rest = kept_indices(panels.drop_last(), indices);
        let all = kept_indices(panels, indices);
        assert forall|j: int| 0 <= j < all.len() implies (#[trigger] all[j] as int) < panel_count by {
            if j < rest.len() {
                assert(all[j] == rest[j]);
            }
        }
    }
}

proof fn lemma_captured_children_from(children: Seq<PaneTree>, k: int, indices: Seq<(u64, u32)>, m: int)
    requires
        0 <= k <= children.len(),
        0 <= m < captured_children(children, k, indices).len(),
    ensures
        exists|j: int| 0 <= j < k && #[trigger] captured(children[j], indices) == Some(
            captured_children(children, k, indices)[m],
        ),
    decreases k,
{
    if k > 0 {
        let rest = captured_children(children, k - 1, indices);
        if m < rest.len() {
            lemma_captured_children_from(children, k - 1, indices, m);
            let j = choose|j: int| 0 <= j < k - 1 && #[trigger] captured(children[j], indices) == Some(rest[m]);
            assert(captured(children[j], indices) == Some(captured_children(children, k, indices)[m]));
        } else {
            assert(captured(children[k - 1], indices) == Some(captured_children(children, k, indices)[m]));
        }
    }
}

/// A saved layout is restorable: when every saved index names one of the
/// `panel_count` restored panels, what [`capture_center`] saves is what
/// [`can_restore_center`] accepts.
pub proof fn captured_layout_is_restorable(node: PaneTree, indices: Seq<(u64, u32)>, panel_count: int)
    requires
        forall|i: int| 0 <= i < indices.len() ==> (#[trigger] indices[i].1 as int) < panel_count,
    ensures
        captured(node, indices) matches Some(s) ==> restorable(s, panel_count),
    decreases node,
{
    match node {
        PaneTree::Tabs { panels, .. } => {
            lemma_kept_indices_bound(panels@, indices, panel_count);
        },
        PaneTree::Split { horizontal, children } => {
            let kept = captured_children(children@, children@.len() as int, indices);
            assert forall|m: int| 0 <= m < kept.len() implies #[trigger] restorable(kept[m], panel_count) by {
                lemma_captured_children_from(children@, children@.len() as int, indices, m);
                let j = choose|j: int| 0 <= j < children@.len() && #[trigger] captured(children@[j], indices) == Some(kept[m]);
                assert(decreases_to!(node => node->Split_children));
                assert(decreases_to!(node->Split_children => node->Split_children@));
                assert(decreases_to!(children@ => children@[j]));
                captured_layout_is_restorable(children@[j], indices, panel_count);
            }
            lemma_children_restorable(kept, kept.len() as int, panel_count);
            reveal_strlit("horizontal");
            reveal_strlit("vertical");
        },
    }
}

/// Most PTY output bytes parsed and painted in one update.
pub const PTY_BATCH_BYTES: usize = 131072;

/// Most PTY events merged into one update.
pub const PTY_BATCH_EVENTS: usize = 32;

/// Output of one PTY gathered for a single parser and paint update. The
/// first chunk is never delayed; adjacent chunks of the same PTY join it
/// while the byte and event caps allow.
pub struct PtyBatch {
    id: String,
    bytes: Vec<u8>,
    events: usize,
}

impl PtyBatch {
    pub closed spec fn id(&self) -> Seq<char> {
        self.id@
    }

    pub closed spec fn bytes(&self) -> Seq<u8> {
        self.bytes@
    }

    /// How many PTY events the batch holds.
    pub closed spec fn events(&self) -> nat {
        self.events as nat
    }

    pub closed spec fn well_formed(&self) -> bool {
        1 <= self.events <= PTY_BATCH_EVENTS
    }

    /// A batch holding the first chunk.
    pub fn start(id: String, bytes: Vec<u8>) -> (b: Self)
        ensures
            b.well_formed(),
            b.id() == id@,
            b.bytes() == bytes@,
            b.events() == 1,
    {
        PtyBatch { id, bytes, events: 1 }
    }

    /// Whether another queued event may still be looked at.
    pub fn wants_more(&self) -> (r: bool)
        requires
            self.well_formed(),
        ensures
            r == (self.events() < PTY_BATCH_EVENTS),
    {
        self.events < PTY_BATCH_EVENTS
    }

    /// Take the next queued chunk if it is output of the same PTY and fits
    /// under the byte cap. A chunk that is not taken ends the batch and is
    /// handled on its own.
    pub fn offer(&mut self, id: &str, bytes: &[u8]) -> (taken: bool)
        requires
            old(self).well_formed(),
            old(self).events() < PTY_BATCH_EVENTS,
        ensures
            final(self).well_formed(),
            taken == (id@ == old(self).id() && old(self).bytes().len() + bytes@.len()
                <= PTY_BATCH_BYTES),
            taken ==> final(self).bytes() == old(self).bytes() + bytes@ && final(self).events()
                == old(self).events() + 1 && final(self).id() == old(self).id(),
            !taken ==> final(self).bytes() == old(self).bytes() && final(self).events()
                == old(self).events() && final(self).id() == old(self).id(),
    {
        if !crate::strs::str_eq(id, self.id.as_str()) {
            return false;
        }
        if bytes.len() > PTY_BATCH_BYTES || self.bytes.len() > PTY_BATCH_BYTES - bytes.len() {
            return false;
        }
        let mut i: usize = 0;
        let ghost start = self.bytes@;
        while i < bytes.len()
            invariant
                i <= bytes@.len(),
                self.bytes@ == start + bytes@.take(i as int),
                self.id == old(self).id,
                self.events == old(self).events,
            decreases bytes.len() - i,
        {
            self.bytes.push(bytes[i]);
            i += 1;
            proof {
                assert(bytes@.take(i as int) =~= bytes@.take(i - 1).push(bytes@[i - 1]));
                assert(self.bytes@ =~= start + bytes@.take(i as int));
            }
        }
        proof {
            assert(bytes@.take(i as int) =~= bytes@);
        }
        self.events = self.events + 1;
        true
    }

    /// The PTY id and its gathered output.
    pub fn into_parts(self) -> (r: (String, Vec<u8>))
        ensures
            r.0@ == self.id(),
            r.1@ == self.bytes(),
    {
        (self.id, self.bytes)
    }
}

/// Daemon events handled between two chances for the window to paint.
pub const EVENTS_PER_TURN: usize = 8;

/// Count one handled event. Every eighth event the count starts over, and
/// the event loop then lets a paint and input turn run when more events are
/// already waiting. Returns the new count and whether to yield now.
pub fn count_handled_event(handled: usize, more_queued: bool) -> (r: (usize, bool))
    requires
        handled < EVENTS_PER_TURN,
    ensures
        r.0 == (if handled + 1 == EVENTS_PER_TURN {
            0
        } else {
            handled + 1
        }),
        r.1 == (handled + 1 == EVENTS_PER_TURN && more_queued),
        r.0 < EVENTS_PER_TURN,
{
    let handled = handled + 1;
    if handled == EVENTS_PER_TURN {
        (0, more_queued)
    } else {
        (handled, false)
    }
}

/// Title of a new untitled editor: `Untitled`, then `Untitled 2`, `Untitled 3`
/// while earlier untitled editors are still unsaved.
pub open spec fn untitled_title_spec(unsaved: nat) -> Seq<char> {
    if unsaved == 0 {
        "Untitled"@
    } else {
        "Untitled "@ + decimal(unsaved + 1)
    }
}

pub fn untitled_title(unsaved: usize) -> (r: String)
    requires
        unsaved < usize::MAX,
    ensures
        r@ == untitled_title_spec(unsaved as nat),
{
    if unsaved == 0 {
        string_of(&chars_of("Untitled"))
    } else {
        string_of(&concat(&chars_of("Untitled "), &decimal_chars((unsaved + 1) as u128)))
    }
}

/// Folder a new file is created in: the last selected folder, or the folder
/// of the last selected file, or the explorer root; nothing without a root.
pub open spec fn create_parent_spec(
    explorer_root: Seq<char>,
    last_selected: Option<Seq<char>>,
    last_is_dir: bool,
) -> Option<Seq<char>> {
    if explorer_root.len() == 0 {
        None
    } else {
        match last_selected {
            None => Some(explorer_root),
            Some(path) => if last_is_dir {
                Some(path)
            } else {
                match parent_dir_spec(path) {
                    Some(p) => Some(p),
                    None => Some(explorer_root),
                }
            },
        }
    }
}

/// `last_is_dir` says whether the last selected path is a folder.
pub fn create_parent(explorer_root: &str, last_selected: Option<&str>, last_is_dir: bool) -> (r:
    Option<String>)
    ensures
        r.deep_view() == create_parent_spec(explorer_root@, opt_str(last_selected), last_is_dir),
{
    if chars_of(explorer_root).len() == 0 {
        return None;
    }
    match last_selected {
        None => Some(string_of(&chars_of(explorer_root))),
        Some(path) => if last_is_dir {
            Some(string_of(&chars_of(path)))
        } else {
            match parent_dir(path) {
                Some(p) => Some(p),
                None => Some(string_of(&chars_of(explorer_root))),
            }
        },
    }
}

pub open spec fn or_else(a: Option<Seq<char>>, b: Option<Seq<char>>) -> Option<Seq<char>> {
    match a {
        Some(x) => Some(x),
        None => b,
    }
}

/// Where a new shell starts: the selected folder (or the selected file's
/// folder), else the focused surface's directory, else the last shell cwd;
/// then, when that is blank, the workspace root.
pub open spec fn shell_cwd_spec(
    selected: Option<Seq<char>>,
    selected_is_dir: bool,
    active_cwd: Option<Seq<char>>,
    last_cwd: Option<Seq<char>>,
    workspace_root: Option<Seq<char>>,
) -> Option<Seq<char>> {
    let selected_dir = match selected {
        Some(p) => if selected_is_dir {
            Some(p)
        } else {
            parent_dir_spec(p)
        },
        None => None,
    };
    let explicit = or_else(or_else(selected_dir, active_cwd), last_cwd);
    match nonempty_trimmed(explicit) {
        Some(e) => Some(e),
        None => nonempty_trimmed(workspace_root),
    }
}

/// `active_cwd` is the focused terminal's reported cwd, or the focused
/// editor file's folder.
pub fn shell_cwd(
    selected: Option<&str>,
    selected_is_dir: bool,
    active_cwd: Option<&str>,
    last_cwd: Option<&str>,
    workspace_root: Option<&str>,
) -> (r: Option<String>)
    ensures
        r.deep_view() == shell_cwd_spec(
            opt_str(selected),
            selected_is_dir,
            opt_str(active_cwd),
            opt_str(last_cwd),
            opt_str(workspace_root),
        ),
{
    let selected_dir: Option<String> = match selected {
        Some(p) => if selected_is_dir {
            Some(string_of(&chars_of(p)))
        } else {
            parent_dir(p)
        },
        None => None,
    };
    match selected_dir {
        Some(d) => choose_shell_cwd(Some(d.as_str()), workspace_root),
        None => match active_cwd {
            Some(a) => choose_shell_cwd(Some(a), workspace_root),
            None => choose_shell_cwd(last_cwd, workspace_root),
        },
    }
}

/// Index of the first workspace with id `id`.
pub open spec fn first_id_match(ws: Seq<WorkspaceInfo>, id: Seq<char>) -> Option<int>
    decreases ws.len(),
{
    if ws.len() == 0 {
        None
    } else {
        match first_id_match(ws.drop_last(), id) {
            Some(i) => Some(i),
            None => if ws.last().id@ == id {
                Some(ws.len() - 1)
            } else {
                None
            },
        }
    }
}

proof fn lemma_first_id_match(ws: Seq<WorkspaceInfo>, id: Seq<char>)
    ensures
        match first_id_match(ws, id) {
            Some(i) => 0 <= i < ws.len() && ws[i].id@ == id && forall|j: int|
                0 <= j < i ==> ws[j].id@ != id,
            None => forall|j: int| 0 <= j < ws.len() ==> ws[j].id@ != id,
        },
    decreases ws.len(),
{
    if ws.len() > 0 {
        let t = ws.drop_last();
        lemma_first_id_match(t, id);
        assert forall|j: int| 0 <= j < t.len() implies t[j] == ws[j] by {}
    }
}

fn find_workspace(ws: &Vec<WorkspaceInfo>, id: &str) -> (r: Option<usize>)
    ensures
        match r {
            Some(i) => first_id_match(ws@, id@) == Some(i as int) && i < ws@.len(),
            None => first_id_match(ws@, id@) is None,
        },
{
    proof {
        lemma_first_id_match(ws@, id@);
    }
    let mut i: usize = 0;
    while i < ws.len()
        invariant
            i <= ws@.len(),
            forall|j: int| 0 <= j < i ==> ws@[j].id@ != id@,
            match first_id_match(ws@, id@) {
                Some(k) => 0 <= k < ws@.len() && ws@[k].id@ == id@ && forall|j: int|
                    0 <= j < k ==> ws@[j].id@ != id@,
                None => forall|j: int| 0 <= j < ws@.len() ==> ws@[j].id@ != id@,
            },
        decreases ws.len() - i,
    {
        if crate::strs::str_eq(ws[i].id.as_str(), id) {
            return Some(i);
        }
        i += 1;
    }
    None
}

/// The directory the focused workspace works in: its root, else the
/// explorer folder, else the root this window was opened with; blank
/// values skipped.
pub open spec fn workspace_root_spec(
    active_id: Option<Seq<char>>,
    workspaces: Seq<WorkspaceInfo>,
    explorer_root: Seq<char>,
    preferred_root: Option<Seq<char>>,
) -> Option<Seq<char>> {
    let from_workspace = match active_id {
        Some(id) => match first_id_match(workspaces, id) {
            Some(i) => Some(workspaces[i].root@),
            None => None,
        },
        None => None,
    };
    let explorer = if trim(explorer_root).len() == 0 {
        None
    } else {
        Some(explorer_root)
    };
    match nonempty_trimmed(from_workspace) {
        Some(e) => Some(e),
        None => nonempty_trimmed(or_else(explorer, preferred_root)),
    }
}

pub fn workspace_root(
    active_id: Option<&str>,
    workspaces: &Vec<WorkspaceInfo>,
    explorer_root: &str,
    preferred_root: Option<&str>,
) -> (r: Option<String>)
    ensures
        r.deep_view() == workspace_root_spec(
            opt_str(active_id),
            workspaces@,
            explorer_root@,
            opt_str(preferred_root),
        ),
{
    let from_workspace: Option<&str> = match active_id {
        Some(id) => match find_workspace(workspaces, id) {
            Some(i) => Some(workspaces[i].root.as_str()),
            None => None,
        },
        None => None,
    };
    let blank = trim_str(explorer_root).len() == 0;
    let fallback: Option<&str> = if blank {
        preferred_root
    } else {
        Some(explorer_root)
    };
    choose_shell_cwd(from_workspace, fallback)
}

/// Record a workspace the daemon reported: it replaces the first entry with
/// its id, or joins the end of the list.
pub fn upsert_workspace(workspaces: &mut Vec<WorkspaceInfo>, info: WorkspaceInfo)
    ensures
        match first_id_match(old(workspaces)@, info.id@) {
            Some(i) => final(workspaces)@ == old(workspaces)@.update(i, info),
            None => final(workspaces)@ == old(workspaces)@.push(info),
        },
{
    match find_workspace(workspaces, info.id.as_str()) {
        Some(i) => {
            workspaces.set(i, info);
        },
        None => {
            workspaces.push(info);
        },
    }
}

/// `ws` without the workspaces whose id is `id`.
pub open spec fn without_id(ws: Seq<WorkspaceInfo>, id: Seq<char>) -> Seq<WorkspaceInfo>
    decreases ws.len(),
{
    if ws.len() == 0 {
        Seq::empty()
    } else if ws.last().id@ == id {
        without_id(ws.drop_last(), id)
    } else {
        without_id(ws.drop_last(), id).push(ws.last())
    }
}

/// The workspace to switch to after the active one closed: the one the
/// daemon focused, else the first that remains. Closing an inactive
/// workspace switches nowhere.
pub open spec fn after_close_spec(
    remaining: Seq<WorkspaceInfo>,
    was_active: bool,
    focused: Option<Seq<char>>,
) -> Option<Seq<char>> {
    if !was_active {
        None
    } else {
        match focused {
            Some(f) => Some(f),
            None => if remaining.len() > 0 {
                Some(remaining[0].id@)
            } else {
                None
            },
        }
    }
}

pub open spec fn opt_string(o: Option<String>) -> Option<Seq<char>> {
    match o {
        Some(s) => Some(s@),
        None => None,
    }
}

/// Drop workspace `id` from the list the daemon reported closed, and say
/// which workspace to switch to: only when the closed one was active
/// (`active_id`), the daemon's `focused_id`, else the first that remains.
pub fn close_workspace(
    workspaces: &mut Vec<WorkspaceInfo>,
    id: &str,
    focused_id: Option<String>,
    active_id: Option<&str>,
) -> (r: Option<String>)
    ensures
        final(workspaces)@ == without_id(old(workspaces)@, id@),
        opt_string(r) == after_close_spec(final(workspaces)@, opt_str(active_id) == Some(id@), opt_string(focused_id)),
{
    let ghost start = workspaces@;
    let mut i: usize = 0;
    let ghost mut j: int = 0;
    proof {
        assert(start.take(0) =~= Seq::<WorkspaceInfo>::empty());
        assert(workspaces@.take(0) =~= Seq::<WorkspaceInfo>::empty());
        assert(start.skip(0) =~= start);
    }
    while i < workspaces.len()
        invariant
            0 <= j <= start.len(),
            i <= workspaces@.len(),
            workspaces@.take(i as int) == without_id(start.take(j), id@),
            workspaces@.skip(i as int) == start.skip(j),
            workspaces@.len() - i == start.len() - j,
        decreases workspaces.len() - i,
    {
        proof {
            assert(workspaces@.skip(i as int)[0] == start.skip(j)[0]);
            assert(workspaces@.skip(i as int)[0] == start[j]);
            assert(start.take(j + 1).drop_last() =~= start.take(j));
            assert(start.take(j + 1).last() == start[j]);
            assert(workspaces@[i as int] == start[j]);
        }
        if crate::strs::str_eq(workspaces[i].id.as_str(), id) {
            let ghost before = workspaces@;
            workspaces.remove(i);
            proof {
                assert(workspaces@.take(i as int) =~= before.take(i as int));
                assert(workspaces@.skip(i as int) =~= before.skip(i + 1));
                assert(before.skip(i + 1) =~= before.skip(i as int).drop_first());
                assert(start.skip(j + 1) =~= start.skip(j).drop_first());
                j = j + 1;
            }
        } else {
            proof {
                assert(workspaces@.take(i + 1) =~= workspaces@.take(i as int).push(workspaces@[i as int]));
                assert(workspaces@.skip(i + 1) =~= workspaces@.skip(i as int).drop_first());
                assert(start.skip(j + 1) =~= start.skip(j).drop_first());
                j = j + 1;
            }
            i += 1;
        }
    }
    proof {
        assert(workspaces@.take(i as int) =~= workspaces@);
        assert(start.skip(j).len() == 0);
        assert(start.take(j) =~= start);
    }
    let was_active = match active_id {
        Some(a) => crate::strs::str_eq(a, id),
        None => false,
    };
    if !was_active {
        return None;
    }
    match focused_id {
        Some(f) => Some(f),
        None => if workspaces.len() > 0 {
            Some(copy_string(&workspaces[0].id))
        } else {
            None
        },
    }
}

/// The surface whose tab is active in the center dock, by its key.
#[derive(Clone, Debug, PartialEq, Eq)]
pub enum ActiveSurface {
    /// A terminal, by PTY id.
    Terminal(String),
    /// An editor, by its key (path, untitled key or defaults file).
    Editor(String),
    /// A diff, by repository-relative path.
    Diff(String),
    /// A binary file view, by path.
    Binary(String),
}

pub enum SurfaceView {
    Terminal(Seq<char>),
    Editor(Seq<char>),
    Diff(Seq<char>),
    Binary(Seq<char>),
}

impl View for ActiveSurface {
    type V = SurfaceView;

    open spec fn view(&self) -> SurfaceView {
        match self {
            ActiveSurface::Terminal(k) => SurfaceView::Terminal(k@),
            ActiveSurface::Editor(k) => SurfaceView::Editor(k@),
            ActiveSurface::Diff(k) => SurfaceView::Diff(k@),
            ActiveSurface::Binary(k) => SurfaceView::Binary(k@),
        }
    }
}

pub open spec fn opt_surface(o: Option<ActiveSurface>) -> Option<SurfaceView> {
    match o {
        Some(s) => Some(s@),
        None => None,
    }
}

fn same_surface(a: &ActiveSurface, b: &ActiveSurface) -> (r: bool)
    ensures
        r == (a@ == b@),
{
    match (a, b) {
        (ActiveSurface::Terminal(x), ActiveSurface::Terminal(y)) => crate::strs::str_eq(x.as_str(), y.as_str()),
        (ActiveSurface::Editor(x), ActiveSurface::Editor(y)) => crate::strs::str_eq(x.as_str(), y.as_str()),
        (ActiveSurface::Diff(x), ActiveSurface::Diff(y)) => crate::strs::str_eq(x.as_str(), y.as_str()),
        (ActiveSurface::Binary(x), ActiveSurface::Binary(y)) => crate::strs::str_eq(x.as_str(), y.as_str()),
        _ => false,
    }
}

/// The active surface after `surface` became active (`on`) or stopped being
/// active, was closed or forgotten (`!on`): activation makes it the active
/// one; otherwise it is cleared only if it was the active one.
pub open spec fn note_active_spec(active: Option<SurfaceView>, surface: SurfaceView, on: bool) -> Option<SurfaceView> {
    if on {
        Some(surface)
    } else if active == Some(surface) {
        None
    } else {
        active
    }
}

/// Record that `surface` became active (`on`) or inactive / closed (`!on`).
pub fn note_active(active: &mut Option<ActiveSurface>, surface: ActiveSurface, on: bool)
    ensures
        opt_surface(*final(active)) == note_active_spec(opt_surface(*old(active)), surface@, on),
{
    if on {
        *active = Some(surface);
    } else {
        let clear = match active {
            Some(current) => same_surface(current, &surface),
            None => false,
        };
        if clear {
            *active = None;
        }
    }
}

/// After an editor was saved under a new key, the active editor follows it.
pub fn rename_active_editor(active: &mut Option<ActiveSurface>, previous: &str, path: &str)
    ensures
        opt_surface(*final(active)) == if opt_surface(*old(active)) == Some(SurfaceView::Editor(previous@)) {
            Some(SurfaceView::Editor(path@))
        } else {
            opt_surface(*old(active))
        },
{
    let follows = match active {
        Some(ActiveSurface::Editor(current)) => crate::strs::str_eq(current.as_str(), previous),
        _ => false,
    };
    if follows {
        *active = Some(ActiveSurface::Editor(copy_string_str(path)));
    }
}

fn copy_string_str(s: &str) -> (r: String)
    ensures
        r@ == s@,
{
    string_of(&chars_of(s))
}

/// An open terminal panel: its PTY, dock panel id and tab label.
#[derive(Clone, Debug, PartialEq, Eq)]
pub struct TerminalTab {
    pub pty_id: String,
    pub panel: u64,
    pub label: String,
}

/// An open editor panel: its key (file path, untitled key or the defaults
/// file) and dock panel id.
#[derive(Clone, Debug, PartialEq, Eq)]
pub struct EditorTab {
    pub path: String,
    pub panel: u64,
}

pub open spec fn opt_eq(a: Option<Seq<char>>, b: Seq<char>) -> bool {
    a == Some(b)
}

/// An editor that belongs in the saved tab list: neither untitled nor the
/// read-only defaults file.
pub open spec fn saved_editor(path: Seq<char>, defaults: Option<Seq<char>>) -> bool {
    !opt_eq(defaults, path) && !starts_with(path, untitled_prefix())
}

pub open spec fn first_terminal(ts: Seq<TerminalTab>, id: u64) -> Option<int>
    decreases ts.len(),
{
    if ts.len() == 0 {
        None
    } else {
        match first_terminal(ts.drop_last(), id) {
            Some(i) => Some(i),
            None => if ts.last().panel == id {
                Some(ts.len() - 1)
            } else {
                None
            },
        }
    }
}

pub open spec fn first_saved_editor(es: Seq<EditorTab>, id: u64, defaults: Option<Seq<char>>) -> Option<int>
    decreases es.len(),
{
    if es.len() == 0 {
        None
    } else {
        match first_saved_editor(es.drop_last(), id, defaults) {
            Some(i) => Some(i),
            None => if es.last().panel == id && saved_editor(es.last().path@, defaults) {
                Some(es.len() - 1)
            } else {
                None
            },
        }
    }
}

/// The title an editor tab is saved with: its last path segment.
pub open spec fn editor_title(path: Seq<char>) -> Seq<char> {
    match basename_spec(path) {
        Some(b) => b,
        None => path,
    }
}

pub open spec fn terminal_tab_view(t: TerminalTab) -> TabView {
    TabView { kind: WorkspaceTabKind::Terminal, title: t.label@, pty_id: Some(t.pty_id@), path: None }
}

pub open spec fn editor_tab_view(e: EditorTab) -> TabView {
    TabView { kind: WorkspaceTabKind::Editor, title: editor_title(e.path@), pty_id: None, path: Some(e.path@) }
}

/// The saved tab of a dock panel, if it has one: terminals first, then
/// saved editors.
pub open spec fn panel_tab(ts: Seq<TerminalTab>, es: Seq<EditorTab>, defaults: Option<Seq<char>>, id: u64) -> Option<TabView> {
    match first_terminal(ts, id) {
        Some(i) => Some(terminal_tab_view(ts[i])),
        None => match first_saved_editor(es, id, defaults) {
            Some(j) => Some(editor_tab_view(es[j])),
            None => None,
        },
    }
}

/// Pass one: the dock's panels in dock order.
pub open spec fn docked_tabs(order: Seq<u64>, ts: Seq<TerminalTab>, es: Seq<EditorTab>, defaults: Option<Seq<char>>) -> Seq<TabView>
    decreases order.len(),
{
    if order.len() == 0 {
        Seq::empty()
    } else {
        let prev = docked_tabs(order.drop_last(), ts, es, defaults);
        match panel_tab(ts, es, defaults, order.last()) {
            Some(tab) => prev.push(tab),
            None => prev,
        }
    }
}

/// The PTYs of a tab list's terminal tabs, in order.
pub open spec fn tab_ptys(tabs: Seq<TabView>) -> Seq<Seq<char>>
    decreases tabs.len(),
{
    if tabs.len() == 0 {
        Seq::empty()
    } else {
        let prev = tab_ptys(tabs.drop_last());
        match (tabs.last().kind, tabs.last().pty_id) {
            (WorkspaceTabKind::Terminal, Some(p)) => prev.push(p),
            _ => prev,
        }
    }
}

/// The files of a tab list's editor tabs, in order.
pub open spec fn tab_paths(tabs: Seq<TabView>) -> Seq<Seq<char>>
    decreases tabs.len(),
{
    if tabs.len() == 0 {
        Seq::empty()
    } else {
        let prev = tab_paths(tabs.drop_last());
        match (tabs.last().kind, tabs.last().path) {
            (WorkspaceTabKind::Editor, Some(p)) => prev.push(p),
            _ => prev,
        }
    }
}

/// Pass two: terminals not in the dock (a PTY once), in the given order.
pub open spec fn rest_terminals(ts: Seq<TerminalTab>, seen: Seq<Seq<char>>) -> Seq<TabView>
    decreases ts.len(),
{
    if ts.len() == 0 {
        Seq::empty()
    } else if seen.contains(ts[0].pty_id@) {
        rest_terminals(ts.drop_first(), seen)
    } else {
        seq![terminal_tab_view(ts[0])] + rest_terminals(ts.drop_first(), seen.push(ts[0].pty_id@))
    }
}

/// Pass three: saved editors not in the dock (a file once), in the given
/// order.
pub open spec fn rest_editors(es: Seq<EditorTab>, defaults: Option<Seq<char>>, seen: Seq<Seq<char>>) -> Seq<TabView>
    decreases es.len(),
{
    if es.len() == 0 {
        Seq::empty()
    } else if !saved_editor(es[0].path@, defaults) || seen.contains(es[0].path@) {
        rest_editors(es.drop_first(), defaults, seen)
    } else {
        seq![editor_tab_view(es[0])] + rest_editors(es.drop_first(), defaults, seen.push(es[0].path@))
    }
}

/// The tab list a workspace is saved with: the dock's terminal and saved
/// editor tabs in dock order, then open terminals and saved editors the
/// dock does not show.
pub open spec fn layout_tabs_spec(order: Seq<u64>, ts: Seq<TerminalTab>, es: Seq<EditorTab>, defaults: Option<Seq<char>>) -> Seq<TabView> {
    let docked = docked_tabs(order, ts, es, defaults);
    let terms = rest_terminals(ts, tab_ptys(docked));
    docked + terms + rest_editors(es, defaults, tab_paths(docked + terms))
}

/// The dock panels that have a saved tab, in dock order.
pub open spec fn saved_panels(order: Seq<u64>, ts: Seq<TerminalTab>, es: Seq<EditorTab>, defaults: Option<Seq<char>>) -> Seq<u64>
    decreases order.len(),
{
    if order.len() == 0 {
        Seq::empty()
    } else {
        let prev = saved_panels(order.drop_last(), ts, es, defaults);
        if panel_tab(ts, es, defaults, order.last()) is Some {
            prev.push(order.last())
        } else {
            prev
        }
    }
}

pub open spec fn first_u64(s: Seq<u64>, x: u64) -> Option<int>
    decreases s.len(),
{
    if s.len() == 0 {
        None
    } else {
        match first_u64(s.drop_last(), x) {
            Some(i) => Some(i),
            None => if s.last() == x {
                Some(s.len() - 1)
            } else {
                None
            },
        }
    }
}

/// Which saved tab is active: the active panel's place among the dock's
/// saved panels, or the first tab.
pub open spec fn active_tab_spec(order: Seq<u64>, ts: Seq<TerminalTab>, es: Seq<EditorTab>, defaults: Option<Seq<char>>, active: Option<u64>) -> u32 {
    match active {
        Some(a) => match first_u64(saved_panels(order, ts, es, defaults), a) {
            Some(ix) => #[verifier::truncate] (ix as u32),
            None => 0,
        },
        None => 0,
    }
}

proof fn lemma_first_terminal(ts: Seq<TerminalTab>, id: u64)
    ensures
        match first_terminal(ts, id) {
            Some(i) => 0 <= i < ts.len() && ts[i].panel == id && forall|j: int| 0 <= j < i ==> ts[j].panel != id,
            None => forall|j: int| 0 <= j < ts.len() ==> ts[j].panel != id,
        },
    decreases ts.len(),
{
    if ts.len() > 0 {
        let p = ts.drop_last();
        lemma_first_terminal(p, id);
        assert forall|j: int| 0 <= j < p.len() implies p[j] == ts[j] by {}
    }
}

proof fn lemma_first_saved_editor(es: Seq<EditorTab>, id: u64, defaults: Option<Seq<char>>)
    ensures
        match first_saved_editor(es, id, defaults) {
            Some(i) => 0 <= i < es.len() && es[i].panel == id && saved_editor(es[i].path@, defaults) && forall|j: int|
                0 <= j < i ==> !(es[j].panel == id && saved_editor(es[j].path@, defaults)),
            None => forall|j: int| 0 <= j < es.len() ==> !(es[j].panel == id && saved_editor(es[j].path@, defaults)),
        },
    decreases es.len(),
{
    if es.len() > 0 {
        let p = es.drop_last();
        lemma_first_saved_editor(p, id, defaults);
        assert forall|j: int| 0 <= j < p.len() implies p[j] == es[j] by {}
    }
}

fn find_terminal(ts: &[TerminalTab], id: u64) -> (r: Option<usize>)
    ensures
        match r {
            Some(i) => first_terminal(ts@, id) == Some(i as int) && i < ts@.len(),
            None => first_terminal(ts@, id) is None,
        },
{
    proof {
        lemma_first_terminal(ts@, id);
    }
    let mut i: usize = 0;
    while i < ts.len()
        invariant
            i <= ts@.len(),
            forall|j: int| 0 <= j < i ==> ts@[j].panel != id,
            match first_terminal(ts@, id) {
                Some(k) => 0 <= k < ts@.len() && ts@[k].panel == id && forall|j: int| 0 <= j < k ==> ts@[j].panel != id,
                None => forall|j: int| 0 <= j < ts@.len() ==> ts@[j].panel != id,
            },
        decreases ts.len() - i,
    {
        if ts[i].panel == id {
            return Some(i);
        }
        i += 1;
    }
    None
}

fn is_saved_editor(path: &str, defaults: Option<&str>) -> (r: bool)
    ensures
        r == saved_editor(path@, opt_str(defaults)),
{
    let is_defaults = match defaults {
        Some(d) => crate::strs::str_eq(d, path),
        None => false,
    };
    !is_defaults && !is_untitled_editor_key(path)
}

fn find_saved_editor(es: &[EditorTab], id: u64, defaults: Option<&str>) -> (r: Option<usize>)
    ensures
        match r {
            Some(i) => first_saved_editor(es@, id, opt_str(defaults)) == Some(i as int) && i < es@.len(),
            None => first_saved_editor(es@, id, opt_str(defaults)) is None,
        },
{
    let ghost d = opt_str(defaults);
    proof {
        lemma_first_saved_editor(es@, id, d);
    }
    let mut i: usize = 0;
    while i < es.len()
        invariant
            i <= es@.len(),
            d == opt_str(defaults),
            forall|j: int| 0 <= j < i ==> !(es@[j].panel == id && saved_editor(es@[j].path@, d)),
            match first_saved_editor(es@, id, d) {
                Some(k) => 0 <= k < es@.len() && es@[k].panel == id && saved_editor(es@[k].path@, d) && forall|j: int|
                    0 <= j < k ==> !(es@[j].panel == id && saved_editor(es@[j].path@, d)),
                None => forall|j: int| 0 <= j < es@.len() ==> !(es@[j].panel == id && saved_editor(es@[j].path@, d)),
            },
        decreases es.len() - i,
    {
        if es[i].panel == id && is_saved_editor(es[i].path.as_str(), defaults) {
            return Some(i);
        }
        i += 1;
    }
    None
}

fn copy_string(s: &String) -> (r: String)
    ensures
        r@ == s@,
{
    string_of(&chars_of(s.as_str()))
}

fn terminal_tab(t: &TerminalTab) -> (r: WorkspaceTab)
    ensures
        r@ == terminal_tab_view(*t),
{
    WorkspaceTab {
        kind: WorkspaceTabKind::Terminal,
        title: copy_string(&t.label),
        pty_id: Some(copy_string(&t.pty_id)),
        path: None,
    }
}

fn editor_tab(e: &EditorTab) -> (r: WorkspaceTab)
    ensures
        r@ == editor_tab_view(*e),
{
    let title = match path_basename(e.path.as_str()) {
        Some(b) => string_of(&chars_of(b)),
        None => copy_string(&e.path),
    };
    WorkspaceTab { kind: WorkspaceTabKind::Editor, title, pty_id: None, path: Some(copy_string(&e.path)) }
}

pub open spec fn tabs_view(v: Seq<WorkspaceTab>) -> Seq<TabView> {
    v.map_values(|t: WorkspaceTab| t@)
}

/// The saved tab list of a workspace and which of its tabs is active.
/// `order` is the dock's panel order; `terminals` and `editors` are the open
/// panels (in the order the window keeps them); `defaults` is the key of
/// the read-only defaults file; `active` is the panel whose tab is active.
pub fn capture_layout(
    order: &[u64],
    terminals: &[TerminalTab],
    editors: &[EditorTab],
    defaults: Option<&str>,
    active: Option<u64>,
) -> (r: (Vec<WorkspaceTab>, u32))
    ensures
        tabs_view(r.0@) == layout_tabs_spec(order@, terminals@, editors@, opt_str(defaults)),
        r.1 == active_tab_spec(order@, terminals@, editors@, opt_str(defaults), active),
{
    let ghost d = opt_str(defaults);
    let ghost ts = terminals@;
    let ghost es = editors@;
    let mut out: Vec<WorkspaceTab> = Vec::new();
    let mut seen_pty: Vec<String> = Vec::new();
    let mut seen_path: Vec<String> = Vec::new();
    let mut saved: usize = 0;
    let mut found: Option<usize> = None;
    let mut k: usize = 0;
    while k < order.len()
        invariant
            k <= order@.len(),
            d == opt_str(defaults),
            ts == terminals@,
            es == editors@,
            tabs_view(out@) == docked_tabs(order@.take(k as int), ts, es, d),
            seen_pty.deep_view() == tab_ptys(tabs_view(out@)),
            seen_path.deep_view() == tab_paths(tabs_view(out@)),
            saved as int == saved_panels(order@.take(k as int), ts, es, d).len(),
            saved <= k,
            match active {
                Some(a) => match found {
                    Some(f) => first_u64(saved_panels(order@.take(k as int), ts, es, d), a) == Some(f as int),
                    None => first_u64(saved_panels(order@.take(k as int), ts, es, d), a) is None,
                },
                None => found is None,
            },
        decreases order.len() - k,
    {
        let id = order[k];
        let ghost prev_tabs = tabs_view(out@);
        let ghost prev_saved = saved_panels(order@.take(k as int), ts, es, d);
        proof {
            assert(order@.take(k + 1).drop_last() =~= order@.take(k as int));
            assert(order@.take(k + 1).last() == id);
        }
        let mut has_tab = true;
        match find_terminal(terminals, id) {
            Some(i) => {
                let tab = terminal_tab(&terminals[i]);
                let ghost v = tab@;
                out.push(tab);
                let pty = copy_string(&terminals[i].pty_id);
                let ghost sp = seen_pty.deep_view();
                seen_pty.push(pty);
                proof {
                    assert(tabs_view(out@) =~= prev_tabs.push(v));
                    assert(tabs_view(out@).drop_last() =~= prev_tabs);
                    assert(seen_pty.deep_view() =~= sp.push(ts[i as int].pty_id@));
                }
            },
            None => match find_saved_editor(editors, id, defaults) {
                Some(j) => {
                    let tab = editor_tab(&editors[j]);
                    let ghost v = tab@;
                    out.push(tab);
                    let path = copy_string(&editors[j].path);
                    let ghost sp = seen_path.deep_view();
                    seen_path.push(path);
                    proof {
                        assert(tabs_view(out@) =~= prev_tabs.push(v));
                        assert(tabs_view(out@).drop_last() =~= prev_tabs);
                        assert(seen_path.deep_view() =~= sp.push(es[j as int].path@));
                    }
                },
                None => {
                    has_tab = false;
                },
            },
        }
        if has_tab {
            if let Some(a) = active {
                if found.is_none() && a == id {
                    found = Some(saved);
                }
            }
            saved = saved + 1;
            proof {
                let ns = saved_panels(order@.take(k + 1), ts, es, d);
                assert(ns =~= prev_saved.push(id));
                assert(ns.drop_last() =~= prev_saved);
            }
        }
        k += 1;
    }
    proof {
        assert(order@.take(k as int) =~= order@);
    }
    let ghost docked = tabs_view(out@);
    let ghost goal2 = rest_terminals(ts, tab_ptys(docked));
    let mut i: usize = 0;
    proof {
        assert(ts.skip(0) =~= ts);
        assert(docked + Seq::<TabView>::empty() =~= docked);
    }
    while i < terminals.len()
        invariant
            i <= ts.len(),
            ts == terminals@,
            d == opt_str(defaults),
            seen_pty.deep_view() == tab_ptys(tabs_view(out@)),
            seen_path.deep_view() == tab_paths(tabs_view(out@)),
            exists|produced: Seq<TabView>| {
                &&& tabs_view(out@) == docked + produced
                &&& goal2 == produced + rest_terminals(ts.skip(i as int), seen_pty.deep_view())
            },
            goal2 == rest_terminals(ts, tab_ptys(docked)),
        decreases terminals.len() - i,
    {
        let ghost before = tabs_view(out@);
        let ghost produced = choose|produced: Seq<TabView>| {
            &&& tabs_view(out@) == docked + produced
            &&& goal2 == produced + rest_terminals(ts.skip(i as int), seen_pty.deep_view())
        };
        proof {
            assert(ts.skip(i as int).drop_first() =~= ts.skip(i + 1));
            assert(ts.skip(i as int)[0] == ts[i as int]);
        }
        if !contains_str(&seen_pty, terminals[i].pty_id.as_str()) {
            let tab = terminal_tab(&terminals[i]);
            let ghost v = tab@;
            out.push(tab);
            let pty = copy_string(&terminals[i].pty_id);
            let ghost sp = seen_pty.deep_view();
            seen_pty.push(pty);
            proof {
                assert(tabs_view(out@) =~= before.push(v));
                assert(tabs_view(out@).drop_last() =~= before);
                assert(seen_pty.deep_view() =~= sp.push(ts[i as int].pty_id@));
                assert(tabs_view(out@) =~= docked + produced.push(v));
                assert(goal2 =~= produced.push(v) + rest_terminals(ts.skip(i + 1), seen_pty.deep_view()));
            }
        }
        i += 1;
    }
    proof {
        assert(ts.skip(i as int) =~= Seq::<TerminalTab>::empty());
        let produced = choose|produced: Seq<TabView>| {
            &&& tabs_view(out@) == docked + produced
            &&& goal2 == produced + rest_terminals(ts.skip(i as int), seen_pty.deep_view())
        };
        assert(produced =~= goal2);
    }
    let ghost before3 = tabs_view(out@);
    let ghost goal3 = rest_editors(es, d, tab_paths(before3));
    let mut j: usize = 0;
    proof {
        assert(es.skip(0) =~= es);
        assert(before3 + Seq::<TabView>::empty() =~= before3);
    }
    while j < editors.len()
        invariant
            j <= es.len(),
            es == editors@,
            d == opt_str(defaults),
            seen_path.deep_view() == tab_paths(tabs_view(out@)),
            exists|produced: Seq<TabView>| {
                &&& tabs_view(out@) == before3 + produced
                &&& goal3 == produced + rest_editors(es.skip(j as int), d, seen_path.deep_view())
            },
            goal3 == rest_editors(es, d, tab_paths(before3)),
        decreases editors.len() - j,
    {
        let ghost before = tabs_view(out@);
        let ghost produced = choose|produced: Seq<TabView>| {
            &&& tabs_view(out@) == before3 + produced
            &&& goal3 == produced + rest_editors(es.skip(j as int), d, seen_path.deep_view())
        };
        proof {
            assert(es.skip(j as int).drop_first() =~= es.skip(j + 1));
            assert(es.skip(j as int)[0] == es[j as int]);
        }
        if is_saved_editor(editors[j].path.as_str(), defaults) && !contains_str(&seen_path, editors[j].path.as_str()) {
            let tab = editor_tab(&editors[j]);
            let ghost v = tab@;
            out.push(tab);
            let path = copy_string(&editors[j].path);
            let ghost sp = seen_path.deep_view();
            seen_path.push(path);
            proof {
                assert(tabs_view(out@) =~= before.push(v));
                assert(tabs_view(out@).drop_last() =~= before);
                assert(seen_path.deep_view() =~= sp.push(es[j as int].path@));
                assert(tabs_view(out@) =~= before3 + produced.push(v));
                assert(goal3 =~= produced.push(v) + rest_editors(es.skip(j + 1), d, seen_path.deep_view()));
            }
        }
        j += 1;
    }
    proof {
        assert(es.skip(j as int) =~= Seq::<EditorTab>::empty());
        let produced = choose|produced: Seq<TabView>| {
            &&& tabs_view(out@) == before3 + produced
            &&& goal3 == produced + rest_editors(es.skip(j as int), d, seen_path.deep_view())
        };
        assert(produced =~= goal3);
        assert(tabs_view(out@) =~= docked + goal2 + goal3);
    }
    let active_tab: u32 = match found {
        Some(f) => {
            #[verifier::truncate]
            let v = f as u32;
            v
        },
        None => 0,
    };
    (out, active_tab)
}

proof fn lemma_docked_matches_saved(order: Seq<u64>, ts: Seq<TerminalTab>, es: Seq<EditorTab>, d: Option<Seq<char>>)
    ensures
        docked_tabs(order, ts, es, d).len() == saved_panels(order, ts, es, d).len(),
        forall|k: int| 0 <= k < saved_panels(order, ts, es, d).len() ==> panel_tab(ts, es, d, #[trigger] saved_panels(order, ts, es, d)[k])
            == Some(docked_tabs(order, ts, es, d)[k]),
    decreases order.len(),
{
    if order.len() > 0 {
        lemma_docked_matches_saved(order.drop_last(), ts, es, d);
    }
}

proof fn lemma_first_u64(s: Seq<u64>, x: u64)
    ensures
        match first_u64(s, x) {
            Some(i) => 0 <= i < s.len() && s[i] == x,
            None => !s.contains(x),
        },
    decreases s.len(),
{
    if s.len() > 0 {
        lemma_first_u64(s.drop_last(), x);
        if first_u64(s, x) is None {
            assert forall|j: int| 0 <= j < s.len() implies s[j] != x by {
                if j < s.len() - 1 {
                    assert(s.drop_last()[j] == s[j]);
                }
            }
        }
    }
}

/// The active index a workspace is saved with names the active panel's
/// own tab, whenever that panel has one.
pub proof fn saved_active_tab_is_the_active_panels(
    order: Seq<u64>,
    ts: Seq<TerminalTab>,
    es: Seq<EditorTab>,
    defaults: Option<Seq<char>>,
    active: u64,
)
    requires
        panel_tab(ts, es, defaults, active) is Some,
        order.contains(active),
        order.len() <= u32::MAX,
    ensures
        layout_tabs_spec(order, ts, es, defaults)[active_tab_spec(order, ts, es, defaults, Some(active)) as int]
            == panel_tab(ts, es, defaults, active)->0,
{
    let sp = saved_panels(order, ts, es, defaults);
    lemma_docked_matches_saved(order, ts, es, defaults);
    lemma_saved_panels_contains(order, ts, es, defaults, active);
    lemma_first_u64(sp, active);
    lemma_saved_panels_len(order, ts, es, defaults);
    let ix = first_u64(sp, active)->0;
    assert(panel_tab(ts, es, defaults, sp[ix]) == Some(docked_tabs(order, ts, es, defaults)[ix]));
    assert(active_tab_spec(order, ts, es, defaults, Some(active)) as int == ix);
}

proof fn lemma_saved_panels_len(order: Seq<u64>, ts: Seq<TerminalTab>, es: Seq<EditorTab>, d: Option<Seq<char>>)
    ensures
        saved_panels(order, ts, es, d).len() <= order.len(),
    decreases order.len(),
{
    if order.len() > 0 {
        lemma_saved_panels_len(order.drop_last(), ts, es, d);
    }
}

proof fn lemma_saved_panels_contains(order: Seq<u64>, ts: Seq<TerminalTab>, es: Seq<EditorTab>, d: Option<Seq<char>>, x: u64)
    requires
        panel_tab(ts, es, d, x) is Some,
        order.contains(x),
    ensures
        saved_panels(order, ts, es, d).contains(x),
    decreases order.len(),
{
    let sp = saved_panels(order, ts, es, d);
    if order.last() == x {
        assert(sp.last() == x);
        assert(sp[sp.len() - 1] == x);
    } else {
        let p = order.drop_last();
        let j = choose|j: int| 0 <= j < order.len() && order[j] == x;
        assert(p[j] == x);
        lemma_saved_panels_contains(p, ts, es, d, x);
        let q = saved_panels(p, ts, es, d);
        let k = choose|k: int| 0 <= k < q.len() && q[k] == x;
        assert(sp[k] == x);
    }
}

/// Where "Save as" writes: the typed path (trimmed, in the daemon's path
/// syntax) under `parent`, the folder a new file would go to. A blank path
/// and a path the daemon cannot take are refused with the status text.
pub open spec fn save_as_spec(raw: Seq<char>, unix: bool, parent: Seq<char>) -> Result<Seq<char>, Seq<char>> {
    if trim(raw).len() == 0 {
        Err("Path cannot be empty"@)
    } else {
        match root_for_daemon_spec(trim(raw), unix) {
            Ok(p) => Ok(save_target_spec(parent, p)),
            Err(e) => Err(e),
        }
    }
}

pub fn save_as_path(raw: &str, unix: bool, parent: &str) -> (r: Result<String, String>)
    ensures
        match r {
            Ok(p) => save_as_spec(raw@, unix, parent@) == Ok::<Seq<char>, Seq<char>>(p@),
            Err(e) => save_as_spec(raw@, unix, parent@) == Err::<Seq<char>, Seq<char>>(e@),
        },
{
    let trimmed = string_of(&trim_str(raw));
    if chars_of(trimmed.as_str()).len() == 0 {
        return Err(string_of(&chars_of("Path cannot be empty")));
    }
    match workspace_root_for_daemon(trimmed.as_str(), unix) {
        Ok(p) => Ok(save_target_path(parent, p.as_str())),
        Err(e) => Err(string_of(&chars_of(e))),
    }
}

/// How a save is sent: unsaved edits go first as an edit of `rev`, so the
/// save names the revision after it.
pub fn save_revision(rev: u64, dirty: bool) -> (r: (bool, u64))
    requires
        dirty ==> rev < u64::MAX,
    ensures
        r == (dirty, if dirty {
            (rev + 1) as u64
        } else {
            rev
        }),
{
    if dirty {
        (true, rev + 1)
    } else {
        (false, rev)
    }
}

/// The folder the explorer follows when a shell reports `directory`:
/// trailing separators dropped, except on a root (`/`, `C:/`, `C:\`); an
/// empty result is `/`.
pub open spec fn follow_target_spec(d: Seq<char>) -> Seq<char> {
    let kept = if d == "/"@ || ends_with(d, ":/"@) || ends_with(d, ":\\"@) {
        d
    } else {
        strip_end(d, CharSet::PathSeparators)
    };
    if kept.len() == 0 {
        "/"@
    } else {
        kept
    }
}

pub fn follow_target(directory: &str) -> (r: String)
    ensures
        r@ == follow_target_spec(directory@),
{
    let v = chars_of(directory);
    let root = eq_chars(&v, &chars_of("/")) || ends_with_chars(&v, &chars_of(":/")) || ends_with_chars(
        &v,
        &chars_of(":\\"),
    );
    let kept = if root {
        v
    } else {
        strip_end_chars(&v, CharSet::PathSeparators)
    };
    if kept.len() == 0 {
        string_of(&chars_of("/"))
    } else {
        string_of(&kept)
    }
}

proof fn lemma_tab_ptys_concat(a: Seq<TabView>, b: Seq<TabView>)
    ensures
        tab_ptys(a + b) == tab_ptys(a) + tab_ptys(b),
    decreases b.len(),
{
    if b.len() == 0 {
        assert(a + b =~= a);
        assert(tab_ptys(a) + tab_ptys(b) =~= tab_ptys(a));
    } else {
        lemma_tab_ptys_concat(a, b.drop_last());
        assert((a + b).drop_last() =~= a + b.drop_last());
        assert((a + b).last() == b.last());
        let x = tab_ptys(a);
        let y = tab_ptys(b.drop_last());
        match (b.last().kind, b.last().pty_id) {
            (WorkspaceTabKind::Terminal, Some(p)) => {
                assert((x + y).push(p) =~= x + y.push(p));
            },
            _ => {},
        }
    }
}

proof fn lemma_tab_paths_concat(a: Seq<TabView>, b: Seq<TabView>)
    ensures
        tab_paths(a + b) == tab_paths(a) + tab_paths(b),
    decreases b.len(),
{
    if b.len() == 0 {
        assert(a + b =~= a);
        assert(tab_paths(a) + tab_paths(b) =~= tab_paths(a));
    } else {
        lemma_tab_paths_concat(a, b.drop_last());
        assert((a + b).drop_last() =~= a + b.drop_last());
        assert((a + b).last() == b.last());
        let x = tab_paths(a);
        let y = tab_paths(b.drop_last());
        match (b.last().kind, b.last().path) {
            (WorkspaceTabKind::Editor, Some(p)) => {
                assert((x + y).push(p) =~= x + y.push(p));
            },
            _ => {},
        }
    }
}

proof fn lemma_tab_ptys_front(t: TabView, rest: Seq<TabView>)
    ensures
        tab_ptys(seq![t] + rest) == tab_ptys(seq![t]) + tab_ptys(rest),
        tab_paths(seq![t] + rest) == tab_paths(seq![t]) + tab_paths(rest),
{
    lemma_tab_ptys_concat(seq![t], rest);
    lemma_tab_paths_concat(seq![t], rest);
}

/// Terminal tabs of the second pass carry fresh PTYs, each once, and no file.
proof fn lemma_rest_terminals(ts: Seq<TerminalTab>, seen: Seq<Seq<char>>)
    requires
        seen.no_duplicates(),
    ensures
        (seen + tab_ptys(rest_terminals(ts, seen))).no_duplicates(),
        tab_paths(rest_terminals(ts, seen)) == Seq::<Seq<char>>::empty(),
    decreases ts.len(),
{
    if ts.len() > 0 {
        let p = ts[0].pty_id@;
        if seen.contains(p) {
            lemma_rest_terminals(ts.drop_first(), seen);
        } else {
            let seen2 = seen.push(p);
            assert(seen2.no_duplicates()) by {
                assert forall|a: int, b: int| 0 <= a < b < seen2.len() implies seen2[a] != seen2[b] by {
                    if b == seen.len() {
                        assert(seen.contains(seen[a]));
                    }
                }
            }
            lemma_rest_terminals(ts.drop_first(), seen2);
            let rest = rest_terminals(ts.drop_first(), seen2);
            let t = terminal_tab_view(ts[0]);
            lemma_tab_ptys_front(t, rest);
            assert(tab_ptys(seq![t]) =~= seq![p]) by {
                assert(seq![t].drop_last() =~= Seq::<TabView>::empty());
                assert(seq![t].last() == t);
                assert(tab_ptys(Seq::<TabView>::empty()) =~= Seq::<Seq<char>>::empty());
                assert(tab_ptys(seq![t]) == tab_ptys(seq![t].drop_last()).push(seq![t].last().pty_id->0) || tab_ptys(seq![t]) == tab_ptys(seq![t].drop_last()));
            }
            assert(tab_paths(seq![t]) =~= Seq::<Seq<char>>::empty()) by {
                assert(seq![t].drop_last() =~= Seq::<TabView>::empty());
                assert(seq![t].last() == t);
                assert(tab_paths(Seq::<TabView>::empty()) =~= Seq::<Seq<char>>::empty());
                assert(tab_paths(seq![t]) == tab_paths(seq![t].drop_last()).push(seq![t].last().path->0) || tab_paths(seq![t]) == tab_paths(seq![t].drop_last()));
            }
            assert(seen + tab_ptys(seq![t] + rest) =~= seen2 + tab_ptys(rest));
            assert(tab_paths(seq![t] + rest) =~= Seq::<Seq<char>>::empty());
        }
    } else {
        assert(seen + Seq::<Seq<char>>::empty() =~= seen);
    }
}

/// Editor tabs of the third pass carry fresh files, each once, and no PTY.
proof fn lemma_rest_editors(es: Seq<EditorTab>, d: Option<Seq<char>>, seen: Seq<Seq<char>>)
    requires
        seen.no_duplicates(),
    ensures
        (seen + tab_paths(rest_editors(es, d, seen))).no_duplicates(),
        tab_ptys(rest_editors(es, d, seen)) == Seq::<Seq<char>>::empty(),
    decreases es.len(),
{
    if es.len() > 0 {
        let p = es[0].path@;
        if !saved_editor(p, d) || seen.contains(p) {
            lemma_rest_editors(es.drop_first(), d, seen);
        } else {
            let seen2 = seen.push(p);
            assert(seen2.no_duplicates()) by {
                assert forall|a: int, b: int| 0 <= a < b < seen2.len() implies seen2[a] != seen2[b] by {
                    if b == seen.len() {
                        assert(seen.contains(seen[a]));
                    }
                }
            }
            lemma_rest_editors(es.drop_first(), d, seen2);
            let rest = rest_editors(es.drop_first(), d, seen2);
            let t = editor_tab_view(es[0]);
            lemma_tab_ptys_front(t, rest);
            assert(tab_paths(seq![t]) =~= seq![p]) by {
                assert(seq![t].drop_last() =~= Seq::<TabView>::empty());
                assert(seq![t].last() == t);
                assert(tab_paths(Seq::<TabView>::empty()) =~= Seq::<Seq<char>>::empty());
                assert(tab_paths(seq![t]) == tab_paths(seq![t].drop_last()).push(seq![t].last().path->0) || tab_paths(seq![t]) == tab_paths(seq![t].drop_last()));
            }
            assert(tab_ptys(seq![t]) =~= Seq::<Seq<char>>::empty()) by {
                assert(seq![t].drop_last() =~= Seq::<TabView>::empty());
                assert(seq![t].last() == t);
                assert(tab_ptys(Seq::<TabView>::empty()) =~= Seq::<Seq<char>>::empty());
                assert(tab_ptys(seq![t]) == tab_ptys(seq![t].drop_last()).push(seq![t].last().pty_id->0) || tab_ptys(seq![t]) == tab_ptys(seq![t].drop_last()));
            }
            assert(seen + tab_paths(seq![t] + rest) =~= seen2 + tab_paths(rest));
            assert(tab_ptys(seq![t] + rest) =~= Seq::<Seq<char>>::empty());
        }
    } else {
        assert(seen + Seq::<Seq<char>>::empty() =~= seen);
    }
}

/// The PTY of a dock panel's terminal tab.
pub open spec fn pty_of_panel(ts: Seq<TerminalTab>, id: u64) -> Option<Seq<char>> {
    match first_terminal(ts, id) {
        Some(i) => Some(ts[i].pty_id@),
        None => None,
    }
}

/// The file of a dock panel's saved editor tab (a terminal panel has none).
pub open spec fn path_of_panel(ts: Seq<TerminalTab>, es: Seq<EditorTab>, d: Option<Seq<char>>, id: u64) -> Option<Seq<char>> {
    match first_terminal(ts, id) {
        Some(_) => None,
        None => match first_saved_editor(es, id, d) {
            Some(i) => Some(es[i].path@),
            None => None,
        },
    }
}

pub open spec fn docked_ptys(order: Seq<u64>, ts: Seq<TerminalTab>) -> Seq<Seq<char>>
    decreases order.len(),
{
    if order.len() == 0 {
        Seq::empty()
    } else {
        match pty_of_panel(ts, order.last()) {
            Some(p) => docked_ptys(order.drop_last(), ts).push(p),
            None => docked_ptys(order.drop_last(), ts),
        }
    }
}

pub open spec fn docked_paths(order: Seq<u64>, ts: Seq<TerminalTab>, es: Seq<EditorTab>, d: Option<Seq<char>>) -> Seq<Seq<char>>
    decreases order.len(),
{
    if order.len() == 0 {
        Seq::empty()
    } else {
        match path_of_panel(ts, es, d, order.last()) {
            Some(p) => docked_paths(order.drop_last(), ts, es, d).push(p),
            None => docked_paths(order.drop_last(), ts, es, d),
        }
    }
}

proof fn lemma_docked_lists(order: Seq<u64>, ts: Seq<TerminalTab>, es: Seq<EditorTab>, d: Option<Seq<char>>)
    ensures
        tab_ptys(docked_tabs(order, ts, es, d)) == docked_ptys(order, ts),
        tab_paths(docked_tabs(order, ts, es, d)) == docked_paths(order, ts, es, d),
    decreases order.len(),
{
    if order.len() > 0 {
        lemma_docked_lists(order.drop_last(), ts, es, d);
        let prev = docked_tabs(order.drop_last(), ts, es, d);
        match panel_tab(ts, es, d, order.last()) {
            Some(tab) => {
                assert(prev.push(tab).drop_last() =~= prev);
            },
            None => {},
        }
    }
}

pub open spec fn distinct_ptys(ts: Seq<TerminalTab>) -> bool {
    forall|a: int, b: int| 0 <= a < b < ts.len() ==> (#[trigger] ts[a]).pty_id@ != (#[trigger] ts[b]).pty_id@
}

pub open spec fn distinct_paths(es: Seq<EditorTab>) -> bool {
    forall|a: int, b: int| 0 <= a < b < es.len() ==> (#[trigger] es[a]).path@ != (#[trigger] es[b]).path@
}

proof fn lemma_docked_ptys_from(order: Seq<u64>, ts: Seq<TerminalTab>, p: Seq<char>)
    requires
        docked_ptys(order, ts).contains(p),
    ensures
        exists|j: int| 0 <= j < order.len() && #[trigger] pty_of_panel(ts, order[j]) == Some(p),
    decreases order.len(),
{
    let po = order.drop_last();
    if pty_of_panel(ts, order.last()) == Some(p) {
        assert(pty_of_panel(ts, order[order.len() - 1]) == Some(p));
    } else {
        if docked_ptys(po, ts).contains(p) {
            lemma_docked_ptys_from(po, ts, p);
            let j = choose|j: int| 0 <= j < po.len() && #[trigger] pty_of_panel(ts, po[j]) == Some(p);
            assert(po[j] == order[j]);
        } else {
            match pty_of_panel(ts, order.last()) {
                Some(q) => {
                    let k = choose|k: int| 0 <= k < docked_ptys(order, ts).len() && docked_ptys(order, ts)[k] == p;
                    if k < docked_ptys(po, ts).len() {
                        assert(docked_ptys(po, ts)[k] == p);
                    }
                },
                None => {},
            }
        }
    }
}

proof fn lemma_docked_paths_from(order: Seq<u64>, ts: Seq<TerminalTab>, es: Seq<EditorTab>, d: Option<Seq<char>>, p: Seq<char>)
    requires
        docked_paths(order, ts, es, d).contains(p),
    ensures
        exists|j: int| 0 <= j < order.len() && #[trigger] path_of_panel(ts, es, d, order[j]) == Some(p),
    decreases order.len(),
{
    let po = order.drop_last();
    if path_of_panel(ts, es, d, order.last()) == Some(p) {
        assert(path_of_panel(ts, es, d, order[order.len() - 1]) == Some(p));
    } else {
        if docked_paths(po, ts, es, d).contains(p) {
            lemma_docked_paths_from(po, ts, es, d, p);
            let j = choose|j: int| 0 <= j < po.len() && #[trigger] path_of_panel(ts, es, d, po[j]) == Some(p);
            assert(po[j] == order[j]);
        } else {
            match path_of_panel(ts, es, d, order.last()) {
                Some(q) => {
                    let k = choose|k: int| 0 <= k < docked_paths(order, ts, es, d).len() && docked_paths(order, ts, es, d)[k] == p;
                    if k < docked_paths(po, ts, es, d).len() {
                        assert(docked_paths(po, ts, es, d)[k] == p);
                    }
                },
                None => {},
            }
        }
    }
}

proof fn lemma_pty_of_panel_injective(ts: Seq<TerminalTab>, a: u64, b: u64)
    requires
        distinct_ptys(ts),
        pty_of_panel(ts, a) is Some,
        pty_of_panel(ts, a) == pty_of_panel(ts, b),
    ensures
        a == b,
{
    lemma_first_terminal(ts, a);
    lemma_first_terminal(ts, b);
    let i = first_terminal(ts, a)->0;
    let j = first_terminal(ts, b)->0;
    if i != j {
        if i < j {
            assert(ts[i].pty_id@ != ts[j].pty_id@);
        } else {
            assert(ts[j].pty_id@ != ts[i].pty_id@);
        }
    }
}

proof fn lemma_path_of_panel_injective(ts: Seq<TerminalTab>, es: Seq<EditorTab>, d: Option<Seq<char>>, a: u64, b: u64)
    requires
        distinct_paths(es),
        path_of_panel(ts, es, d, a) is Some,
        path_of_panel(ts, es, d, a) == path_of_panel(ts, es, d, b),
    ensures
        a == b,
{
    lemma_first_saved_editor(es, a, d);
    lemma_first_saved_editor(es, b, d);
    let i = first_saved_editor(es, a, d)->0;
    let j = first_saved_editor(es, b, d)->0;
    if i != j {
        if i < j {
            assert(es[i].path@ != es[j].path@);
        } else {
            assert(es[j].path@ != es[i].path@);
        }
    }
}

proof fn lemma_docked_distinct(order: Seq<u64>, ts: Seq<TerminalTab>, es: Seq<EditorTab>, d: Option<Seq<char>>)
    requires
        order.no_duplicates(),
        distinct_ptys(ts),
        distinct_paths(es),
    ensures
        docked_ptys(order, ts).no_duplicates(),
        docked_paths(order, ts, es, d).no_duplicates(),
    decreases order.len(),
{
    if order.len() > 0 {
        let po = order.drop_last();
        assert(po.no_duplicates()) by {
            assert forall|a: int, b: int| 0 <= a < b < po.len() implies po[a] != po[b] by {
                assert(po[a] == order[a] && po[b] == order[b]);
            }
        }
        lemma_docked_distinct(po, ts, es, d);
        let id = order.last();
        match pty_of_panel(ts, id) {
            Some(p) => {
                let prev = docked_ptys(po, ts);
                if prev.contains(p) {
                    lemma_docked_ptys_from(po, ts, p);
                    let j = choose|j: int| 0 <= j < po.len() && #[trigger] pty_of_panel(ts, po[j]) == Some(p);
                    lemma_pty_of_panel_injective(ts, id, po[j]);
                    assert(order[j] == po[j]);
                    assert(order[order.len() - 1] == id);
                }
                assert forall|a: int, b: int| 0 <= a < b < prev.push(p).len() implies prev.push(p)[a] != prev.push(p)[b] by {
                    if b == prev.len() {
                        assert(prev.contains(prev[a]));
                    }
                }
            },
            None => {},
        }
        match path_of_panel(ts, es, d, id) {
            Some(p) => {
                let prev = docked_paths(po, ts, es, d);
                if prev.contains(p) {
                    lemma_docked_paths_from(po, ts, es, d, p);
                    let j = choose|j: int| 0 <= j < po.len() && #[trigger] path_of_panel(ts, es, d, po[j]) == Some(p);
                    lemma_path_of_panel_injective(ts, es, d, id, po[j]);
                    assert(order[j] == po[j]);
                    assert(order[order.len() - 1] == id);
                }
                assert forall|a: int, b: int| 0 <= a < b < prev.push(p).len() implies prev.push(p)[a] != prev.push(p)[b] by {
                    if b == prev.len() {
                        assert(prev.contains(prev[a]));
                    }
                }
            },
            None => {},
        }
    }
}

/// A saved tab list names each terminal session and each file at most
/// once, given a dock whose panels are listed once, terminals with distinct
/// PTYs and editors with distinct files.
pub proof fn saved_tabs_are_distinct(order: Seq<u64>, ts: Seq<TerminalTab>, es: Seq<EditorTab>, defaults: Option<Seq<char>>)
    requires
        order.no_duplicates(),
        distinct_ptys(ts),
        distinct_paths(es),
    ensures
        tab_ptys(layout_tabs_spec(order, ts, es, defaults)).no_duplicates(),
        tab_paths(layout_tabs_spec(order, ts, es, defaults)).no_duplicates(),
{
    let d = defaults;
    let docked = docked_tabs(order, ts, es, d);
    lemma_docked_lists(order, ts, es, d);
    lemma_docked_distinct(order, ts, es, d);
    let terms = rest_terminals(ts, tab_ptys(docked));
    lemma_rest_terminals(ts, tab_ptys(docked));
    lemma_tab_ptys_concat(docked, terms);
    lemma_tab_paths_concat(docked, terms);
    assert(tab_paths(docked + terms) =~= tab_paths(docked));
    let eds = rest_editors(es, d, tab_paths(docked + terms));
    lemma_rest_editors(es, d, tab_paths(docked + terms));
    lemma_tab_ptys_concat(docked + terms, eds);
    lemma_tab_paths_concat(docked + terms, eds);
    assert(tab_ptys(docked + terms + eds) =~= tab_ptys(docked) + tab_ptys(terms));
}

} // verus!
