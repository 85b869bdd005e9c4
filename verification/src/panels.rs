//! What the dock's panels show about themselves: tab labels, the editor's
//! status summary, and the tab context menu with the close commands it
//! offers.

use vstd::prelude::*;

use crate::paths::{display_path, display_path_spec};
use crate::rail::{basename_spec, path_basename};
use crate::strs::{index_of, lemma_index_of, position};
use crate::tab_chrome::{close_scope_spec, TabCloseScope};
use crate::text::{chars_of, concat, decimal, decimal_chars, string_of};

verus! {

/// The shown name of a path: its last segment, or the whole displayed path
/// when it has none.
pub open spec fn shown_name(path: Seq<char>) -> Option<Seq<char>> {
    basename_spec(display_path_spec(path))
}

/// An editor tab: an unsaved buffer shows its untitled name, a file its
/// name; a bullet marks unsaved changes.
pub open spec fn editor_label_spec(
    unsaved: bool,
    unsaved_title: Option<Seq<char>>,
    path: Seq<char>,
    dirty: bool,
) -> Seq<char> {
    let name = if unsaved {
        match unsaved_title {
            Some(t) => t,
            None => "Untitled"@,
        }
    } else {
        match shown_name(path) {
            Some(b) => b,
            None => display_path_spec(path),
        }
    };
    if dirty {
        "• "@ + name
    } else {
        name
    }
}

pub fn editor_label(unsaved: bool, unsaved_title: Option<&str>, path: &str, dirty: bool) -> (r: String)
    ensures
        r@ == editor_label_spec(unsaved, crate::launch::opt_str(unsaved_title), path@, dirty),
{
    let name: Vec<char> = if unsaved {
        match unsaved_title {
            Some(t) => chars_of(t),
            None => chars_of("Untitled"),
        }
    } else {
        let shown = display_path(path);
        match path_basename(shown.as_str()) {
            Some(b) => chars_of(b),
            None => chars_of(shown.as_str()),
        }
    };
    if dirty {
        string_of(&concat(&chars_of("• "), &name))
    } else {
        string_of(&name)
    }
}

/// A diff tab: the file's name (or its repository-relative path); a tab
/// not yet pinned is marked as a preview.
pub open spec fn diff_label_spec(title_path: Seq<char>, rel: Seq<char>, pinned: bool) -> Seq<char> {
    let name = match shown_name(title_path) {
        Some(b) => b,
        None => rel,
    };
    if pinned {
        name
    } else {
        name + " (preview)"@
    }
}

pub fn diff_label(title_path: &str, rel: &str, pinned: bool) -> (r: String)
    ensures
        r@ == diff_label_spec(title_path@, rel@, pinned),
{
    let shown = display_path(title_path);
    let name = match path_basename(shown.as_str()) {
        Some(b) => chars_of(b),
        None => chars_of(rel),
    };
    if pinned {
        string_of(&name)
    } else {
        string_of(&concat(&name, &chars_of(" (preview)")))
    }
}

/// A binary-file tab: the file's name, or `binary`.
pub fn binary_label(path: &str) -> (r: String)
    ensures
        r@ == match shown_name(path@) {
            Some(b) => b,
            None => "binary"@,
        },
{
    let shown = display_path(path);
    match path_basename(shown.as_str()) {
        Some(b) => string_of(&chars_of(b)),
        None => string_of(&chars_of("binary")),
    }
}

/// The editor's status line: the problem count, then the language server's
/// status when it reported one.
pub open spec fn status_summary_spec(problems: nat, lsp_status: Option<Seq<char>>) -> Seq<char> {
    let count = decimal(problems) + " problems"@;
    match lsp_status {
        Some(s) => count + " · "@ + s,
        None => count,
    }
}

pub fn status_summary(problems: usize, lsp_status: Option<&str>) -> (r: String)
    ensures
        r@ == status_summary_spec(problems as nat, crate::launch::opt_str(lsp_status)),
{
    let count = concat(&decimal_chars(problems as u128), &chars_of(" problems"));
    match lsp_status {
        Some(s) => string_of(&concat(&concat(&count, &chars_of(" · ")), &chars_of(s))),
        None => string_of(&count),
    }
}

/// Whether "Close Others" and "Close to the Right" apply to a tab: it must
/// be in the dock with another tab, or with a tab after it.
pub open spec fn close_availability_spec(order: Seq<Seq<char>>, target: Seq<char>) -> (bool, bool) {
    match index_of(order, target) {
        Some(ix) => (order.len() > 1, ix + 1 < order.len()),
        None => (false, false),
    }
}

pub fn tab_close_availability(order: &[String], target: &str) -> (r: (bool, bool))
    ensures
        r == close_availability_spec(order.deep_view(), target@),
{
    proof {
        lemma_index_of(order.deep_view(), target@);
    }
    match position(order, target) {
        Some(ix) => (order.len() > 1, ix + 1 < order.len()),
        None => (false, false),
    }
}

/// A close command is offered exactly when it would close some tab.
pub proof fn close_availability_matches_scope(order: Seq<Seq<char>>, target: Seq<char>)
    ensures
        close_availability_spec(order, target).0 == (close_scope_spec(
            order,
            target,
            TabCloseScope::Others,
        ).len() > 0),
        close_availability_spec(order, target).1 == (close_scope_spec(
            order,
            target,
            TabCloseScope::ToTheRight,
        ).len() > 0),
{
    lemma_index_of(order, target);
}

/// The commands of a tab's context menu.
#[derive(Clone, Copy, Debug, PartialEq, Eq, Structural)]
pub enum TabMenuAction {
    Close,
    TogglePin,
    CloseOthers,
    CloseToTheRight,
    CloseAllEditors,
    CloseAllTerminals,
    CloseAllOtherTerminals,
    CloseAllOtherTabs,
}

/// One entry of a tab's context menu.
#[derive(Clone, Debug, PartialEq, Eq)]
pub struct TabMenuItem {
    pub action: TabMenuAction,
    pub label: String,
    pub enabled: bool,
}

pub open spec fn item(action: TabMenuAction, label: Seq<char>, enabled: bool) -> (TabMenuAction, Seq<char>, bool) {
    (action, label, enabled)
}

/// The close entries of a tab's menu: "Close" when the menu is for this
/// tab, "Pin Tab"/"Unpin Tab" for a tab that can be pinned, then the
/// scoped and bulk close commands; the scoped ones are disabled when they
/// would close nothing.
pub open spec fn tab_menu_spec(include_this: bool, pinned: Option<bool>, others_ok: bool, right_ok: bool) -> Seq<
    (TabMenuAction, Seq<char>, bool),
> {
    let head = if include_this {
        seq![item(TabMenuAction::Close, "Close"@, true)]
    } else {
        Seq::empty()
    };
    let pin = match pinned {
        Some(true) => seq![item(TabMenuAction::TogglePin, "Unpin Tab"@, true)],
        Some(false) => seq![item(TabMenuAction::TogglePin, "Pin Tab"@, true)],
        None => Seq::empty(),
    };
    head + pin + seq![
        item(TabMenuAction::CloseOthers, "Close Others"@, others_ok),
        item(TabMenuAction::CloseToTheRight, "Close to the Right"@, right_ok),
        item(TabMenuAction::CloseAllEditors, "Close All Editors"@, true),
        item(TabMenuAction::CloseAllTerminals, "Close All Terminals"@, true),
        item(TabMenuAction::CloseAllOtherTerminals, "Close All Other Terminals"@, true),
        item(TabMenuAction::CloseAllOtherTabs, "Close All Other Tabs"@, true),
    ]
}

pub open spec fn menu_view(v: Seq<TabMenuItem>) -> Seq<(TabMenuAction, Seq<char>, bool)> {
    v.map_values(|i: TabMenuItem| (i.action, i.label@, i.enabled))
}

fn push_item(menu: &mut Vec<TabMenuItem>, action: TabMenuAction, label: &str, enabled: bool)
    ensures
        menu_view(final(menu)@) == menu_view(old(menu)@).push(item(action, label@, enabled)),
{
    let ghost prev = menu_view(menu@);
    menu.push(TabMenuItem { action, label: string_of(&chars_of(label)), enabled });
    proof {
        assert(menu_view(menu@) =~= prev.push(item(action, label@, enabled)));
    }
}

/// `pinned` is the tab's pin state, or `None` for a tab that cannot be
/// pinned; `others_ok` and `right_ok` come from [`tab_close_availability`].
pub fn tab_menu_items(include_this: bool, pinned: Option<bool>, others_ok: bool, right_ok: bool) -> (r:
    Vec<TabMenuItem>)
    ensures
        menu_view(r@) == tab_menu_spec(include_this, pinned, others_ok, right_ok),
{
    let mut menu: Vec<TabMenuItem> = Vec::new();
    if include_this {
        push_item(&mut menu, TabMenuAction::Close, "Close", true);
    }
    match pinned {
        Some(true) => push_item(&mut menu, TabMenuAction::TogglePin, "Unpin Tab", true),
        Some(false) => push_item(&mut menu, TabMenuAction::TogglePin, "Pin Tab", true),
        None => {},
    }
    push_item(&mut menu, TabMenuAction::CloseOthers, "Close Others", others_ok);
    push_item(&mut menu, TabMenuAction::CloseToTheRight, "Close to the Right", right_ok);
    push_item(&mut menu, TabMenuAction::CloseAllEditors, "Close All Editors", true);
    push_item(&mut menu, TabMenuAction::CloseAllTerminals, "Close All Terminals", true);
    push_item(&mut menu, TabMenuAction::CloseAllOtherTerminals, "Close All Other Terminals", true);
    push_item(&mut menu, TabMenuAction::CloseAllOtherTabs, "Close All Other Tabs", true);
    proof {
        assert(menu_view(menu@) =~= tab_menu_spec(include_this, pinned, others_ok, right_ok));
    }
    menu
}

} // verus!
