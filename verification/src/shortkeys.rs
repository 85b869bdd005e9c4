//! User shortkeys from the daemon config: which entries become key
//! bindings, for which action and in which focus context.

use vstd::prelude::*;

use crate::text::{chars_of, eq_chars};

verus! {

/// A shortkey entry as the config carries it.
#[derive(Clone, Debug, PartialEq, Eq)]
pub struct Shortkey {
    /// Keystrokes, space-separated (`"ctrl-k ctrl-s"`).
    pub shortkey: String,
    /// Name of the action to run.
    pub action: String,
    /// Focus context the binding is limited to, if any.
    pub when: Option<String>,
}

pub struct ShortkeyView {
    pub shortkey: Seq<char>,
    pub action: Seq<char>,
    pub when: Option<Seq<char>>,
}

impl View for Shortkey {
    type V = ShortkeyView;

    open spec fn view(&self) -> ShortkeyView {
        ShortkeyView { shortkey: self.shortkey@, action: self.action@, when: self.when.deep_view() }
    }
}

/// The focus contexts a shortkey may be limited to.
#[derive(Clone, Copy, Debug, PartialEq, Eq, Structural)]
pub enum KeyContext {
    Explorer,
    Terminal,
    Editor,
}

/// The window actions a shortkey can run.
#[derive(Clone, Copy, Debug, PartialEq, Eq, Structural)]
pub enum ShortkeyAction {
    NewTerminal,
    NewFile,
    SplitTerminal,
    FormatDocument,
    CloseTab,
    CloseAllEditors,
    CloseAllTerminals,
    CloseAllOtherTerminals,
    CloseAllOtherTabs,
    SaveBuffer,
    ToggleSidebar,
    ToggleCommandPalette,
    GoToFile,
    OpenSettings,
    OpenDefaultSettings,
    Reconnect,
    Disconnect,
    NextTab,
    PrevTab,
    CopyExplorer,
    PasteExplorer,
    DeleteExplorer,
    AskCopilot,
    TerminalCopyOrInterrupt,
    TogglePinTab,
    FilterExplorer,
    ClearExplorerInput,
    NewWorkspace,
    RenameWorkspace,
    CloseWorkspace,
    ZoomInContent,
    ZoomOutContent,
    ResetContentZoom,
    ZoomInUi,
    ZoomOutUi,
    ResetUiZoom,
    StopServer,
    QuitClient,
}

/// The table of action names a config may use.
pub open spec fn action_named(name: Seq<char>) -> Option<ShortkeyAction> {
    if name == "NewTerminal"@ {
        Some(ShortkeyAction::NewTerminal)
    } else if name == "NewFile"@ {
        Some(ShortkeyAction::NewFile)
    } else if name == "SplitTerminal"@ {
        Some(ShortkeyAction::SplitTerminal)
    } else if name == "FormatDocument"@ {
        Some(ShortkeyAction::FormatDocument)
    } else if name == "CloseTab"@ {
        Some(ShortkeyAction::CloseTab)
    } else if name == "CloseAllEditors"@ {
        Some(ShortkeyAction::CloseAllEditors)
    } else if name == "CloseAllTerminals"@ {
        Some(ShortkeyAction::CloseAllTerminals)
    } else if name == "CloseAllOtherTerminals"@ {
        Some(ShortkeyAction::CloseAllOtherTerminals)
    } else if name == "CloseAllOtherTabs"@ {
        Some(ShortkeyAction::CloseAllOtherTabs)
    } else if name == "SaveBuffer"@ {
        Some(ShortkeyAction::SaveBuffer)
    } else if name == "ToggleSidebar"@ {
        Some(ShortkeyAction::ToggleSidebar)
    } else if name == "ToggleCommandPalette"@ {
        Some(ShortkeyAction::ToggleCommandPalette)
    } else if name == "GoToFile"@ {
        Some(ShortkeyAction::GoToFile)
    } else if name == "OpenSettings"@ {
        Some(ShortkeyAction::OpenSettings)
    } else if name == "OpenDefaultSettings"@ {
        Some(ShortkeyAction::OpenDefaultSettings)
    } else if name == "Reconnect"@ {
        Some(ShortkeyAction::Reconnect)
    } else if name == "Disconnect"@ {
        Some(ShortkeyAction::Disconnect)
    } else if name == "NextTab"@ {
        Some(ShortkeyAction::NextTab)
    } else if name == "PrevTab"@ {
        Some(ShortkeyAction::PrevTab)
    } else if name == "CopyExplorer"@ {
        Some(ShortkeyAction::CopyExplorer)
    } else if name == "PasteExplorer"@ {
        Some(ShortkeyAction::PasteExplorer)
    } else if name == "DeleteExplorer"@ {
        Some(ShortkeyAction::DeleteExplorer)
    } else if name == "AskCopilot"@ {
        Some(ShortkeyAction::AskCopilot)
    } else if name == "TerminalCopyOrInterrupt"@ {
        Some(ShortkeyAction::TerminalCopyOrInterrupt)
    } else if name == "TogglePinTab"@ {
        Some(ShortkeyAction::TogglePinTab)
    } else if name == "FilterExplorer"@ {
        Some(ShortkeyAction::FilterExplorer)
    } else if name == "ClearExplorerInput"@ {
        Some(ShortkeyAction::ClearExplorerInput)
    } else if name == "NewWorkspace"@ {
        Some(ShortkeyAction::NewWorkspace)
    } else if name == "RenameWorkspace"@ {
        Some(ShortkeyAction::RenameWorkspace)
    } else if name == "CloseWorkspace"@ {
        Some(ShortkeyAction::CloseWorkspace)
    } else if name == "ZoomInContent"@ {
        Some(ShortkeyAction::ZoomInContent)
    } else if name == "ZoomOutContent"@ {
        Some(ShortkeyAction::ZoomOutContent)
    } else if name == "ResetContentZoom"@ {
        Some(ShortkeyAction::ResetContentZoom)
    } else if name == "ZoomInUi"@ {
        Some(ShortkeyAction::ZoomInUi)
    } else if name == "ZoomOutUi"@ {
        Some(ShortkeyAction::ZoomOutUi)
    } else if name == "ResetUiZoom"@ {
        Some(ShortkeyAction::ResetUiZoom)
    } else if name == "StopServer"@ {
        Some(ShortkeyAction::StopServer)
    } else if name == "QuitClient"@ {
        Some(ShortkeyAction::QuitClient)
    } else {
        None
    }
}

fn matches_literal(v: &Vec<char>, lit: &str) -> (r: bool)
    ensures
        r == (v@ == lit@),
{
    eq_chars(v, &chars_of(lit))
}

/// The action a config names, or `None` for a name no action has.
pub fn shortkey_action(name: &str) -> (r: Option<ShortkeyAction>)
    ensures
        r == action_named(name@),
{
    let v = chars_of(name);
    if matches_literal(&v, "NewTerminal") {
        Some(ShortkeyAction::NewTerminal)
    } else if matches_literal(&v, "NewFile") {
        Some(ShortkeyAction::NewFile)
    } else if matches_literal(&v, "SplitTerminal") {
        Some(ShortkeyAction::SplitTerminal)
    } else if matches_literal(&v, "FormatDocument") {
        Some(ShortkeyAction::FormatDocument)
    } else if matches_literal(&v, "CloseTab") {
        Some(ShortkeyAction::CloseTab)
    } else if matches_literal(&v, "CloseAllEditors") {
        Some(ShortkeyAction::CloseAllEditors)
    } else if matches_literal(&v, "CloseAllTerminals") {
        Some(ShortkeyAction::CloseAllTerminals)
    } else if matches_literal(&v, "CloseAllOtherTerminals") {
        Some(ShortkeyAction::CloseAllOtherTerminals)
    } else if matches_literal(&v, "CloseAllOtherTabs") {
        Some(ShortkeyAction::CloseAllOtherTabs)
    } else if matches_literal(&v, "SaveBuffer") {
        Some(ShortkeyAction::SaveBuffer)
    } else if matches_literal(&v, "ToggleSidebar") {
        Some(ShortkeyAction::ToggleSidebar)
    } else if matches_literal(&v, "ToggleCommandPalette") {
        Some(ShortkeyAction::ToggleCommandPalette)
    } else if matches_literal(&v, "GoToFile") {
        Some(ShortkeyAction::GoToFile)
    } else if matches_literal(&v, "OpenSettings") {
        Some(ShortkeyAction::OpenSettings)
    } else if matches_literal(&v, "OpenDefaultSettings") {
        Some(ShortkeyAction::OpenDefaultSettings)
    } else if matches_literal(&v, "Reconnect") {
        Some(ShortkeyAction::Reconnect)
    } else if matches_literal(&v, "Disconnect") {
        Some(ShortkeyAction::Disconnect)
    } else if matches_literal(&v, "NextTab") {
        Some(ShortkeyAction::NextTab)
    } else if matches_literal(&v, "PrevTab") {
        Some(ShortkeyAction::PrevTab)
    } else if matches_literal(&v, "CopyExplorer") {
        Some(ShortkeyAction::CopyExplorer)
    } else if matches_literal(&v, "PasteExplorer") {
        Some(ShortkeyAction::PasteExplorer)
    } else if matches_literal(&v, "DeleteExplorer") {
        Some(ShortkeyAction::DeleteExplorer)
    } else if matches_literal(&v, "AskCopilot") {
        Some(ShortkeyAction::AskCopilot)
    } else if matches_literal(&v, "TerminalCopyOrInterrupt") {
        Some(ShortkeyAction::TerminalCopyOrInterrupt)
    } else if matches_literal(&v, "TogglePinTab") {
        Some(ShortkeyAction::TogglePinTab)
    } else if matches_literal(&v, "FilterExplorer") {
        Some(ShortkeyAction::FilterExplorer)
    } else if matches_literal(&v, "ClearExplorerInput") {
        Some(ShortkeyAction::ClearExplorerInput)
    } else if matches_literal(&v, "NewWorkspace") {
        Some(ShortkeyAction::NewWorkspace)
    } else if matches_literal(&v, "RenameWorkspace") {
        Some(ShortkeyAction::RenameWorkspace)
    } else if matches_literal(&v, "CloseWorkspace") {
        Some(ShortkeyAction::CloseWorkspace)
    } else if matches_literal(&v, "ZoomInContent") {
        Some(ShortkeyAction::ZoomInContent)
    } else if matches_literal(&v, "ZoomOutContent") {
        Some(ShortkeyAction::ZoomOutContent)
    } else if matches_literal(&v, "ResetContentZoom") {
        Some(ShortkeyAction::ResetContentZoom)
    } else if matches_literal(&v, "ZoomInUi") {
        Some(ShortkeyAction::ZoomInUi)
    } else if matches_literal(&v, "ZoomOutUi") {
        Some(ShortkeyAction::ZoomOutUi)
    } else if matches_literal(&v, "ResetUiZoom") {
        Some(ShortkeyAction::ResetUiZoom)
    } else if matches_literal(&v, "StopServer") {
        Some(ShortkeyAction::StopServer)
    } else if matches_literal(&v, "QuitClient") {
        Some(ShortkeyAction::QuitClient)
    } else {
        None
    }
}

/// The context a `when` value limits a binding to: `Some(None)` for no
/// limit (absent or empty), `None` for a context the window does not have.
pub open spec fn when_context(when: Option<Seq<char>>) -> Option<Option<KeyContext>> {
    match when {
        None => Some(None),
        Some(w) => if w.len() == 0 {
            Some(None)
        } else if w == "Explorer"@ {
            Some(Some(KeyContext::Explorer))
        } else if w == "Terminal"@ {
            Some(Some(KeyContext::Terminal))
        } else if w == "Editor"@ {
            Some(Some(KeyContext::Editor))
        } else {
            None
        },
    }
}

pub fn shortkey_context(when: Option<&str>) -> (r: Option<Option<KeyContext>>)
    ensures
        r == when_context(crate::launch::opt_str(when)),
{
    match when {
        None => Some(None),
        Some(w) => {
            let v = chars_of(w);
            if v.len() == 0 {
                Some(None)
            } else if matches_literal(&v, "Explorer") {
                Some(Some(KeyContext::Explorer))
            } else if matches_literal(&v, "Terminal") {
                Some(Some(KeyContext::Terminal))
            } else if matches_literal(&v, "Editor") {
                Some(Some(KeyContext::Editor))
            } else {
                None
            }
        },
    }
}

/// A key binding the window installs.
#[derive(Clone, Debug, PartialEq, Eq)]
pub struct Binding {
    pub keys: String,
    pub action: ShortkeyAction,
    pub context: Option<KeyContext>,
}

pub struct BindingView {
    pub keys: Seq<char>,
    pub action: ShortkeyAction,
    pub context: Option<KeyContext>,
}

impl View for Binding {
    type V = BindingView;

    open spec fn view(&self) -> BindingView {
        BindingView { keys: self.keys@, action: self.action, context: self.context }
    }
}

/// The binding an entry becomes: none when its keystrokes do not parse, its
/// context is unknown, or its action is unknown.
pub open spec fn resolve(e: ShortkeyView, keys_parse: bool) -> Option<BindingView> {
    if !keys_parse {
        None
    } else {
        match (when_context(e.when), action_named(e.action)) {
            (Some(context), Some(action)) => Some(BindingView { keys: e.shortkey, action, context }),
            _ => None,
        }
    }
}

/// The bindings of a whole list, in list order, invalid entries dropped.
pub open spec fn resolve_all(es: Seq<ShortkeyView>, parsed: Seq<bool>) -> Seq<BindingView>
    decreases es.len(),
{
    if es.len() == 0 {
        Seq::empty()
    } else {
        let rest = resolve_all(es.drop_last(), parsed.drop_last());
        match resolve(es.last(), parsed.last()) {
            Some(b) => rest.push(b),
            None => rest,
        }
    }
}

pub fn resolve_shortkey(entry: &Shortkey, keys_parse: bool) -> (r: Option<Binding>)
    ensures
        match r {
            Some(b) => resolve(entry@, keys_parse) == Some(b@),
            None => resolve(entry@, keys_parse) is None,
        },
{
    if !keys_parse {
        return None;
    }
    let when = match &entry.when {
        Some(w) => Some(w.as_str()),
        None => None,
    };
    let context = match shortkey_context(when) {
        Some(c) => c,
        None => return None,
    };
    match shortkey_action(entry.action.as_str()) {
        Some(action) => Some(Binding { keys: entry.shortkey.clone(), action, context }),
        None => None,
    }
}

pub open spec fn bindings_view(v: Seq<Binding>) -> Seq<BindingView> {
    v.map_values(|b: Binding| b@)
}

pub open spec fn shortkeys_view(v: Seq<Shortkey>) -> Seq<ShortkeyView> {
    v.map_values(|e: Shortkey| e@)
}

/// The bindings for a config's shortkey list. `parsed[i]` says whether
/// every space-separated keystroke of `entries[i]` parses. An empty list
/// deliberately yields no bindings.
pub fn resolve_shortkeys(entries: &[Shortkey], parsed: &[bool]) -> (r: Vec<Binding>)
    requires
        entries@.len() == parsed@.len(),
    ensures
        bindings_view(r@) == resolve_all(shortkeys_view(entries@), parsed@),
{
    let mut out: Vec<Binding> = Vec::new();
    let mut i: usize = 0;
    while i < entries.len()
        invariant
            i <= entries@.len(),
            entries@.len() == parsed@.len(),
            bindings_view(out@) == resolve_all(
                shortkeys_view(entries@).take(i as int),
                parsed@.take(i as int),
            ),
        decreases entries.len() - i,
    {
        let b = resolve_shortkey(&entries[i], parsed[i]);
        proof {
            let es = shortkeys_view(entries@).take(i + 1);
            let ps = parsed@.take(i + 1);
            assert(es.drop_last() =~= shortkeys_view(entries@).take(i as int));
            assert(ps.drop_last() =~= parsed@.take(i as int));
            assert(es.last() == entries@[i as int]@);
            assert(ps.last() == parsed@[i as int]);
        }
        match b {
            Some(b) => {
                let ghost prev = bindings_view(out@);
                out.push(b);
                proof {
                    assert(bindings_view(out@) =~= prev.push(out@.last()@));
                }
            },
            None => {},
        }
        i += 1;
    }
    proof {
        assert(shortkeys_view(entries@).take(i as int) =~= shortkeys_view(entries@));
        assert(parsed@.take(i as int) =~= parsed@);
    }
    out
}

} // verus!
