//! How the window reacts to what the daemon reports.
//!
//! [`host_event_step`] takes the host's state and one daemon event and gives
//! the next state and the work the window then performs, in order: opening a
//! shell, asking for a listing or a Git status, switching workspaces,
//! restoring tabs. The window performs each action and feeds the next event
//! back. Request ids are minted by the window when it sends a request and
//! recorded with [`request_listing`], [`request_git_status`],
//! [`note_editor_request`], [`note_create_request`],
//! [`note_rename_request`] and [`note_fs_request`]. The tabs of an attached
//! workspace are reopened through [`begin_restore`].

use vstd::prelude::*;

use std::collections::VecDeque;

use vstd::relations::sorted_by;

use crate::connect::WorkspaceInfo;
use crate::diff::{lines_of, text_lines};
use crate::explorer::{parent_dir, parent_dir_spec};
use crate::listing::{entries_view, rebase_listing, rebase_spec, EntryView, FsEntry};
use crate::paths::{display_path, display_path_spec};
use crate::strs::{chars_leq, lemma_chars_leq_total, sort_strings, str_eq, strings_view};
use crate::text::{
    chars_lt, chars_of, concat, decimal, decimal_chars, lemma_chars_lt_total,
    lemma_chars_lt_transitive, rfind, rfind_char, slice_vec, starts_with,
    starts_with_chars, string_of, trim, trim_str,
};
use crate::workspace::{
    after_close_spec, close_workspace, first_id_match, opt_string, request_parts,
    split_request_message, upsert_workspace, without_id,
};

verus! {

/// Where the connection to the daemon stands.
#[derive(Debug, PartialEq, Eq)]
pub enum Connection {
    Connecting,
    Online,
    Offline(String),
}

pub enum ConnectionView {
    Connecting,
    Online,
    Offline(Seq<char>),
}

impl View for Connection {
    type V = ConnectionView;

    open spec fn view(&self) -> ConnectionView {
        match self {
            Connection::Connecting => ConnectionView::Connecting,
            Connection::Online => ConnectionView::Online,
            Connection::Offline(r) => ConnectionView::Offline(r@),
        }
    }
}

/// A move or copy in flight: the paths dragged or pasted and the folder
/// they go to.
pub struct FsRequest {
    pub request_id: String,
    pub sources: Vec<String>,
    pub destination: String,
}

pub struct FsRequestView {
    pub request_id: Seq<char>,
    pub sources: Seq<Seq<char>>,
    pub destination: Seq<char>,
}

impl View for FsRequest {
    type V = FsRequestView;

    open spec fn view(&self) -> FsRequestView {
        FsRequestView {
            request_id: self.request_id@,
            sources: strings_view(self.sources@),
            destination: self.destination@,
        }
    }
}

pub open spec fn fs_requests_view(v: Seq<FsRequest>) -> Seq<FsRequestView> {
    v.map_values(|r: FsRequest| r@)
}

/// What the host remembers between daemon events.
pub struct HostState {
    pub connection: Connection,
    /// The status line.
    pub status: String,
    pub session_id: Option<String>,
    pub active_workspace_id: Option<String>,
    pub workspaces: Vec<WorkspaceInfo>,
    /// The daemon serves workspaces.
    pub workspace_cap: bool,
    /// The daemon serves Git.
    pub git_cap: bool,
    /// Shells asked for whose `pty_opened` has not come yet.
    pub pty_opens_pending: usize,
    /// Titles of restored terminals whose shells are being started again,
    /// in the order their `pty_opened` replies are expected.
    pub respawn_titles: VecDeque<String>,
    /// Tabs of a workspace are being reopened.
    pub restoring: bool,
    /// Editor requests in flight: request id and whether the tab is to be
    /// activated.
    pub pending_editors: Vec<(String, bool)>,
    /// `fs_create` requests in flight.
    pub pending_creates: Vec<String>,
    /// `fs_rename` requests in flight: request id and the old path.
    pub pending_renames: Vec<(String, String)>,
    /// `fs_list` requests in flight: request id and the path asked for.
    pub pending_lists: Vec<(String, String)>,
    /// Moves and copies in flight.
    pub pending_fs: Vec<FsRequest>,
    /// The Git status request whose answer is awaited.
    pub git_status_req: Option<String>,
    /// A Git command is running.
    pub git_busy: bool,
    /// The folder the explorer shows.
    pub explorer_root: String,
}

#[verifier::ext_equal]
pub struct HostView {
    pub connection: ConnectionView,
    pub status: Seq<char>,
    pub session_id: Option<Seq<char>>,
    pub active_workspace_id: Option<Seq<char>>,
    pub workspaces: Seq<WorkspaceInfo>,
    pub workspace_cap: bool,
    pub git_cap: bool,
    pub pty_opens_pending: nat,
    pub respawn_titles: Seq<Seq<char>>,
    pub restoring: bool,
    pub pending_editors: Seq<(Seq<char>, bool)>,
    pub pending_creates: Seq<Seq<char>>,
    pub pending_renames: Seq<(Seq<char>, Seq<char>)>,
    pub pending_lists: Seq<(Seq<char>, Seq<char>)>,
    pub pending_fs: Seq<FsRequestView>,
    pub git_status_req: Option<Seq<char>>,
    pub git_busy: bool,
    pub explorer_root: Seq<char>,
}

impl View for HostState {
    type V = HostView;

    open spec fn view(&self) -> HostView {
        HostView {
            connection: self.connection@,
            status: self.status@,
            session_id: opt_string(self.session_id),
            active_workspace_id: opt_string(self.active_workspace_id),
            workspaces: self.workspaces@,
            workspace_cap: self.workspace_cap,
            git_cap: self.git_cap,
            pty_opens_pending: self.pty_opens_pending as nat,
            respawn_titles: self.respawn_titles.deep_view(),
            restoring: self.restoring,
            pending_editors: self.pending_editors.deep_view(),
            pending_creates: self.pending_creates.deep_view(),
            pending_renames: self.pending_renames.deep_view(),
            pending_lists: self.pending_lists.deep_view(),
            pending_fs: fs_requests_view(self.pending_fs@),
            git_status_req: opt_string(self.git_status_req),
            git_busy: self.git_busy,
            explorer_root: self.explorer_root@,
        }
    }
}

impl HostState {
    /// The state of a window that has not reached the daemon yet.
    pub fn new() -> (s: Self)
        ensures
            s@ == (HostView {
                connection: ConnectionView::Connecting,
                status: "Connecting…"@,
                session_id: None,
                active_workspace_id: None,
                workspaces: Seq::empty(),
                workspace_cap: false,
                git_cap: false,
                pty_opens_pending: 0,
                respawn_titles: Seq::empty(),
                restoring: false,
                pending_editors: Seq::empty(),
                pending_creates: Seq::empty(),
                pending_renames: Seq::empty(),
                pending_lists: Seq::empty(),
                pending_fs: Seq::empty(),
                git_status_req: None,
                git_busy: false,
                explorer_root: Seq::empty(),
            }),
    {
        let s = HostState {
            connection: Connection::Connecting,
            status: String::from_str("Connecting…"),
            session_id: None,
            active_workspace_id: None,
            workspaces: Vec::new(),
            workspace_cap: false,
            git_cap: false,
            pty_opens_pending: 0,
            respawn_titles: VecDeque::new(),
            restoring: false,
            pending_editors: Vec::new(),
            pending_creates: Vec::new(),
            pending_renames: Vec::new(),
            pending_lists: Vec::new(),
            pending_fs: Vec::new(),
            git_status_req: None,
            git_busy: false,
            explorer_root: String::new(),
        };
        proof {
            assert(s.respawn_titles.deep_view() =~= Seq::<Seq<char>>::empty());
            assert(s.pending_editors.deep_view() =~= Seq::<(Seq<char>, bool)>::empty());
            assert(s.pending_creates.deep_view() =~= Seq::<Seq<char>>::empty());
            assert(s.pending_renames.deep_view() =~= Seq::<(Seq<char>, Seq<char>)>::empty());
            assert(s.pending_lists.deep_view() =~= Seq::<(Seq<char>, Seq<char>)>::empty());
            assert(fs_requests_view(s.pending_fs@) =~= Seq::<FsRequestView>::empty());
        }
        s
    }
}


/// What the daemon reports, as far as the host decides on it. Output of a
/// PTY and buffer contents are handed to their panels directly.
pub enum HostEvent {
    Connecting,
    /// The session is up. `attached` when the daemon attached a workspace,
    /// whose tabs the window then reopens.
    Connected {
        session_id: String,
        workspaces: Vec<WorkspaceInfo>,
        workspace_cap: bool,
        git_cap: bool,
        attached: bool,
    },
    ConfigUpdated,
    WorkspaceCreated { workspace: WorkspaceInfo },
    WorkspaceRenamed { workspace: WorkspaceInfo },
    WorkspaceRootSet { workspace: WorkspaceInfo },
    WorkspaceClosed { id: String, focused_id: Option<String> },
    WorkspaceSwitched,
    Disconnected { reason: String },
    PtyOpened { id: String },
    PtyClosed { id: String, reason: Option<String> },
    FsListed { request_id: String, path: String, entries: Vec<FsEntry> },
    FsCreated { request_id: String, entry: FsEntry },
    FsRenamed { request_id: String, entry: FsEntry },
    FsMoved { request_id: String, entries: Vec<FsEntry> },
    FsCopied { request_id: String, entries: Vec<FsEntry> },
    EditorOpened { request_id: String },
    Error { code: String, message: String },
    GitStatus { request_id: String },
    GitDiff { request_id: String, path: String },
    GitOp { ok: bool, output: String },
    FsOpened { message: String },
}

pub enum EventView {
    Connecting,
    Connected {
        session_id: Seq<char>,
        workspaces: Seq<WorkspaceInfo>,
        workspace_cap: bool,
        git_cap: bool,
        attached: bool,
    },
    ConfigUpdated,
    WorkspaceCreated { workspace: WorkspaceInfo },
    WorkspaceRenamed { workspace: WorkspaceInfo },
    WorkspaceRootSet { workspace: WorkspaceInfo },
    WorkspaceClosed { id: Seq<char>, focused_id: Option<Seq<char>> },
    WorkspaceSwitched,
    Disconnected { reason: Seq<char> },
    PtyOpened { id: Seq<char> },
    PtyClosed { id: Seq<char>, reason: Option<Seq<char>> },
    FsListed { request_id: Seq<char>, path: Seq<char>, entries: Seq<EntryView> },
    FsCreated { request_id: Seq<char>, entry: EntryView },
    FsRenamed { request_id: Seq<char>, entry: EntryView },
    FsMoved { request_id: Seq<char>, entries: Seq<EntryView> },
    FsCopied { request_id: Seq<char>, entries: Seq<EntryView> },
    EditorOpened { request_id: Seq<char> },
    Error { code: Seq<char>, message: Seq<char> },
    GitStatus { request_id: Seq<char> },
    GitDiff { request_id: Seq<char>, path: Seq<char> },
    GitOp { ok: bool, output: Seq<char> },
    FsOpened { message: Seq<char> },
}

impl View for HostEvent {
    type V = EventView;

    open spec fn view(&self) -> EventView {
        match self {
            HostEvent::Connecting => EventView::Connecting,
            HostEvent::Connected { session_id, workspaces, workspace_cap, git_cap, attached } =>
                EventView::Connected {
                session_id: session_id@,
                workspaces: workspaces@,
                workspace_cap: *workspace_cap,
                git_cap: *git_cap,
                attached: *attached,
            },
            HostEvent::ConfigUpdated => EventView::ConfigUpdated,
            HostEvent::WorkspaceCreated { workspace } => EventView::WorkspaceCreated {
                workspace: *workspace,
            },
            HostEvent::WorkspaceRenamed { workspace } => EventView::WorkspaceRenamed {
                workspace: *workspace,
            },
            HostEvent::WorkspaceRootSet { workspace } => EventView::WorkspaceRootSet {
                workspace: *workspace,
            },
            HostEvent::WorkspaceClosed { id, focused_id } => EventView::WorkspaceClosed {
                id: id@,
                focused_id: opt_string(*focused_id),
            },
            HostEvent::WorkspaceSwitched => EventView::WorkspaceSwitched,
            HostEvent::Disconnected { reason } => EventView::Disconnected { reason: reason@ },
            HostEvent::PtyOpened { id } => EventView::PtyOpened { id: id@ },
            HostEvent::PtyClosed { id, reason } => EventView::PtyClosed {
                id: id@,
                reason: opt_string(*reason),
            },
            HostEvent::FsListed { request_id, path, entries } => EventView::FsListed {
                request_id: request_id@,
                path: path@,
                entries: entries_view(entries@),
            },
            HostEvent::FsCreated { request_id, entry } => EventView::FsCreated {
                request_id: request_id@,
                entry: entry@,
            },
            HostEvent::FsRenamed { request_id, entry } => EventView::FsRenamed {
                request_id: request_id@,
                entry: entry@,
            },
            HostEvent::FsMoved { request_id, entries } => EventView::FsMoved {
                request_id: request_id@,
                entries: entries_view(entries@),
            },
            HostEvent::FsCopied { request_id, entries } => EventView::FsCopied {
                request_id: request_id@,
                entries: entries_view(entries@),
            },
            HostEvent::EditorOpened { request_id } => EventView::EditorOpened {
                request_id: request_id@,
            },
            HostEvent::Error { code, message } => EventView::Error {
                code: code@,
                message: message@,
            },
            HostEvent::GitStatus { request_id } => EventView::GitStatus { request_id: request_id@ },
            HostEvent::GitDiff { request_id, path } => EventView::GitDiff {
                request_id: request_id@,
                path: path@,
            },
            HostEvent::GitOp { ok, output } => EventView::GitOp { ok: *ok, output: output@ },
            HostEvent::FsOpened { message } => EventView::FsOpened { message: message@ },
        }
    }
}

/// Work the window performs after an event, in the order given.
#[derive(Debug, PartialEq, Eq)]
pub enum HostAction {
    /// Apply the daemon's hello: shortcuts, fonts, theme, zoom.
    ApplyHello,
    /// Reopen the tabs of the workspace the daemon attached (see
    /// [`begin_restore`]).
    RestoreWorkspace,
    /// Start a shell in the focused shell's directory.
    OpenShellPty { cols: u16, rows: u16 },
    /// Ask for a listing of `path` and record it with [`request_listing`].
    ListDir { path: String },
    /// Ask for the Git status and record it with [`request_git_status`].
    RefreshGit,
    /// Install the keyboard shortcuts the daemon sent.
    ApplyShortkeys,
    /// Ask the daemon to switch to workspace `id`, handing over the layout
    /// of `from` when there is one.
    SwitchWorkspace { id: String, from: Option<String> },
    /// Forget cached listings, open folders, selection and the scroll
    /// position to restore, and rebuild the explorer tree.
    ResetExplorer,
    ClearGitView,
    CloseOpenDiffs,
    /// Take every panel out of the dock without closing its session.
    ReleaseDock,
    /// Show PTY `pty_id` as the restored terminal `title`.
    AttachTerminal { pty_id: String, title: String },
    /// Show PTY `pty_id` in a new terminal tab.
    AddTerminalTab { pty_id: String },
    PublishLayout,
    /// Rebuild the saved split of the center dock.
    ApplyRestoredCenter,
    /// The restore is over: rebuild the split, focus the saved terminal.
    FinishRestore,
    RemoveTerminal { pty_id: String },
    /// Keep the listing of `path` and rebuild the explorer tree.
    StoreListing { path: String, entries: Vec<FsEntry> },
    /// Stop waiting to restore the explorer's scroll position.
    ClearScrollRestore,
    /// Forget cached listings of `dir` and of everything below it.
    DropCachedDir { dir: String },
    /// Select `path` alone in the explorer.
    SelectPath { path: String },
    /// Open `path` in an editor without activating it.
    OpenPath { path: String },
    /// Start renaming `path` in the explorer.
    BeginRename { path: String },
    /// End the explorer's rename and filter.
    EndRename,
    FocusExplorer,
    /// Open the editor the daemon opened, activating it or not.
    OpenEditorTab { activate: bool },
    /// Select `paths` in the explorer, the last one as anchor.
    SelectPaths { paths: Vec<String> },
    /// Show a formatter failure on the editor of buffer `buffer_id`.
    FormatError { buffer_id: String, detail: String },
    /// Open `path` in the binary-file viewer.
    OpenBinary { path: String, activate: bool },
    /// Show the Git status that arrived.
    ApplyGitStatus,
    /// Show the sides of the diff `request_id` for `path`.
    ShowDiff { request_id: String, path: String },
    /// List again the folders the restored workspace had open, each through
    /// [`request_listing`].
    ReopenFolders,
    /// Start a shell in `cwd`.
    OpenPtyIn { cols: u16, rows: u16, cwd: String },
    /// Open a new terminal tab.
    NewTerminal,
}

pub enum ActionView {
    ApplyHello,
    RestoreWorkspace,
    OpenShellPty { cols: u16, rows: u16 },
    ListDir { path: Seq<char> },
    RefreshGit,
    ApplyShortkeys,
    SwitchWorkspace { id: Seq<char>, from: Option<Seq<char>> },
    ResetExplorer,
    ClearGitView,
    CloseOpenDiffs,
    ReleaseDock,
    AttachTerminal { pty_id: Seq<char>, title: Seq<char> },
    AddTerminalTab { pty_id: Seq<char> },
    PublishLayout,
    ApplyRestoredCenter,
    FinishRestore,
    RemoveTerminal { pty_id: Seq<char> },
    StoreListing { path: Seq<char>, entries: Seq<EntryView> },
    ClearScrollRestore,
    DropCachedDir { dir: Seq<char> },
    SelectPath { path: Seq<char> },
    OpenPath { path: Seq<char> },
    BeginRename { path: Seq<char> },
    EndRename,
    FocusExplorer,
    OpenEditorTab { activate: bool },
    SelectPaths { paths: Seq<Seq<char>> },
    FormatError { buffer_id: Seq<char>, detail: Seq<char> },
    OpenBinary { path: Seq<char>, activate: bool },
    ApplyGitStatus,
    ShowDiff { request_id: Seq<char>, path: Seq<char> },
    ReopenFolders,
    OpenPtyIn { cols: u16, rows: u16, cwd: Seq<char> },
    NewTerminal,
}

impl View for HostAction {
    type V = ActionView;

    open spec fn view(&self) -> ActionView {
        match self {
            HostAction::ApplyHello => ActionView::ApplyHello,
            HostAction::RestoreWorkspace => ActionView::RestoreWorkspace,
            HostAction::OpenShellPty { cols, rows } => ActionView::OpenShellPty {
                cols: *cols,
                rows: *rows,
            },
            HostAction::ListDir { path } => ActionView::ListDir { path: path@ },
            HostAction::RefreshGit => ActionView::RefreshGit,
            HostAction::ApplyShortkeys => ActionView::ApplyShortkeys,
            HostAction::SwitchWorkspace { id, from } => ActionView::SwitchWorkspace {
                id: id@,
                from: opt_string(*from),
            },
            HostAction::ResetExplorer => ActionView::ResetExplorer,
            HostAction::ClearGitView => ActionView::ClearGitView,
            HostAction::CloseOpenDiffs => ActionView::CloseOpenDiffs,
            HostAction::ReleaseDock => ActionView::ReleaseDock,
            HostAction::AttachTerminal { pty_id, title } => ActionView::AttachTerminal {
                pty_id: pty_id@,
                title: title@,
            },
            HostAction::AddTerminalTab { pty_id } => ActionView::AddTerminalTab { pty_id: pty_id@ },
            HostAction::PublishLayout => ActionView::PublishLayout,
            HostAction::ApplyRestoredCenter => ActionView::ApplyRestoredCenter,
            HostAction::FinishRestore => ActionView::FinishRestore,
            HostAction::RemoveTerminal { pty_id } => ActionView::RemoveTerminal { pty_id: pty_id@ },
            HostAction::StoreListing { path, entries } => ActionView::StoreListing {
                path: path@,
                entries: entries_view(entries@),
            },
            HostAction::ClearScrollRestore => ActionView::ClearScrollRestore,
            HostAction::DropCachedDir { dir } => ActionView::DropCachedDir { dir: dir@ },
            HostAction::SelectPath { path } => ActionView::SelectPath { path: path@ },
            HostAction::OpenPath { path } => ActionView::OpenPath { path: path@ },
            HostAction::BeginRename { path } => ActionView::BeginRename { path: path@ },
            HostAction::EndRename => ActionView::EndRename,
            HostAction::FocusExplorer => ActionView::FocusExplorer,
            HostAction::OpenEditorTab { activate } => ActionView::OpenEditorTab {
                activate: *activate,
            },
            HostAction::SelectPaths { paths } => ActionView::SelectPaths { paths: strings_view(paths@) },
            HostAction::FormatError { buffer_id, detail } => ActionView::FormatError {
                buffer_id: buffer_id@,
                detail: detail@,
            },
            HostAction::OpenBinary { path, activate } => ActionView::OpenBinary {
                path: path@,
                activate: *activate,
            },
            HostAction::ApplyGitStatus => ActionView::ApplyGitStatus,
            HostAction::ShowDiff { request_id, path } => ActionView::ShowDiff {
                request_id: request_id@,
                path: path@,
            },
            HostAction::ReopenFolders => ActionView::ReopenFolders,
            HostAction::OpenPtyIn { cols, rows, cwd } => ActionView::OpenPtyIn {
                cols: *cols,
                rows: *rows,
                cwd: cwd@,
            },
            HostAction::NewTerminal => ActionView::NewTerminal,
        }
    }
}

pub open spec fn actions_view(actions: Seq<HostAction>) -> Seq<ActionView> {
    actions.map_values(|a: HostAction| a@)
}

// ---------------------------------------------------------------------
// Small rules shared by several events.

/// Index of the first entry whose key is `k`.
pub open spec fn first_key(keys: Seq<Seq<char>>, k: Seq<char>) -> Option<int>
    decreases keys.len(),
{
    if keys.len() == 0 {
        None
    } else {
        match first_key(keys.drop_last(), k) {
            Some(i) => Some(i),
            None => if keys.last() == k {
                Some(keys.len() - 1)
            } else {
                None
            },
        }
    }
}

pub proof fn lemma_first_key(keys: Seq<Seq<char>>, k: Seq<char>)
    ensures
        match first_key(keys, k) {
            Some(i) => 0 <= i < keys.len() && keys[i] == k && forall|j: int|
                0 <= j < i ==> keys[j] != k,
            None => forall|j: int| 0 <= j < keys.len() ==> keys[j] != k,
        },
    decreases keys.len(),
{
    if keys.len() > 0 {
        let t = keys.drop_last();
        lemma_first_key(t, k);
        assert forall|j: int| 0 <= j < t.len() implies t[j] == keys[j] by {}
    }
}

pub open spec fn flag_keys(s: Seq<(Seq<char>, bool)>) -> Seq<Seq<char>> {
    s.map_values(|p: (Seq<char>, bool)| p.0)
}

pub open spec fn text_keys(s: Seq<(Seq<char>, Seq<char>)>) -> Seq<Seq<char>> {
    s.map_values(|p: (Seq<char>, Seq<char>)| p.0)
}

/// `s` without the entry at `i`, when there is one.
pub open spec fn without_at<T>(s: Seq<T>, i: Option<int>) -> Seq<T> {
    match i {
        Some(i) => s.remove(i),
        None => s,
    }
}

/// The value recorded for request `k`, and the requests left once it is
/// taken out.
pub open spec fn take_flag(s: Seq<(Seq<char>, bool)>, k: Seq<char>) -> (Option<bool>, Seq<(Seq<char>, bool)>) {
    let i = first_key(flag_keys(s), k);
    match i {
        Some(i) => (Some(s[i].1), s.remove(i)),
        None => (None, s),
    }
}

pub open spec fn take_text(s: Seq<(Seq<char>, Seq<char>)>, k: Seq<char>) -> (Option<Seq<char>>, Seq<(Seq<char>, Seq<char>)>) {
    let i = first_key(text_keys(s), k);
    match i {
        Some(i) => (Some(s[i].1), s.remove(i)),
        None => (None, s),
    }
}

/// A listing of `path` is in flight.
pub open spec fn listing_pending(lists: Seq<(Seq<char>, Seq<char>)>, path: Seq<char>) -> bool {
    exists|i: int| 0 <= i < lists.len() && #[trigger] lists[i].1 == path
}

/// The listings in flight other than those of `dir`.
pub open spec fn lists_without(lists: Seq<(Seq<char>, Seq<char>)>, dir: Seq<char>) -> Seq<(Seq<char>, Seq<char>)>
    decreases lists.len(),
{
    if lists.len() == 0 {
        lists
    } else if lists.last().1 == dir {
        lists_without(lists.drop_last(), dir)
    } else {
        lists_without(lists.drop_last(), dir).push(lists.last())
    }
}

/// Asking for a listing of `path`: not sent again while one is in flight.
pub open spec fn list_dir_spec(s: HostView, path: Seq<char>) -> Seq<ActionView> {
    if listing_pending(s.pending_lists, path) {
        Seq::empty()
    } else {
        seq![ActionView::ListDir { path }]
    }
}

/// Asking for the Git status: only when the daemon serves Git and is online.
pub open spec fn refresh_git_spec(s: HostView) -> Seq<ActionView> {
    if s.git_cap && s.connection is Online {
        seq![ActionView::RefreshGit]
    } else {
        Seq::empty()
    }
}

/// Listing `dir` afresh: its cached listings and the listings of it in
/// flight are dropped first. Nothing happens for an empty path.
pub open spec fn relist_spec(s: HostView, dir: Seq<char>) -> (HostView, Seq<ActionView>) {
    if dir.len() == 0 {
        (s, Seq::empty())
    } else {
        (
            HostView { pending_lists: lists_without(s.pending_lists, dir), ..s },
            seq![ActionView::DropCachedDir { dir }, ActionView::ListDir { path: dir }],
        )
    }
}

/// Switching to workspace `id`: only with the workspace capability while
/// online, and not to the workspace already shown. The layout of the shown
/// workspace is handed over unless a restore is still running.
pub open spec fn switch_spec(s: HostView, id: Seq<char>) -> (HostView, Seq<ActionView>) {
    if !s.workspace_cap || !(s.connection is Online) || s.active_workspace_id == Some(id) {
        (s, Seq::empty())
    } else {
        let from = if s.restoring {
            None
        } else {
            s.active_workspace_id
        };
        (
            HostView { restoring: true, pty_opens_pending: 0, pending_editors: Seq::empty(), ..s },
            seq![ActionView::SwitchWorkspace { id, from }],
        )
    }
}

/// A restore whose editors have all opened is finished.
pub open spec fn finish_restore_spec(s: HostView) -> (HostView, Seq<ActionView>) {
    if s.restoring && s.pending_editors.len() == 0 {
        (HostView { restoring: false, ..s }, seq![ActionView::FinishRestore])
    } else {
        (s, Seq::empty())
    }
}

pub open spec fn upsert_spec(ws: Seq<WorkspaceInfo>, info: WorkspaceInfo) -> Seq<WorkspaceInfo> {
    match first_id_match(ws, info.id@) {
        Some(i) => ws.update(i, info),
        None => ws.push(info),
    }
}


// ---------------------------------------------------------------------
// What each event does.

pub open spec fn connected_spec(
    s: HostView,
    session_id: Seq<char>,
    workspaces: Seq<WorkspaceInfo>,
    workspace_cap: bool,
    git_cap: bool,
    attached: bool,
) -> (HostView, Seq<ActionView>) {
    let t = HostView {
        git_cap,
        workspace_cap,
        workspaces,
        session_id: Some(session_id),
        connection: ConnectionView::Online,
        status: "Online"@,
        pty_opens_pending: 0,
        pending_editors: Seq::empty(),
        ..s
    };
    if attached {
        (t, seq![ActionView::ApplyHello, ActionView::RestoreWorkspace])
    } else {
        let u = HostView { active_workspace_id: None, pty_opens_pending: 1, ..t };
        (
            u,
            seq![ActionView::ApplyHello, ActionView::OpenShellPty { cols: 80, rows: 24 }]
                + list_dir_spec(u, Seq::empty()) + refresh_git_spec(u),
        )
    }
}

pub open spec fn root_set_spec(s: HostView, ws: WorkspaceInfo) -> (HostView, Seq<ActionView>) {
    let active = s.active_workspace_id == Some(ws.id@);
    let t = HostView {
        status: "Workspace location changed to "@ + display_path_spec(ws.root@),
        ..s
    };
    if active {
        let u = HostView { explorer_root: ws.root@, pending_lists: Seq::empty(), ..t };
        (
            HostView { workspaces: upsert_spec(u.workspaces, ws), ..u },
            seq![ActionView::ResetExplorer] + list_dir_spec(u, ws.root@) + seq![
                ActionView::ClearGitView,
                ActionView::CloseOpenDiffs,
            ] + refresh_git_spec(u),
        )
    } else {
        (HostView { workspaces: upsert_spec(t.workspaces, ws), ..t }, Seq::empty())
    }
}

pub open spec fn closed_spec(s: HostView, id: Seq<char>, focused: Option<Seq<char>>) -> (HostView, Seq<ActionView>) {
    let was_active = s.active_workspace_id == Some(id);
    let remaining = without_id(s.workspaces, id);
    let t = HostView { workspaces: remaining, ..s };
    if !was_active {
        (t, Seq::empty())
    } else {
        let u = HostView {
            active_workspace_id: None,
            session_id: None,
            pty_opens_pending: 0,
            pending_editors: Seq::empty(),
            restoring: false,
            ..t
        };
        match after_close_spec(remaining, true, focused) {
            Some(next) => {
                let (v, acts) = switch_spec(u, next);
                (v, seq![ActionView::ReleaseDock] + acts)
            },
            None => (u, seq![ActionView::ReleaseDock]),
        }
    }
}

pub open spec fn pty_opened_spec(s: HostView, id: Seq<char>) -> (HostView, Seq<ActionView>) {
    if s.pty_opens_pending == 0 {
        (s, Seq::empty())
    } else {
        let pending = (s.pty_opens_pending - 1) as nat;
        let (titles, shown) = if s.respawn_titles.len() > 0 {
            (
                s.respawn_titles.drop_first(),
                ActionView::AttachTerminal { pty_id: id, title: s.respawn_titles[0] },
            )
        } else {
            (s.respawn_titles, ActionView::AddTerminalTab { pty_id: id })
        };
        let t = HostView { pty_opens_pending: pending, respawn_titles: titles, ..s };
        let center = if pending == 0 && !s.restoring {
            seq![ActionView::ApplyRestoredCenter]
        } else {
            Seq::empty()
        };
        (t, seq![shown, ActionView::PublishLayout] + center)
    }
}

pub open spec fn listed_spec(
    s: HostView,
    request_id: Seq<char>,
    path: Seq<char>,
    entries: Seq<EntryView>,
) -> (HostView, Seq<ActionView>) {
    let (requested, lists) = take_text(s.pending_lists, request_id);
    let requested = match requested {
        Some(r) => r,
        None => Seq::empty(),
    };
    let (p, es) = rebase_spec(requested, path, entries);
    let root = if s.explorer_root.len() == 0 {
        p
    } else {
        s.explorer_root
    };
    let scroll = if lists.len() == 0 {
        seq![ActionView::ClearScrollRestore]
    } else {
        Seq::empty()
    };
    (
        HostView { pending_lists: lists, explorer_root: root, ..s },
        seq![ActionView::StoreListing { path: p, entries: es }] + scroll,
    )
}

/// Listing the parent of `path` afresh, when it has one.
pub open spec fn relist_parent_spec(s: HostView, path: Seq<char>) -> (HostView, Seq<ActionView>) {
    match parent_dir_spec(path) {
        Some(parent) => relist_spec(s, parent),
        None => (s, Seq::empty()),
    }
}

pub open spec fn created_spec(s: HostView, request_id: Seq<char>, entry: EntryView) -> (HostView, Seq<ActionView>) {
    let i = first_key(s.pending_creates, request_id);
    match i {
        None => (s, Seq::empty()),
        Some(i) => {
            let t = HostView { pending_creates: s.pending_creates.remove(i), ..s };
            let (u, relist) = relist_parent_spec(t, entry.path);
            (
                HostView { status: "Created "@ + entry.name, ..u },
                relist + seq![
                    ActionView::SelectPath { path: entry.path },
                    ActionView::OpenPath { path: entry.path },
                    ActionView::BeginRename { path: entry.path },
                ],
            )
        },
    }
}

pub open spec fn renamed_spec(s: HostView, request_id: Seq<char>, entry: EntryView) -> (HostView, Seq<ActionView>) {
    let (old_path, renames) = take_text(s.pending_renames, request_id);
    match old_path {
        None => (s, Seq::empty()),
        Some(old_path) => {
            let t = HostView { pending_renames: renames, ..s };
            let (u, relist) = relist_parent_spec(t, old_path);
            let v = HostView { status: "Renamed to "@ + entry.name, ..u };
            (
                v,
                seq![ActionView::EndRename, ActionView::SelectPath { path: entry.path }] + relist
                    + refresh_git_spec(v) + seq![ActionView::FocusExplorer],
            )
        },
    }
}

pub open spec fn editor_opened_spec(s: HostView, request_id: Seq<char>) -> (HostView, Seq<ActionView>) {
    let (activate, editors) = take_flag(s.pending_editors, request_id);
    match activate {
        None => (s, Seq::empty()),
        Some(activate) => {
            let (t, fin) = finish_restore_spec(HostView { pending_editors: editors, ..s });
            (t, seq![ActionView::OpenEditorTab { activate }] + fin)
        },
    }
}

/// The buffer a `fmt-{buffer}-{n}` request id names.
pub open spec fn format_buffer(request_id: Seq<char>) -> Option<Seq<char>> {
    if starts_with(request_id, "fmt-"@) {
        let rest = request_id.skip(4);
        match rfind(rest, '-') {
            Some(k) => Some(rest.take(k)),
            None => None,
        }
    } else {
        None
    }
}

/// Error codes from a listing or a stat: a folder remembered as open may be
/// gone, which does not end the reopening of a workspace's tabs.
pub open spec fn side_error(code: Seq<char>) -> bool {
    starts_with(code, "fs_list"@) || starts_with(code, "fs_stat"@) || code == "fs_open_failed"@
}

/// What every error does before its own report: moves and copies in flight
/// are forgotten, and the request the error answers is dropped.
pub open spec fn error_prep_spec(s: HostView, code: Seq<char>, message: Seq<char>) -> (HostView, Seq<ActionView>) {
    let parts = request_parts(message);
    let format = if code == "buffer_format_failed"@ {
        match parts {
            Some((rid, detail)) => match format_buffer(rid) {
                Some(buffer_id) => seq![ActionView::FormatError { buffer_id, detail }],
                None => Seq::empty(),
            },
            None => Seq::empty(),
        }
    } else {
        Seq::empty()
    };
    let creates = if code == "fs_create_failed"@ {
        Seq::empty()
    } else {
        s.pending_creates
    };
    let renames = if code == "fs_rename_failed"@ {
        match parts {
            Some((rid, _)) => take_text(s.pending_renames, rid).1,
            None => s.pending_renames,
        }
    } else {
        s.pending_renames
    };
    let (pending, titles) = if code == "pty_open_failed"@ {
        (
            if s.pty_opens_pending > 0 {
                (s.pty_opens_pending - 1) as nat
            } else {
                0
            },
            if s.respawn_titles.len() > 0 {
                s.respawn_titles.drop_first()
            } else {
                s.respawn_titles
            },
        )
    } else {
        (s.pty_opens_pending, s.respawn_titles)
    };
    let t = HostView {
        pending_fs: Seq::empty(),
        pending_creates: creates,
        pending_renames: renames,
        pty_opens_pending: pending,
        respawn_titles: titles,
        ..s
    };
    (t, format)
}

pub open spec fn error_spec(s: HostView, code: Seq<char>, message: Seq<char>) -> (HostView, Seq<ActionView>) {
    let parts = request_parts(message);
    let (t, head) = error_prep_spec(s, code, message);
    if code == "binary_file"@ {
        match parts {
            Some((rid, path)) => {
                let (found, editors) = take_flag(t.pending_editors, rid);
                let activate = match found {
                    Some(a) => a,
                    None => true,
                };
                let open = if path.len() > 0 {
                    seq![ActionView::OpenBinary { path, activate }]
                } else {
                    Seq::empty()
                };
                let (u, fin) = finish_restore_spec(HostView { pending_editors: editors, ..t });
                (
                    HostView { status: "Binary file — not opened in the editor"@, ..u },
                    head + open + fin,
                )
            },
            None => (HostView { status: "Binary file — not opened in the editor"@, ..t }, head),
        }
    } else if code == "git_failed"@ {
        (HostView { git_busy: false, status: "Git: "@ + message, ..t }, head)
    } else {
        let u = if t.restoring && !side_error(code) {
            HostView { restoring: false, pending_editors: Seq::empty(), ..t }
        } else {
            t
        };
        let status = if code == "fs_rename_failed"@ {
            "Rename failed: "@ + match parts {
                Some((_, detail)) => detail,
                None => message,
            }
        } else {
            code + ": "@ + message
        };
        (HostView { status, ..u }, head)
    }
}

/// Index of the first line that holds more than blanks.
pub open spec fn first_filled(lines: Seq<Seq<char>>) -> Option<int>
    decreases lines.len(),
{
    if lines.len() == 0 {
        None
    } else {
        match first_filled(lines.drop_last()) {
            Some(i) => Some(i),
            None => if trim(lines.last()).len() > 0 {
                Some(lines.len() - 1)
            } else {
                None
            },
        }
    }
}

/// The status after a Git command: the first line of its output with more
/// than blanks, trimmed, cut to 180 characters and an ellipsis; without
/// such a line, whether the command finished or failed.
pub open spec fn git_op_status(ok: bool, output: Seq<char>) -> Seq<char> {
    let lines = lines_of(output);
    let line = match first_filled(lines) {
        Some(i) => lines[i],
        None => if ok {
            "Git command finished"@
        } else {
            "Git command failed"@
        },
    };
    let line = trim(line);
    if line.len() > 180 {
        line.take(180) + "…"@
    } else {
        line
    }
}

/// The parents of `paths` that have one, in order.
pub open spec fn parents_of(paths: Seq<Seq<char>>) -> Seq<Seq<char>>
    decreases paths.len(),
{
    if paths.len() == 0 {
        Seq::empty()
    } else {
        let rest = parents_of(paths.drop_last());
        match parent_dir_spec(paths.last()) {
            Some(p) => rest.push(p),
            None => rest,
        }
    }
}

pub open spec fn entry_paths(entries: Seq<EntryView>) -> Seq<Seq<char>> {
    entries.map_values(|e: EntryView| e.path)
}

/// `s` with each run of equal neighbours kept once, as `Vec::dedup` leaves
/// it.
pub open spec fn dedup_adjacent(s: Seq<Seq<char>>) -> Seq<Seq<char>>
    decreases s.len(),
{
    if s.len() < 2 {
        s
    } else if s.last() == s[s.len() - 2] {
        dedup_adjacent(s.drop_last())
    } else {
        dedup_adjacent(s.drop_last()).push(s.last())
    }
}

/// Listing each of `dirs` afresh, in order.
pub open spec fn relist_all(s: HostView, dirs: Seq<Seq<char>>) -> (HostView, Seq<ActionView>)
    decreases dirs.len(),
{
    if dirs.len() == 0 {
        (s, Seq::empty())
    } else {
        let (t, a) = relist_all(s, dirs.drop_last());
        let (u, b) = relist_spec(t, dirs.last());
        (u, a + b)
    }
}

pub open spec fn fs_ids(v: Seq<FsRequestView>) -> Seq<Seq<char>> {
    v.map_values(|r: FsRequestView| r.request_id)
}

pub open spec fn take_fs(v: Seq<FsRequestView>, id: Seq<char>) -> (Option<FsRequestView>, Seq<FsRequestView>) {
    match first_key(fs_ids(v), id) {
        Some(i) => (Some(v[i]), v.remove(i)),
        None => (None, v),
    }
}

/// The folders a finished move or copy touched: the sources' parents, the
/// destination and the new entries' parents, sorted, each once.
pub open spec fn fs_dirs(pending: Option<FsRequestView>, entries: Seq<EntryView>) -> Seq<Seq<char>> {
    let from_request = match pending {
        Some(r) => parents_of(r.sources).push(r.destination),
        None => Seq::empty(),
    };
    dedup_adjacent((from_request + parents_of(entry_paths(entries))).sort_by(chars_leq()))
}

/// A move or copy finished: the folders it touched (the sources' parents,
/// the destination, the new entries' parents; sorted, each once) are listed
/// afresh, the new entries are selected, and the status counts them.
pub open spec fn fs_done_spec(s: HostView, request_id: Seq<char>, entries: Seq<EntryView>, moved: bool) -> (HostView, Seq<ActionView>) {
    let (pending, rest) = take_fs(s.pending_fs, request_id);
    let dirs = fs_dirs(pending, entries);
    let (t, acts) = relist_all(HostView { pending_fs: rest, ..s }, dirs);
    let paths = entry_paths(entries);
    let select = if paths.len() > 0 {
        seq![ActionView::SelectPaths { paths }]
    } else {
        Seq::empty()
    };
    let status = (if moved {
        "Moved "@
    } else {
        "Copied "@
    }) + decimal(entries.len()) + " item(s)"@;
    (HostView { status, ..t }, acts + select)
}

/// The next state and the actions for one event.
pub open spec fn host_step_spec(s: HostView, e: EventView) -> (HostView, Seq<ActionView>) {
    match e {
        EventView::Connecting => (
            HostView { connection: ConnectionView::Connecting, status: "Connecting…"@, ..s },
            Seq::empty(),
        ),
        EventView::Connected { session_id, workspaces, workspace_cap, git_cap, attached } =>
            connected_spec(s, session_id, workspaces, workspace_cap, git_cap, attached),
        EventView::ConfigUpdated => (
            HostView { status: "Keyboard shortcuts updated"@, ..s },
            seq![ActionView::ApplyShortkeys],
        ),
        EventView::WorkspaceCreated { workspace } => switch_spec(
            HostView { workspaces: upsert_spec(s.workspaces, workspace), ..s },
            workspace.id@,
        ),
        EventView::WorkspaceRenamed { workspace } => (
            HostView {
                status: "Renamed to "@ + workspace.name@,
                workspaces: upsert_spec(s.workspaces, workspace),
                ..s
            },
            Seq::empty(),
        ),
        EventView::WorkspaceRootSet { workspace } => root_set_spec(s, workspace),
        EventView::WorkspaceClosed { id, focused_id } => closed_spec(s, id, focused_id),
        EventView::WorkspaceSwitched => (s, seq![ActionView::RestoreWorkspace]),
        EventView::Disconnected { reason } => (
            HostView {
                connection: ConnectionView::Offline(reason),
                status: "Disconnected: "@ + reason,
                ..s
            },
            Seq::empty(),
        ),
        EventView::PtyOpened { id } => pty_opened_spec(s, id),
        EventView::PtyClosed { id, reason } => (
            match reason {
                Some(r) => HostView { status: "PTY closed: "@ + r, ..s },
                None => s,
            },
            seq![ActionView::RemoveTerminal { pty_id: id }],
        ),
        EventView::FsListed { request_id, path, entries } => listed_spec(s, request_id, path, entries),
        EventView::FsCreated { request_id, entry } => created_spec(s, request_id, entry),
        EventView::FsRenamed { request_id, entry } => renamed_spec(s, request_id, entry),
        EventView::FsMoved { request_id, entries } => fs_done_spec(s, request_id, entries, true),
        EventView::FsCopied { request_id, entries } => fs_done_spec(s, request_id, entries, false),
        EventView::EditorOpened { request_id } => editor_opened_spec(s, request_id),
        EventView::Error { code, message } => error_spec(s, code, message),
        EventView::GitStatus { request_id } => if s.git_status_req == Some(request_id) {
            (HostView { git_status_req: None, ..s }, seq![ActionView::ApplyGitStatus])
        } else {
            (s, Seq::empty())
        },
        EventView::GitDiff { request_id, path } => (s, seq![ActionView::ShowDiff { request_id, path }]),
        EventView::GitOp { ok, output } => {
            let t = HostView { git_busy: false, status: git_op_status(ok, output), ..s };
            (t, if ok { refresh_git_spec(t) } else { Seq::empty() })
        },
        EventView::FsOpened { message } => (HostView { status: message, ..s }, Seq::empty()),
    }
}


// ---------------------------------------------------------------------
// Executable pieces.

fn join(a: &str, b: &str) -> (r: String)
    ensures
        r@ == a@ + b@,
{
    string_of(&concat(&chars_of(a), &chars_of(b)))
}

fn cat(a: Vec<HostAction>, b: Vec<HostAction>) -> (r: Vec<HostAction>)
    ensures
        actions_view(r@) == actions_view(a@) + actions_view(b@),
{
    let mut r = a;
    let mut b = b;
    let ghost a0 = r@;
    let ghost b0 = b@;
    r.append(&mut b);
    proof {
        assert(r@ =~= a0 + b0);
        assert(actions_view(r@) =~= actions_view(a0) + actions_view(b0));
    }
    r
}

fn one(a: HostAction) -> (r: Vec<HostAction>)
    ensures
        actions_view(r@) == seq![a@],
{
    let r = vec![a];
    proof {
        assert(actions_view(r@) =~= seq![a@]);
    }
    r
}

fn none() -> (r: Vec<HostAction>)
    ensures
        actions_view(r@) == Seq::<ActionView>::empty(),
{
    let r: Vec<HostAction> = Vec::new();
    proof {
        assert(actions_view(r@) =~= Seq::<ActionView>::empty());
    }
    r
}

fn find_flag(v: &Vec<(String, bool)>, k: &str) -> (r: Option<usize>)
    ensures
        match r {
            Some(i) => first_key(flag_keys(v.deep_view()), k@) == Some(i as int) && i < v@.len(),
            None => first_key(flag_keys(v.deep_view()), k@) is None,
        },
{
    let ghost keys = flag_keys(v.deep_view());
    proof {
        lemma_first_key(keys, k@);
    }
    let mut i: usize = 0;
    while i < v.len()
        invariant
            i <= v@.len(),
            keys.len() == v@.len(),
            keys == flag_keys(v.deep_view()),
            forall|j: int| 0 <= j < i ==> keys[j] != k@,
            match first_key(keys, k@) {
                Some(x) => 0 <= x < keys.len() && keys[x] == k@ && forall|j: int|
                    0 <= j < x ==> keys[j] != k@,
                None => forall|j: int| 0 <= j < keys.len() ==> keys[j] != k@,
            },
        decreases v.len() - i,
    {
        assert(keys[i as int] == v@[i as int].0@);
        if str_eq(v[i].0.as_str(), k) {
            return Some(i);
        }
        i += 1;
    }
    None
}

fn find_text(v: &Vec<(String, String)>, k: &str) -> (r: Option<usize>)
    ensures
        match r {
            Some(i) => first_key(text_keys(v.deep_view()), k@) == Some(i as int) && i < v@.len(),
            None => first_key(text_keys(v.deep_view()), k@) is None,
        },
{
    let ghost keys = text_keys(v.deep_view());
    proof {
        lemma_first_key(keys, k@);
    }
    let mut i: usize = 0;
    while i < v.len()
        invariant
            i <= v@.len(),
            keys.len() == v@.len(),
            keys == text_keys(v.deep_view()),
            forall|j: int| 0 <= j < i ==> keys[j] != k@,
            match first_key(keys, k@) {
                Some(x) => 0 <= x < keys.len() && keys[x] == k@ && forall|j: int|
                    0 <= j < x ==> keys[j] != k@,
                None => forall|j: int| 0 <= j < keys.len() ==> keys[j] != k@,
            },
        decreases v.len() - i,
    {
        assert(keys[i as int] == v@[i as int].0@);
        if str_eq(v[i].0.as_str(), k) {
            return Some(i);
        }
        i += 1;
    }
    None
}

fn find_name(v: &Vec<String>, k: &str) -> (r: Option<usize>)
    ensures
        match r {
            Some(i) => first_key(v.deep_view(), k@) == Some(i as int) && i < v@.len(),
            None => first_key(v.deep_view(), k@) is None,
        },
{
    let ghost keys = v.deep_view();
    proof {
        lemma_first_key(keys, k@);
    }
    let mut i: usize = 0;
    while i < v.len()
        invariant
            i <= v@.len(),
            keys.len() == v@.len(),
            keys == v.deep_view(),
            forall|j: int| 0 <= j < i ==> keys[j] != k@,
            match first_key(keys, k@) {
                Some(x) => 0 <= x < keys.len() && keys[x] == k@ && forall|j: int|
                    0 <= j < x ==> keys[j] != k@,
                None => forall|j: int| 0 <= j < keys.len() ==> keys[j] != k@,
            },
        decreases v.len() - i,
    {
        assert(keys[i as int] == v@[i as int]@);
        if str_eq(v[i].as_str(), k) {
            return Some(i);
        }
        i += 1;
    }
    None
}

fn take_flag_of(v: &mut Vec<(String, bool)>, k: &str) -> (r: Option<bool>)
    ensures
        (r, final(v).deep_view()) == take_flag(old(v).deep_view(), k@),
{
    match find_flag(v, k) {
        Some(i) => {
            let ghost before = v.deep_view();
            let (_, b) = v.remove(i);
            proof {
                assert(v.deep_view() =~= before.remove(i as int));
            }
            Some(b)
        },
        None => None,
    }
}

fn take_text_of(v: &mut Vec<(String, String)>, k: &str) -> (r: Option<String>)
    ensures
        (opt_string(r), final(v).deep_view()) == take_text(old(v).deep_view(), k@),
{
    match find_text(v, k) {
        Some(i) => {
            let ghost before = v.deep_view();
            let (_, t) = v.remove(i);
            proof {
                assert(v.deep_view() =~= before.remove(i as int));
            }
            Some(t)
        },
        None => None,
    }
}

fn has_listing(v: &Vec<(String, String)>, path: &str) -> (r: bool)
    ensures
        r == listing_pending(v.deep_view(), path@),
{
    let ghost d = v.deep_view();
    let mut i: usize = 0;
    while i < v.len()
        invariant
            i <= v@.len(),
            d == v.deep_view(),
            forall|j: int| 0 <= j < i ==> d[j].1 != path@,
        decreases v.len() - i,
    {
        assert(d[i as int].1 == v@[i as int].1@);
        if str_eq(v[i].1.as_str(), path) {
            return true;
        }
        i += 1;
    }
    false
}

fn drop_lists_of(v: &mut Vec<(String, String)>, dir: &str)
    ensures
        final(v).deep_view() == lists_without(old(v).deep_view(), dir@),
{
    let ghost d = v.deep_view();
    let mut out: Vec<(String, String)> = Vec::new();
    let mut i: usize = 0;
    proof {
        assert(d.take(0) =~= Seq::<(Seq<char>, Seq<char>)>::empty());
        assert(out.deep_view() =~= Seq::<(Seq<char>, Seq<char>)>::empty());
    }
    while i < v.len()
        invariant
            i <= v@.len(),
            d == v.deep_view(),
            out.deep_view() == lists_without(d.take(i as int), dir@),
        decreases v.len() - i,
    {
        proof {
            assert(d.take(i + 1).drop_last() =~= d.take(i as int));
            assert(d.take(i + 1).last() == d[i as int]);
            assert(d[i as int].1 == v@[i as int].1@);
        }
        if !str_eq(v[i].1.as_str(), dir) {
            let ghost before = out.deep_view();
            out.push((v[i].0.clone(), v[i].1.clone()));
            proof {
                assert(out.deep_view() =~= before.push(d[i as int]));
            }
        }
        i += 1;
    }
    proof {
        assert(d.take(i as int) =~= d);
    }
    *v = out;
}

fn list_dir_actions(s: &HostState, path: &str) -> (r: Vec<HostAction>)
    ensures
        actions_view(r@) == list_dir_spec(s@, path@),
{
    if has_listing(&s.pending_lists, path) {
        none()
    } else {
        one(HostAction::ListDir { path: String::from_str(path) })
    }
}

fn refresh_git_actions(s: &HostState) -> (r: Vec<HostAction>)
    ensures
        actions_view(r@) == refresh_git_spec(s@),
{
    let online = match s.connection {
        Connection::Online => true,
        _ => false,
    };
    if s.git_cap && online {
        one(HostAction::RefreshGit)
    } else {
        none()
    }
}

fn relist(s: &mut HostState, dir: &str) -> (r: Vec<HostAction>)
    ensures
        (final(s)@, actions_view(r@)) == relist_spec(old(s)@, dir@),
{
    if chars_of(dir).len() == 0 {
        return none();
    }
    drop_lists_of(&mut s.pending_lists, dir);
    let r = cat(
        one(HostAction::DropCachedDir { dir: String::from_str(dir) }),
        one(HostAction::ListDir { path: String::from_str(dir) }),
    );
    proof {
        assert(actions_view(r@) =~= seq![
            ActionView::DropCachedDir { dir: dir@ },
            ActionView::ListDir { path: dir@ },
        ]);
    }
    r
}

fn relist_parent(s: &mut HostState, path: &str) -> (r: Vec<HostAction>)
    ensures
        (final(s)@, actions_view(r@)) == relist_parent_spec(old(s)@, path@),
{
    match parent_dir(path) {
        Some(parent) => relist(s, parent.as_str()),
        None => none(),
    }
}

fn clear_editors(s: &mut HostState)
    ensures
        final(s)@ == (HostView { pending_editors: Seq::empty(), ..old(s)@ }),
{
    s.pending_editors.clear();
    proof {
        assert(s.pending_editors.deep_view() =~= Seq::<(Seq<char>, bool)>::empty());
    }
}

fn switch_to(s: &mut HostState, id: String) -> (r: Vec<HostAction>)
    ensures
        (final(s)@, actions_view(r@)) == switch_spec(old(s)@, id@),
{
    let online = match s.connection {
        Connection::Online => true,
        _ => false,
    };
    if !s.workspace_cap || !online {
        return none();
    }
    let same = match &s.active_workspace_id {
        Some(a) => str_eq(a.as_str(), id.as_str()),
        None => false,
    };
    if same {
        return none();
    }
    let from = if s.restoring {
        None
    } else {
        s.active_workspace_id.clone()
    };
    s.restoring = true;
    s.pty_opens_pending = 0;
    clear_editors(s);
    one(HostAction::SwitchWorkspace { id, from })
}

fn finish_restore_if_idle(s: &mut HostState) -> (r: Vec<HostAction>)
    ensures
        (final(s)@, actions_view(r@)) == finish_restore_spec(old(s)@),
{
    if s.restoring && s.pending_editors.len() == 0 {
        proof {
            assert(s.pending_editors.deep_view().len() == 0);
        }
        s.restoring = false;
        one(HostAction::FinishRestore)
    } else {
        proof {
            assert(s.pending_editors.deep_view().len() == s.pending_editors@.len());
        }
        none()
    }
}


fn on_connected(
    s: &mut HostState,
    session_id: String,
    workspaces: Vec<WorkspaceInfo>,
    workspace_cap: bool,
    git_cap: bool,
    attached: bool,
) -> (r: Vec<HostAction>)
    ensures
        (final(s)@, actions_view(r@)) == connected_spec(
            old(s)@,
            session_id@,
            workspaces@,
            workspace_cap,
            git_cap,
            attached,
        ),
{
    s.git_cap = git_cap;
    s.workspace_cap = workspace_cap;
    s.workspaces = workspaces;
    s.session_id = Some(session_id);
    s.connection = Connection::Online;
    s.status = String::from_str("Online");
    s.pty_opens_pending = 0;
    clear_editors(s);
    let hello = one(HostAction::ApplyHello);
    if attached {
        let r = cat(hello, one(HostAction::RestoreWorkspace));
        proof {
            assert(actions_view(r@) =~= seq![ActionView::ApplyHello, ActionView::RestoreWorkspace]);
        }
        return r;
    }
    s.active_workspace_id = None;
    s.pty_opens_pending = 1;
    let shell = cat(hello, one(HostAction::OpenShellPty { cols: 80, rows: 24 }));
    proof {
        reveal_strlit("");
    }
    let list = list_dir_actions(s, "");
    let git = refresh_git_actions(s);
    let r = cat(cat(shell, list), git);
    proof {
        assert(""@ =~= Seq::<char>::empty());
        assert(actions_view(shell@) =~= seq![
            ActionView::ApplyHello,
            ActionView::OpenShellPty { cols: 80, rows: 24 },
        ]);
    }
    r
}

fn on_root_set(s: &mut HostState, ws: WorkspaceInfo) -> (r: Vec<HostAction>)
    ensures
        (final(s)@, actions_view(r@)) == root_set_spec(old(s)@, ws),
{
    let active = match &s.active_workspace_id {
        Some(a) => str_eq(a.as_str(), ws.id.as_str()),
        None => false,
    };
    s.status = join("Workspace location changed to ", display_path(ws.root.as_str()).as_str());
    if active {
        s.explorer_root = ws.root.clone();
        s.pending_lists.clear();
        proof {
            assert(s.pending_lists.deep_view() =~= Seq::<(Seq<char>, Seq<char>)>::empty());
        }
        let reset = one(HostAction::ResetExplorer);
        let list = list_dir_actions(s, ws.root.as_str());
        let views = cat(one(HostAction::ClearGitView), one(HostAction::CloseOpenDiffs));
        let git = refresh_git_actions(s);
        upsert_workspace(&mut s.workspaces, ws);
        proof {
            assert(actions_view(views@) =~= seq![ActionView::ClearGitView, ActionView::CloseOpenDiffs]);
        }
        cat(cat(cat(reset, list), views), git)
    } else {
        upsert_workspace(&mut s.workspaces, ws);
        none()
    }
}

fn on_closed(s: &mut HostState, id: String, focused_id: Option<String>) -> (r: Vec<HostAction>)
    ensures
        (final(s)@, actions_view(r@)) == closed_spec(old(s)@, id@, opt_string(focused_id)),
{
    let was_active = match &s.active_workspace_id {
        Some(a) => str_eq(a.as_str(), id.as_str()),
        None => false,
    };
    let current = s.active_workspace_id.clone();
    let active: Option<&str> = match &current {
        Some(a) => Some(a.as_str()),
        None => None,
    };
    let next = close_workspace(&mut s.workspaces, id.as_str(), focused_id, active);
    if !was_active {
        return none();
    }
    s.active_workspace_id = None;
    s.session_id = None;
    s.pty_opens_pending = 0;
    clear_editors(s);
    s.restoring = false;
    let release = one(HostAction::ReleaseDock);
    match next {
        Some(n) => cat(release, switch_to(s, n)),
        None => release,
    }
}

fn on_pty_opened(s: &mut HostState, id: String) -> (r: Vec<HostAction>)
    ensures
        (final(s)@, actions_view(r@)) == pty_opened_spec(old(s)@, id@),
{
    if s.pty_opens_pending == 0 {
        return none();
    }
    s.pty_opens_pending = s.pty_opens_pending - 1;
    let ghost before = s.respawn_titles.deep_view();
    let shown = match s.respawn_titles.pop_front() {
        Some(title) => HostAction::AttachTerminal { pty_id: id, title },
        None => HostAction::AddTerminalTab { pty_id: id },
    };
    proof {
        if before.len() > 0 {
            assert(s.respawn_titles.deep_view() =~= before.drop_first());
        } else {
            assert(s.respawn_titles.deep_view() =~= before);
        }
    }
    let acts = cat(one(shown), one(HostAction::PublishLayout));
    proof {
        assert(actions_view(acts@) =~= seq![shown@, ActionView::PublishLayout]);
    }
    if s.pty_opens_pending == 0 && !s.restoring {
        cat(acts, one(HostAction::ApplyRestoredCenter))
    } else {
        proof {
            assert(actions_view(acts@) =~= actions_view(acts@) + Seq::<ActionView>::empty());
        }
        acts
    }
}

fn on_listed(s: &mut HostState, request_id: String, path: String, entries: Vec<FsEntry>) -> (r: Vec<HostAction>)
    ensures
        (final(s)@, actions_view(r@)) == listed_spec(old(s)@, request_id@, path@, entries_view(entries@)),
{
    let requested = match take_text_of(&mut s.pending_lists, request_id.as_str()) {
        Some(r) => r,
        None => String::new(),
    };
    let (p, es) = rebase_listing(requested.as_str(), path.as_str(), entries);
    if chars_of(s.explorer_root.as_str()).len() == 0 {
        s.explorer_root = p.clone();
    }
    let store = one(HostAction::StoreListing { path: p, entries: es });
    if s.pending_lists.len() == 0 {
        proof {
            assert(s.pending_lists.deep_view().len() == 0);
        }
        cat(store, one(HostAction::ClearScrollRestore))
    } else {
        proof {
            assert(s.pending_lists.deep_view().len() != 0);
            assert(actions_view(store@) =~= actions_view(store@) + Seq::<ActionView>::empty());
        }
        store
    }
}

fn on_created(s: &mut HostState, request_id: String, entry: FsEntry) -> (r: Vec<HostAction>)
    ensures
        (final(s)@, actions_view(r@)) == created_spec(old(s)@, request_id@, entry@),
{
    match find_name(&s.pending_creates, request_id.as_str()) {
        None => none(),
        Some(i) => {
            let ghost before = s.pending_creates.deep_view();
            s.pending_creates.remove(i);
            proof {
                assert(s.pending_creates.deep_view() =~= before.remove(i as int));
            }
            let relisted = relist_parent(s, entry.path.as_str());
            s.status = join("Created ", entry.name.as_str());
            let tail = cat(
                one(HostAction::SelectPath { path: entry.path.clone() }),
                cat(
                    one(HostAction::OpenPath { path: entry.path.clone() }),
                    one(HostAction::BeginRename { path: entry.path }),
                ),
            );
            proof {
                assert(actions_view(tail@) =~= seq![
                    ActionView::SelectPath { path: entry@.path },
                    ActionView::OpenPath { path: entry@.path },
                    ActionView::BeginRename { path: entry@.path },
                ]);
            }
            cat(relisted, tail)
        },
    }
}

fn on_renamed(s: &mut HostState, request_id: String, entry: FsEntry) -> (r: Vec<HostAction>)
    ensures
        (final(s)@, actions_view(r@)) == renamed_spec(old(s)@, request_id@, entry@),
{
    match take_text_of(&mut s.pending_renames, request_id.as_str()) {
        None => none(),
        Some(old_path) => {
            let head = cat(one(HostAction::EndRename), one(HostAction::SelectPath { path: entry.path }));
            proof {
                assert(actions_view(head@) =~= seq![
                    ActionView::EndRename,
                    ActionView::SelectPath { path: entry@.path },
                ]);
            }
            let relisted = relist_parent(s, old_path.as_str());
            s.status = join("Renamed to ", entry.name.as_str());
            let git = refresh_git_actions(s);
            cat(cat(cat(head, relisted), git), one(HostAction::FocusExplorer))
        },
    }
}

fn on_editor_opened(s: &mut HostState, request_id: String) -> (r: Vec<HostAction>)
    ensures
        (final(s)@, actions_view(r@)) == editor_opened_spec(old(s)@, request_id@),
{
    match take_flag_of(&mut s.pending_editors, request_id.as_str()) {
        None => none(),
        Some(activate) => {
            let open = one(HostAction::OpenEditorTab { activate });
            cat(open, finish_restore_if_idle(s))
        },
    }
}

fn format_buffer_of(request_id: &str) -> (r: Option<String>)
    ensures
        opt_string(r) == format_buffer(request_id@),
{
    let v = chars_of(request_id);
    let p = chars_of("fmt-");
    if !starts_with_chars(&v, &p) {
        return None;
    }
    proof {
        reveal_strlit("fmt-");
        assert(p@.len() == 4);
    }
    let rest = slice_vec(&v, 4, v.len());
    proof {
        assert(rest@ =~= request_id@.skip(4));
        assert(rest@.take(rest@.len() as int) =~= rest@);
    }
    match rfind_char(&rest, rest.len(), '-') {
        Some(k) => {
            let b = slice_vec(&rest, 0, k);
            proof {
                assert(b@ =~= rest@.take(k as int));
            }
            Some(string_of(&b))
        },
        None => None,
    }
}


#[verifier::rlimit(40)]
fn error_prep(s: &mut HostState, code: &str, parts: &Option<(String, String)>, message: Ghost<Seq<char>>) -> (r: Vec<HostAction>)
    requires
        match parts {
            Some((id, path)) => request_parts(message@) == Some((id@, path@)),
            None => request_parts(message@) is None,
        },
    ensures
        (final(s)@, actions_view(r@)) == error_prep_spec(old(s)@, code@, message@),
{
    s.pending_fs.clear();
    proof {
        assert(fs_requests_view(s.pending_fs@) =~= Seq::<FsRequestView>::empty());
    }
    let mut head = none();
    let ghost head0 = actions_view(head@);
    if str_eq(code, "buffer_format_failed") {
        match parts {
            Some((rid, detail)) => match format_buffer_of(rid.as_str()) {
                Some(b) => {
                    head = cat(head, one(HostAction::FormatError { buffer_id: b, detail: detail.clone() }));
                },
                None => {
                    proof {
                        assert(head0 =~= head0 + Seq::<ActionView>::empty());
                    }
                },
            },
            None => {
                proof {
                    assert(head0 =~= head0 + Seq::<ActionView>::empty());
                }
            },
        }
    } else {
        proof {
            assert(head0 =~= head0 + Seq::<ActionView>::empty());
        }
    }
    if str_eq(code, "fs_create_failed") {
        s.pending_creates.clear();
        proof {
            assert(s.pending_creates.deep_view() =~= Seq::<Seq<char>>::empty());
        }
    }
    if str_eq(code, "fs_rename_failed") {
        match parts {
            Some((rid, _)) => {
                let _ = take_text_of(&mut s.pending_renames, rid.as_str());
            },
            None => {},
        }
    }
    if str_eq(code, "pty_open_failed") {
        if s.pty_opens_pending > 0 {
            s.pty_opens_pending = s.pty_opens_pending - 1;
        }
        let ghost before = s.respawn_titles.deep_view();
        let _ = s.respawn_titles.pop_front();
        proof {
            if before.len() > 0 {
                assert(s.respawn_titles.deep_view() =~= before.drop_first());
            } else {
                assert(s.respawn_titles.deep_view() =~= before);
            }
        }
    }
    head
}

fn on_error(s: &mut HostState, code: String, message: String) -> (r: Vec<HostAction>)
    ensures
        (final(s)@, actions_view(r@)) == error_spec(old(s)@, code@, message@),
{
    let parts = split_request_message(message.as_str());
    let head = error_prep(s, code.as_str(), &parts, Ghost(message@));
    if str_eq(code.as_str(), "binary_file") {
        let status = String::from_str("Binary file — not opened in the editor");
        match parts {
            Some((rid, path)) => {
                let activate = match take_flag_of(&mut s.pending_editors, rid.as_str()) {
                    Some(a) => a,
                    None => true,
                };
                let open = if chars_of(path.as_str()).len() > 0 {
                    one(HostAction::OpenBinary { path, activate })
                } else {
                    none()
                };
                let fin = finish_restore_if_idle(s);
                s.status = status;
                cat(cat(head, open), fin)
            },
            None => {
                s.status = status;
                head
            },
        }
    } else if str_eq(code.as_str(), "git_failed") {
        s.git_busy = false;
        s.status = join("Git: ", message.as_str());
        head
    } else {
        let c = chars_of(code.as_str());
        let side = starts_with_chars(&c, &chars_of("fs_list")) || starts_with_chars(
            &c,
            &chars_of("fs_stat"),
        ) || str_eq(code.as_str(), "fs_open_failed");
        if s.restoring && !side {
            s.restoring = false;
            clear_editors(s);
        }
        s.status = if str_eq(code.as_str(), "fs_rename_failed") {
            match &parts {
                Some((_, detail)) => join("Rename failed: ", detail.as_str()),
                None => join("Rename failed: ", message.as_str()),
            }
        } else {
            join(join(code.as_str(), ": ").as_str(), message.as_str())
        };
        head
    }
}

proof fn lemma_first_filled(lines: Seq<Seq<char>>)
    ensures
        match first_filled(lines) {
            Some(i) => 0 <= i < lines.len() && trim(lines[i]).len() > 0 && forall|j: int|
                0 <= j < i ==> trim(#[trigger] lines[j]).len() == 0,
            None => forall|j: int| 0 <= j < lines.len() ==> trim(#[trigger] lines[j]).len() == 0,
        },
    decreases lines.len(),
{
    if lines.len() > 0 {
        let t = lines.drop_last();
        lemma_first_filled(t);
        assert forall|j: int| 0 <= j < t.len() implies t[j] == lines[j] by {}
    }
}

fn first_filled_index(lines: &Vec<String>) -> (r: Option<usize>)
    ensures
        match r {
            Some(i) => first_filled(lines.deep_view()) == Some(i as int) && i < lines@.len(),
            None => first_filled(lines.deep_view()) is None,
        },
{
    let ghost d = lines.deep_view();
    proof {
        lemma_first_filled(d);
    }
    let mut i: usize = 0;
    while i < lines.len()
        invariant
            i <= lines@.len(),
            d == lines.deep_view(),
            forall|j: int| 0 <= j < i ==> trim(#[trigger] d[j]).len() == 0,
            match first_filled(d) {
                Some(x) => 0 <= x < d.len() && trim(d[x]).len() > 0 && forall|j: int|
                    0 <= j < x ==> trim(#[trigger] d[j]).len() == 0,
                None => forall|j: int| 0 <= j < d.len() ==> trim(#[trigger] d[j]).len() == 0,
            },
        decreases lines.len() - i,
    {
        assert(d[i as int] == lines@[i as int]@);
        if trim_str(lines[i].as_str()).len() > 0 {
            return Some(i);
        }
        i += 1;
    }
    None
}

fn git_op_status_of(ok: bool, output: &str) -> (r: String)
    ensures
        r@ == git_op_status(ok, output@),
{
    let lines = text_lines(output);
    let chosen: Vec<char> = match first_filled_index(&lines) {
        Some(i) => trim_str(lines[i].as_str()),
        None => if ok {
            trim_str("Git command finished")
        } else {
            trim_str("Git command failed")
        },
    };
    if chosen.len() > 180 {
        let cut = slice_vec(&chosen, 0, 180);
        proof {
            assert(cut@ =~= chosen@.take(180));
        }
        string_of(&concat(&cut, &chars_of("…")))
    } else {
        string_of(&chosen)
    }
}

fn parents_vec(paths: &Vec<String>) -> (r: Vec<String>)
    ensures
        strings_view(r@) == parents_of(strings_view(paths@)),
{
    let ghost pv = strings_view(paths@);
    let mut out: Vec<String> = Vec::new();
    let mut i: usize = 0;
    proof {
        assert(pv.take(0) =~= Seq::<Seq<char>>::empty());
        assert(strings_view(out@) =~= Seq::<Seq<char>>::empty());
    }
    while i < paths.len()
        invariant
            i <= paths@.len(),
            pv == strings_view(paths@),
            strings_view(out@) == parents_of(pv.take(i as int)),
        decreases paths.len() - i,
    {
        proof {
            assert(pv.take(i + 1).drop_last() =~= pv.take(i as int));
            assert(pv.take(i + 1).last() == paths@[i as int]@);
        }
        match parent_dir(paths[i].as_str()) {
            Some(p) => {
                let ghost before = out@;
                out.push(p);
                proof {
                    assert(strings_view(out@) =~= strings_view(before).push(p@));
                }
            },
            None => {},
        }
        i += 1;
    }
    proof {
        assert(pv.take(i as int) =~= pv);
    }
    out
}

fn dedup_sorted(v: Vec<String>) -> (r: Vec<String>)
    ensures
        strings_view(r@) == dedup_adjacent(strings_view(v@)),
{
    let ghost vv = strings_view(v@);
    let mut out: Vec<String> = Vec::new();
    let mut i: usize = 0;
    proof {
        assert(vv.take(0) =~= Seq::<Seq<char>>::empty());
        assert(strings_view(out@) =~= Seq::<Seq<char>>::empty());
    }
    while i < v.len()
        invariant
            i <= v@.len(),
            vv == strings_view(v@),
            strings_view(out@) == dedup_adjacent(vv.take(i as int)),
        decreases v.len() - i,
    {
        let ghost t = vv.take(i + 1);
        proof {
            assert(t.drop_last() =~= vv.take(i as int));
            assert(t.last() == v@[i as int]@);
            if i > 0 {
                assert(t[t.len() - 2] == v@[i - 1]@);
            }
        }
        if i == 0 || !str_eq(v[i].as_str(), v[i - 1].as_str()) {
            let ghost before = out@;
            out.push(v[i].clone());
            proof {
                assert(strings_view(out@) =~= strings_view(before).push(v@[i as int]@));
                if i == 0 {
                    assert(t =~= seq![v@[0]@]);
                    assert(strings_view(before) =~= Seq::<Seq<char>>::empty());
                }
            }
        }
        i += 1;
    }
    proof {
        assert(vv.take(i as int) =~= vv);
    }
    out
}

fn relist_each(s: &mut HostState, dirs: &Vec<String>) -> (r: Vec<HostAction>)
    ensures
        (final(s)@, actions_view(r@)) == relist_all(old(s)@, strings_view(dirs@)),
{
    let ghost dv = strings_view(dirs@);
    let ghost s0 = s@;
    let mut acts = none();
    let mut i: usize = 0;
    proof {
        assert(dv.take(0) =~= Seq::<Seq<char>>::empty());
    }
    while i < dirs.len()
        invariant
            i <= dirs@.len(),
            dv == strings_view(dirs@),
            (s@, actions_view(acts@)) == relist_all(s0, dv.take(i as int)),
        decreases dirs.len() - i,
    {
        proof {
            assert(dv.take(i + 1).drop_last() =~= dv.take(i as int));
            assert(dv.take(i + 1).last() == dirs@[i as int]@);
        }
        let more = relist(s, dirs[i].as_str());
        acts = cat(acts, more);
        i += 1;
    }
    proof {
        assert(dv.take(i as int) =~= dv);
    }
    acts
}

fn take_fs_of(v: &mut Vec<FsRequest>, id: &str) -> (r: Option<FsRequest>)
    ensures
        match take_fs(fs_requests_view(old(v)@), id@) {
            (Some(p), rest) => r is Some && r->0@ == p && fs_requests_view(final(v)@) == rest,
            (None, rest) => r is None && fs_requests_view(final(v)@) == rest,
        },
{
    let ghost keys = fs_ids(fs_requests_view(v@));
    proof {
        lemma_first_key(keys, id@);
    }
    let mut i: usize = 0;
    while i < v.len()
        invariant
            i <= v@.len(),
            v@ == old(v)@,
            keys.len() == v@.len(),
            keys == fs_ids(fs_requests_view(v@)),
            forall|j: int| 0 <= j < i ==> keys[j] != id@,
            match first_key(keys, id@) {
                Some(x) => 0 <= x < keys.len() && keys[x] == id@ && forall|j: int|
                    0 <= j < x ==> keys[j] != id@,
                None => forall|j: int| 0 <= j < keys.len() ==> keys[j] != id@,
            },
        decreases v.len() - i,
    {
        assert(keys[i as int] == v@[i as int].request_id@);
        if str_eq(v[i].request_id.as_str(), id) {
            let ghost before = v@;
            let r = v.remove(i);
            proof {
                assert(fs_requests_view(v@) =~= fs_requests_view(before).remove(i as int));
            }
            return Some(r);
        }
        i += 1;
    }
    None
}

fn entry_paths_of(entries: &Vec<FsEntry>) -> (r: Vec<String>)
    ensures
        strings_view(r@) == entry_paths(entries_view(entries@)),
{
    let mut out: Vec<String> = Vec::new();
    let mut i: usize = 0;
    while i < entries.len()
        invariant
            i <= entries@.len(),
            strings_view(out@) == entry_paths(entries_view(entries@)).take(i as int),
        decreases entries.len() - i,
    {
        let ghost before = out@;
        out.push(entries[i].path.clone());
        proof {
            assert(strings_view(out@) =~= strings_view(before).push(entries@[i as int].path@));
            assert(entry_paths(entries_view(entries@)).take(i + 1) =~= entry_paths(
                entries_view(entries@),
            ).take(i as int).push(entries@[i as int].path@));
        }
        i += 1;
    }
    proof {
        assert(entry_paths(entries_view(entries@)).take(i as int) =~= entry_paths(entries_view(entries@)));
    }
    out
}

fn join_vecs(a: Vec<String>, b: Vec<String>) -> (r: Vec<String>)
    ensures
        strings_view(r@) == strings_view(a@) + strings_view(b@),
{
    let mut r = a;
    let mut b = b;
    let ghost a0 = r@;
    let ghost b0 = b@;
    r.append(&mut b);
    proof {
        assert(r@ =~= a0 + b0);
        assert(strings_view(r@) =~= strings_view(a0) + strings_view(b0));
    }
    r
}

#[verifier::rlimit(30)]
fn on_fs_done(s: &mut HostState, request_id: String, entries: Vec<FsEntry>, moved: bool) -> (r: Vec<HostAction>)
    ensures
        (final(s)@, actions_view(r@)) == fs_done_spec(old(s)@, request_id@, entries_view(entries@), moved),
{
    let pending = take_fs_of(&mut s.pending_fs, request_id.as_str());
    let from_request: Vec<String> = match pending {
        Some(req) => {
            let mut parents = parents_vec(&req.sources);
            let ghost before = parents@;
            parents.push(req.destination);
            proof {
                assert(strings_view(parents@) =~= strings_view(before).push(req@.destination));
            }
            parents
        },
        None => {
            let v: Vec<String> = Vec::new();
            proof {
                assert(strings_view(v@) =~= Seq::<Seq<char>>::empty());
            }
            v
        },
    };
    let paths = entry_paths_of(&entries);
    let all = join_vecs(from_request, parents_vec(&paths));
    let dirs = dedup_sorted(sort_strings(all));
    let acts = relist_each(s, &dirs);
    let n = entries.len();
    let acts = if n > 0 {
        cat(acts, one(HostAction::SelectPaths { paths }))
    } else {
        proof {
            assert(actions_view(acts@) =~= actions_view(acts@) + Seq::<ActionView>::empty());
        }
        acts
    };
    let word = if moved {
        "Moved "
    } else {
        "Copied "
    };
    let count = decimal_chars(n as u128);
    s.status = join(string_of(&concat(&chars_of(word), &count)).as_str(), " item(s)");
    acts
}

/// Record a move or copy the window is about to ask for.
pub fn note_fs_request(state: &mut HostState, request: FsRequest)
    ensures
        final(state)@ == (HostView {
            pending_fs: old(state)@.pending_fs.push(request@),
            ..old(state)@
        }),
{
    let ghost before = state.pending_fs@;
    state.pending_fs.push(request);
    proof {
        assert(fs_requests_view(state.pending_fs@) =~= fs_requests_view(before).push(request@));
    }
}

/// React to one daemon event: the host's state moves on as
/// [`host_step_spec`] says, and the window is handed the actions to perform,
/// in order.
pub fn host_event_step(state: &mut HostState, event: HostEvent) -> (actions: Vec<HostAction>)
    ensures
        (final(state)@, actions_view(actions@)) == host_step_spec(old(state)@, event@),
{
    match event {
        HostEvent::Connecting => {
            state.connection = Connection::Connecting;
            state.status = String::from_str("Connecting…");
            none()
        },
        HostEvent::Connected { session_id, workspaces, workspace_cap, git_cap, attached } => {
            on_connected(state, session_id, workspaces, workspace_cap, git_cap, attached)
        },
        HostEvent::ConfigUpdated => {
            state.status = String::from_str("Keyboard shortcuts updated");
            one(HostAction::ApplyShortkeys)
        },
        HostEvent::WorkspaceCreated { workspace } => {
            let id = workspace.id.clone();
            upsert_workspace(&mut state.workspaces, workspace);
            switch_to(state, id)
        },
        HostEvent::WorkspaceRenamed { workspace } => {
            state.status = join("Renamed to ", workspace.name.as_str());
            upsert_workspace(&mut state.workspaces, workspace);
            none()
        },
        HostEvent::WorkspaceRootSet { workspace } => on_root_set(state, workspace),
        HostEvent::WorkspaceClosed { id, focused_id } => on_closed(state, id, focused_id),
        HostEvent::WorkspaceSwitched => one(HostAction::RestoreWorkspace),
        HostEvent::Disconnected { reason } => {
            state.status = join("Disconnected: ", reason.as_str());
            state.connection = Connection::Offline(reason);
            none()
        },
        HostEvent::PtyOpened { id } => on_pty_opened(state, id),
        HostEvent::PtyClosed { id, reason } => {
            match reason {
                Some(r) => {
                    state.status = join("PTY closed: ", r.as_str());
                },
                None => {},
            }
            one(HostAction::RemoveTerminal { pty_id: id })
        },
        HostEvent::FsListed { request_id, path, entries } => on_listed(state, request_id, path, entries),
        HostEvent::FsCreated { request_id, entry } => on_created(state, request_id, entry),
        HostEvent::FsRenamed { request_id, entry } => on_renamed(state, request_id, entry),
        HostEvent::FsMoved { request_id, entries } => on_fs_done(state, request_id, entries, true),
        HostEvent::FsCopied { request_id, entries } => on_fs_done(state, request_id, entries, false),
        HostEvent::EditorOpened { request_id } => on_editor_opened(state, request_id),
        HostEvent::Error { code, message } => on_error(state, code, message),
        HostEvent::GitStatus { request_id } => {
            let awaited = match &state.git_status_req {
                Some(g) => str_eq(g.as_str(), request_id.as_str()),
                None => false,
            };
            if awaited {
                state.git_status_req = None;
                one(HostAction::ApplyGitStatus)
            } else {
                none()
            }
        },
        HostEvent::GitDiff { request_id, path } => one(HostAction::ShowDiff { request_id, path }),
        HostEvent::GitOp { ok, output } => {
            state.git_busy = false;
            state.status = git_op_status_of(ok, output.as_str());
            if ok {
                refresh_git_actions(state)
            } else {
                none()
            }
        },
        HostEvent::FsOpened { message } => {
            state.status = message;
            none()
        },
    }
}


// ---------------------------------------------------------------------
// Requests the window sends, and the restore of a workspace.

/// Record a listing of `path` the window is about to ask for under
/// `request_id`. Refused, and nothing recorded, while a listing of the same
/// path is in flight.
pub fn request_listing(state: &mut HostState, request_id: String, path: String) -> (sent: bool)
    ensures
        sent == !listing_pending(old(state)@.pending_lists, path@),
        final(state)@ == (if sent {
            HostView {
                pending_lists: old(state)@.pending_lists.push((request_id@, path@)),
                ..old(state)@
            }
        } else {
            old(state)@
        }),
{
    if has_listing(&state.pending_lists, path.as_str()) {
        return false;
    }
    let ghost before = state.pending_lists.deep_view();
    state.pending_lists.push((request_id, path));
    proof {
        assert(state.pending_lists.deep_view() =~= before.push((request_id@, path@)));
    }
    true
}

/// Record a Git status request the window is about to send under
/// `request_id`: only while the daemon serves Git and is online. Its answer
/// is the one awaited from then on.
pub fn request_git_status(state: &mut HostState, request_id: String) -> (sent: bool)
    ensures
        sent == (old(state)@.git_cap && old(state)@.connection is Online),
        final(state)@ == (if sent {
            HostView { git_status_req: Some(request_id@), ..old(state)@ }
        } else {
            old(state)@
        }),
{
    let online = match state.connection {
        Connection::Online => true,
        _ => false,
    };
    if !state.git_cap || !online {
        return false;
    }
    state.git_status_req = Some(request_id);
    true
}

/// Record an editor request: the tab opens activated or not when the
/// daemon answers.
pub fn note_editor_request(state: &mut HostState, request_id: String, activate: bool)
    ensures
        final(state)@ == (HostView {
            pending_editors: old(state)@.pending_editors.push((request_id@, activate)),
            ..old(state)@
        }),
{
    let ghost before = state.pending_editors.deep_view();
    state.pending_editors.push((request_id, activate));
    proof {
        assert(state.pending_editors.deep_view() =~= before.push((request_id@, activate)));
    }
}

/// Record an `fs_create` request.
pub fn note_create_request(state: &mut HostState, request_id: String)
    ensures
        final(state)@ == (HostView {
            pending_creates: old(state)@.pending_creates.push(request_id@),
            ..old(state)@
        }),
{
    let ghost before = state.pending_creates.deep_view();
    state.pending_creates.push(request_id);
    proof {
        assert(state.pending_creates.deep_view() =~= before.push(request_id@));
    }
}

/// Record an `fs_rename` request of `old_path`.
pub fn note_rename_request(state: &mut HostState, request_id: String, old_path: String)
    ensures
        final(state)@ == (HostView {
            pending_renames: old(state)@.pending_renames.push((request_id@, old_path@)),
            ..old(state)@
        }),
{
    let ghost before = state.pending_renames.deep_view();
    state.pending_renames.push((request_id, old_path));
    proof {
        assert(state.pending_renames.deep_view() =~= before.push((request_id@, old_path@)));
    }
}

pub open spec fn attach_actions(attach: Seq<(Seq<char>, Seq<char>)>) -> Seq<ActionView> {
    attach.map_values(|p: (Seq<char>, Seq<char>)| ActionView::AttachTerminal { pty_id: p.0, title: p.1 })
}

pub open spec fn respawn_actions(count: nat, root: Seq<char>) -> Seq<ActionView> {
    Seq::new(count, |i: int| ActionView::OpenPtyIn { cols: 80, rows: 24, cwd: root })
}

/// Reopening the tabs of an attached workspace: the dock is emptied, the
/// explorer starts over at the workspace root, live terminals are attached,
/// a shell is started in the root for each terminal to respawn (their
/// `pty_opened` replies take the titles in order), a new terminal opens when
/// nothing else would, and without editors to wait for the restore ends at
/// once.
pub open spec fn restore_spec(
    s: HostView,
    info: WorkspaceInfo,
    attach: Seq<(Seq<char>, Seq<char>)>,
    respawn: Seq<Seq<char>>,
    expect_editors: bool,
) -> (HostView, Seq<ActionView>) {
    let idle = attach.len() == 0 && !expect_editors && respawn.len() == 0;
    let t = HostView {
        restoring: expect_editors,
        pty_opens_pending: respawn.len(),
        pending_editors: Seq::empty(),
        respawn_titles: respawn,
        session_id: Some(info.session_id@),
        active_workspace_id: Some(info.id@),
        pending_renames: Seq::empty(),
        pending_creates: Seq::empty(),
        pending_lists: Seq::empty(),
        explorer_root: info.root@,
        workspaces: upsert_spec(s.workspaces, info),
        ..s
    };
    (
        t,
        seq![
            ActionView::ReleaseDock,
            ActionView::ResetExplorer,
            ActionView::ListDir { path: info.root@ },
            ActionView::ReopenFolders,
        ] + attach_actions(attach) + respawn_actions(respawn.len(), info.root@) + (if idle {
            seq![ActionView::NewTerminal]
        } else {
            Seq::empty()
        }) + (if expect_editors {
            Seq::empty()
        } else {
            seq![ActionView::FinishRestore]
        }) + refresh_git_spec(t),
    )
}

/// Start reopening the workspace `info` the daemon attached: `attach`
/// holds the live terminals to show (PTY id and title, in tab order, then
/// the orphans), `respawn` the titles of terminals whose shells are gone,
/// `expect_editors` whether editors are to be reopened (each recorded with
/// [`note_editor_request`]).
pub fn begin_restore(
    state: &mut HostState,
    info: WorkspaceInfo,
    attach: Vec<(String, String)>,
    respawn: Vec<String>,
    expect_editors: bool,
) -> (actions: Vec<HostAction>)
    ensures
        (final(state)@, actions_view(actions@)) == restore_spec(
            old(state)@,
            info,
            attach.deep_view(),
            respawn.deep_view(),
            expect_editors,
        ),
{
    let idle = attach.len() == 0 && !expect_editors && respawn.len() == 0;
    let root = info.root.clone();
    state.restoring = true;
    state.pty_opens_pending = 0;
    clear_editors(state);
    state.respawn_titles.clear();
    state.session_id = Some(info.session_id.clone());
    state.active_workspace_id = Some(info.id.clone());
    state.pending_renames.clear();
    state.pending_creates.clear();
    state.pending_lists.clear();
    state.explorer_root = root.clone();
    upsert_workspace(&mut state.workspaces, info);
    proof {
        assert(state.respawn_titles.deep_view() =~= Seq::<Seq<char>>::empty());
        assert(state.pending_renames.deep_view() =~= Seq::<(Seq<char>, Seq<char>)>::empty());
        assert(state.pending_creates.deep_view() =~= Seq::<Seq<char>>::empty());
        assert(state.pending_lists.deep_view() =~= Seq::<(Seq<char>, Seq<char>)>::empty());
    }
    let ghost base = state@;
    let mut acts: Vec<HostAction> = Vec::new();
    acts.push(HostAction::ReleaseDock);
    acts.push(HostAction::ResetExplorer);
    acts.push(HostAction::ListDir { path: root.clone() });
    acts.push(HostAction::ReopenFolders);
    let ghost head = actions_view(acts@);
    proof {
        assert(head =~= seq![
            ActionView::ReleaseDock,
            ActionView::ResetExplorer,
            ActionView::ListDir { path: root@ },
            ActionView::ReopenFolders,
        ]);
    }
    let ghost ad = attach.deep_view();
    let mut i: usize = 0;
    while i < attach.len()
        invariant
            i <= attach@.len(),
            ad == attach.deep_view(),
            state@ == base,
            actions_view(acts@) == head + attach_actions(ad.take(i as int)),
        decreases attach.len() - i,
    {
        let ghost before = actions_view(acts@);
        acts.push(HostAction::AttachTerminal { pty_id: attach[i].0.clone(), title: attach[i].1.clone() });
        proof {
            assert(attach_actions(ad.take(i + 1)) =~= attach_actions(ad.take(i as int)).push(
                ActionView::AttachTerminal { pty_id: ad[i as int].0, title: ad[i as int].1 },
            ));
            assert(actions_view(acts@) =~= before.push(
                ActionView::AttachTerminal { pty_id: ad[i as int].0, title: ad[i as int].1 },
            ));
        }
        i += 1;
    }
    proof {
        assert(ad.take(i as int) =~= ad);
    }
    let ghost mid = actions_view(acts@);
    let ghost rd = respawn.deep_view();
    let mut k: usize = 0;
    while k < respawn.len()
        invariant
            k <= respawn@.len(),
            rd == respawn.deep_view(),
            rd.len() == respawn@.len(),
            state.pty_opens_pending == k,
            state.respawn_titles.deep_view() == rd.take(k as int),
            actions_view(acts@) == mid + respawn_actions(k as nat, root@),
            state@ == (HostView {
                pty_opens_pending: k as nat,
                respawn_titles: rd.take(k as int),
                ..base
            }),
        decreases respawn.len() - k,
    {
        let ghost before = actions_view(acts@);
        let ghost titles = state.respawn_titles.deep_view();
        state.respawn_titles.push_back(respawn[k].clone());
        state.pty_opens_pending = state.pty_opens_pending + 1;
        acts.push(HostAction::OpenPtyIn { cols: 80, rows: 24, cwd: root.clone() });
        proof {
            assert(state.respawn_titles.deep_view() =~= titles.push(rd[k as int]));
            assert(rd.take(k + 1) =~= rd.take(k as int).push(rd[k as int]));
            assert(respawn_actions((k + 1) as nat, root@) =~= respawn_actions(k as nat, root@).push(
                ActionView::OpenPtyIn { cols: 80, rows: 24, cwd: root@ },
            ));
            assert(actions_view(acts@) =~= before.push(ActionView::OpenPtyIn { cols: 80, rows: 24, cwd: root@ }));
        }
        k += 1;
    }
    proof {
        assert(rd.take(k as int) =~= rd);
    }
    if idle {
        state.restoring = false;
        acts = cat(acts, one(HostAction::NewTerminal));
    } else {
        proof {
            assert(actions_view(acts@) =~= actions_view(acts@) + Seq::<ActionView>::empty());
        }
    }
    if !expect_editors {
        state.restoring = false;
        acts = cat(acts, one(HostAction::FinishRestore));
    } else {
        proof {
            assert(actions_view(acts@) =~= actions_view(acts@) + Seq::<ActionView>::empty());
        }
    }
    let git = refresh_git_actions(state);
    cat(acts, git)
}


/// When the root of the shown workspace moves, the explorer and Source
/// Control follow it: the explorer starts over at the new root, its listing
/// is asked for, and the Git status is asked for again when Git is served.
pub proof fn explorer_and_git_follow_a_moved_root(s: HostView, ws: WorkspaceInfo)
    requires
        s.active_workspace_id == Some(ws.id@),
    ensures
        ({
            let (t, acts) = host_step_spec(s, EventView::WorkspaceRootSet { workspace: ws });
            &&& t.explorer_root == ws.root@
            &&& t.pending_lists.len() == 0
            &&& acts[0] == ActionView::ResetExplorer
            &&& acts[1] == (ActionView::ListDir { path: ws.root@ })
            &&& (s.git_cap && s.connection is Online) == acts.contains(ActionView::RefreshGit)
        }),
{
    let (t, acts) = host_step_spec(s, EventView::WorkspaceRootSet { workspace: ws });
    let u = HostView {
        explorer_root: ws.root@,
        pending_lists: Seq::<(Seq<char>, Seq<char>)>::empty(),
        status: "Workspace location changed to "@ + display_path_spec(ws.root@),
        ..s
    };
    assert(!listing_pending(u.pending_lists, ws.root@));
    let head = seq![
        ActionView::ResetExplorer,
        ActionView::ListDir { path: ws.root@ },
        ActionView::ClearGitView,
        ActionView::CloseOpenDiffs,
    ];
    assert(acts =~= head + refresh_git_spec(u));
    if s.git_cap && s.connection is Online {
        assert(acts[4] == ActionView::RefreshGit);
    } else {
        assert(acts =~= head);
        assert forall|i: int| 0 <= i < acts.len() implies acts[i] != ActionView::RefreshGit by {}
    }
}

/// Shells started for a restored workspace get back their titles in order:
/// the first `pty_opened` after the restore shows the first title to
/// respawn.
pub proof fn respawned_shells_get_their_titles_back(
    s: HostView,
    info: WorkspaceInfo,
    attach: Seq<(Seq<char>, Seq<char>)>,
    respawn: Seq<Seq<char>>,
    expect_editors: bool,
    pty_id: Seq<char>,
)
    requires
        respawn.len() > 0,
    ensures
        ({
            let (t, _) = restore_spec(s, info, attach, respawn, expect_editors);
            let (u, acts) = host_step_spec(t, EventView::PtyOpened { id: pty_id });
            &&& t.pty_opens_pending == respawn.len()
            &&& acts[0] == (ActionView::AttachTerminal { pty_id, title: respawn[0] })
            &&& u.respawn_titles == respawn.drop_first()
            &&& u.pty_opens_pending == respawn.len() - 1
        }),
{
}


/// A listing already in flight for a path is not asked for again: once
/// [`request_listing`] recorded it, asking for the same path sends nothing.
pub proof fn a_listing_in_flight_is_not_asked_for_again(s: HostView, id: Seq<char>, path: Seq<char>)
    ensures
        ({
            let t = HostView { pending_lists: s.pending_lists.push((id, path)), ..s };
            &&& listing_pending(t.pending_lists, path)
            &&& list_dir_spec(t, path) == Seq::<ActionView>::empty()
        }),
{
    let l = s.pending_lists.push((id, path));
    assert(l[l.len() - 1].1 == path);
}

/// A Git status answer is shown only when it is the one awaited, and only
/// once.
pub proof fn git_status_is_shown_once(s: HostView, id: Seq<char>)
    ensures
        s.git_status_req != Some(id) ==> host_step_spec(s, EventView::GitStatus { request_id: id })
            == (s, Seq::<ActionView>::empty()),
        s.git_status_req == Some(id) ==> ({
            let (t, acts) = host_step_spec(s, EventView::GitStatus { request_id: id });
            &&& acts == seq![ActionView::ApplyGitStatus]
            &&& host_step_spec(t, EventView::GitStatus { request_id: id }).1.len() == 0
        }),
{
}


proof fn lemma_dedup_sorted(t: Seq<Seq<char>>)
    requires
        sorted_by(t, chars_leq()),
    ensures
        forall|k: int|
            0 <= k < dedup_adjacent(t).len() ==> (#[trigger] dedup_adjacent(t)[k] == t.last()
                || chars_lt(dedup_adjacent(t)[k], t.last())),
        forall|i: int, j: int|
            0 <= i < j < dedup_adjacent(t).len() ==> chars_lt(
                #[trigger] dedup_adjacent(t)[i],
                #[trigger] dedup_adjacent(t)[j],
            ),
    decreases t.len(),
{
    if t.len() >= 2 {
        let u = t.drop_last();
        assert(sorted_by(u, chars_leq())) by {
            assert forall|i: int, j: int| 0 <= i < j < u.len() implies #[trigger] chars_leq()(
                u[i],
                u[j],
            ) by {
                assert(u[i] == t[i] && u[j] == t[j]);
                assert(chars_leq()(t[i], t[j]));
            }
        }
        lemma_dedup_sorted(u);
        let d0 = dedup_adjacent(u);
        let a = t[t.len() - 2];
        let b = t.last();
        assert(u.last() == a);
        assert(chars_leq()(t[t.len() - 2], t[t.len() - 1]));
        if b != a {
            lemma_chars_lt_total(a, b);
            assert(chars_lt(a, b));
            assert forall|k: int| 0 <= k < d0.len() implies chars_lt(#[trigger] d0[k], b) by {
                if d0[k] != a {
                    lemma_chars_lt_transitive(d0[k], a, b);
                }
            }
            let d = d0.push(b);
            assert(dedup_adjacent(t) == d);
            assert forall|i: int, j: int| 0 <= i < j < d.len() implies chars_lt(#[trigger] d[i], #[trigger] d[j]) by {
                if j == d.len() - 1 {
                    assert(d[i] == d0[i]);
                } else {
                    assert(d[i] == d0[i] && d[j] == d0[j]);
                }
            }
            assert forall|k: int| 0 <= k < d.len() implies (#[trigger] d[k] == b || chars_lt(d[k], b)) by {
                if k < d0.len() {
                    assert(d[k] == d0[k]);
                }
            }
        }
    }
}

/// A finished move or copy lists each folder it touched once: the folders
/// come in strictly ascending order.
pub proof fn each_touched_folder_is_listed_once(pending: Option<FsRequestView>, entries: Seq<EntryView>)
    ensures
        forall|i: int, j: int|
            0 <= i < j < fs_dirs(pending, entries).len() ==> chars_lt(
                #[trigger] fs_dirs(pending, entries)[i],
                #[trigger] fs_dirs(pending, entries)[j],
            ),
{
    let from_request = match pending {
        Some(r) => parents_of(r.sources).push(r.destination),
        None => Seq::empty(),
    };
    let all = from_request + parents_of(entry_paths(entries));
    lemma_chars_leq_total();
    all.lemma_sort_by_ensures(chars_leq());
    lemma_dedup_sorted(all.sort_by(chars_leq()));
}

} // verus!
