use fresh_gui_app::connect::WorkspaceInfo;
use fresh_gui_app::host::{
    begin_restore, host_event_step, note_editor_request, note_fs_request, note_rename_request,
    request_git_status, request_listing, Connection, FsRequest, HostAction, HostEvent, HostState,
};
use fresh_gui_app::listing::{FsEntry, FsKind};
use fresh_gui_app::workspace::{count_handled_event, EVENTS_PER_TURN};

fn ws(id: &str, root: &str) -> WorkspaceInfo {
    WorkspaceInfo {
        id: id.into(),
        name: format!("{id} name"),
        root: root.into(),
        session_id: format!("{id}-session"),
        pty_count: 0,
        tab_count: 0,
    }
}

fn online(workspaces: Vec<WorkspaceInfo>, attached: bool) -> (HostState, Vec<HostAction>) {
    let mut state = HostState::new();
    let actions = host_event_step(
        &mut state,
        HostEvent::Connected {
            session_id: "s1".into(),
            workspaces,
            workspace_cap: true,
            git_cap: true,
            attached,
        },
    );
    (state, actions)
}

#[test]
fn connecting_sets_the_status() {
    let mut state = HostState::new();
    let actions = host_event_step(&mut state, HostEvent::Connecting);
    assert!(actions.is_empty());
    assert_eq!(state.connection, Connection::Connecting);
    assert_eq!(state.status, "Connecting…");
    assert_eq!(HostState::new().status, "Connecting…");
}

#[test]
fn connecting_without_a_workspace_opens_a_shell() {
    let (state, actions) = online(vec![ws("w1", "/p")], false);
    assert_eq!(
        actions,
        vec![
            HostAction::ApplyHello,
            HostAction::OpenShellPty { cols: 80, rows: 24 },
            HostAction::ListDir { path: String::new() },
            HostAction::RefreshGit,
        ]
    );
    assert_eq!(state.status, "Online");
    assert_eq!(state.connection, Connection::Online);
    assert_eq!(state.session_id.as_deref(), Some("s1"));
    assert_eq!(state.pty_opens_pending, 1);
    assert_eq!(state.active_workspace_id, None);
}

#[test]
fn connecting_to_an_attached_workspace_restores_it() {
    let (_, actions) = online(vec![], true);
    assert_eq!(actions, vec![HostAction::ApplyHello, HostAction::RestoreWorkspace]);
}

#[test]
fn restored_shells_take_their_titles_in_order() {
    let (mut state, _) = online(vec![], true);
    let actions = begin_restore(
        &mut state,
        ws("w1", "/proj"),
        vec![("live".into(), "1".into())],
        vec!["build".into(), "logs".into()],
        false,
    );
    assert_eq!(
        actions,
        vec![
            HostAction::ReleaseDock,
            HostAction::ResetExplorer,
            HostAction::ListDir { path: "/proj".into() },
            HostAction::ReopenFolders,
            HostAction::AttachTerminal { pty_id: "live".into(), title: "1".into() },
            HostAction::OpenPtyIn { cols: 80, rows: 24, cwd: "/proj".into() },
            HostAction::OpenPtyIn { cols: 80, rows: 24, cwd: "/proj".into() },
            HostAction::FinishRestore,
            HostAction::RefreshGit,
        ]
    );
    assert_eq!(state.active_workspace_id.as_deref(), Some("w1"));
    assert_eq!(state.session_id.as_deref(), Some("w1-session"));
    assert_eq!(state.explorer_root, "/proj");
    assert_eq!(state.pty_opens_pending, 2);
    assert!(!state.restoring);

    let first = host_event_step(&mut state, HostEvent::PtyOpened { id: "p1".into() });
    assert_eq!(
        first,
        vec![
            HostAction::AttachTerminal { pty_id: "p1".into(), title: "build".into() },
            HostAction::PublishLayout,
        ]
    );
    let second = host_event_step(&mut state, HostEvent::PtyOpened { id: "p2".into() });
    assert_eq!(
        second,
        vec![
            HostAction::AttachTerminal { pty_id: "p2".into(), title: "logs".into() },
            HostAction::PublishLayout,
            HostAction::ApplyRestoredCenter,
        ]
    );
    // No shell is awaited any more.
    assert!(host_event_step(&mut state, HostEvent::PtyOpened { id: "p3".into() }).is_empty());
}

#[test]
fn restore_with_nothing_to_show_opens_a_terminal() {
    let (mut state, _) = online(vec![], true);
    let actions = begin_restore(&mut state, ws("w1", "/proj"), vec![], vec![], false);
    assert_eq!(actions[4], HostAction::NewTerminal);
    assert_eq!(actions[5], HostAction::FinishRestore);
}

#[test]
fn restore_waits_for_its_editors() {
    let (mut state, _) = online(vec![], true);
    let actions = begin_restore(&mut state, ws("w1", "/proj"), vec![], vec![], true);
    assert!(!actions.contains(&HostAction::FinishRestore));
    assert!(state.restoring);
    note_editor_request(&mut state, "ed-1".into(), true);
    let opened = host_event_step(&mut state, HostEvent::EditorOpened { request_id: "ed-1".into() });
    assert_eq!(
        opened,
        vec![HostAction::OpenEditorTab { activate: true }, HostAction::FinishRestore]
    );
    assert!(!state.restoring);
}

#[test]
fn failed_shell_drops_its_title() {
    let (mut state, _) = online(vec![], true);
    begin_restore(&mut state, ws("w1", "/proj"), vec![], vec!["a".into(), "b".into()], false);
    let actions = host_event_step(
        &mut state,
        HostEvent::Error { code: "pty_open_failed".into(), message: "no shell".into() },
    );
    assert!(actions.is_empty());
    assert_eq!(state.pty_opens_pending, 1);
    assert_eq!(state.respawn_titles.len(), 1);
    assert_eq!(state.respawn_titles[0], "b");
    assert_eq!(state.status, "pty_open_failed: no shell");
}

#[test]
fn moved_root_resets_the_explorer_and_git() {
    let (mut state, _) = online(vec![ws("w1", "/old")], true);
    begin_restore(&mut state, ws("w1", "/old"), vec![], vec![], false);
    let actions =
        host_event_step(&mut state, HostEvent::WorkspaceRootSet { workspace: ws("w1", "/new") });
    assert_eq!(
        actions,
        vec![
            HostAction::ResetExplorer,
            HostAction::ListDir { path: "/new".into() },
            HostAction::ClearGitView,
            HostAction::CloseOpenDiffs,
            HostAction::RefreshGit,
        ]
    );
    assert_eq!(state.explorer_root, "/new");
    assert_eq!(state.status, "Workspace location changed to /new");
    assert_eq!(state.workspaces[0].root, "/new");
}

#[test]
fn moved_root_of_another_workspace_only_updates_the_list() {
    let (mut state, _) = online(vec![ws("w1", "/a"), ws("w2", "/b")], true);
    begin_restore(&mut state, ws("w1", "/a"), vec![], vec![], false);
    let actions =
        host_event_step(&mut state, HostEvent::WorkspaceRootSet { workspace: ws("w2", "/c") });
    assert!(actions.is_empty());
    assert_eq!(state.explorer_root, "/a");
    assert_eq!(state.workspaces[1].root, "/c");
}

#[test]
fn closing_the_shown_workspace_switches_to_the_focused_one() {
    let (mut state, _) = online(vec![ws("w1", "/a"), ws("w2", "/b")], true);
    begin_restore(&mut state, ws("w1", "/a"), vec![], vec![], false);
    let actions = host_event_step(
        &mut state,
        HostEvent::WorkspaceClosed { id: "w1".into(), focused_id: Some("w2".into()) },
    );
    assert_eq!(
        actions,
        vec![
            HostAction::ReleaseDock,
            HostAction::SwitchWorkspace { id: "w2".into(), from: None },
        ]
    );
    assert_eq!(state.workspaces.len(), 1);
    assert!(state.restoring);
    assert_eq!(state.active_workspace_id, None);
}

#[test]
fn created_workspace_is_switched_to_with_the_current_layout() {
    let (mut state, _) = online(vec![ws("w1", "/a")], true);
    begin_restore(&mut state, ws("w1", "/a"), vec![], vec![], false);
    let actions =
        host_event_step(&mut state, HostEvent::WorkspaceCreated { workspace: ws("w2", "/b") });
    assert_eq!(
        actions,
        vec![HostAction::SwitchWorkspace { id: "w2".into(), from: Some("w1".into()) }]
    );
    assert_eq!(state.workspaces.len(), 2);
}

#[test]
fn git_output_status_is_the_first_line_cut_to_180() {
    let (mut state, _) = online(vec![], false);
    let long = "x".repeat(200);
    let actions = host_event_step(
        &mut state,
        HostEvent::GitOp { ok: true, output: format!("\n   \n  {long}  \nmore") },
    );
    assert_eq!(actions, vec![HostAction::RefreshGit]);
    assert_eq!(state.status, format!("{}…", "x".repeat(180)));
    let actions =
        host_event_step(&mut state, HostEvent::GitOp { ok: false, output: " \n".into() });
    assert!(actions.is_empty());
    assert_eq!(state.status, "Git command failed");
    host_event_step(&mut state, HostEvent::GitOp { ok: true, output: String::new() });
    assert_eq!(state.status, "Git command finished");
}

#[test]
fn git_status_is_shown_only_for_the_awaited_request() {
    let (mut state, _) = online(vec![], false);
    assert!(request_git_status(&mut state, "git-1".into()));
    assert!(host_event_step(&mut state, HostEvent::GitStatus { request_id: "git-0".into() })
        .is_empty());
    let actions = host_event_step(&mut state, HostEvent::GitStatus { request_id: "git-1".into() });
    assert_eq!(actions, vec![HostAction::ApplyGitStatus]);
    assert_eq!(state.git_status_req, None);
}

#[test]
fn git_status_is_not_asked_for_offline() {
    let mut state = HostState::new();
    state.git_cap = true;
    assert!(!request_git_status(&mut state, "git-1".into()));
    assert_eq!(state.git_status_req, None);
}

#[test]
fn a_listing_in_flight_is_not_asked_for_twice() {
    let mut state = HostState::new();
    assert!(request_listing(&mut state, "ex-1".into(), "/p".into()));
    assert!(!request_listing(&mut state, "ex-2".into(), "/p".into()));
    assert_eq!(state.pending_lists.len(), 1);
}

#[test]
fn first_listing_sets_the_explorer_root() {
    let mut state = HostState::new();
    request_listing(&mut state, "ex-1".into(), String::new());
    let actions = host_event_step(
        &mut state,
        HostEvent::FsListed { request_id: "ex-1".into(), path: "/home/me".into(), entries: vec![] },
    );
    assert_eq!(
        actions,
        vec![
            HostAction::StoreListing { path: "/home/me".into(), entries: vec![] },
            HostAction::ClearScrollRestore,
        ]
    );
    assert_eq!(state.explorer_root, "/home/me");
    assert!(state.pending_lists.is_empty());
}

#[test]
fn binary_file_error_opens_the_viewer() {
    let (mut state, _) = online(vec![], false);
    note_editor_request(&mut state, "ed-7".into(), false);
    let actions = host_event_step(
        &mut state,
        HostEvent::Error { code: "binary_file".into(), message: "ed-7: binary file: /p/a.png".into() },
    );
    assert_eq!(
        actions,
        vec![HostAction::OpenBinary { path: "/p/a.png".into(), activate: false }]
    );
    assert!(state.pending_editors.is_empty());
    assert_eq!(state.status, "Binary file — not opened in the editor");
}

#[test]
fn rename_failure_names_the_detail() {
    let (mut state, _) = online(vec![], false);
    note_rename_request(&mut state, "rn-1".into(), "/p/a".into());
    let actions = host_event_step(
        &mut state,
        HostEvent::Error { code: "fs_rename_failed".into(), message: "rn-1: target exists".into() },
    );
    assert!(actions.is_empty());
    assert!(state.pending_renames.is_empty());
    assert_eq!(state.status, "Rename failed: target exists");
}

#[test]
fn format_failure_reaches_its_buffer() {
    let (mut state, _) = online(vec![], false);
    let actions = host_event_step(
        &mut state,
        HostEvent::Error {
            code: "buffer_format_failed".into(),
            message: "fmt-buf-3-12: rustfmt failed".into(),
        },
    );
    assert_eq!(
        actions,
        vec![HostAction::FormatError { buffer_id: "buf-3".into(), detail: "rustfmt failed".into() }]
    );
}

#[test]
fn listing_errors_do_not_end_a_restore() {
    let (mut state, _) = online(vec![], true);
    begin_restore(&mut state, ws("w1", "/p"), vec![], vec![], true);
    note_editor_request(&mut state, "ed-1".into(), true);
    host_event_step(
        &mut state,
        HostEvent::Error { code: "fs_list_failed".into(), message: "gone".into() },
    );
    assert!(state.restoring);
    host_event_step(&mut state, HostEvent::Error { code: "other".into(), message: "x".into() });
    assert!(!state.restoring);
    assert!(state.pending_editors.is_empty());
}

#[test]
fn git_failure_frees_the_git_view() {
    let (mut state, _) = online(vec![], false);
    state.git_busy = true;
    host_event_step(&mut state, HostEvent::Error { code: "git_failed".into(), message: "boom".into() });
    assert!(!state.git_busy);
    assert_eq!(state.status, "Git: boom");
}

#[test]
fn disconnect_names_the_reason() {
    let (mut state, _) = online(vec![], false);
    host_event_step(&mut state, HostEvent::Disconnected { reason: "closed".into() });
    assert_eq!(state.connection, Connection::Offline("closed".into()));
    assert_eq!(state.status, "Disconnected: closed");
    assert!(!request_git_status(&mut state, "git-9".into()));
}

#[test]
fn created_file_is_selected_opened_and_renamed() {
    let (mut state, _) = online(vec![], false);
    fresh_gui_app::host::note_create_request(&mut state, "cr-1".into());
    let entry = fresh_gui_app::listing::FsEntry {
        name: "new.txt".into(),
        path: "/p/new.txt".into(),
        kind: fresh_gui_app::listing::FsKind::File,
        size: None,
        target_kind: None,
    };
    let actions =
        host_event_step(&mut state, HostEvent::FsCreated { request_id: "cr-1".into(), entry });
    assert_eq!(
        actions,
        vec![
            HostAction::DropCachedDir { dir: "/p".into() },
            HostAction::ListDir { path: "/p".into() },
            HostAction::SelectPath { path: "/p/new.txt".into() },
            HostAction::OpenPath { path: "/p/new.txt".into() },
            HostAction::BeginRename { path: "/p/new.txt".into() },
        ]
    );
    assert_eq!(state.status, "Created new.txt");
    assert!(state.pending_creates.is_empty());
}

#[test]
fn event_loop_yields_every_eighth_event_when_busy() {
    let mut handled = 0;
    let mut yields = 0;
    for _ in 0..16 {
        let (next, yield_now) = count_handled_event(handled, true);
        handled = next;
        if yield_now {
            yields += 1;
        }
    }
    assert_eq!(yields, 2);
    assert_eq!(handled, 0);
    assert_eq!(count_handled_event(EVENTS_PER_TURN - 1, false), (0, false));
    assert_eq!(count_handled_event(3, true), (4, false));
}

fn file(path: &str) -> FsEntry {
    FsEntry {
        name: path.rsplit('/').next().unwrap().into(),
        path: path.into(),
        kind: FsKind::File,
        size: None,
        target_kind: None,
    }
}

#[test]
fn finished_move_relists_each_touched_folder_once() {
    let (mut state, _) = online(vec![], false);
    note_fs_request(
        &mut state,
        FsRequest {
            request_id: "mv-1".into(),
            sources: vec!["/b/y".into(), "/a/x".into()],
            destination: "/c".into(),
        },
    );
    let actions = host_event_step(
        &mut state,
        HostEvent::FsMoved { request_id: "mv-1".into(), entries: vec![file("/c/x"), file("/c/y")] },
    );
    assert_eq!(
        actions,
        vec![
            HostAction::DropCachedDir { dir: "/a".into() },
            HostAction::ListDir { path: "/a".into() },
            HostAction::DropCachedDir { dir: "/b".into() },
            HostAction::ListDir { path: "/b".into() },
            HostAction::DropCachedDir { dir: "/c".into() },
            HostAction::ListDir { path: "/c".into() },
            HostAction::SelectPaths { paths: vec!["/c/x".into(), "/c/y".into()] },
        ]
    );
    assert_eq!(state.status, "Moved 2 item(s)");
    assert!(state.pending_fs.is_empty());
}

#[test]
fn finished_copy_without_entries_only_counts() {
    let (mut state, _) = online(vec![], false);
    let actions =
        host_event_step(&mut state, HostEvent::FsCopied { request_id: "cp-9".into(), entries: vec![] });
    assert!(actions.is_empty());
    assert_eq!(state.status, "Copied 0 item(s)");
}

#[test]
fn an_error_forgets_moves_in_flight() {
    let (mut state, _) = online(vec![], false);
    note_fs_request(
        &mut state,
        FsRequest { request_id: "mv-1".into(), sources: vec!["/a/x".into()], destination: "/c".into() },
    );
    host_event_step(&mut state, HostEvent::Error { code: "fs_move_failed".into(), message: "no".into() });
    assert!(state.pending_fs.is_empty());
    assert_eq!(state.status, "fs_move_failed: no");
}
