use std::collections::VecDeque;
use fresh_gui_app::restore::{WorkspaceTab, WorkspaceTabKind};
use fresh_gui_app::workspace::{
    can_restore_center, capture_center, close_workspace, complete_center, git_lookup_key, split_request_message,
    tab_key, LayoutNode, PaneTree,
};
use fresh_gui_app::workspace::{PtyBatch, PTY_BATCH_BYTES, PTY_BATCH_EVENTS};
use fresh_gui_app::connect::WorkspaceInfo;
use fresh_gui_app::workspace::{create_parent, shell_cwd, untitled_title, upsert_workspace, workspace_root};
use fresh_gui_app::workspace::{capture_layout, EditorTab, TerminalTab};
use fresh_gui_app::workspace::{note_active, rename_active_editor, ActiveSurface};
use fresh_gui_app::workspace::{follow_target, save_as_path, save_revision};

#[test]
fn restored_split_requires_each_tab_once() {
    let valid = LayoutNode::Split {
        axis: "horizontal".into(),
        children: vec![
            LayoutNode::Tabs { tabs: vec![0], active: 0 },
            LayoutNode::Tabs { tabs: vec![1], active: 0 },
        ],
    };
    assert!(complete_center(&valid, 2));
    assert!(!complete_center(&valid, 3));
    assert!(!complete_center(&LayoutNode::Tabs { tabs: vec![0, 0], active: 0 }, 2));
}

#[test]
fn nested_layouts_count_every_group() {
    let nested = LayoutNode::Split {
        axis: "vertical".into(),
        children: vec![
            LayoutNode::Tabs { tabs: vec![2, 0], active: 1 },
            LayoutNode::Split {
                axis: "horizontal".into(),
                children: vec![LayoutNode::Tabs { tabs: vec![1], active: 0 }],
            },
        ],
    };
    assert!(complete_center(&nested, 3));
    assert!(!complete_center(&nested, 2));
    assert!(!complete_center(&LayoutNode::Tabs { tabs: vec![0, 5], active: 0 }, 2));
    assert!(complete_center(&LayoutNode::Split { axis: "x".into(), children: vec![] }, 0));
}

#[test]
fn request_messages_split_into_id_and_path() {
    assert_eq!(
        split_request_message("req-7: /work/a.txt"),
        Some(("req-7".to_string(), "/work/a.txt".to_string()))
    );
    assert_eq!(
        split_request_message("req-7: binary file: /work/a.png "),
        Some(("req-7".to_string(), "/work/a.png".to_string()))
    );
    assert_eq!(
        split_request_message("req: a: b"),
        Some(("req".to_string(), "a: b".to_string()))
    );
    assert_eq!(split_request_message(": /work"), None);
    assert_eq!(split_request_message("req-7:   "), None);
    assert_eq!(split_request_message("no separator"), None);
    assert_eq!(split_request_message("req-7:/x"), None);
}

#[test]
fn git_rows_are_keyed_by_display_path() {
    assert_eq!(git_lookup_key("/work/Src/A.rs", false), "/work/Src/A.rs");
    assert_eq!(git_lookup_key(r"\\?\C:\Work\A.rs", true), r"c:\work\a.rs");
    assert_eq!(git_lookup_key(r"\\?\C:\Work\A.rs", false), r"C:\Work\A.rs");
}

#[test]
fn saved_tabs_are_keyed_by_pty_or_file() {
    let term = WorkspaceTab {
        kind: WorkspaceTabKind::Terminal,
        title: "1".into(),
        pty_id: Some("p1".into()),
        path: None,
    };
    assert_eq!(tab_key(&term).as_deref(), Some("pty:p1"));
    let editor = WorkspaceTab {
        kind: WorkspaceTabKind::Editor,
        title: "a.rs".into(),
        pty_id: Some("ignored".into()),
        path: Some("/w/a.rs".into()),
    };
    assert_eq!(tab_key(&editor).as_deref(), Some("file:/w/a.rs"));
    let broken = WorkspaceTab { kind: WorkspaceTabKind::Editor, title: "x".into(), pty_id: None, path: None };
    assert_eq!(tab_key(&broken), None);
}

/// Drive a batch the way the window's event loop does: take queued chunks
/// until the batch declines one (kept as `pending`) or is full.
fn coalesce(
    first: (&str, Vec<u8>),
    queue: &mut VecDeque<(String, Vec<u8>)>,
    pending: &mut Option<(String, Vec<u8>)>,
) -> (String, Vec<u8>) {
    let mut batch = PtyBatch::start(first.0.into(), first.1);
    while batch.wants_more() {
        let Some((id, bytes)) = queue.pop_front() else { break };
        if !batch.offer(&id, &bytes) {
            *pending = Some((id, bytes));
            break;
        }
    }
    batch.into_parts()
}

#[test]
fn batches_adjacent_bytes_but_keeps_event_barriers() {
    let mut queue: VecDeque<(String, Vec<u8>)> = VecDeque::new();
    queue.push_back(("a".into(), b"b".to_vec()));
    queue.push_back(("other".into(), b"c".to_vec()));
    queue.push_back(("a".into(), b"d".to_vec()));
    let mut pending = None;
    let first = coalesce(("a", b"a".to_vec()), &mut queue, &mut pending);
    assert_eq!(first, ("a".to_string(), b"ab".to_vec()));
    assert_eq!(pending.take(), Some(("other".to_string(), b"c".to_vec())));
    assert_eq!(queue.pop_front(), Some(("a".to_string(), b"d".to_vec())));
}

#[test]
fn batch_byte_cap_keeps_remainder_for_next_turn() {
    let mut queue: VecDeque<(String, Vec<u8>)> = VecDeque::new();
    queue.push_back(("a".into(), vec![2; PTY_BATCH_BYTES]));
    let mut pending = None;
    let first = coalesce(("a", vec![1]), &mut queue, &mut pending);
    assert_eq!(first.1, vec![1]);
    assert!(matches!(pending, Some((_, ref bytes)) if bytes.len() == PTY_BATCH_BYTES));
    let mut batch = PtyBatch::start("a".into(), vec![1]);
    assert!(batch.offer("a", &vec![2; PTY_BATCH_BYTES - 1]));
    assert_eq!(batch.into_parts().1.len(), PTY_BATCH_BYTES);
}

#[test]
fn ready_eight_kib_chunks_need_one_screen_update_per_128_kib() {
    let mut queue: VecDeque<(String, Vec<u8>)> = VecDeque::new();
    for _ in 1..16 {
        queue.push_back(("a".into(), vec![b'x'; 8192]));
    }
    let mut pending = None;
    let batch = coalesce(("a", vec![b'x'; 8192]), &mut queue, &mut pending);
    assert_eq!(batch.1.len(), PTY_BATCH_BYTES);
    assert!(pending.is_none());
    assert!(queue.is_empty());
}

#[test]
fn batch_stops_after_the_event_cap() {
    let mut batch = PtyBatch::start("a".into(), vec![]);
    let mut taken = 1;
    while batch.wants_more() {
        assert!(batch.offer("a", b"y"));
        taken += 1;
    }
    assert_eq!(taken, PTY_BATCH_EVENTS);
    assert_eq!(batch.into_parts().1.len(), PTY_BATCH_EVENTS - 1);
}

fn ws(id: &str, root: &str) -> WorkspaceInfo {
    WorkspaceInfo {
        id: id.into(),
        name: id.into(),
        root: root.into(),
        session_id: format!("s-{id}"),
        pty_count: 0,
        tab_count: 0,
    }
}

#[test]
fn untitled_titles_count_unsaved_editors() {
    assert_eq!(untitled_title(0), "Untitled");
    assert_eq!(untitled_title(1), "Untitled 2");
    assert_eq!(untitled_title(9), "Untitled 10");
}

#[test]
fn new_files_go_next_to_the_selection() {
    assert_eq!(create_parent("", Some("/w/a.rs"), false), None);
    assert_eq!(create_parent("/w", None, false).as_deref(), Some("/w"));
    assert_eq!(create_parent("/w", Some("/w/src"), true).as_deref(), Some("/w/src"));
    assert_eq!(create_parent("/w", Some("/w/src/a.rs"), false).as_deref(), Some("/w/src"));
    assert_eq!(create_parent("/w", Some("a.rs"), false).as_deref(), Some("/w"));
}

#[test]
fn shells_start_in_the_selected_folder_first() {
    assert_eq!(
        shell_cwd(Some("/w/src/a.rs"), false, Some("/t"), Some("/last"), Some("/root")).as_deref(),
        Some("/w/src")
    );
    assert_eq!(shell_cwd(None, false, Some("/t"), Some("/last"), Some("/root")).as_deref(), Some("/t"));
    assert_eq!(shell_cwd(None, false, None, Some("/last"), Some("/root")).as_deref(), Some("/last"));
    assert_eq!(shell_cwd(None, false, None, None, Some(" /root ")).as_deref(), Some("/root"));
    assert_eq!(shell_cwd(None, false, Some("  "), Some("/last"), Some("/root")).as_deref(), Some("/root"));
    assert_eq!(shell_cwd(None, false, None, None, None), None);
}

#[test]
fn workspace_root_prefers_the_focused_workspace() {
    let list = vec![ws("a", "/srv/a"), ws("b", "/srv/b")];
    assert_eq!(workspace_root(Some("b"), &list, "/explorer", Some("/pref")).as_deref(), Some("/srv/b"));
    assert_eq!(workspace_root(Some("zz"), &list, "/explorer", Some("/pref")).as_deref(), Some("/explorer"));
    assert_eq!(workspace_root(None, &list, "  ", Some("/pref")).as_deref(), Some("/pref"));
    assert_eq!(workspace_root(None, &list, "", None), None);
}

#[test]
fn upsert_replaces_by_id_or_appends() {
    let mut list = vec![ws("a", "/srv/a"), ws("b", "/srv/b")];
    upsert_workspace(&mut list, ws("b", "/srv/new"));
    assert_eq!(list.len(), 2);
    assert_eq!(list[1].root, "/srv/new");
    upsert_workspace(&mut list, ws("c", "/srv/c"));
    assert_eq!(list.len(), 3);
    assert_eq!(list[2].id, "c");
    assert_eq!(list[0].root, "/srv/a");
}

fn term(pty: &str, panel: u64, label: &str) -> TerminalTab {
    TerminalTab { pty_id: pty.into(), panel, label: label.into() }
}

fn ed(path: &str, panel: u64) -> EditorTab {
    EditorTab { path: path.into(), panel }
}

fn saved(kind: WorkspaceTabKind, title: &str, pty: Option<&str>, path: Option<&str>) -> WorkspaceTab {
    WorkspaceTab { kind, title: title.into(), pty_id: pty.map(String::from), path: path.map(String::from) }
}

#[test]
fn saved_layout_follows_the_dock_then_the_rest() {
    let order = vec![10, 20, 30, 40];
    let terminals = vec![term("p2", 11, "2"), term("p1", 10, "1")];
    let editors = vec![ed("/w/b.rs", 31), ed("/w/a.rs", 30), ed("untitled:x", 40), ed("/defaults.jsonc", 50)];
    let (tabs, active) = capture_layout(&order, &terminals, &editors, Some("/defaults.jsonc"), Some(30));
    assert_eq!(
        tabs,
        vec![
            saved(WorkspaceTabKind::Terminal, "1", Some("p1"), None),
            saved(WorkspaceTabKind::Editor, "a.rs", None, Some("/w/a.rs")),
            saved(WorkspaceTabKind::Terminal, "2", Some("p2"), None),
            saved(WorkspaceTabKind::Editor, "b.rs", None, Some("/w/b.rs")),
        ]
    );
    assert_eq!(active, 1);
    assert_eq!(tabs[active as usize].path.as_deref(), Some("/w/a.rs"));
    assert_eq!(capture_layout(&order, &terminals, &editors, Some("/defaults.jsonc"), Some(20)).1, 0);
    assert_eq!(capture_layout(&order, &terminals, &editors, Some("/defaults.jsonc"), None).1, 0);
}

#[test]
fn defaults_file_is_saved_only_without_a_defaults_key() {
    let editors = vec![ed("/defaults.jsonc", 50)];
    assert!(capture_layout(&[50], &[], &editors, Some("/defaults.jsonc"), Some(50)).0.is_empty());
    let (tabs, active) = capture_layout(&[50], &[], &editors, None, Some(50));
    assert_eq!(tabs, vec![saved(WorkspaceTabKind::Editor, "defaults.jsonc", None, Some("/defaults.jsonc"))]);
    assert_eq!(active, 0);
    let (tabs, _) = capture_layout(&[], &[term("p", 1, "1"), term("p", 2, "1b")], &[], None, None);
    assert_eq!(tabs.len(), 1);
}

#[test]
fn save_as_resolves_under_the_create_folder() {
    assert_eq!(save_as_path("  ", true, "/w"), Err("Path cannot be empty".to_string()));
    assert_eq!(save_as_path(" notes.md ", true, "/w/docs"), Ok("/w/docs/notes.md".to_string()));
    assert_eq!(save_as_path("/tmp/x.md", true, "/w/docs"), Ok("/tmp/x.md".to_string()));
    assert_eq!(
        save_as_path(r"C:\x.md", true, "/w"),
        Err("This is a Windows path; the remote daemon is Linux. Use an absolute Unix path like /home/user/project".to_string())
    );
}

#[test]
fn dirty_buffers_save_the_next_revision() {
    assert_eq!(save_revision(7, true), (true, 8));
    assert_eq!(save_revision(7, false), (false, 7));
}

#[test]
fn followed_folders_drop_trailing_separators() {
    assert_eq!(follow_target("/w/src/"), "/w/src");
    assert_eq!(follow_target("/"), "/");
    assert_eq!(follow_target("//"), "/");
    assert_eq!(follow_target(r"C:\"), r"C:\");
    assert_eq!(follow_target("C:/"), "C:/");
    assert_eq!(follow_target(r"C:\work\\"), r"C:\work");
    assert_eq!(follow_target(""), "/");
}

#[test]
fn saved_layout_lists_each_session_and_file_once() {
    let order = vec![3, 1, 2];
    let terminals = vec![term("p1", 1, "1"), term("p2", 9, "2")];
    let editors = vec![ed("/w/a.rs", 2), ed("/w/b.rs", 8), ed("/w/c.rs", 3)];
    let (tabs, _) = capture_layout(&order, &terminals, &editors, None, None);
    let mut keys: Vec<String> = tabs.iter().filter_map(tab_key).collect();
    let count = keys.len();
    keys.sort();
    keys.dedup();
    assert_eq!(keys.len(), count);
    assert_eq!(count, 5);
    assert_eq!(tabs[0].path.as_deref(), Some("/w/c.rs"));
    assert_eq!(tabs[1].pty_id.as_deref(), Some("p1"));
}

#[test]
fn captured_center_keeps_saved_panels_and_drops_empty_panes() {
    // Panels 10, 11, 12 are saved as tabs 0, 1, 2; panel 99 is not saved.
    let indices = [(10u64, 0u32), (11, 1), (12, 2)];
    let tree = PaneTree::Split {
        horizontal: true,
        children: vec![
            PaneTree::Tabs { panels: vec![10, 99, 11], active_ix: 2 },
            PaneTree::Tabs { panels: vec![99], active_ix: 0 },
            PaneTree::Split {
                horizontal: false,
                children: vec![PaneTree::Tabs { panels: vec![12], active_ix: 0 }],
            },
        ],
    };
    let saved = capture_center(&tree, &indices).unwrap();
    assert_eq!(
        saved,
        LayoutNode::Split {
            axis: "horizontal".into(),
            children: vec![
                LayoutNode::Tabs { tabs: vec![0, 1], active: 2 },
                LayoutNode::Split {
                    axis: "vertical".into(),
                    children: vec![LayoutNode::Tabs { tabs: vec![2], active: 0 }],
                },
            ],
        }
    );
    assert!(can_restore_center(&saved, 3));
    assert!(!can_restore_center(&saved, 2));
    assert_eq!(capture_center(&PaneTree::Tabs { panels: vec![99], active_ix: 0 }, &indices), None);
}

#[test]
fn restore_refuses_empty_groups_and_unknown_axes() {
    assert!(!can_restore_center(&LayoutNode::Tabs { tabs: vec![], active: 0 }, 4));
    assert!(!can_restore_center(&LayoutNode::Split { axis: "horizontal".into(), children: vec![] }, 4));
    let diagonal = LayoutNode::Split {
        axis: "diagonal".into(),
        children: vec![LayoutNode::Tabs { tabs: vec![0], active: 0 }],
    };
    assert!(!can_restore_center(&diagonal, 4));
    assert!(can_restore_center(&LayoutNode::Tabs { tabs: vec![3, 0], active: 9 }, 4));
}

#[test]
fn closing_the_active_workspace_moves_to_the_focused_or_first_one() {
    let mut list = vec![ws("a", "/a"), ws("b", "/b"), ws("c", "/c")];
    assert_eq!(close_workspace(&mut list, "b", None, Some("b")), Some("a".to_string()));
    assert_eq!(list.iter().map(|w| w.id.as_str()).collect::<Vec<_>>(), vec!["a", "c"]);

    let mut list = vec![ws("a", "/a"), ws("b", "/b"), ws("c", "/c")];
    assert_eq!(close_workspace(&mut list, "a", Some("c".into()), Some("a")), Some("c".to_string()));
    assert_eq!(list.len(), 2);

    // Closing a background workspace switches nowhere.
    let mut list = vec![ws("a", "/a"), ws("b", "/b")];
    assert_eq!(close_workspace(&mut list, "b", Some("a".into()), Some("a")), None);
    assert_eq!(list.len(), 1);

    let mut list = vec![ws("only", "/o")];
    assert_eq!(close_workspace(&mut list, "only", None, Some("only")), None);
    assert!(list.is_empty());
}

#[test]
fn active_surface_follows_activation_close_and_rename() {
    let mut active = None;
    note_active(&mut active, ActiveSurface::Terminal("p1".into()), true);
    assert_eq!(active, Some(ActiveSurface::Terminal("p1".into())));
    // Deactivating another surface, even one with the same key, keeps it.
    note_active(&mut active, ActiveSurface::Editor("p1".into()), false);
    assert_eq!(active, Some(ActiveSurface::Terminal("p1".into())));
    note_active(&mut active, ActiveSurface::Editor("/a.rs".into()), true);
    rename_active_editor(&mut active, "/a.rs", "/b.rs");
    assert_eq!(active, Some(ActiveSurface::Editor("/b.rs".into())));
    rename_active_editor(&mut active, "/other.rs", "/c.rs");
    assert_eq!(active, Some(ActiveSurface::Editor("/b.rs".into())));
    note_active(&mut active, ActiveSurface::Editor("/b.rs".into()), false);
    assert_eq!(active, None);
}
