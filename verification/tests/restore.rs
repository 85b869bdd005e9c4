use fresh_gui_app::restore::{restore_plan, RestoreStep, WorkspaceTab, WorkspaceTabKind};

fn term(title: &str, pty: &str) -> WorkspaceTab {
    WorkspaceTab {
        kind: WorkspaceTabKind::Terminal,
        title: title.into(),
        pty_id: Some(pty.into()),
        path: None,
    }
}

fn editor(path: &str) -> WorkspaceTab {
    WorkspaceTab { kind: WorkspaceTabKind::Editor, title: "f".into(), pty_id: None, path: Some(path.into()) }
}

#[test]
fn live_terminals_reattach_and_dead_ones_respawn_with_their_title() {
    let plan = restore_plan(vec![term("1", "live"), term("build", "gone"), editor("/p/a.rs")], 2, &["live".into()]);
    assert_eq!(
        plan.steps,
        vec![
            RestoreStep::Attach { pty_id: "live".into(), title: "1".into() },
            RestoreStep::Respawn { title: "build".into() },
            RestoreStep::Editor { path: "/p/a.rs".into(), activate: true },
        ]
    );
    assert_eq!(plan.focus_pty, None);
    assert!(plan.orphans.is_empty());
}

#[test]
fn active_terminal_is_focused_even_after_an_earlier_editor() {
    let plan = restore_plan(vec![editor("/p/a.rs"), term("1", "p1"), term("2", "p2")], 2, &["p1".into(), "p2".into()]);
    assert_eq!(plan.focus_pty.as_deref(), Some("p2"));
    assert!(plan.steps.contains(&RestoreStep::Editor { path: "/p/a.rs".into(), activate: false }));
}

#[test]
fn duplicate_tabs_attach_once_and_untracked_ptys_are_kept() {
    let plan = restore_plan(vec![term("1", "p1"), term("1 again", "p1")], 0, &["p1".into(), "stray".into()]);
    assert_eq!(plan.steps.len(), 1);
    assert_eq!(plan.orphans, vec!["stray".to_string()]);
}

#[test]
fn every_live_pty_is_attached_or_orphaned_once() {
    let live: Vec<String> = vec!["a".into(), "b".into(), "c".into(), "b".into()];
    let tabs = vec![term("x", "b"), term("y", "zz"), term("z", "b"), editor("/f"), term("w", "a")];
    let plan = restore_plan(tabs, 4, &live);
    let attached: Vec<String> = plan
        .steps
        .iter()
        .filter_map(|s| match s {
            RestoreStep::Attach { pty_id, .. } => Some(pty_id.clone()),
            _ => None,
        })
        .collect();
    assert_eq!(attached, vec!["b".to_string(), "a".to_string()]);
    assert_eq!(plan.orphans, vec!["c".to_string()]);
    assert_eq!(plan.focus_pty.as_deref(), Some("a"));
}
