use fresh_gui_app::shortkeys::{
    resolve_shortkey, resolve_shortkeys, shortkey_action, shortkey_context, Binding, KeyContext,
    Shortkey, ShortkeyAction,
};

fn entry(keys: &str, action: &str, when: Option<&str>) -> Shortkey {
    Shortkey {
        shortkey: keys.to_string(),
        action: action.to_string(),
        when: when.map(|w| w.to_string()),
    }
}

#[test]
fn action_names_map_to_actions() {
    assert_eq!(shortkey_action("NewTerminal"), Some(ShortkeyAction::NewTerminal));
    assert_eq!(shortkey_action("QuitClient"), Some(ShortkeyAction::QuitClient));
    assert_eq!(shortkey_action("TerminalCopyOrInterrupt"), Some(ShortkeyAction::TerminalCopyOrInterrupt));
    assert_eq!(shortkey_action("ZoomInUi"), Some(ShortkeyAction::ZoomInUi));
    assert_eq!(shortkey_action("newterminal"), None);
    assert_eq!(shortkey_action("TerminalInputTab"), None);
    assert_eq!(shortkey_action(""), None);
}

#[test]
fn contexts_are_the_three_panels_or_none() {
    assert_eq!(shortkey_context(None), Some(None));
    assert_eq!(shortkey_context(Some("")), Some(None));
    assert_eq!(shortkey_context(Some("Explorer")), Some(Some(KeyContext::Explorer)));
    assert_eq!(shortkey_context(Some("Terminal")), Some(Some(KeyContext::Terminal)));
    assert_eq!(shortkey_context(Some("Editor")), Some(Some(KeyContext::Editor)));
    assert_eq!(shortkey_context(Some("Palette")), None);
}

#[test]
fn invalid_entries_are_dropped_in_order() {
    let entries = vec![
        entry("ctrl-t", "NewTerminal", None),
        entry("ctrl-q", "Unknown", None),
        entry("ctrl-c", "TerminalCopyOrInterrupt", Some("Terminal")),
        entry("ctrl-w", "CloseTab", Some("Sidebar")),
        entry("bad key", "SaveBuffer", None),
        entry("ctrl-s", "SaveBuffer", Some("")),
    ];
    let parsed = vec![true, true, true, true, false, true];
    let bindings = resolve_shortkeys(&entries, &parsed);
    assert_eq!(
        bindings,
        vec![
            Binding { keys: "ctrl-t".to_string(), action: ShortkeyAction::NewTerminal, context: None },
            Binding {
                keys: "ctrl-c".to_string(),
                action: ShortkeyAction::TerminalCopyOrInterrupt,
                context: Some(KeyContext::Terminal),
            },
            Binding { keys: "ctrl-s".to_string(), action: ShortkeyAction::SaveBuffer, context: None },
        ]
    );
}

#[test]
fn empty_list_removes_every_binding() {
    assert!(resolve_shortkeys(&[], &[]).is_empty());
    assert_eq!(resolve_shortkey(&entry("ctrl-n", "NewFile", Some("Editor")), false), None);
    assert_eq!(
        resolve_shortkey(&entry("ctrl-n", "NewFile", Some("Editor")), true),
        Some(Binding { keys: "ctrl-n".to_string(), action: ShortkeyAction::NewFile, context: Some(KeyContext::Editor) })
    );
}
