use fresh_gui_app::panels::{
    binary_label, diff_label, editor_label, status_summary, tab_close_availability, tab_menu_items,
    TabMenuAction, TabMenuItem,
};
use fresh_gui_app::tab_chrome::{panels_for_close_scope, TabCloseScope};

#[test]
fn editor_tabs_show_the_file_name_and_a_dirty_mark() {
    assert_eq!(editor_label(false, None, "/work/src/main.rs", false), "main.rs");
    assert_eq!(editor_label(false, None, "/work/src/main.rs", true), "• main.rs");
    assert_eq!(editor_label(true, Some("Untitled 2"), "", true), "• Untitled 2");
    assert_eq!(editor_label(true, None, "", false), "Untitled");
    assert_eq!(editor_label(false, None, r"\\?\C:\work\a.txt", false), "a.txt");
    assert_eq!(editor_label(false, None, "/", false), "/");
}

#[test]
fn diff_tabs_mark_previews() {
    assert_eq!(diff_label("/work/src/lib.rs", "src/lib.rs", true), "lib.rs");
    assert_eq!(diff_label("/work/src/lib.rs", "src/lib.rs", false), "lib.rs (preview)");
    assert_eq!(diff_label("", "src/lib.rs", false), "src/lib.rs (preview)");
    assert_eq!(binary_label("/work/logo.png"), "logo.png");
    assert_eq!(binary_label(""), "binary");
}

#[test]
fn status_summary_counts_problems() {
    assert_eq!(status_summary(0, None), "0 problems");
    assert_eq!(status_summary(3, Some("rust-analyzer ready")), "3 problems · rust-analyzer ready");
}

#[test]
fn close_commands_are_offered_when_they_close_something() {
    let order: Vec<String> = vec!["a".into(), "b".into(), "c".into()];
    for target in ["a", "b", "c", "zz"] {
        let (others, right) = tab_close_availability(&order, target);
        assert_eq!(others, !panels_for_close_scope(&order, target, TabCloseScope::Others).is_empty());
        assert_eq!(right, !panels_for_close_scope(&order, target, TabCloseScope::ToTheRight).is_empty());
    }
    assert_eq!(tab_close_availability(&order, "b"), (true, true));
    assert_eq!(tab_close_availability(&order, "c"), (true, false));
    assert_eq!(tab_close_availability(&["only".to_string()], "only"), (false, false));
}

#[test]
fn tab_menu_lists_close_commands_in_order() {
    let menu = tab_menu_items(true, Some(false), true, false);
    let labels: Vec<&str> = menu.iter().map(|item| item.label.as_str()).collect();
    assert_eq!(
        labels,
        vec![
            "Close",
            "Pin Tab",
            "Close Others",
            "Close to the Right",
            "Close All Editors",
            "Close All Terminals",
            "Close All Other Terminals",
            "Close All Other Tabs",
        ]
    );
    assert_eq!(
        menu[3],
        TabMenuItem { action: TabMenuAction::CloseToTheRight, label: "Close to the Right".into(), enabled: false }
    );
    let bare = tab_menu_items(false, None, false, true);
    assert_eq!(bare.len(), 6);
    assert_eq!(bare[0].action, TabMenuAction::CloseOthers);
    assert!(!bare[0].enabled);
    assert_eq!(tab_menu_items(false, Some(true), true, true)[0].label, "Unpin Tab");
}
