use fresh_gui_app::rail::{
    choose_shell_cwd, empty_workspace_name_hint, explorer_header_label, path_basename,
    show_workspace_rail, workspace_rail_hint, workspace_root_label, WORKSPACE_ROOT_LABEL_MAX,
};

#[test]
fn rail_width_stays_in_the_dense_sidebar_range() {
    assert!(WORKSPACE_ROOT_LABEL_MAX >= 24);
}

#[test]
fn empty_root_reads_as_the_daemon_default() {
    assert_eq!(workspace_root_label("", None), "Default root");
    assert_eq!(workspace_root_label("   ", Some("/home/me")), "Default root");
}

#[test]
fn verbatim_windows_paths_display_as_normal_paths() {
    assert_eq!(workspace_root_label(r"\\?\C:\Users\jondoe", None), r"C:\Users\jondoe");
    assert_eq!(
        workspace_root_label(r"\\?\C:\Users\me\proj", Some(r"C:\Users\me")),
        r"~\proj"
    );
    assert_eq!(
        workspace_root_label(r"\\?\C:\Users\me\proj", Some(r"\\?\C:\Users\me")),
        r"~\proj"
    );
    assert_eq!(explorer_header_label(r"\\?\C:\Users\jondoe"), "jondoe");
    assert_eq!(explorer_header_label(""), "Explorer");
    assert_eq!(
        empty_workspace_name_hint(r"\\?\C:\work\demo"),
        "Leave empty to use \"demo\"."
    );
}

#[test]
fn folds_home_and_leaves_sibling_prefixes_alone() {
    assert_eq!(workspace_root_label("/home/me/fresh-gui", Some("/home/me")), "~/fresh-gui");
    assert_eq!(workspace_root_label("/home/me/", Some("/home/me")), "~");
    assert_eq!(
        workspace_root_label("/home/me2/fresh-gui", Some("/home/me")),
        "/home/me2/fresh-gui"
    );
    assert_eq!(workspace_root_label(r"C:\Users\me\proj", Some(r"C:\Users\me")), r"~\proj");
}

#[test]
fn long_paths_keep_both_ends() {
    let path = format!("/home/me/{}", "a".repeat(40));
    let label = workspace_root_label(&path, Some("/home/me"));
    assert_eq!(label.chars().count(), WORKSPACE_ROOT_LABEL_MAX);
    assert!(label.starts_with("~/"));
    assert!(label.contains('…'));
    assert!(label.ends_with('a'));
}

#[test]
fn hint_only_when_there_is_nothing_to_switch() {
    assert_eq!(workspace_rail_hint(0), Some("No projects yet. + creates one."));
    assert_eq!(workspace_rail_hint(1), Some("One project open. + adds another."));
    assert_eq!(workspace_rail_hint(2), None);
    assert_eq!(workspace_rail_hint(6), None);
}

#[test]
fn rail_shows_for_a_session_root_without_the_workspace_capability() {
    assert!(show_workspace_rail(true, false, None));
    assert!(!show_workspace_rail(false, true, None));
    assert!(!show_workspace_rail(false, false, Some("/work/demo")));
    assert!(show_workspace_rail(false, true, Some("/work/demo")));
    assert!(!show_workspace_rail(false, true, Some("  ")));
}

#[test]
fn shell_cwd_uses_the_workspace_when_the_user_has_not_cd() {
    assert_eq!(
        choose_shell_cwd(Some("/tmp/elsewhere"), Some("/work/demo")),
        Some("/tmp/elsewhere".into())
    );
    assert_eq!(choose_shell_cwd(None, Some("/work/demo")), Some("/work/demo".into()));
    assert_eq!(choose_shell_cwd(Some("  "), Some("/work/demo")), Some("/work/demo".into()));
    assert_eq!(choose_shell_cwd(None, Some(" ")), None);
}

#[test]
fn empty_name_previews_the_daemon_basename() {
    assert_eq!(
        empty_workspace_name_hint("/work/fresh-gui"),
        "Leave empty to use \"fresh-gui\"."
    );
    assert_eq!(empty_workspace_name_hint(r"C:\work\demo\"), "Leave empty to use \"demo\".");
    assert_eq!(
        empty_workspace_name_hint("  "),
        "Leave empty to use the daemon project folder."
    );
}

#[test]
fn basename_takes_the_last_component() {
    assert_eq!(path_basename("/work/proj/"), Some("proj"));
    assert_eq!(path_basename(r"C:\work\demo"), Some("demo"));
    assert_eq!(path_basename("///"), None);
}

#[test]
fn root_label_never_exceeds_the_limit() {
    for root in ["/x", "/home/me/a/very/long/path/that/keeps/going/and/going/on", ""] {
        let label = workspace_root_label(root, Some("/home/me"));
        assert!(label.chars().count() <= WORKSPACE_ROOT_LABEL_MAX);
    }
}
