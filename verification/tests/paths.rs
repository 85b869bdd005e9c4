use fresh_gui_app::paths::{
    daemon_uses_unix_paths, display_path, display_paths, strip_verbatim_prefixes,
    workspace_root_for_daemon,
};
use fresh_gui_app::explorer::absolute_paths_text;

#[test]
fn strips_verbatim_disk_and_unc_prefixes() {
    assert_eq!(display_path(r"\\?\C:\Users\jondoe"), r"C:\Users\jondoe");
    assert_eq!(display_path(r"\\?\c:\work"), r"c:\work");
    assert_eq!(display_path(r"//?/D:/proj"), "D:/proj");
    assert_eq!(
        display_path(r"\\?\UNC\server\share\dir"),
        r"\\server\share\dir"
    );
    assert_eq!(display_path(r"//?/UNC/server/share"), r"\\server/share");
}

#[test]
fn leaves_ordinary_and_device_paths_alone() {
    assert_eq!(display_path(r"C:\Users\jondoe"), r"C:\Users\jondoe");
    assert_eq!(display_path("/home/me/proj"), "/home/me/proj");
    assert_eq!(display_path(""), "");
    assert_eq!(
        display_path(r"\\?\Volume{abc}\work"),
        r"\\?\Volume{abc}\work"
    );
    assert_eq!(display_path(r"\\server\share"), r"\\server\share");
}

#[test]
fn strips_prefixes_embedded_in_status_text() {
    assert_eq!(
        strip_verbatim_prefixes(r"pty_open_failed: \\?\C:\Users\jondoe"),
        r"pty_open_failed: C:\Users\jondoe"
    );
    assert_eq!(
        strip_verbatim_prefixes(r"root \\?\UNC\host\share is missing"),
        r"root \\host\share is missing"
    );
    assert_eq!(strip_verbatim_prefixes("Online"), "Online");
}

#[test]
fn unix_daemon_path_semantics_on_any_client() {
    assert!(daemon_uses_unix_paths(
        Some("/home/me/.config/fresh-gui/config.json"),
        &[]
    ));
    assert!(!daemon_uses_unix_paths(Some(r"C:\Users\me\config.json"), &[]));
    assert_eq!(
        workspace_root_for_daemon(" /home/me\\proj ", true).unwrap(),
        "/home/me/proj"
    );
    assert_eq!(
        workspace_root_for_daemon("/home/me/proj", true).unwrap(),
        "/home/me/proj"
    );
    assert!(workspace_root_for_daemon(r"C:\work\proj", true)
        .unwrap_err()
        .contains("Windows path"));
    assert!(workspace_root_for_daemon(r"\\server\share", true).is_err());
    assert!(workspace_root_for_daemon(r"\home\me", true).is_err());
}

#[test]
fn quotes_roots_and_windows_daemon() {
    assert_eq!(
        workspace_root_for_daemon("'/srv/app'", true).unwrap(),
        "/srv/app"
    );
    assert_eq!(
        workspace_root_for_daemon("\"C:\\w\"", false).unwrap(),
        "C:\\w"
    );
    assert!(daemon_uses_unix_paths(None, &["C:\\x", "/y"]));
    assert!(!daemon_uses_unix_paths(None, &[]));
    assert_eq!(
        workspace_root_for_daemon(r"\home", true).unwrap_err(),
        "Use an absolute Unix path starting with /, such as /home/user/project"
    );
}

#[test]
fn copied_paths_are_shown_without_verbatim_prefixes() {
    let paths = vec![r"\\?\C:\proj\a.rs".to_string(), " /srv/b.rs ".to_string()];
    let shown = display_paths(&paths);
    assert_eq!(shown, vec![r"C:\proj\a.rs".to_string(), "/srv/b.rs".to_string()]);
    assert_eq!(absolute_paths_text(&shown), "C:\\proj\\a.rs\n/srv/b.rs");
}
