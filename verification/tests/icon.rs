use fresh_gui_app::icon::{desktop_exec, install_user_desktop_entry};

#[test]
fn desktop_exec_quotes_paths_with_spaces() {
    assert_eq!(desktop_exec("/usr/bin/fresh-gui"), "/usr/bin/fresh-gui");
    assert_eq!(desktop_exec("/home/me/My Apps/fresh-gui"), "\"/home/me/My Apps/fresh-gui\"");
}

#[test]
fn desktop_exec_escapes_quotes_and_backslashes() {
    assert_eq!(desktop_exec(r#"/a "b"\c"#), r#""/a \"b\"\\c""#);
}

#[test]
fn desktop_entry_lands_in_the_data_dir() {
    let d = install_user_desktop_entry(Some("/x/data"), Some("/home/me"), Some("/opt/fresh gui/bin")).unwrap();
    assert_eq!(d.icon_dir, "/x/data/icons/hicolor/256x256/apps");
    assert_eq!(d.apps_dir, "/x/data/applications");
    assert_eq!(d.icon_path, "/x/data/icons/hicolor/256x256/apps/fresh-gui.png");
    assert_eq!(d.desktop_path, "/x/data/applications/fresh-gui.desktop");
    assert!(d.desktop_text.contains("Exec=\"/opt/fresh gui/bin\"\n"));
    assert!(d.desktop_text.contains("Icon=/x/data/icons/hicolor/256x256/apps/fresh-gui.png\n"));
    assert!(d.desktop_text.ends_with("StartupWMClass=fresh-gui\n"));
    let home = install_user_desktop_entry(Some(""), Some("/home/me/"), None).unwrap();
    assert_eq!(home.apps_dir, "/home/me/.local/share/applications");
    assert!(home.desktop_text.contains("Exec=fresh-gui\n"));
    assert!(install_user_desktop_entry(None, None, None).is_none());
}
