use fresh_gui_app::ade::reconnect_delay;
use fresh_gui_app::ade::create_workspace_request;

#[test]
fn reconnect_waits_two_seconds() {
    assert_eq!(reconnect_delay(), std::time::Duration::from_secs(2));
}

#[test]
fn blank_create_fields_are_left_to_the_daemon() {
    assert_eq!(create_workspace_request("  ".into(), " ", true), Ok((None, None)));
    assert_eq!(
        create_workspace_request(" api ".into(), "\"/srv/api\"", true),
        Ok((Some(" api ".to_string()), Some("/srv/api".to_string())))
    );
    assert_eq!(
        create_workspace_request("x".into(), r"srv\api", true),
        Ok((Some("x".to_string()), Some("srv/api".to_string())))
    );
    assert_eq!(
        create_workspace_request("x".into(), r"C:\work", false),
        Ok((Some("x".to_string()), Some(r"C:\work".to_string())))
    );
}

#[test]
fn a_unix_daemon_refuses_windows_roots() {
    assert_eq!(
        create_workspace_request("x".into(), r"C:\work", true),
        Err("This is a Windows path; the remote daemon is Linux. Use an absolute Unix path like /home/user/project".to_string())
    );
    assert_eq!(
        create_workspace_request("".into(), r"\work", true),
        Err("Use an absolute Unix path starting with /, such as /home/user/project".to_string())
    );
}
