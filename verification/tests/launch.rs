use fresh_gui_app::launch::{
    ad_hoc_remote_name, classify_launch, daemon_failure_message, daemon_file_name,
    daemon_start_args, dev_daemon_file_name, ensure_local_session, is_dev_host,
    launch_target_text, project_root, project_root_with_parent, session_json_text,
    started_session, status_session_text, DaemonSession, KnownRemote, LaunchError, LaunchTarget,
    SessionStep,
};
use fresh_gui_app::launch::{daemon_not_found_message, daemon_probes, unusable_daemon_message, DaemonProbe};

#[test]
fn no_args_is_local() {
    let launch = classify_launch(None, None, &[], None, Ok(())).unwrap();
    assert_eq!(launch, LaunchTarget::Local { root: None });
}

#[test]
fn root_flag_without_target_is_local() {
    let launch = classify_launch(None, Some("/work/app"), &[], None, Ok(())).unwrap();
    assert_eq!(launch, LaunchTarget::Local { root: Some("/work/app".into()) });
}

#[test]
fn user_at_host_is_adhoc_until_saved() {
    let launch = classify_launch(Some("ada@lab"), Some("/work"), &[], None, Ok(())).unwrap();
    assert_eq!(
        launch,
        LaunchTarget::AdHocRemote { destination: "ada@lab".into(), root: Some("/work".into()) }
    );
    let saved = [KnownRemote { name: "lab", destination: "ada@lab" }];
    let launch = classify_launch(Some("ada@lab"), None, &saved, None, Ok(())).unwrap();
    assert_eq!(launch, LaunchTarget::SavedRemote { name: "lab".into(), root_override: None });
}

#[test]
fn saved_name_and_existing_directory() {
    let saved = [KnownRemote { name: "lab-remote-f4aa", destination: "ada@lab" }];
    let launch = classify_launch(Some("lab-remote-f4aa"), None, &saved, None, Ok(())).unwrap();
    assert_eq!(
        launch,
        LaunchTarget::SavedRemote { name: "lab-remote-f4aa".into(), root_override: None }
    );
    let project = "/tmp/fresh-gui-launch/lab";
    let root = project_root(project, true);
    let launch = classify_launch(Some(project), None, &saved, Some(root.as_str()), Ok(())).unwrap();
    assert_eq!(launch, LaunchTarget::Local { root: Some(project.into()) });
}

#[test]
fn missing_word_is_not_an_ssh_alias() {
    let err = classify_launch(Some("not-a-real-project-f4aa"), None, &[], None, Ok(())).unwrap_err();
    let text = err.message();
    assert!(text.contains("not a project path"));
    assert!(text.contains("user@host"));
}

#[test]
fn file_argument_uses_parent_directory() {
    assert_eq!(project_root("/tmp/fresh-gui-launch/file-root/main.rs", false), "/tmp/fresh-gui-launch/file-root");
    assert_eq!(project_root("main.rs", false), ".");
    assert_eq!(project_root_with_parent("main.rs", false, Some("")), ".");
}

#[test]
fn ad_hoc_name_strips_at() {
    assert_eq!(ad_hoc_remote_name("ada@lab"), "ada-lab");
    assert_eq!(ad_hoc_remote_name(""), "remote");
    assert_eq!(ad_hoc_remote_name("me@host.example:22"), "me-host.example-22");
}

#[test]
fn start_args_omit_token() {
    assert_eq!(daemon_start_args(None), vec!["--json".to_string()]);
    let args = daemon_start_args(Some("/work"));
    assert_eq!(args, vec!["--json", "--root", "/work"]);
}

#[test]
fn existing_path_wins_and_root_flag_conflicts() {
    let saved = [KnownRemote { name: "proj", destination: "me@box" }];
    assert_eq!(
        classify_launch(Some("proj"), None, &saved, Some("/work/proj"), Ok(())).unwrap(),
        LaunchTarget::Local { root: Some("/work/proj".into()) }
    );
    assert_eq!(
        classify_launch(Some("proj"), Some("/other"), &saved, Some("/work/proj"), Ok(())).unwrap_err(),
        LaunchError::RootGivenTwice
    );
    assert_eq!(
        classify_launch(Some("me@box"), None, &saved, None, Ok(())).unwrap(),
        LaunchTarget::SavedRemote { name: "proj".into(), root_override: None }
    );
    assert_eq!(
        classify_launch(Some("./missing"), None, &[], None, Ok(())).unwrap_err(),
        LaunchError::MissingPath("./missing".into())
    );
    assert_eq!(
        classify_launch(Some("a@b"), None, &[], None, Err("bad host".into())).unwrap_err(),
        LaunchError::BadDestination("bad host".into())
    );
    assert_eq!(launch_target_text(Some("  x  ")), Some("x".into()));
    assert_eq!(launch_target_text(Some("   ")), None);
}

#[test]
fn session_steps_reuse_or_start() {
    let existing = DaemonSession {
        ws_url: "ws://127.0.0.1:7420/ws".into(),
        token: Some("t".into()),
        pid: 7,
        root: "/work".into(),
    };
    match ensure_local_session(Some("/work/app"), Some(existing.clone())) {
        SessionStep::Attach(s) => {
            assert_eq!(s.ws_url, existing.ws_url);
            assert_eq!(s.pid, 7);
            assert!(!s.started);
            assert_eq!(s.preferred_root.as_deref(), Some("/work/app"));
        }
        SessionStep::Start(_) => panic!("should attach"),
    }
    match ensure_local_session(Some("/work/app"), None) {
        SessionStep::Start(args) => assert_eq!(args, vec!["--json", "--root", "/work/app"]),
        SessionStep::Attach(_) => panic!("should start"),
    }
    let started = started_session(existing);
    assert!(started.started);
    assert!(started.preferred_root.is_none());
}

#[test]
fn daemon_output_and_names() {
    assert_eq!(session_json_text("  {\"a\":1}\n"), Ok("{\"a\":1}".to_string()));
    assert_eq!(session_json_text("  \n"), Err("daemon did not return session JSON".to_string()));
    assert_eq!(status_session_text(false, "{}"), None);
    assert_eq!(status_session_text(true, " "), None);
    assert_eq!(status_session_text(true, "{}"), Some("{}".to_string()));
    assert_eq!(daemon_failure_message("start", "exit status: 1", "  "), "start failed (exit exit status: 1)");
    assert_eq!(daemon_failure_message("start", "1", " boom \n"), "start failed (exit 1): boom");
    assert_eq!(daemon_file_name(false), "fresh-gui-daemon");
    assert_eq!(daemon_file_name(true), "fresh-gui-daemon.exe");
    assert_eq!(dev_daemon_file_name(false), "fresh-gui");
    assert!(is_dev_host(Some("fresh-gui-app")));
    assert!(!is_dev_host(Some("fresh-gui")));
    assert!(!is_dev_host(None));
}

#[test]
fn daemon_search_order_puts_the_sibling_first() {
    assert_eq!(
        daemon_probes(false, Some("fresh-gui"), true),
        vec![DaemonProbe::Sibling("fresh-gui-daemon"), DaemonProbe::OnPath("fresh-gui-daemon")]
    );
    assert_eq!(
        daemon_probes(false, Some("fresh-gui-app"), false),
        vec![DaemonProbe::Sibling("fresh-gui-daemon"), DaemonProbe::Sibling("fresh-gui")]
    );
    assert_eq!(
        daemon_probes(true, Some("fresh-gui-app.exe"), true),
        vec![
            DaemonProbe::Sibling("fresh-gui-daemon.exe"),
            DaemonProbe::Sibling("fresh-gui.exe"),
            DaemonProbe::OnPath("fresh-gui-daemon.exe"),
        ]
    );
    assert_eq!(daemon_probes(false, None, false), vec![DaemonProbe::Sibling("fresh-gui-daemon")]);
}

#[test]
fn daemon_errors_name_the_binary() {
    assert_eq!(
        unusable_daemon_message("/opt/x"),
        "FRESH_GUI_DAEMON=/opt/x is not a usable daemon binary"
    );
    let msg = daemon_not_found_message(false, "/usr/bin/fresh-gui");
    assert!(msg.starts_with("could not find the headless daemon (fresh-gui-daemon) next to /usr/bin/fresh-gui or on PATH.\n"));
    assert!(msg.ends_with("fresh-gui remote connect <name>"));
}

#[test]
fn file_arguments_open_their_parent_folder() {
    assert_eq!(project_root("/tmp/a.txt", false), "/tmp");
    assert_eq!(project_root("src/main.rs", false), "src");
    assert_eq!(project_root("/proj", true), "/proj");
    assert_eq!(project_root("/", false), ".");
}
