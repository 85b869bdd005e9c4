use fresh_gui_app::cli::{
    check_default_args, known_shutdown_window_error, no_ui_refusal, DefaultOpen,
    DEFAULT_LOG_FILTER,
};
use fresh_gui_app::launch::LaunchTarget;
use fresh_gui_app::cli::{choose_daemon_source, remote_list_line, DaemonChoice};

#[test]
fn shutdown_filter_matches_only_reported_window_errors() {
    assert!(known_shutdown_window_error("window not found"));
    assert!(known_shutdown_window_error("Invalid window handle (0x80040102)"));
    assert!(known_shutdown_window_error("Invalid window handle. (0x80070578)"));
    assert!(!known_shutdown_window_error("Invalid window handle (0x80070578)"));
    assert!(!known_shutdown_window_error("other error"));
}

#[test]
fn default_log_filter_quiets_gpui_but_keeps_ours() {
    let filter = tracing_subscriber::EnvFilter::try_new(DEFAULT_LOG_FILTER).unwrap();
    let text = filter.to_string();
    assert!(text.contains("gpui=warn"));
    assert!(text.starts_with("info") || text.contains(",info") || text.contains("info,"));
}

#[test]
fn quoted_shutdown_message_still_matches() {
    assert!(known_shutdown_window_error("\"window not found\""));
    assert!(known_shutdown_window_error("\"\"window not found\""));
    assert!(!known_shutdown_window_error(" window not found"));
    assert!(!known_shutdown_window_error(""));
}

#[test]
fn target_and_backend_exclude_each_other() {
    assert_eq!(
        check_default_args(true, true, false),
        Err("pass either TARGET or --backend".to_string())
    );
    assert_eq!(
        check_default_args(false, true, true),
        Err("--no-ui starts the local daemon and does not use --backend".to_string())
    );
    assert_eq!(check_default_args(false, true, false), Ok(DefaultOpen::Backend));
    assert_eq!(check_default_args(true, false, true), Ok(DefaultOpen::Launch));
    assert_eq!(check_default_args(false, false, false), Ok(DefaultOpen::Launch));
}

#[test]
fn no_ui_refuses_remote_targets_with_their_command() {
    let local = LaunchTarget::Local { root: Some("/work".to_string()) };
    assert_eq!(no_ui_refusal(&local), None);
    let saved = LaunchTarget::SavedRemote { name: "lab".to_string(), root_override: None };
    assert_eq!(
        no_ui_refusal(&saved).as_deref(),
        Some("--no-ui is the local daemon. Use `fresh-gui remote connect lab` to open a remote.")
    );
    let adhoc = LaunchTarget::AdHocRemote { destination: "ada@lab".to_string(), root: None };
    assert_eq!(
        no_ui_refusal(&adhoc).as_deref(),
        Some("--no-ui is the local daemon. Use `fresh-gui ada@lab` to open that host.")
    );
}

#[test]
fn remote_daemon_takes_exactly_one_source() {
    let exactly = Err("pass exactly one of --url, --path, or --github-latest".to_string());
    assert_eq!(choose_daemon_source(None, None, false), exactly);
    assert_eq!(choose_daemon_source(Some("u"), None, true), exactly);
    assert_eq!(choose_daemon_source(Some("u"), Some("p"), false), exactly);
    assert_eq!(choose_daemon_source(None, None, true), Ok(DaemonChoice::GithubLatest));
    assert_eq!(
        choose_daemon_source(Some(" https://x/y.tar.gz "), None, false),
        Ok(DaemonChoice::Url("https://x/y.tar.gz".to_string()))
    );
    assert_eq!(choose_daemon_source(Some("  "), None, false), Err("daemon URL is empty".to_string()));
    assert_eq!(choose_daemon_source(None, Some("/tmp/fg"), false), Ok(DaemonChoice::Path("/tmp/fg".to_string())));
}

#[test]
fn remote_list_lines_show_port_and_root() {
    assert_eq!(remote_list_line("lab", "ada@lab", None, None), "  lab  ada@lab");
    assert_eq!(
        remote_list_line("lab", "ada@lab", Some(2222), Some("/srv/app")),
        "  lab  ada@lab  port 2222  root /srv/app"
    );
}
