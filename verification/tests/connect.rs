use fresh_gui_app::connect::{
    parse_connect_target, parse_goto_spec, plan_workspace_boot, roots_equal, BootAction,
    ConnectTarget, WorkspaceInfo,
};

#[test]
fn printed_http_url_becomes_ws_and_token() {
    let t = parse_connect_target("http://127.0.0.1:7420/?token=abc%2Fdef", None);
    assert_eq!(t.ws_url, "ws://127.0.0.1:7420/ws");
    assert_eq!(t.token.as_deref(), Some("abc/def"));
}

#[test]
fn explicit_token_wins_over_query() {
    let t = parse_connect_target("ws://127.0.0.1:7420/ws?token=fromurl", Some("cli".into()));
    assert_eq!(t.ws_url, "ws://127.0.0.1:7420/ws");
    assert_eq!(t.token.as_deref(), Some("cli"));
}

#[test]
fn host_port_defaults_to_ws_path() {
    let t = parse_connect_target("127.0.0.1:7420", None);
    assert_eq!(t.ws_url, "ws://127.0.0.1:7420/ws");
    assert!(t.preferred_root.is_none());
}

#[test]
fn preferred_root_switches_or_creates() {
    let workspaces = vec![WorkspaceInfo {
        id: "a".into(),
        name: "alpha".into(),
        root: "/work/alpha".into(),
        session_id: "s".into(),
        pty_count: 0,
        tab_count: 0,
    }];
    assert_eq!(
        plan_workspace_boot(&workspaces, Some("missing"), None),
        BootAction::Switch { id: "a".into() }
    );
    assert_eq!(
        plan_workspace_boot(&workspaces, Some("a"), Some("/work/alpha/")),
        BootAction::Switch { id: "a".into() }
    );
    assert_eq!(
        plan_workspace_boot(&workspaces, Some("a"), Some("/work/beta")),
        BootAction::Create {
            root: Some("/work/beta".into())
        }
    );
    assert_eq!(
        plan_workspace_boot(&[], None, None),
        BootAction::Create { root: None }
    );
}

#[test]
fn unix_roots_keep_case_even_on_windows_client() {
    assert!(!roots_equal("/Work/Project", "/work/project"));
    assert!(roots_equal(r"C:\Work\Project", "c:/work/project/"));
}

#[test]
fn host_port_has_no_token() {
    let t = parse_connect_target("127.0.0.1:7420", None);
    assert!(t.token.is_none());
}

#[test]
fn goto_spec_splits_line_and_column() {
    assert_eq!(
        parse_goto_spec("/tmp/a.rs:12:4"),
        ("/tmp/a.rs".into(), Some(12), Some(4))
    );
    assert_eq!(
        parse_goto_spec("src/main.rs:9"),
        ("src/main.rs".into(), Some(9), None)
    );
    assert_eq!(parse_goto_spec("README"), ("README".into(), None, None));
}

#[test]
fn https_and_plus_hex_and_last_token() {
    let t = parse_connect_target("  https://host:1/ws/?a=1&token=x&token=%+41#frag ", None);
    assert_eq!(t.ws_url, "wss://host:1/ws");
    assert_eq!(t.token.as_deref(), Some("\u{4}1"));
    let t = parse_connect_target("tcp://host", None);
    assert_eq!(t.ws_url, "tcp://host");
    let t = parse_connect_target("ws://h?token=", None);
    assert_eq!(t.ws_url, "ws://h/ws");
    assert!(t.token.is_none());
}

#[test]
fn goto_spec_overflow_and_empty() {
    assert_eq!(parse_goto_spec("   "), (String::new(), None, None));
    assert_eq!(
        parse_goto_spec("a:99999999999:3"),
        ("a".into(), None, Some(3))
    );
    assert_eq!(parse_goto_spec("a:x:3"), ("a:x".into(), Some(3), None));
}

#[test]
fn chrome_label_shows_destination() {
    let mut t = ConnectTarget {
        ws_url: "ws://127.0.0.1:9/ws".into(),
        token: None,
        label: Some("ada@lab".into()),
        preferred_root: None,
    };
    assert_eq!(t.chrome_label(), "ada@lab  ws://127.0.0.1:9/ws");
    t.label = Some(String::new());
    assert_eq!(t.chrome_label(), "ws://127.0.0.1:9/ws");
}

#[test]
fn focused_workspace_wins_when_listed() {
    let ws = |id: &str| WorkspaceInfo {
        id: id.into(),
        name: id.into(),
        root: format!("/w/{id}"),
        session_id: "s".into(),
        pty_count: 0,
        tab_count: 0,
    };
    let list = vec![ws("a"), ws("b")];
    assert_eq!(
        plan_workspace_boot(&list, Some("b"), Some("  ")),
        BootAction::Switch { id: "b".into() }
    );
}

#[test]
fn goto_line_and_column_read_back_exactly() {
    for p in ["src/main.rs", "/abs/a:b.rs", "C:\\work\\x.rs", ""] {
        assert_eq!(parse_goto_spec(p), (p.to_string(), None, None));
        for (l, c) in [(0u32, 0u32), (17, 3), (u32::MAX, 9)] {
            assert_eq!(parse_goto_spec(&format!("{p}:{l}")), (p.to_string(), Some(l), None));
            assert_eq!(parse_goto_spec(&format!("{p}:{l}:{c}")), (p.to_string(), Some(l), Some(c)));
        }
    }
}
