use fresh_gui_app::client_config::{overlay_settings, overlay_ui_text, ui_overlay_from_text};
use serde_json::Value;

#[test]
fn local_ui_overrides_only_selected_daemon_fields() {
    let base = vec![
        ("theme".to_string(), Value::from("dark")),
        ("terminalFontSize".to_string(), Value::from(18)),
        ("editorLineWrap".to_string(), Value::from(false)),
    ];
    let local = vec![("theme".to_string(), Value::from("light"))];
    let ui = overlay_settings(base, local);
    let get = |key: &str| ui.iter().find(|(k, _)| k == key).map(|(_, v)| v.clone());
    assert_eq!(get("theme"), Some(Value::from("light")));
    assert_eq!(get("terminalFontSize"), Some(Value::from(18)));
    assert_eq!(get("editorLineWrap"), Some(Value::from(false)));
}

#[test]
fn new_local_settings_are_added_in_order() {
    let base = vec![("theme".to_string(), 1)];
    let local = vec![("zoom".to_string(), 2), ("theme".to_string(), 3), ("zoom".to_string(), 4)];
    assert_eq!(
        overlay_settings(base, local),
        vec![("theme".to_string(), 3), ("zoom".to_string(), 4)]
    );
}

#[test]
fn config_text_overlays_its_ui_object() {
    let base = vec![
        ("theme".to_string(), Value::from("dark")),
        ("terminalFontSize".to_string(), Value::from(18)),
    ];
    let text = "{\n  // local preferences\n  \"ui\": { \"theme\": \"light\", },\n}";
    let merged = overlay_ui_text(base.clone(), text).unwrap();
    assert_eq!(
        merged,
        vec![
            ("theme".to_string(), Value::from("light")),
            ("terminalFontSize".to_string(), Value::from(18)),
        ]
    );
    assert_eq!(overlay_ui_text(base.clone(), "{ \"other\": 1 }").unwrap(), base);
    assert_eq!(overlay_ui_text(base.clone(), "").unwrap(), base);
    assert!(overlay_ui_text(base.clone(), "{ \"ui\": ").is_err());
    assert!(ui_overlay_from_text("[1, 2").is_err());
    assert_eq!(ui_overlay_from_text("{}").unwrap(), None);
}
