use fresh_gui_app::osc7::{feed_osc7_chunk, parse_osc7};

#[test]
fn parses_file_url() {
    assert_eq!(
        parse_osc7("file://host/home/me/proj"),
        Some("/home/me/proj".into())
    );
}

#[test]
fn feeds_split_sequence() {
    let mut carry = String::new();
    assert!(feed_osc7_chunk(&mut carry, "\x1b]7;file://x/tmp/a").is_none());
    assert_eq!(
        feed_osc7_chunk(&mut carry, "bc\x07more"),
        Some("/tmp/abc".into())
    );
    assert!(carry.is_empty() || !carry.contains('\x07'));
}

#[test]
fn raw_paths_and_st_terminator() {
    assert_eq!(parse_osc7("  /tmp/a%20b "), Some("/tmp/a b".into()));
    assert_eq!(parse_osc7("relative"), None);
    let mut carry = String::new();
    assert_eq!(
        feed_osc7_chunk(&mut carry, "x\x1b]7;/one\x1b\\y\x1b]7;/two\x07"),
        Some("/two".into())
    );
    assert!(carry.is_empty());
}

#[test]
fn carry_window_cuts_at_a_character_boundary() {
    let mut carry = String::new();
    let wide = "€".repeat(200);
    assert_eq!(feed_osc7_chunk(&mut carry, &wide), None);
    assert!(carry.is_empty());
    // The opening survives when the window, moved to the next boundary,
    // still holds it.
    let mut carry = String::new();
    let chunk = format!("{}\x1b]7;file:///tmp/{}", "€".repeat(200), "€".repeat(100));
    assert_eq!(feed_osc7_chunk(&mut carry, &chunk), None);
    assert_eq!(carry, format!("\x1b]7;file:///tmp/{}", "€".repeat(100)));
    assert!(carry.len() <= 512);
    // A report that no longer fits is dropped, not split.
    let mut carry = String::new();
    let chunk = format!("\x1b]7;file:///tmp/{}", "€".repeat(200));
    assert_eq!(feed_osc7_chunk(&mut carry, &chunk), None);
    assert!(carry.is_empty());
}

#[test]
fn non_ascii_paths_come_back_as_utf8() {
    assert_eq!(parse_osc7("/tmp/é"), Some("/tmp/é".to_string()));
    assert_eq!(parse_osc7("file://h/tmp/%C3%A9"), Some("/tmp/é".to_string()));
    assert_eq!(parse_osc7("file://h/srv/%E7%95%8C/x"), Some("/srv/界/x".to_string()));
    // A stray byte that is not UTF-8 is replaced, not passed through.
    assert_eq!(parse_osc7("file://h/tmp/%FF"), Some("/tmp/\u{FFFD}".to_string()));
}

#[test]
fn report_split_across_chunks_matches_one_chunk() {
    let mut carry = String::new();
    assert_eq!(feed_osc7_chunk(&mut carry, "\x1b]7;file://h/home/m"), None);
    assert_eq!(carry, "\x1b]7;file://h/home/m");
    let split = feed_osc7_chunk(&mut carry, "é/proj\x07");
    assert!(carry.is_empty());
    let mut fresh = String::new();
    let whole = feed_osc7_chunk(&mut fresh, "\x1b]7;file://h/home/mé/proj\x07");
    assert_eq!(split, whole);
    assert_eq!(split, Some("/home/mé/proj".to_string()));
    // The carry never grows past the window and always opens a sequence.
    let mut carry = String::new();
    let _ = feed_osc7_chunk(&mut carry, &format!("{}\x1b]7;/x", "y".repeat(2000)));
    assert!(carry.len() <= 512 && carry.starts_with("\x1b]"));
}
