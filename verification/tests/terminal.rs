use fresh_gui_app::terminal::{
    ansi16, cell_for_char_column, char_column_for_cell, char_range_cells, encode_mouse_bytes,
    indexed_color, key_to_bytes, line_text, line_text_and_char_column, viewport_cursor, terminal_key_action, TerminalKeyAction, keystroke_to_bytes, paste_payload, rgb_for_index, word_bounds_at_column,
    MouseProtocol, MouseTracking, TermMouseButton, TermMouseKind, TermMouseMods, TermRow,
    TermSpan,
};
use fresh_gui_app::terminal::{
    accepts_osc52_copy, named_default, resolve_color, CellColor, NAMED_BACKGROUND,
    NAMED_FOREGROUND, OSC52_MAX_BYTES,
};
use fresh_gui_app::terminal::{box_arms, is_procedural_cell};
use fresh_gui_app::terminal::{push_cell, row_spans, GridCell, Spacer};
use fresh_gui_app::terminal::{CursorShape, TermScreen};

fn span(text: &str, cells: usize) -> TermSpan {
    TermSpan { text: text.into(), cells, fg: None, bg: None, bold: false, selected: false }
}

#[test]
fn double_click_keeps_path_punctuation_together() {
    let line = "open ./src/my-file_2.rs:17 now";
    let col = line.find("my-file").unwrap();
    let (start, end) = word_bounds_at_column(line, col).unwrap();
    let selected: String = line.chars().skip(start).take(end - start).collect();
    assert_eq!(selected, "./src/my-file_2.rs:17");
}

#[test]
fn whitespace_and_punctuation_are_not_word_starts() {
    assert!(word_bounds_at_column("open now", 4).is_none());
    assert!(word_bounds_at_column("(x)", 0).is_none());
    assert!(word_bounds_at_column("x", 5).is_none());
}

#[test]
fn wide_glyph_spacer_maps_to_glyph_scalar() {
    let spans = [span("a", 1), span("界", 2), span("b", 1)];
    assert_eq!(char_column_for_cell(&spans, 0), 0);
    assert_eq!(char_column_for_cell(&spans, 1), 1);
    assert_eq!(char_column_for_cell(&spans, 2), 1);
    assert_eq!(char_column_for_cell(&spans, 3), 2);
}

#[test]
fn combining_scalars_do_not_shift_later_cells() {
    let spans = [span("e\u{301}", 1), span("x", 1)];
    assert_eq!(char_column_for_cell(&spans, 0), 0);
    assert_eq!(char_column_for_cell(&spans, 1), 2);
}

#[test]
fn scalar_ranges_map_back_to_cells() {
    let spans = [span("界\u{301}", 2), span("x", 1)];
    assert_eq!(cell_for_char_column(&spans, 0), Some(0));
    assert_eq!(cell_for_char_column(&spans, 1), Some(0));
    assert_eq!(cell_for_char_column(&spans, 2), Some(2));
    assert_eq!(cell_for_char_column(&spans, 3), None);
}

#[test]
fn blank_runs_map_one_cell_per_scalar() {
    let spans = [span("ab", 2), span("   ", 3), span("c", 1)];
    assert_eq!(char_column_for_cell(&spans, 3), 3);
    assert_eq!(cell_for_char_column(&spans, 4), Some(4));
}

#[test]
fn maps_ctrl_c_and_arrows() {
    assert_eq!(keystroke_to_bytes("c", None, true, false, false, false), Some(vec![0x03]));
    assert_eq!(keystroke_to_bytes("up", None, false, false, false, false), Some(b"\x1b[A".to_vec()));
    assert_eq!(keystroke_to_bytes("up", None, false, false, false, true), Some(b"\x1bOA".to_vec()));
    assert_eq!(keystroke_to_bytes("w", None, true, false, false, false), None);
    assert_eq!(keystroke_to_bytes("e", None, true, false, false, false), Some(vec![0x05]));
    assert_eq!(keystroke_to_bytes("f", None, true, false, false, false), Some(vec![0x06]));
    assert_eq!(keystroke_to_bytes("right", None, false, false, false, false), Some(b"\x1b[C".to_vec()));
    assert_eq!(
        keystroke_to_bytes("arrowright", None, false, false, false, false),
        Some(b"\x1b[C".to_vec())
    );
    assert_eq!(keystroke_to_bytes("right", None, true, false, false, false), Some(b"\x1b[1;5C".to_vec()));
    assert_eq!(keystroke_to_bytes("tab", None, false, false, false, false), Some(vec![b'\t']));
    assert_eq!(keystroke_to_bytes("v", None, true, false, false, false), None);
    assert_eq!(paste_payload("a\r\nb", false), b"a\nb".to_vec());
    assert_eq!(paste_payload("hi", true), b"\x1b[200~hi\x1b[201~".to_vec());
}

#[test]
fn keys_alt_shift_and_text() {
    assert_eq!(keystroke_to_bytes("ArrowLeft", None, false, true, false, false), Some(b"\x1b[1;3D".to_vec()));
    assert_eq!(keystroke_to_bytes("x", Some("x"), false, true, false, false), Some(b"\x1bx".to_vec()));
    assert_eq!(keystroke_to_bytes("a", None, false, false, true, false), Some(vec![b'A']));
    assert_eq!(keystroke_to_bytes("é", Some("é"), false, false, false, false), Some("é".as_bytes().to_vec()));
    assert_eq!(keystroke_to_bytes("Shift", None, false, false, true, false), None);
    assert_eq!(keystroke_to_bytes("home", None, false, false, false, true), Some(b"\x1bOH".to_vec()));
    assert_eq!(keystroke_to_bytes("enter", None, false, false, false, false), Some(vec![b'\r']));
    assert_eq!(keystroke_to_bytes("f5", None, false, false, false, false), None);
    assert_eq!(key_to_bytes("delete", None, false, false, false, false), Some(b"\x1b[3~".to_vec()));
}

#[test]
fn paste_drops_escape_and_normalizes_line_ends() {
    assert_eq!(paste_payload("a\rb\x1b[201~c", false), b"a\nb[201~c".to_vec());
    let bracketed = paste_payload("x\x1by", true);
    assert_eq!(bracketed, b"\x1b[200~xy\x1b[201~".to_vec());
    assert_eq!(bracketed.iter().filter(|b| **b == 0x1b).count(), 2);
}

#[test]
fn tracking_states_encode_press_drag_move_and_wheel() {
    let none = TermMouseMods::default();
    let off = MouseTracking::new(false, false, false, false, false);
    assert!(!off.active());
    assert!(off.encode(0, 0, TermMouseKind::Down(TermMouseButton::Left), none).is_none());

    let clicks = MouseTracking::new(true, false, false, false, false);
    assert!(clicks.active());
    assert!(!clicks.reports_drag());
    assert!(!clicks.reports_move());
    assert_eq!(
        clicks.encode(0, 0, TermMouseKind::Down(TermMouseButton::Left), none).as_deref(),
        Some(&b"\x1b[M !!"[..])
    );
    assert!(clicks.encode(1, 1, TermMouseKind::Drag(TermMouseButton::Left), none).is_none());
    assert!(clicks.encode(1, 1, TermMouseKind::Move, none).is_none());
    assert_eq!(
        clicks.encode(0, 0, TermMouseKind::ScrollDown, none).as_deref(),
        Some(&[0x1b, b'[', b'M', 65 + 32, 33, 33][..])
    );

    let sgr = MouseTracking::new(true, false, false, true, false);
    assert_eq!(
        sgr.encode(9, 4, TermMouseKind::Down(TermMouseButton::Left), none).as_deref(),
        Some(b"\x1b[<0;10;5M".as_slice())
    );
    assert_eq!(
        sgr.encode(9, 4, TermMouseKind::Up(TermMouseButton::Left), none).as_deref(),
        Some(b"\x1b[<0;10;5m".as_slice())
    );
    assert_eq!(
        sgr.encode(9, 4, TermMouseKind::ScrollUp, none).as_deref(),
        Some(b"\x1b[<64;10;5M".as_slice())
    );

    let drag = MouseTracking::new(false, true, false, true, false);
    assert!(drag.reports_drag());
    assert!(!drag.reports_move());
    assert_eq!(
        drag.encode(9, 4, TermMouseKind::Drag(TermMouseButton::Left), none).as_deref(),
        Some(b"\x1b[<32;10;5M".as_slice())
    );
    assert!(drag.encode(9, 4, TermMouseKind::Move, none).is_none());

    let motion = MouseTracking::new(false, false, true, true, false);
    assert!(motion.reports_move());
    assert_eq!(
        motion.encode(9, 4, TermMouseKind::Move, none).as_deref(),
        Some(b"\x1b[<35;10;5M".as_slice())
    );
    let shifted = motion.encode(
        9,
        4,
        TermMouseKind::Down(TermMouseButton::Right),
        TermMouseMods { shift: true, alt: false, control: true },
    );
    assert_eq!(shifted.as_deref(), Some(b"\x1b[<22;10;5M".as_slice()));
}

#[test]
fn utf8_tracking_encodes_wide_coordinates() {
    let utf8 = MouseTracking::new(true, false, false, false, true);
    let bytes = utf8
        .encode(200, 0, TermMouseKind::Down(TermMouseButton::Left), TermMouseMods::default())
        .unwrap();
    assert_eq!(bytes, b"\x1b[M \xc3\xa9!");
    assert_eq!(
        encode_mouse_bytes(MouseProtocol::Normal, 500, 0, TermMouseKind::Move, TermMouseMods::default()),
        vec![0x1b, b'[', b'M', 35 + 32, 255, 33]
    );
}

#[test]
fn sgr_release_only_changes_the_final_byte() {
    let sgr = MouseTracking::new(true, false, false, true, false);
    let down = sgr.encode(3, 3, TermMouseKind::Down(TermMouseButton::Middle), TermMouseMods::default()).unwrap();
    let up = sgr.encode(3, 3, TermMouseKind::Up(TermMouseButton::Middle), TermMouseMods::default()).unwrap();
    assert_eq!(down[..down.len() - 1], up[..up.len() - 1]);
    assert_eq!(*down.last().unwrap(), b'M');
    assert_eq!(*up.last().unwrap(), b'm');
}

#[test]
fn palette_entries() {
    assert_eq!(ansi16(0), [0x1e, 0x1e, 0x1e]);
    assert_eq!(indexed_color(232), [8, 8, 8]);
    assert_eq!(indexed_color(16), [0, 0, 0]);
    assert_eq!(indexed_color(231), [255, 255, 255]);
    assert_eq!(rgb_for_index(256), [0xe6, 0xe6, 0xe6]);
    assert_eq!(rgb_for_index(257), [0x1e, 0x1e, 0x1e]);
    assert_eq!(rgb_for_index(5), ansi16(5));
}

#[test]
fn osc52_copies_over_the_cap_are_dropped() {
    assert!(accepts_osc52_copy("hello"));
    assert!(accepts_osc52_copy(&"a".repeat(OSC52_MAX_BYTES)));
    assert!(!accepts_osc52_copy(&"a".repeat(OSC52_MAX_BYTES + 1)));
    assert!(!accepts_osc52_copy(&"é".repeat(OSC52_MAX_BYTES / 2 + 1)));
}

#[test]
fn cell_colors_resolve_through_the_palette() {
    assert_eq!(resolve_color(CellColor::Named(NAMED_FOREGROUND), Some([1, 2, 3]), true), None);
    assert_eq!(resolve_color(CellColor::Named(NAMED_BACKGROUND), None, false), None);
    assert_eq!(resolve_color(CellColor::Named(NAMED_FOREGROUND), None, false), None);
    assert_eq!(
        resolve_color(CellColor::Named(NAMED_BACKGROUND), Some([9, 9, 9]), true),
        Some([9, 9, 9])
    );
    assert_eq!(resolve_color(CellColor::Named(1), None, true), Some([0xf4, 0x47, 0x47]));
    assert_eq!(resolve_color(CellColor::Named(1), Some([0, 0, 1]), true), Some([0, 0, 1]));
    assert_eq!(resolve_color(CellColor::Spec([10, 20, 30]), Some([0, 0, 0]), true), Some([10, 20, 30]));
    assert_eq!(resolve_color(CellColor::Indexed(232), None, false), Some([8, 8, 8]));
    assert_eq!(resolve_color(CellColor::Indexed(21), None, false), Some([0, 0, 255]));
    assert_eq!(named_default(15), Some([0xff, 0xff, 0xff]));
    assert_eq!(named_default(258), None);
}

#[test]
fn box_characters_know_their_arms_and_weight() {
    assert_eq!(box_arms('─'), Some((0b1010, 0)));
    assert_eq!(box_arms('┃'), Some((0b0101, 1)));
    assert_eq!(box_arms('╔'), Some((0b0110, 2)));
    assert_eq!(box_arms('┼'), Some((0b1111, 0)));
    assert_eq!(box_arms('╋'), Some((0b1111, 1)));
    assert_eq!(box_arms('╽'), Some((0b0101, 0)));
    assert_eq!(box_arms('a'), None);
    assert!(is_procedural_cell('█'));
    assert!(is_procedural_cell('▀'));
    assert!(is_procedural_cell('╬'));
    assert!(!is_procedural_cell('x'));
    assert!(!is_procedural_cell('■'));
}

fn grid(c: char) -> GridCell {
    GridCell {
        c,
        zerowidth: vec![],
        fg: None,
        bg: None,
        hidden: false,
        inverse: false,
        bold: false,
        spacer: Spacer::No,
        selected: false,
    }
}

#[test]
fn glyphs_keep_their_grid_columns() {
    let mut wide_spacer = grid(' ');
    wide_spacer.spacer = Spacer::Wide;
    let mut selected = grid('b');
    selected.selected = true;
    let mut hidden = grid('x');
    hidden.hidden = true;
    let cells = vec![grid('a'), grid(' '), grid(' '), grid('漢'), wide_spacer, selected, hidden];
    let spans = row_spans(&cells);
    let shown: Vec<(&str, usize, bool)> = spans.iter().map(|s| (s.text.as_str(), s.cells, s.selected)).collect();
    assert_eq!(
        shown,
        vec![("a", 1, false), ("  ", 2, false), ("漢", 2, false), ("b", 1, true), (" ", 1, false)]
    );
    assert_eq!(spans.iter().map(|s| s.cells).sum::<usize>(), cells.len());
}

#[test]
fn inverse_cells_swap_colors_and_zero_width_marks_stay() {
    let mut inv = grid('z');
    inv.inverse = true;
    inv.fg = Some([1, 2, 3]);
    let mut spans = Vec::new();
    push_cell(&mut spans, &inv, false);
    assert_eq!(spans[0].fg, Some([0x1e, 0x1e, 0x1e]));
    assert_eq!(spans[0].bg, Some([1, 2, 3]));
    let mut accented = grid('e');
    accented.zerowidth = vec!['\u{301}'];
    push_cell(&mut spans, &accented, false);
    assert_eq!(spans[1].text, "e\u{301}");
    assert_eq!(spans[1].cells, 1);
    let mut leading = grid(' ');
    leading.spacer = Spacer::LeadingWide;
    leading.selected = true;
    assert_eq!(row_spans(&[leading])[0].selected, false);
}

fn viewport() -> Vec<TermRow> {
    vec![
        TermRow { spans: vec![span("$", 1), span(" ", 1), span("l", 1), span("s", 1), span("    ", 4)] },
        TermRow { spans: vec![span("a", 1), span("界", 2), span("b", 1), span("  ", 2)] },
        TermRow { spans: vec![span("        ", 8)] },
    ]
}

#[test]
fn line_text_trims_trailing_blanks_and_stops_past_last_row() {
    let rows = viewport();
    assert_eq!(line_text(&rows, 0).as_deref(), Some("$ ls"));
    assert_eq!(line_text(&rows, 1).as_deref(), Some("a界b"));
    assert_eq!(line_text(&rows, 2).as_deref(), Some(""));
    assert_eq!(line_text(&rows, 3), None);
}

#[test]
fn char_column_is_capped_at_trimmed_text() {
    let rows = viewport();
    assert_eq!(line_text_and_char_column(&rows, 1, 2), Some(("a界b".to_string(), 1)));
    assert_eq!(line_text_and_char_column(&rows, 1, 3), Some(("a界b".to_string(), 2)));
    // Cells in the trailing blank run map past the trimmed text.
    assert_eq!(line_text_and_char_column(&rows, 1, 5), Some(("a界b".to_string(), 3)));
    assert_eq!(line_text_and_char_column(&rows, 0, 6), Some(("$ ls".to_string(), 4)));
    assert_eq!(line_text_and_char_column(&rows, 9, 0), None);
}

#[test]
fn scalar_range_selects_the_cells_that_show_it() {
    let rows = viewport();
    // "界b" is scalars 1..3: its first cell is 1, "b" sits in cell 3.
    assert_eq!(char_range_cells(&rows, 1, 1, 3), Some((1, 3)));
    // Blank runs map one cell per scalar.
    assert_eq!(char_range_cells(&rows, 0, 4, 6), Some((4, 5)));
    assert_eq!(char_range_cells(&rows, 1, 2, 2), None);
    assert_eq!(char_range_cells(&rows, 1, 0, 9), None);
    assert_eq!(char_range_cells(&rows, 7, 0, 1), None);
}

#[test]
fn cursor_shows_only_inside_the_viewport() {
    assert_eq!(viewport_cursor(false, 3, 0, 5, 24, 80), Some((3, 5)));
    // Scrolled two lines into history: the live cursor moves down.
    assert_eq!(viewport_cursor(false, 3, 2, 5, 24, 80), Some((5, 5)));
    assert_eq!(viewport_cursor(false, 23, 1, 0, 24, 80), None);
    assert_eq!(viewport_cursor(false, -3, 2, 0, 24, 80), None);
    assert_eq!(viewport_cursor(false, 0, 0, 80, 24, 80), None);
    assert_eq!(viewport_cursor(true, 0, 0, 0, 24, 80), None);
}

#[test]
fn terminal_chords_copy_paste_scroll_and_fall_through() {
    // key, key_char, control, alt, shift, platform, has_selection, app_cursor
    assert_eq!(terminal_key_action("=", None, true, false, true, false, false, false), TerminalKeyAction::ZoomInUi);
    assert_eq!(terminal_key_action("c", Some("c"), true, false, false, false, true, false), TerminalKeyAction::CopySelection);
    // Without a selection Ctrl+C is the shell's interrupt.
    assert_eq!(terminal_key_action("c", Some("c"), true, false, false, false, false, false), TerminalKeyAction::Send(vec![3]));
    assert_eq!(terminal_key_action("C", Some("c"), false, false, false, true, true, false), TerminalKeyAction::CopySelection);
    assert_eq!(terminal_key_action("v", Some("v"), true, false, false, false, false, false), TerminalKeyAction::Paste);
    assert_eq!(terminal_key_action("insert", None, false, false, true, false, false, false), TerminalKeyAction::Paste);
    assert_ne!(terminal_key_action("v", Some("v"), true, true, false, false, false, false), TerminalKeyAction::Paste);
    assert_eq!(terminal_key_action("pageup", None, false, false, true, false, false, false), TerminalKeyAction::ScrollPage(true));
    assert_eq!(terminal_key_action("PageDown", None, false, false, true, false, false, false), TerminalKeyAction::ScrollPage(false));
    assert_eq!(terminal_key_action("a", Some("a"), false, false, false, false, false, false), TerminalKeyAction::Send(b"a".to_vec()));
    assert_eq!(terminal_key_action("shift", None, false, false, true, false, false, false), TerminalKeyAction::Ignore);
}

#[test]
fn prints_and_newlines() {
    let mut s = TermScreen::new(40, 8);
    s.feed(b"hello\r\nworld");
    let text = s.visible_text();
    assert!(text.contains("hello"), "{text}");
    assert!(text.contains("world"), "{text}");
}

#[test]
fn erase_below_keeps_earlier_lines() {
    let mut s = TermScreen::new(40, 8);
    s.feed(b"hello\r\nworld\x1b[0J");
    let text = s.visible_text();
    assert!(text.contains("hello"), "{text}");
    assert!(text.contains("world"), "{text}");
}

#[test]
fn strips_sgr() {
    let mut s = TermScreen::new(40, 4);
    s.feed(b"\x1b[31mred\x1b[0m");
    assert!(s.visible_text().contains("red"));
    assert!(!s.visible_text().contains("[31"));
}

#[test]
fn cursor_is_visible_after_text() {
    let mut s = TermScreen::new(80, 24);
    s.feed(b"ab");
    assert_eq!(s.cursor_cell(), Some((0, 2, CursorShape::Block)));
    s.feed(b"\x1b[D");
    assert_eq!(s.cursor_cell(), Some((0, 1, CursorShape::Block)));
    s.feed(b"\x1b[?25l");
    assert_eq!(s.cursor_cell(), None);
    s.feed(b"\x1b[?25h\x1b[5 q");
    assert_eq!(s.cursor_cell(), Some((0, 1, CursorShape::Beam)));
}

#[test]
fn cursor_stays_in_viewport_and_blank_cell_has_a_column() {
    let mut s = TermScreen::new(4, 2);
    assert_eq!(s.cursor_cell(), Some((0, 0, CursorShape::Block)));
    assert_eq!(s.rows()[0].spans[0].cells, 4);
    s.feed(b"one\r\ntwo\r\nthree");
    s.scroll_by(-1);
    assert_eq!(s.cursor_cell(), None);
}

#[test]
fn wide_glyph_uses_two_grid_columns_before_the_cursor() {
    let mut s = TermScreen::new(8, 2);
    s.feed("好x".as_bytes());
    assert_eq!(s.cursor_cell(), Some((0, 3, CursorShape::Block)));
    assert_eq!(s.rows()[0].spans.iter().map(|span| span.cells).sum::<usize>(), 8);
}

#[test]
fn stalled_synchronized_update_flushes_at_deadline() {
    let mut s = TermScreen::new(20, 3);
    s.feed(b"\x1b[?2026hhi\x1b[6n");
    assert!(s.sync_deadline().is_some());
    let start = std::time::Instant::now();
    while start.elapsed() < std::time::Duration::from_millis(170) {}
    let reply = s.stop_sync_if_expired();
    assert!(reply.windows(6).any(|w| w == *b"\x1b[1;3R"), "{reply:?}");
    assert!(s.visible_text().contains("hi"));
    assert!(s.sync_deadline().is_none());
}

#[test]
fn cursor_position_report_answers_conpty_dsr() {
    let mut s = TermScreen::new(80, 24);
    let reply = s.feed(b"\x1b[6n");
    assert!(reply.windows(6).any(|w| w == *b"\x1b[1;1R"), "reply {reply:?}");
    assert!(s.visible_text().trim().is_empty());

    s.feed(b"ab");
    let reply = s.feed(b"\x1b[6n");
    assert!(reply.windows(6).any(|w| w == *b"\x1b[1;3R"), "reply {reply:?}");
}

#[test]
fn device_attributes_get_a_reply() {
    let mut s = TermScreen::new(80, 24);
    let primary = s.feed(b"\x1b[c");
    assert!(primary.starts_with(b"\x1b["), "{primary:?}");
    assert!(primary.contains(&b'c'), "{primary:?}");
    let secondary = s.feed(b"\x1b[>c");
    assert!(secondary.starts_with(b"\x1b["), "{secondary:?}");
    assert!(s.visible_text().trim().is_empty());
}

#[test]
fn alternate_screen_restores_the_primary_buffer() {
    let mut s = TermScreen::new(20, 6);
    s.feed(b"primary");
    s.feed(b"\x1b[?1049h");
    s.feed(b"\x1b[2J\x1b[H");
    s.feed(b"altscreen");
    let alt = s.visible_text();
    assert!(alt.contains("altscreen"), "{alt}");
    assert!(!alt.contains("primary"), "{alt}");
    assert!(s.alt_screen());
    s.feed(b"\x1b[?1049l");
    let primary = s.visible_text();
    assert!(primary.contains("primary"), "{primary}");
    assert!(!primary.contains("altscreen"), "{primary}");
    assert!(!s.alt_screen());
}

#[test]
fn drag_selection_covers_the_cells_and_clears() {
    let mut s = TermScreen::new(40, 6);
    s.feed(b"hello world");
    s.begin_selection(0, 0);
    assert!(s.selection_is_empty());
    s.update_selection(4, 0);
    assert_eq!(s.selection_text().as_deref(), Some("hello"));
    assert!(
        s.rows()
            .iter()
            .flat_map(|row| row.spans.iter())
            .any(|span| span.selected && span.text.contains('h')),
        "selected cells should be marked"
    );
    s.clear_selection();
    assert!(s.selection_text().is_none());
    assert!(s.selection_is_empty());
}

#[test]
fn glyph_spans_preserve_grid_columns() {
    let mut screen = TermScreen::new(20, 2);
    screen.feed("a界b││".as_bytes());
    let row = &screen.rows()[0];
    let glyphs: Vec<_> = row.spans.iter().take(5).map(|span| (span.text.as_str(), span.cells)).collect();
    assert_eq!(glyphs, [("a", 1), ("界", 2), ("b", 1), ("│", 1), ("│", 1)]);
}

#[test]
fn osc52_copy_is_captured_and_paste_is_not_answered() {
    let mut s = TermScreen::new(40, 6);
    let reply = s.feed(b"\x1b]52;c;aGVsbG8=\x07");
    assert!(reply.is_empty(), "{reply:?}");
    assert_eq!(s.take_clipboard_stores(), vec!["hello".to_string()]);
    assert!(s.visible_text().trim().is_empty());

    let query = s.feed(b"\x1b]52;c;?\x07");
    assert!(query.is_empty(), "OSC 52 paste must not read the host clipboard: {query:?}");
    assert!(s.take_clipboard_stores().is_empty());
}

fn base64_encode(bytes: &[u8]) -> Vec<u8> {
    let table: &[u8] = b"ABCDEFGHIJKLMNOPQRSTUVWXYZabcdefghijklmnopqrstuvwxyz0123456789+/";
    let mut out = Vec::new();
    let mut i = 0;
    while i + 3 <= bytes.len() {
        let n = (u32::from(bytes[i]) << 16) | (u32::from(bytes[i + 1]) << 8) | u32::from(bytes[i + 2]);
        out.push(table[((n >> 18) & 63) as usize]);
        out.push(table[((n >> 12) & 63) as usize]);
        out.push(table[((n >> 6) & 63) as usize]);
        out.push(table[(n & 63) as usize]);
        i += 3;
    }
    if i < bytes.len() {
        let mut n = u32::from(bytes[i]) << 16;
        if i + 1 < bytes.len() {
            n |= u32::from(bytes[i + 1]) << 8;
        }
        out.push(table[((n >> 18) & 63) as usize]);
        out.push(table[((n >> 12) & 63) as usize]);
        if i + 1 < bytes.len() {
            out.push(table[((n >> 6) & 63) as usize]);
        } else {
            out.push(b'=');
        }
        out.push(b'=');
    }
    out
}

#[test]
fn osc52_copy_over_the_size_cap_is_dropped() {
    let mut s = TermScreen::new(20, 4);
    let raw = vec![b'a'; OSC52_MAX_BYTES + 1];
    let encoded = base64_encode(&raw);
    let mut seq = b"\x1b]52;c;".to_vec();
    seq.extend(encoded);
    seq.push(0x07);
    s.feed(&seq);
    assert!(s.take_clipboard_stores().is_empty());
}

fn report(screen: &TermScreen, col: usize, row: usize, kind: TermMouseKind) -> Option<Vec<u8>> {
    screen.mouse_tracking().encode(col, row, kind, TermMouseMods::default())
}

#[test]
fn mouse_modes_encode_press_drag_move_and_wheel() {
    let mut s = TermScreen::new(80, 24);
    assert!(!s.mouse_tracking().active());
    assert!(report(&s, 0, 0, TermMouseKind::Down(TermMouseButton::Left)).is_none());

    s.feed(b"\x1b[?1000h");
    let tracking = s.mouse_tracking();
    assert!(tracking.active());
    assert!(!tracking.reports_drag());
    assert!(!tracking.reports_move());
    assert_eq!(
        report(&s, 0, 0, TermMouseKind::Down(TermMouseButton::Left)).as_deref(),
        Some(&b"\x1b[M !!"[..])
    );
    assert!(report(&s, 1, 1, TermMouseKind::Drag(TermMouseButton::Left)).is_none());
    assert!(report(&s, 1, 1, TermMouseKind::Move).is_none());
    assert_eq!(
        report(&s, 0, 0, TermMouseKind::ScrollDown).as_deref(),
        Some(&[0x1b, b'[', b'M', 65 + 32, 33, 33][..])
    );

    s.feed(b"\x1b[?1006h");
    assert_eq!(
        report(&s, 9, 4, TermMouseKind::Down(TermMouseButton::Left)).as_deref(),
        Some(b"\x1b[<0;10;5M".as_slice())
    );
    assert_eq!(
        report(&s, 9, 4, TermMouseKind::Up(TermMouseButton::Left)).as_deref(),
        Some(b"\x1b[<0;10;5m".as_slice())
    );
    assert_eq!(
        report(&s, 9, 4, TermMouseKind::ScrollUp).as_deref(),
        Some(b"\x1b[<64;10;5M".as_slice())
    );

    s.feed(b"\x1b[?1002h");
    let tracking = s.mouse_tracking();
    assert!(tracking.reports_drag());
    assert!(!tracking.reports_move());
    assert_eq!(
        report(&s, 9, 4, TermMouseKind::Drag(TermMouseButton::Left)).as_deref(),
        Some(b"\x1b[<32;10;5M".as_slice())
    );
    assert!(report(&s, 9, 4, TermMouseKind::Move).is_none());

    s.feed(b"\x1b[?1003h");
    assert!(s.mouse_tracking().reports_move());
    assert_eq!(
        report(&s, 9, 4, TermMouseKind::Move).as_deref(),
        Some(b"\x1b[<35;10;5M".as_slice())
    );

    let shifted = s.mouse_tracking().encode(
        9,
        4,
        TermMouseKind::Down(TermMouseButton::Right),
        TermMouseMods { shift: true, alt: false, control: true },
    );
    assert_eq!(shifted.as_deref(), Some(b"\x1b[<22;10;5M".as_slice()));

    s.feed(b"\x1b[?1003l\x1b[?1006l");
    assert!(!s.mouse_tracking().active());
}

#[test]
fn utf8_mouse_encodes_wide_coordinates() {
    let mut s = TermScreen::new(250, 30);
    s.feed(b"\x1b[?1000h\x1b[?1005h");
    let bytes = report(&s, 200, 0, TermMouseKind::Down(TermMouseButton::Left)).unwrap();
    assert_eq!(bytes, b"\x1b[M \xc3\xa9!");
}

#[test]
fn screen_modes_resize_and_text_selection() {
    let d = TermScreen::default();
    assert_eq!((d.cols(), d.rows_count()), (80, 24));
    let mut s = TermScreen::new(0, 0);
    assert_eq!((s.cols(), s.rows_count()), (1, 1));
    s.resize(10, 3);
    assert_eq!((s.cols(), s.rows_count()), (10, 3));
    assert_eq!(s.rows().len(), 3);
    s.feed(b"\x1b[?1h\x1b[?2004h");
    assert!(s.app_cursor());
    assert!(s.bracketed_paste());
    s.feed("ab好c".as_bytes());
    assert_eq!(s.line_text(0).as_deref(), Some("ab好c"));
    assert_eq!(s.line_text(3), None);
    assert_eq!(s.line_text_and_char_column(0, 4), Some(("ab好c".to_string(), 3)));
    assert!(s.select_char_range(0, 1..3));
    assert_eq!(s.selection_text().as_deref(), Some("b好"));
    assert!(s.prepare_for_input());
    assert!(!s.prepare_for_input());
    assert!(!s.select_char_range(0, 2..2));
    assert_eq!(fresh_gui_app::terminal::scroll_delta(-3), 3);
    assert_eq!(fresh_gui_app::terminal::scroll_delta(i32::MIN), i32::MAX);
}
