use fresh_gui_app::pointer::{
    pointer_step, wheel_action, PointerAction, PointerEvent, PointerState, WheelAction,
};
use fresh_gui_app::terminal::{MouseTracking, TermMouseButton, TermMouseMods, TermRow, TermSpan};

fn span(text: &str, cells: usize) -> TermSpan {
    TermSpan { text: text.into(), cells, fg: None, bg: None, bold: false, selected: false }
}

fn screen() -> Vec<TermRow> {
    // One span per glyph, blank runs merged, as the grid reports them.
    let mut spans: Vec<TermSpan> = "see".chars().map(|c| span(&c.to_string(), 1)).collect();
    spans.push(span(" ", 1));
    spans.extend("a/b.rs".chars().map(|c| span(&c.to_string(), 1)));
    spans.push(span("  ", 2));
    vec![TermRow { spans }]
}

fn plain() -> TermMouseMods {
    TermMouseMods::default()
}

fn shift() -> TermMouseMods {
    TermMouseMods { shift: true, ..TermMouseMods::default() }
}

#[test]
fn secondary_click_opens_the_row_under_the_pointer() {
    let rows = screen();
    let off = MouseTracking::new(false, false, false, false, false);
    let press = PointerEvent::Press {
        button: TermMouseButton::Left,
        cell: Some((5, 0)),
        mods: plain(),
        secondary: true,
    };
    let (state, action) = pointer_step(PointerState::new(), &press, off, &rows);
    assert_eq!(state, PointerState::new());
    assert_eq!(action, PointerAction::OpenLink { line: "see a/b.rs".into(), column: 5 });
}

#[test]
fn untracked_left_drag_selects_on_the_host() {
    let rows = screen();
    let off = MouseTracking::new(false, false, false, false, false);
    let press = PointerEvent::Press {
        button: TermMouseButton::Left,
        cell: Some((1, 0)),
        mods: plain(),
        secondary: false,
    };
    let (s1, a1) = pointer_step(PointerState::new(), &press, off, &rows);
    assert_eq!(a1, PointerAction::BeginSelection { col: 1, row: 0 });
    assert!(s1.selecting);
    let (s2, a2) = pointer_step(s1, &PointerEvent::Move { cell: Some((4, 0)), mods: plain() }, off, &rows);
    assert_eq!(a2, PointerAction::UpdateSelection { col: 4, row: 0 });
    let release = PointerEvent::Release { button: TermMouseButton::Left, cell: Some((4, 0)), mods: plain() };
    let (s3, a3) = pointer_step(s2, &release, off, &rows);
    assert_eq!(a3, PointerAction::FinishSelection);
    assert!(!s3.selecting);
}

#[test]
fn tracked_press_drag_and_release_are_reported() {
    let rows = screen();
    // 1002 button-motion tracking with SGR encoding.
    let drag = MouseTracking::new(false, true, false, true, false);
    let press = PointerEvent::Press {
        button: TermMouseButton::Left,
        cell: Some((2, 0)),
        mods: plain(),
        secondary: false,
    };
    let (s1, a1) = pointer_step(PointerState::new(), &press, drag, &rows);
    assert_eq!(a1, PointerAction::Report { clear_selection: true, bytes: Some(b"\x1b[<0;3;1M".to_vec()) });
    assert_eq!(s1.pressed, Some(TermMouseButton::Left));
    // The press cell is remembered, so moving within it reports nothing.
    let (s2, a2) = pointer_step(s1, &PointerEvent::Move { cell: Some((2, 0)), mods: plain() }, drag, &rows);
    assert_eq!(a2, PointerAction::Nothing);
    let (s3, a3) = pointer_step(s2, &PointerEvent::Move { cell: Some((3, 0)), mods: plain() }, drag, &rows);
    assert_eq!(a3, PointerAction::Report { clear_selection: false, bytes: Some(b"\x1b[<32;4;1M".to_vec()) });
    let (_, a4) = pointer_step(s3, &PointerEvent::Move { cell: Some((3, 0)), mods: plain() }, drag, &rows);
    assert_eq!(a4, PointerAction::Nothing);
    let release = PointerEvent::Release { button: TermMouseButton::Left, cell: Some((3, 0)), mods: plain() };
    let (s5, a5) = pointer_step(s3, &release, drag, &rows);
    assert_eq!(a5, PointerAction::Report { clear_selection: false, bytes: Some(b"\x1b[<0;4;1m".to_vec()) });
    assert_eq!(s5, PointerState::new());
}

#[test]
fn shift_overrides_tracking_for_selection() {
    let rows = screen();
    let clicks = MouseTracking::new(true, false, false, true, false);
    let press = PointerEvent::Press {
        button: TermMouseButton::Left,
        cell: Some((0, 0)),
        mods: shift(),
        secondary: false,
    };
    let (s1, a1) = pointer_step(PointerState::new(), &press, clicks, &rows);
    assert_eq!(a1, PointerAction::BeginSelection { col: 0, row: 0 });
    assert!(s1.selecting && s1.pressed.is_none());
    // Plain motion is not reported without 1003.
    let idle = PointerState::new();
    let (_, a2) = pointer_step(idle, &PointerEvent::Move { cell: Some((1, 0)), mods: plain() }, clicks, &rows);
    assert_eq!(a2, PointerAction::Nothing);
}

#[test]
fn wheel_reports_scrolls_or_sends_cursor_keys() {
    let sgr = MouseTracking::new(true, false, false, true, false);
    let off = MouseTracking::new(false, false, false, false, false);
    // Tracked: one report per rounded line, at least one, at most eight.
    assert_eq!(
        wheel_action(sgr, plain(), Some((9, 4)), false, false, true, 2),
        WheelAction::Write(b"\x1b[<64;10;5M\x1b[<64;10;5M".to_vec())
    );
    let many = wheel_action(sgr, plain(), Some((9, 4)), false, false, false, -30);
    match many {
        WheelAction::Write(bytes) => assert_eq!(bytes, b"\x1b[<65;10;5M".repeat(8)),
        other => panic!("unexpected {other:?}"),
    }
    assert_eq!(wheel_action(sgr, plain(), None, false, false, true, 1), WheelAction::Nothing);
    // Shift keeps the wheel for the host even while tracking.
    assert_eq!(wheel_action(sgr, shift(), Some((0, 0)), false, false, true, 3), WheelAction::ScrollBy(-3));
    // Alternate screen: cursor keys only when the program asked for them.
    assert_eq!(
        wheel_action(off, plain(), Some((0, 0)), true, true, true, 0),
        WheelAction::Write(b"\x1b[A".to_vec())
    );
    assert_eq!(
        wheel_action(off, plain(), Some((0, 0)), true, true, false, -2),
        WheelAction::Write(b"\x1b[B\x1b[B".to_vec())
    );
    assert_eq!(wheel_action(off, plain(), Some((0, 0)), true, false, true, 5), WheelAction::Nothing);
    // Primary screen: scroll history, older for an upward turn.
    assert_eq!(wheel_action(off, plain(), None, false, false, false, -4), WheelAction::ScrollBy(4));
    assert_eq!(wheel_action(off, plain(), None, false, false, true, 0), WheelAction::Nothing);
}
