//! Pointer handling of a terminal pane: what a press, release or move does
//! given the selection in progress, the button held and the mouse modes the
//! program in the PTY asked for. The pane performs the resulting action.

use vstd::prelude::*;

use crate::terminal::{
    char_column_from, line_text_and_char_column, mouse_bytes_spec, shown_line, total_cells,
    total_chars, MouseTracking, TermMouseButton, TermMouseKind, TermMouseMods, TermRow,
};

verus! {

/// What the pane remembers between pointer events.
#[derive(Clone, Copy, Debug, PartialEq, Eq)]
pub struct PointerState {
    /// The button whose press was reported to the program, if any.
    pub pressed: Option<TermMouseButton>,
    /// A host-side text selection is being dragged.
    pub selecting: bool,
    /// The cell of the last reported motion, to report each cell once.
    pub last_mouse_cell: Option<(usize, usize)>,
}

impl PointerState {
    /// Nothing pressed, nothing selected.
    pub fn new() -> (r: Self)
        ensures
            r == (PointerState { pressed: None, selecting: false, last_mouse_cell: None }),
    {
        PointerState { pressed: None, selecting: false, last_mouse_cell: None }
    }
}

/// A pointer event over the pane. `cell` is the grid cell `(column, row)`
/// under the pointer, `None` outside the grid; `secondary` is the platform's
/// link modifier (Cmd or Ctrl).
pub enum PointerEvent {
    Press { button: TermMouseButton, cell: Option<(usize, usize)>, mods: TermMouseMods, secondary: bool },
    Release { button: TermMouseButton, cell: Option<(usize, usize)>, mods: TermMouseMods },
    Move { cell: Option<(usize, usize)>, mods: TermMouseMods },
}

/// What the pane does in answer.
#[derive(Debug, PartialEq, Eq)]
pub enum PointerAction {
    Nothing,
    /// Open the path or URL under the pointer: the row text and the scalar
    /// column clicked.
    OpenLink { line: String, column: u32 },
    BeginSelection { col: usize, row: usize },
    UpdateSelection { col: usize, row: usize },
    /// Copy the selection, or drop it when it is empty.
    FinishSelection,
    /// Optionally clear the host selection, and write a mouse report to the
    /// PTY when there is one.
    Report { clear_selection: bool, bytes: Option<Vec<u8>> },
}

pub enum ActionView {
    Nothing,
    OpenLink { line: Seq<char>, column: u32 },
    BeginSelection { col: usize, row: usize },
    UpdateSelection { col: usize, row: usize },
    FinishSelection,
    Report { clear_selection: bool, bytes: Option<Seq<u8>> },
}

impl View for PointerAction {
    type V = ActionView;

    open spec fn view(&self) -> ActionView {
        match self {
            PointerAction::Nothing => ActionView::Nothing,
            PointerAction::OpenLink { line, column } => ActionView::OpenLink { line: line@, column: *column },
            PointerAction::BeginSelection { col, row } => ActionView::BeginSelection { col: *col, row: *row },
            PointerAction::UpdateSelection { col, row } => ActionView::UpdateSelection { col: *col, row: *row },
            PointerAction::FinishSelection => ActionView::FinishSelection,
            PointerAction::Report { clear_selection, bytes } => ActionView::Report {
                clear_selection: *clear_selection,
                bytes: match bytes {
                    Some(b) => Some(b@),
                    None => None,
                },
            },
        }
    }
}

/// The report for `kind` at a cell, when the tracking modes want one.
pub open spec fn report_spec(
    tracking: MouseTracking,
    col: usize,
    row: usize,
    kind: TermMouseKind,
    mods: TermMouseMods,
) -> Option<Seq<u8>> {
    if !tracking.active_spec() || (kind is Move && !tracking.motion_spec()) || (kind is Drag
        && !(tracking.drag_spec() || tracking.motion_spec())) {
        None
    } else {
        Some(mouse_bytes_spec(tracking.protocol_spec(), col, row, kind, mods))
    }
}

/// The report for `kind` under the pointer; none outside the grid.
pub open spec fn report_at(
    tracking: MouseTracking,
    cell: Option<(usize, usize)>,
    kind: TermMouseKind,
    mods: TermMouseMods,
) -> Option<Seq<u8>> {
    match cell {
        Some((col, row)) => report_spec(tracking, col, row, kind, mods),
        None => None,
    }
}

/// Every row's cell and scalar counts fit in a `usize`.
pub open spec fn rows_fit(rows: Seq<TermRow>) -> bool {
    forall|i: int|
        0 <= i < rows.len() ==> total_cells(#[trigger] rows[i].spans@) <= usize::MAX && total_chars(
            rows[i].spans@,
        ) <= usize::MAX
}

/// The host selects with the left button when Shift is held or the
/// program tracks no mouse events.
pub open spec fn host_selects(button: TermMouseButton, mods: TermMouseMods, tracking: MouseTracking) -> bool {
    button is Left && (mods.shift || !tracking.active_spec())
}

/// A link click: the secondary modifier with the left button, no Shift, on a
/// cell of an existing row.
pub open spec fn link_click(
    button: TermMouseButton,
    cell: Option<(usize, usize)>,
    mods: TermMouseMods,
    secondary: bool,
    rows: Seq<TermRow>,
) -> bool {
    &&& button is Left
    &&& secondary
    &&& !mods.shift
    &&& cell matches Some((col, row)) && row < rows.len()
}

/// The scalar column a link click lands on, capped at the row's text.
pub open spec fn link_column(spans: Seq<crate::terminal::TermSpan>, col: usize) -> int {
    let c = char_column_from(spans, col as int, 0, 0);
    let n = shown_line(spans).len() as int;
    if c < n {
        c
    } else {
        n
    }
}

/// Next state and action for one pointer event.
pub open spec fn pointer_step_spec(
    state: PointerState,
    event: PointerEvent,
    tracking: MouseTracking,
    rows: Seq<TermRow>,
) -> (PointerState, ActionView) {
    match event {
        PointerEvent::Press { button, cell, mods, secondary } => {
            if link_click(button, cell, mods, secondary, rows) {
                let (col, row) = cell->0;
                let spans = rows[row as int].spans@;
                (
                    state,
                    ActionView::OpenLink {
                        line: shown_line(spans),
                        column: link_column(spans, col) as u32,
                    },
                )
            } else if host_selects(button, mods, tracking) {
                match cell {
                    Some((col, row)) => (
                        PointerState { pressed: None, selecting: true, ..state },
                        ActionView::BeginSelection { col, row },
                    ),
                    None => (PointerState { pressed: None, ..state }, ActionView::Nothing),
                }
            } else if !tracking.active_spec() {
                (state, ActionView::Nothing)
            } else {
                (
                    PointerState { pressed: Some(button), selecting: false, last_mouse_cell: cell },
                    ActionView::Report {
                        clear_selection: true,
                        bytes: report_at(tracking, cell, TermMouseKind::Down(button), mods),
                    },
                )
            }
        },
        PointerEvent::Release { button, cell, mods } => {
            if state.selecting && button is Left {
                (PointerState { selecting: false, ..state }, ActionView::FinishSelection)
            } else if state.pressed == Some(button) {
                (
                    PointerState { pressed: None, last_mouse_cell: None, ..state },
                    ActionView::Report {
                        clear_selection: false,
                        bytes: report_at(tracking, cell, TermMouseKind::Up(button), mods),
                    },
                )
            } else {
                (state, ActionView::Nothing)
            }
        },
        PointerEvent::Move { cell, mods } => {
            if state.selecting {
                match cell {
                    Some((col, row)) => (state, ActionView::UpdateSelection { col, row }),
                    None => (state, ActionView::Nothing),
                }
            } else {
                let kind = match state.pressed {
                    Some(b) => if tracking.drag_spec() || tracking.motion_spec() {
                        Some(TermMouseKind::Drag(b))
                    } else {
                        None
                    },
                    None => if tracking.motion_spec() {
                        Some(TermMouseKind::Move)
                    } else {
                        None
                    },
                };
                match (kind, cell) {
                    (Some(k), Some(c)) => if state.last_mouse_cell == Some(c) {
                        (state, ActionView::Nothing)
                    } else {
                        match report_spec(tracking, c.0, c.1, k, mods) {
                            Some(b) => (
                                PointerState { last_mouse_cell: Some(c), ..state },
                                ActionView::Report { clear_selection: false, bytes: Some(b) },
                            ),
                            None => (state, ActionView::Nothing),
                        }
                    },
                    _ => (state, ActionView::Nothing),
                }
            }
        },
    }
}

fn is_left(b: TermMouseButton) -> (r: bool)
    ensures
        r == (b is Left),
{
    match b {
        TermMouseButton::Left => true,
        _ => false,
    }
}

fn same_button(a: Option<TermMouseButton>, b: TermMouseButton) -> (r: bool)
    ensures
        r == (a == Some(b)),
{
    match (a, b) {
        (Some(TermMouseButton::Left), TermMouseButton::Left) => true,
        (Some(TermMouseButton::Middle), TermMouseButton::Middle) => true,
        (Some(TermMouseButton::Right), TermMouseButton::Right) => true,
        _ => false,
    }
}

fn same_cell(a: Option<(usize, usize)>, c: (usize, usize)) -> (r: bool)
    ensures
        r == (a == Some(c)),
{
    match a {
        Some(x) => x.0 == c.0 && x.1 == c.1,
        None => false,
    }
}

fn report(
    tracking: MouseTracking,
    cell: Option<(usize, usize)>,
    kind: TermMouseKind,
    mods: TermMouseMods,
) -> (r: Option<Vec<u8>>)
    ensures
        match r {
            Some(b) => report_at(tracking, cell, kind, mods) == Some(b@),
            None => report_at(tracking, cell, kind, mods) is None,
        },
{
    match cell {
        Some((col, row)) => tracking.encode(col, row, kind, mods),
        None => None,
    }
}

pub open spec fn opt_bytes(b: Option<Vec<u8>>) -> Option<Seq<u8>> {
    match b {
        Some(b) => Some(b@),
        None => None,
    }
}

/// One pointer event: the next state and the action to perform. `rows` is
/// the visible screen (top row first) and `tracking` the mouse modes the
/// program asked for.
pub fn pointer_step(
    state: PointerState,
    event: &PointerEvent,
    tracking: MouseTracking,
    rows: &[TermRow],
) -> (r: (PointerState, PointerAction))
    requires
        rows_fit(rows@),
    ensures
        (r.0, r.1@) == pointer_step_spec(state, *event, tracking, rows@),
{
    match event {
        PointerEvent::Press { button, cell, mods, secondary } => {
            let button = *button;
            let cell = *cell;
            let mods = *mods;
            if is_left(button) && *secondary && !mods.shift {
                if let Some((col, row)) = cell {
                    if row < rows.len() {
                        proof {
                            assert(total_cells(rows@[row as int].spans@) <= usize::MAX);
                        }
                        match line_text_and_char_column(rows, row, col) {
                            Some((line, c)) => {
                                #[verifier::truncate]
                                let column = c as u32;
                                return (state, PointerAction::OpenLink { line, column });
                            },
                            None => {},
                        }
                    }
                }
            }
            if is_left(button) && (mods.shift || !tracking.active()) {
                match cell {
                    Some((col, row)) => (
                        PointerState { pressed: None, selecting: true, last_mouse_cell: state.last_mouse_cell },
                        PointerAction::BeginSelection { col, row },
                    ),
                    None => (
                        PointerState { pressed: None, selecting: state.selecting, last_mouse_cell: state.last_mouse_cell },
                        PointerAction::Nothing,
                    ),
                }
            } else if !tracking.active() {
                (state, PointerAction::Nothing)
            } else {
                let bytes = report(tracking, cell, TermMouseKind::Down(button), mods);
                (
                    PointerState { pressed: Some(button), selecting: false, last_mouse_cell: cell },
                    PointerAction::Report { clear_selection: true, bytes },
                )
            }
        },
        PointerEvent::Release { button, cell, mods } => {
            if state.selecting && is_left(*button) {
                (
                    PointerState { pressed: state.pressed, selecting: false, last_mouse_cell: state.last_mouse_cell },
                    PointerAction::FinishSelection,
                )
            } else if same_button(state.pressed, *button) {
                let bytes = report(tracking, *cell, TermMouseKind::Up(*button), *mods);
                (
                    PointerState { pressed: None, selecting: state.selecting, last_mouse_cell: None },
                    PointerAction::Report { clear_selection: false, bytes },
                )
            } else {
                (state, PointerAction::Nothing)
            }
        },
        PointerEvent::Move { cell, mods } => {
            if state.selecting {
                return match *cell {
                    Some((col, row)) => (state, PointerAction::UpdateSelection { col, row }),
                    None => (state, PointerAction::Nothing),
                };
            }
            let kind = match state.pressed {
                Some(b) => if tracking.reports_drag() {
                    Some(TermMouseKind::Drag(b))
                } else {
                    None
                },
                None => if tracking.reports_move() {
                    Some(TermMouseKind::Move)
                } else {
                    None
                },
            };
            match (kind, *cell) {
                (Some(k), Some(c)) => {
                    if same_cell(state.last_mouse_cell, c) {
                        (state, PointerAction::Nothing)
                    } else {
                        match tracking.encode(c.0, c.1, k, *mods) {
                            Some(b) => (
                                PointerState { pressed: state.pressed, selecting: state.selecting, last_mouse_cell: Some(c) },
                                PointerAction::Report { clear_selection: false, bytes: Some(b) },
                            ),
                            None => (state, PointerAction::Nothing),
                        }
                    }
                },
                _ => (state, PointerAction::Nothing),
            }
        },
    }
}

/// `s` repeated `n` times.
pub open spec fn repeat(s: Seq<u8>, n: nat) -> Seq<u8>
    decreases n,
{
    if n == 0 {
        Seq::empty()
    } else {
        repeat(s, (n - 1) as nat) + s
    }
}

fn repeat_bytes(s: &Vec<u8>, n: usize) -> (r: Vec<u8>)
    ensures
        r@ == repeat(s@, n as nat),
{
    let mut out: Vec<u8> = Vec::new();
    let mut k: usize = 0;
    while k < n
        invariant
            k <= n,
            out@ == repeat(s@, k as nat),
        decreases n - k,
    {
        let mut i: usize = 0;
        let ghost before = out@;
        while i < s.len()
            invariant
                i <= s@.len(),
                out@ == before + s@.take(i as int),
            decreases s.len() - i,
        {
            out.push(s[i]);
            i += 1;
            proof {
                assert(s@.take(i as int) =~= s@.take(i - 1).push(s@[i - 1]));
                assert(out@ =~= before + s@.take(i as int));
            }
        }
        proof {
            assert(s@.take(i as int) =~= s@);
        }
        k += 1;
    }
    out
}

/// What a wheel turn over the pane does.
#[derive(Debug, PartialEq, Eq)]
pub enum WheelAction {
    Nothing,
    /// Bytes for the PTY: mouse wheel reports, or cursor keys.
    Write(Vec<u8>),
    /// Move the viewport through history by this many lines (negative is
    /// older).
    ScrollBy(i32),
}

pub enum WheelView {
    Nothing,
    Write(Seq<u8>),
    ScrollBy(int),
}

impl View for WheelAction {
    type V = WheelView;

    open spec fn view(&self) -> WheelView {
        match self {
            WheelAction::Nothing => WheelView::Nothing,
            WheelAction::Write(b) => WheelView::Write(b@),
            WheelAction::ScrollBy(n) => WheelView::ScrollBy(*n as int),
        }
    }
}

/// Repetitions for one wheel turn: the rounded line count, at least 1 and
/// at most 8.
pub open spec fn wheel_steps(rounded: i32) -> nat {
    let a = if rounded < 0 {
        -(rounded as int)
    } else {
        rounded as int
    };
    if a < 1 {
        1
    } else if a > 8 {
        8
    } else {
        a as nat
    }
}

pub open spec fn cursor_up() -> Seq<u8> {
    seq![0x1bu8, 0x5bu8, 0x41u8]
}

pub open spec fn cursor_down() -> Seq<u8> {
    seq![0x1bu8, 0x5bu8, 0x42u8]
}

/// A wheel turn of `rounded` lines (the wheel delta rounded to whole lines;
/// `up` when the delta is positive, toward older output). While the program
/// tracks the mouse and Shift is up, each step is a wheel report at the
/// pointer's cell (none outside the grid). Otherwise the alternate screen
/// gets cursor keys when the program asked for that (mode 1007) and nothing
/// when not, and the primary screen scrolls its history.
pub open spec fn wheel_spec(
    tracking: MouseTracking,
    mods: TermMouseMods,
    cell: Option<(usize, usize)>,
    alt_screen: bool,
    alternate_scroll: bool,
    up: bool,
    rounded: i32,
) -> WheelView {
    let steps = wheel_steps(rounded);
    if tracking.active_spec() && !mods.shift {
        let kind = if up {
            TermMouseKind::ScrollUp
        } else {
            TermMouseKind::ScrollDown
        };
        match cell {
            Some((col, row)) => WheelView::Write(
                repeat(mouse_bytes_spec(tracking.protocol_spec(), col, row, kind, mods), steps),
            ),
            None => WheelView::Nothing,
        }
    } else if alt_screen {
        if !alternate_scroll {
            WheelView::Nothing
        } else {
            WheelView::Write(
                repeat(
                    if up {
                        cursor_up()
                    } else {
                        cursor_down()
                    },
                    steps,
                ),
            )
        }
    } else if rounded == 0 {
        WheelView::Nothing
    } else {
        WheelView::ScrollBy(-(rounded as int))
    }
}

/// What one wheel turn does; see [`wheel_spec`]. The caller has already
/// dropped turns of exactly zero lines.
pub fn wheel_action(
    tracking: MouseTracking,
    mods: TermMouseMods,
    cell: Option<(usize, usize)>,
    alt_screen: bool,
    alternate_scroll: bool,
    up: bool,
    rounded: i32,
) -> (r: WheelAction)
    requires
        rounded > i32::MIN,
    ensures
        r@ == wheel_spec(tracking, mods, cell, alt_screen, alternate_scroll, up, rounded),
{
    let a: i32 = if rounded < 0 {
        -rounded
    } else {
        rounded
    };
    let steps: usize = if a < 1 {
        1
    } else if a > 8 {
        8
    } else {
        a as usize
    };
    if tracking.active() && !mods.shift {
        let kind = if up {
            TermMouseKind::ScrollUp
        } else {
            TermMouseKind::ScrollDown
        };
        match cell {
            Some((col, row)) => {
                match tracking.encode(col, row, kind, mods) {
                    Some(one) => WheelAction::Write(repeat_bytes(&one, steps)),
                    None => WheelAction::Nothing,
                }
            },
            None => WheelAction::Nothing,
        }
    } else if alt_screen {
        if !alternate_scroll {
            WheelAction::Nothing
        } else {
            let key: Vec<u8> = if up {
                vec![0x1bu8, 0x5bu8, 0x41u8]
            } else {
                vec![0x1bu8, 0x5bu8, 0x42u8]
            };
            proof {
                assert(key@ =~= if up { cursor_up() } else { cursor_down() });
            }
            WheelAction::Write(repeat_bytes(&key, steps))
        }
    } else if rounded == 0 {
        WheelAction::Nothing
    } else {
        WheelAction::ScrollBy(-rounded)
    }
}

/// Motion is reported once per cell: right after a move that wrote a report
/// for a cell, another move over the same cell writes nothing and changes
/// nothing.
pub proof fn move_reports_each_cell_once(
    state: PointerState,
    cell: (usize, usize),
    first: TermMouseMods,
    second: TermMouseMods,
    tracking: MouseTracking,
    rows: Seq<TermRow>,
)
    requires
        pointer_step_spec(state, PointerEvent::Move { cell: Some(cell), mods: first }, tracking, rows).1 is Report,
    ensures
        ({
            let next = pointer_step_spec(state, PointerEvent::Move { cell: Some(cell), mods: first }, tracking, rows).0;
            pointer_step_spec(next, PointerEvent::Move { cell: Some(cell), mods: second }, tracking, rows) == (
            next, ActionView::Nothing)
        }),
{
}

/// A Shift-press of the left button on the grid starts a host selection,
/// and releasing the left button then finishes it.
pub proof fn shift_press_selection_finishes_on_release(
    state: PointerState,
    cell: (usize, usize),
    mods: TermMouseMods,
    secondary: bool,
    release_cell: Option<(usize, usize)>,
    release_mods: TermMouseMods,
    tracking: MouseTracking,
    rows: Seq<TermRow>,
)
    requires
        mods.shift,
    ensures
        ({
            let (pressed, begin) = pointer_step_spec(
                state,
                PointerEvent::Press { button: TermMouseButton::Left, cell: Some(cell), mods, secondary },
                tracking,
                rows,
            );
            let (released, finish) = pointer_step_spec(
                pressed,
                PointerEvent::Release { button: TermMouseButton::Left, cell: release_cell, mods: release_mods },
                tracking,
                rows,
            );
            &&& begin == ActionView::BeginSelection { col: cell.0, row: cell.1 }
            &&& pressed.selecting
            &&& finish == ActionView::FinishSelection
            &&& !released.selecting
        }),
{
}

/// A press reported to the program is matched by a release report: after
/// a press that the program tracks (not a host selection or link click),
/// releasing the same button reports the release and forgets the press.
pub proof fn reported_press_reports_release(
    state: PointerState,
    button: TermMouseButton,
    cell: Option<(usize, usize)>,
    mods: TermMouseMods,
    secondary: bool,
    release_cell: Option<(usize, usize)>,
    release_mods: TermMouseMods,
    tracking: MouseTracking,
    rows: Seq<TermRow>,
)
    requires
        pointer_step_spec(state, PointerEvent::Press { button, cell, mods, secondary }, tracking, rows).1 is Report,
    ensures
        ({
            let pressed = pointer_step_spec(state, PointerEvent::Press { button, cell, mods, secondary }, tracking, rows).0;
            let (released, action) = pointer_step_spec(
                pressed,
                PointerEvent::Release { button, cell: release_cell, mods: release_mods },
                tracking,
                rows,
            );
            &&& pressed.pressed == Some(button)
            &&& action == ActionView::Report {
                clear_selection: false,
                bytes: report_at(tracking, release_cell, TermMouseKind::Up(button), release_mods),
            }
            &&& released.pressed is None
        }),
{
}

} // verus!
