//! The terminal of a remote PTY: its screen, parsed by `alacritty_terminal`
//! (the daemon still owns the process), and the rules around it: double-click
//! word bounds, cell/scalar column mapping, mouse reports, the ANSI palette,
//! paste payloads and keystroke encoding.

use vstd::prelude::*;
use vstd::string::*;
use vstd::utf8::*;

use std::cell::{Cell as StdCell, RefCell};
use std::rc::Rc;
use std::time::Instant;

use alacritty_terminal::event::{Event, EventListener, WindowSize};
use alacritty_terminal::grid::Scroll;
use alacritty_terminal::index::{Column, Point, Side};
use alacritty_terminal::selection::{Selection, SelectionType};
use alacritty_terminal::term::cell::Flags;
use alacritty_terminal::term::test::TermSize;
use alacritty_terminal::term::{viewport_to_point, Config, Osc52, Term, TermMode};
use alacritty_terminal::vte::ansi::{Color, Processor, Rgb, StdSyncHandler};
use alacritty_terminal::vte::ansi::CursorShape as VtCursorShape;

use crate::strs::str_eq;
use crate::text::{
    ascii_upper, chars_of, decimal, decimal_chars, eq_chars, is_ascii_alpha, is_ascii_digit,
    lower_ascii, replace_char, replace_chars, strip_end, strip_end_chars, string_of, CharSet,
};

verus! {

/// What `char::is_alphanumeric` returns (Unicode `Alphabetic` or `Numeric`).
pub uninterp spec fn unicode_alphanumeric(c: char) -> bool;

/// `char::is_alphanumeric`: true for Unicode letters and numbers. For ASCII
/// that is exactly the letters and digits.
#[verifier::external_body]
fn is_alphanumeric(c: char) -> (r: bool)
    ensures
        r == unicode_alphanumeric(c),
        (c as u32) < 0x80 ==> r == (is_ascii_alpha(c) || is_ascii_digit(c)),
{
    c.is_alphanumeric()
}

/// A letter or digit: for ASCII the letters and digits, beyond ASCII what
/// `char::is_alphanumeric` says.
pub open spec fn alnum(c: char) -> bool {
    if (c as u32) < 0x80 {
        is_ascii_alpha(c) || is_ascii_digit(c)
    } else {
        unicode_alphanumeric(c)
    }
}

/// Characters that stay inside a double-click selection.
pub open spec fn is_word_char(c: char) -> bool {
    alnum(c) || c == '_' || c == '/' || c == '.' || c == '-' || c == '~' || c == ':'
        || c == '\\'
}

pub fn word_char(c: char) -> (r: bool)
    ensures
        r == is_word_char(c),
{
    is_alphanumeric(c) || c == '_' || c == '/' || c == '.' || c == '-' || c == '~' || c == ':' || c
        == '\\'
}

/// Return the character range around a terminal column for a double-click.
/// Path punctuation stays attached so `src/foo-bar.rs:12` selects as one unit.
///
/// The range is the maximal run of word characters containing `column`.
pub fn word_bounds_at_column(line: &str, column: usize) -> (r: Option<(usize, usize)>)
    ensures
        match r {
            None => column >= line@.len() || !is_word_char(line@[column as int]),
            Some((start, end)) => {
                &&& start <= column < end <= line@.len()
                &&& forall|i: int| start <= i < end ==> is_word_char(#[trigger] line@[i])
                &&& start == 0 || !is_word_char(line@[start - 1])
                &&& end == line@.len() || !is_word_char(line@[end as int])
            },
        },
{
    let chars = chars_of(line);
    if column >= chars.len() || !word_char(chars[column]) {
        return None;
    }
    let mut start = column;
    let mut end = column + 1;
    while start > 0 && word_char(chars[start - 1])
        invariant
            start <= column < chars@.len(),
            chars@ == line@,
            forall|i: int| start <= i <= column ==> is_word_char(#[trigger] chars@[i]),
        decreases start,
    {
        start -= 1;
    }
    while end < chars.len() && word_char(chars[end])
        invariant
            start <= column < end <= chars@.len(),
            chars@ == line@,
            forall|i: int| start <= i < end ==> is_word_char(#[trigger] chars@[i]),
            start == 0 || !is_word_char(chars@[start - 1]),
        decreases chars.len() - end,
    {
        end += 1;
    }
    Some((start, end))
}

/// One visible terminal glyph or a run of blank grid cells.
#[derive(Clone, Debug, PartialEq, Eq)]
pub struct TermSpan {
    pub text: String,
    /// Number of grid columns occupied, independent of glyph measurement.
    pub cells: usize,
    /// `None` means the host theme foreground or background.
    pub fg: Option<[u8; 3]>,
    pub bg: Option<[u8; 3]>,
    pub bold: bool,
    pub selected: bool,
}

#[derive(Clone, Debug, PartialEq, Eq)]
pub struct TermRow {
    pub spans: Vec<TermSpan>,
}

pub open spec fn is_blank(t: Seq<char>) -> bool {
    forall|i: int| 0 <= i < t.len() ==> t[i] == ' '
}

/// Scalar offset of grid cell `column`, scanning `spans` with `cells` cells and
/// `chars` scalars already behind.
pub open spec fn char_column_from(spans: Seq<TermSpan>, column: int, cells: int, chars: int) -> int
    decreases spans.len(),
{
    if spans.len() == 0 {
        chars
    } else {
        let sp = spans[0];
        let n = sp.text@.len() as int;
        if column < cells + sp.cells {
            chars + if is_blank(sp.text@) {
                if column - cells < n {
                    column - cells
                } else {
                    n
                }
            } else {
                0
            }
        } else {
            char_column_from(spans.drop_first(), column, cells + sp.cells, chars + n)
        }
    }
}

/// Cell that displays scalar `column`, scanning with `cells`/`chars` behind.
pub open spec fn cell_from(spans: Seq<TermSpan>, column: int, cells: int, chars: int) -> Option<int>
    decreases spans.len(),
{
    if spans.len() == 0 {
        None
    } else {
        let sp = spans[0];
        let n = sp.text@.len() as int;
        if column < chars + n {
            let local = column - chars;
            if is_blank(sp.text@) {
                let last = if sp.cells > 0 {
                    sp.cells - 1
                } else {
                    0
                };
                Some(cells + if local < last {
                    local
                } else {
                    last
                })
            } else {
                Some(cells)
            }
        } else {
            cell_from(spans.drop_first(), column, cells + sp.cells, chars + n)
        }
    }
}

/// Total grid cells of `spans`.
pub open spec fn total_cells(spans: Seq<TermSpan>) -> int
    decreases spans.len(),
{
    if spans.len() == 0 {
        0
    } else {
        spans[0].cells + total_cells(spans.drop_first())
    }
}

/// Total scalars of `spans`.
pub open spec fn total_chars(spans: Seq<TermSpan>) -> int
    decreases spans.len(),
{
    if spans.len() == 0 {
        0
    } else {
        spans[0].text@.len() + total_chars(spans.drop_first())
    }
}

proof fn lemma_totals_split(spans: Seq<TermSpan>, k: int)
    requires
        0 <= k < spans.len(),
    ensures
        total_cells(spans.take(k + 1)) == total_cells(spans.take(k)) + spans[k].cells,
        total_chars(spans.take(k + 1)) == total_chars(spans.take(k)) + spans[k].text@.len(),
        total_cells(spans.skip(k)) == spans[k].cells + total_cells(spans.skip(k + 1)),
        total_chars(spans.skip(k)) == spans[k].text@.len() + total_chars(spans.skip(k + 1)),
    decreases k,
{
    assert(spans.skip(k).drop_first() =~= spans.skip(k + 1));
    if k > 0 {
        lemma_totals_split(spans.drop_first(), k - 1);
        assert(spans.drop_first().take(k) =~= spans.take(k + 1).drop_first());
        assert(spans.drop_first().take(k - 1) =~= spans.take(k).drop_first());
        assert(spans.drop_first().skip(k - 1) =~= spans.skip(k));
        assert(spans.drop_first().skip(k) =~= spans.skip(k + 1));
    } else {
        assert(spans.take(1).drop_first() =~= spans.take(0));
        assert(spans.take(0) =~= Seq::<TermSpan>::empty());
    }
}

proof fn lemma_totals_bound(spans: Seq<TermSpan>, k: int)
    requires
        0 <= k <= spans.len(),
    ensures
        total_cells(spans.take(k)) + total_cells(spans.skip(k)) == total_cells(spans),
        total_chars(spans.take(k)) + total_chars(spans.skip(k)) == total_chars(spans),
        total_cells(spans.take(k)) >= 0,
        total_chars(spans.take(k)) >= 0,
        total_cells(spans.skip(k)) >= 0,
        total_chars(spans.skip(k)) >= 0,
    decreases k,
{
    lemma_totals_nonneg(spans.take(k));
    lemma_totals_nonneg(spans.skip(k));
    if k == 0 {
        assert(spans.skip(0) =~= spans);
        assert(spans.take(0) =~= Seq::<TermSpan>::empty());
    } else {
        lemma_totals_bound(spans, k - 1);
        lemma_totals_split(spans, k - 1);
    }
}

proof fn lemma_totals_nonneg(spans: Seq<TermSpan>)
    ensures
        total_cells(spans) >= 0,
        total_chars(spans) >= 0,
    decreases spans.len(),
{
    if spans.len() > 0 {
        lemma_totals_nonneg(spans.drop_first());
    }
}

fn all_blank(text: &str) -> (r: bool)
    ensures
        r == is_blank(text@),
{
    let t = chars_of(text);
    let mut i: usize = 0;
    while i < t.len()
        invariant
            i <= t@.len(),
            t@ == text@,
            forall|j: int| 0 <= j < i ==> t@[j] == ' ',
        decreases t.len() - i,
    {
        if t[i] != ' ' {
            return false;
        }
        i += 1;
    }
    true
}

/// Convert a cell column to a scalar offset in the visible row text.
///
/// Blank runs contain one scalar per cell. A visible glyph span represents
/// one glyph plus optional zero-width scalars, and any wide-character spacer
/// cells still point at its first scalar.
pub fn char_column_for_cell(spans: &[TermSpan], column: usize) -> (r: usize)
    requires
        total_cells(spans@) <= usize::MAX,
        total_chars(spans@) <= usize::MAX,
    ensures
        r == char_column_from(spans@, column as int, 0, 0),
{
    let mut cells: usize = 0;
    let mut chars: usize = 0;
    let mut k: usize = 0;
    proof {
        assert(spans@.skip(0) =~= spans@);
        assert(spans@.take(0) =~= Seq::<TermSpan>::empty());
    }
    while k < spans.len()
        invariant
            k <= spans@.len(),
            total_cells(spans@) <= usize::MAX,
            total_chars(spans@) <= usize::MAX,
            cells == total_cells(spans@.take(k as int)),
            chars == total_chars(spans@.take(k as int)),
            cells <= column,
            char_column_from(spans@.skip(k as int), column as int, cells as int, chars as int)
                == char_column_from(spans@, column as int, 0, 0),
        decreases spans.len() - k,
    {
        proof {
            lemma_totals_split(spans@, k as int);
            lemma_totals_bound(spans@, k + 1);
            assert(spans@.skip(k as int)[0] == spans@[k as int]);
            assert(spans@.skip(k as int).drop_first() =~= spans@.skip(k + 1));
        }
        let span = &spans[k];
        let text = chars_of(span.text.as_str());
        let span_chars = text.len();
        if column < cells + span.cells {
            let extra = if all_blank(span.text.as_str()) {
                let d = column - cells;
                if d < span_chars {
                    d
                } else {
                    span_chars
                }
            } else {
                0
            };
            return chars + extra;
        }
        cells = cells + span.cells;
        chars = chars + span_chars;
        k += 1;
    }
    proof {
        assert(spans@.skip(k as int) =~= Seq::<TermSpan>::empty());
    }
    chars
}

/// Map one text scalar to the cell that displays it. Zero-width trailing
/// scalars stay attached to their glyph; blank runs map one cell per scalar.
pub fn cell_for_char_column(spans: &[TermSpan], column: usize) -> (r: Option<usize>)
    requires
        total_cells(spans@) <= usize::MAX,
        total_chars(spans@) <= usize::MAX,
    ensures
        match r {
            Some(c) => cell_from(spans@, column as int, 0, 0) == Some(c as int),
            None => cell_from(spans@, column as int, 0, 0) is None,
        },
{
    let mut cells: usize = 0;
    let mut chars: usize = 0;
    let mut k: usize = 0;
    proof {
        assert(spans@.skip(0) =~= spans@);
        assert(spans@.take(0) =~= Seq::<TermSpan>::empty());
    }
    while k < spans.len()
        invariant
            k <= spans@.len(),
            total_cells(spans@) <= usize::MAX,
            total_chars(spans@) <= usize::MAX,
            cells == total_cells(spans@.take(k as int)),
            chars == total_chars(spans@.take(k as int)),
            chars <= column,
            cell_from(spans@.skip(k as int), column as int, cells as int, chars as int)
                == cell_from(spans@, column as int, 0, 0),
        decreases spans.len() - k,
    {
        proof {
            lemma_totals_split(spans@, k as int);
            lemma_totals_bound(spans@, k + 1);
            lemma_totals_bound(spans@, k as int);
            assert(spans@.skip(k as int)[0] == spans@[k as int]);
            assert(spans@.skip(k as int).drop_first() =~= spans@.skip(k + 1));
        }
        let span = &spans[k];
        let text = chars_of(span.text.as_str());
        let span_chars = text.len();
        if column < chars + span_chars {
            let local = column - chars;
            if all_blank(span.text.as_str()) {
                let last = if span.cells > 0 {
                    span.cells - 1
                } else {
                    0
                };
                let off = if local < last {
                    local
                } else {
                    last
                };
                return Some(cells + off);
            }
            return Some(cells);
        }
        chars = chars + span_chars;
        cells = cells + span.cells;
        k += 1;
    }
    proof {
        assert(spans@.skip(k as int) =~= Seq::<TermSpan>::empty());
    }
    None
}

/// The scalars of a row: each span's text, in order.
pub open spec fn row_text(spans: Seq<TermSpan>) -> Seq<char>
    decreases spans.len(),
{
    if spans.len() == 0 {
        Seq::empty()
    } else {
        row_text(spans.drop_last()) + spans.last().text@
    }
}

/// A row's text with trailing whitespace removed, as the viewport shows it.
pub open spec fn shown_line(spans: Seq<TermSpan>) -> Seq<char> {
    strip_end(row_text(spans), CharSet::Whitespace)
}

fn row_chars(spans: &[TermSpan]) -> (r: Vec<char>)
    ensures
        r@ == row_text(spans@),
{
    let mut out: Vec<char> = Vec::new();
    let mut k: usize = 0;
    while k < spans.len()
        invariant
            k <= spans@.len(),
            out@ == row_text(spans@.take(k as int)),
        decreases spans.len() - k,
    {
        let text = chars_of(spans[k].text.as_str());
        let mut i: usize = 0;
        let ghost before = out@;
        while i < text.len()
            invariant
                i <= text@.len(),
                text@ == spans@[k as int].text@,
                out@ == before + text@.take(i as int),
            decreases text.len() - i,
        {
            out.push(text[i]);
            i += 1;
            proof {
                assert(text@.take(i as int) =~= text@.take(i - 1).push(text@[i - 1]));
            }
        }
        proof {
            assert(text@.take(i as int) =~= text@);
            assert(spans@.take(k + 1).drop_last() =~= spans@.take(k as int));
        }
        k += 1;
    }
    proof {
        assert(spans@.take(k as int) =~= spans@);
    }
    out
}

/// Viewport row `row` as text, trailing whitespace removed; `None` past the
/// last row. `rows` is the viewport, top row first.
pub fn line_text(rows: &[TermRow], row: usize) -> (r: Option<String>)
    ensures
        r is Some <==> row < rows@.len(),
        r matches Some(t) ==> t@ == shown_line(rows@[row as int].spans@),
{
    if row >= rows.len() {
        return None;
    }
    let all = row_chars(rows[row].spans.as_slice());
    let kept = strip_end_chars(&all, CharSet::Whitespace);
    Some(string_of(&kept))
}

/// Row text as [`line_text`] gives it, and grid cell `column` translated to
/// its scalar column in that text. A wide glyph occupies two cells but only
/// one scalar; combining marks add scalars without occupying cells. The
/// column is capped at the length of the trimmed text.
pub fn line_text_and_char_column(rows: &[TermRow], row: usize, column: usize) -> (r: Option<(String, usize)>)
    requires
        row < rows@.len() ==> total_cells(rows@[row as int].spans@) <= usize::MAX,
        row < rows@.len() ==> total_chars(rows@[row as int].spans@) <= usize::MAX,
    ensures
        r is Some <==> row < rows@.len(),
        r matches Some((t, c)) ==> {
            let spans = rows@[row as int].spans@;
            &&& t@ == shown_line(spans)
            &&& c == if char_column_from(spans, column as int, 0, 0) < t@.len() {
                char_column_from(spans, column as int, 0, 0)
            } else {
                t@.len() as int
            }
        },
{
    if row >= rows.len() {
        return None;
    }
    let spans = rows[row].spans.as_slice();
    let char_column = char_column_for_cell(spans, column);
    let all = row_chars(spans);
    let kept = strip_end_chars(&all, CharSet::Whitespace);
    let n = kept.len();
    let c = if char_column < n {
        char_column
    } else {
        n
    };
    Some((string_of(&kept), c))
}

/// Grid cells to select for the scalar range `start..end` of viewport row
/// `row`: the cell showing `start` and the cell showing `end - 1`. `None` when
/// the range is empty, the row does not exist, or either scalar lies past the
/// row's text.
pub fn char_range_cells(rows: &[TermRow], row: usize, start: usize, end: usize) -> (r: Option<(usize, usize)>)
    requires
        row < rows@.len() ==> total_cells(rows@[row as int].spans@) <= usize::MAX,
        row < rows@.len() ==> total_chars(rows@[row as int].spans@) <= usize::MAX,
    ensures
        r is Some <==> {
            &&& start < end
            &&& row < rows@.len()
            &&& cell_from(rows@[row as int].spans@, start as int, 0, 0) is Some
            &&& cell_from(rows@[row as int].spans@, end - 1, 0, 0) is Some
        },
        r matches Some((a, b)) ==> {
            &&& cell_from(rows@[row as int].spans@, start as int, 0, 0) == Some(a as int)
            &&& cell_from(rows@[row as int].spans@, end - 1, 0, 0) == Some(b as int)
        },
{
    if start >= end || row >= rows.len() {
        return None;
    }
    let spans = rows[row].spans.as_slice();
    let a = match cell_for_char_column(spans, start) {
        Some(a) => a,
        None => return None,
    };
    let b = match cell_for_char_column(spans, end - 1) {
        Some(b) => b,
        None => return None,
    };
    Some((a, b))
}

/// Where the cursor shows in the viewport: `line` is the cursor's grid line
/// (0 at the top of the live screen, negative in history) and the viewport
/// is scrolled `display_offset` lines into history. `None` when the cursor is
/// hidden or outside the `cols` x `rows` viewport.
pub fn viewport_cursor(
    hidden: bool,
    line: i32,
    display_offset: usize,
    column: usize,
    rows: usize,
    cols: usize,
) -> (r: Option<(usize, usize)>)
    requires
        display_offset <= i32::MAX,
        i32::MIN <= line + display_offset <= i32::MAX,
    ensures
        r == if hidden || line + display_offset < 0 || line + display_offset >= rows || column >= cols {
            None
        } else {
            Some(((line + display_offset) as usize, column))
        },
{
    if hidden {
        return None;
    }
    let top: i32 = -(display_offset as i32);
    let row: i32 = line - top;
    if row < 0 || row as usize >= rows || column >= cols {
        return None;
    }
    Some((row as usize, column))
}

/// Which mouse reports the PTY asked for.
///
/// 1000, 1002 and 1003 are mutually exclusive tracking modes; 1002 and 1003
/// still include presses and releases. 1006 (SGR) and 1005 (UTF-8) choose the
/// encoding.
#[derive(Clone, Copy, Debug, PartialEq, Eq)]
pub struct MouseTracking {
    clicks: bool,
    drag: bool,
    motion: bool,
    sgr: bool,
    utf8: bool,
}

#[derive(Clone, Copy, Debug, PartialEq, Eq)]
pub enum TermMouseButton {
    Left,
    Middle,
    Right,
}

#[derive(Clone, Copy, Debug, PartialEq, Eq)]
pub enum TermMouseKind {
    Down(TermMouseButton),
    Up(TermMouseButton),
    Drag(TermMouseButton),
    Move,
    ScrollUp,
    ScrollDown,
}

#[derive(Clone, Copy, Debug, Default, PartialEq, Eq)]
pub struct TermMouseMods {
    pub shift: bool,
    pub alt: bool,
    pub control: bool,
}

#[derive(Clone, Copy, Debug, PartialEq, Eq)]
pub enum MouseProtocol {
    Sgr,
    Utf8,
    Normal,
}

pub open spec fn button_base_spec(button: TermMouseButton) -> u32 {
    match button {
        TermMouseButton::Left => 0,
        TermMouseButton::Middle => 1,
        TermMouseButton::Right => 2,
    }
}

/// Report code (before any bias) and whether the event is a release.
pub open spec fn button_code_spec(kind: TermMouseKind, mods: TermMouseMods) -> (u32, bool) {
    let (code, release) = match kind {
        TermMouseKind::Down(b) => (button_base_spec(b), false),
        TermMouseKind::Up(b) => (button_base_spec(b), true),
        TermMouseKind::Drag(b) => ((button_base_spec(b) + 32) as u32, false),
        TermMouseKind::Move => (35u32, false),
        TermMouseKind::ScrollUp => (64u32, false),
        TermMouseKind::ScrollDown => (65u32, false),
    };
    let code = if mods.shift {
        (code + 4) as u32
    } else {
        code
    };
    let code = if mods.alt {
        (code + 8) as u32
    } else {
        code
    };
    let code = if mods.control {
        (code + 16) as u32
    } else {
        code
    };
    (code, release)
}

fn button_base(button: TermMouseButton) -> (r: u32)
    ensures
        r == button_base_spec(button),
{
    match button {
        TermMouseButton::Left => 0,
        TermMouseButton::Middle => 1,
        TermMouseButton::Right => 2,
    }
}

fn button_code(kind: TermMouseKind, mods: TermMouseMods) -> (r: (u32, bool))
    ensures
        r == button_code_spec(kind, mods),
        r.0 <= 93,
{
    let (code, release) = match kind {
        TermMouseKind::Down(button) => (button_base(button), false),
        TermMouseKind::Up(button) => (button_base(button), true),
        TermMouseKind::Drag(button) => (button_base(button) + 32, false),
        TermMouseKind::Move => (3 + 32, false),
        TermMouseKind::ScrollUp => (64, false),
        TermMouseKind::ScrollDown => (65, false),
    };
    let mut code = code;
    if mods.shift {
        code += 4;
    }
    if mods.alt {
        code += 8;
    }
    if mods.control {
        code += 16;
    }
    (code, release)
}

/// X10 / UTF-8 button value before the +32 bias. Release collapses to button
/// 3 and keeps only the modifier and motion bits.
pub open spec fn legacy_button_spec(code: u32, release: bool) -> u32 {
    if release {
        (3 + (code & !3u32)) as u32
    } else {
        code
    }
}

fn legacy_button(code: u32, release: bool) -> (r: u32)
    requires
        code <= 93,
    ensures
        r == legacy_button_spec(code, release),
        r <= 96,
{
    if release {
        assert((code & !3u32) <= code) by (bit_vector);
        3 + (code & !3u32)
    } else {
        code
    }
}

pub open spec fn sat_add(a: int, b: int) -> int {
    if a + b > usize::MAX {
        usize::MAX as int
    } else {
        a + b
    }
}

/// ASCII digits of `n` as bytes.
pub open spec fn decimal_bytes(n: nat) -> Seq<u8> {
    decimal(n).map_values(|c: char| c as u8)
}

/// The scalar `push_utf8` encodes: `value`, or U+FFFD when it is not a
/// Unicode scalar value.
pub open spec fn scalar_or_replacement(value: u32) -> u32 {
    if is_scalar(value) {
        value
    } else {
        0xFFFD
    }
}

/// Bytes of a mouse report.
pub open spec fn mouse_bytes_spec(
    protocol: MouseProtocol,
    col: usize,
    row: usize,
    kind: TermMouseKind,
    mods: TermMouseMods,
) -> Seq<u8> {
    let (code, release) = button_code_spec(kind, mods);
    let cx = sat_add(col as int, 1);
    let cy = sat_add(row as int, 1);
    match protocol {
        MouseProtocol::Sgr => seq![0x1bu8, 0x5bu8, 0x3cu8] + decimal_bytes(code as nat) + seq![0x3bu8]
            + decimal_bytes(cx as nat) + seq![0x3bu8] + decimal_bytes(cy as nat) + seq![
            if release {
                0x6du8
            } else {
                0x4du8
            },
        ],
        MouseProtocol::Normal => {
            let cb = legacy_button_spec(code, release) + 32;
            let x = (if cx < 223 {
                cx
            } else {
                223
            }) + 32;
            let y = (if cy < 223 {
                cy
            } else {
                223
            }) + 32;
            seq![0x1bu8, 0x5bu8, 0x4du8, cb as u8, x as u8, y as u8]
        },
        MouseProtocol::Utf8 => {
            let cb = (legacy_button_spec(code, release) + 32) as u32;
            seq![0x1bu8, 0x5bu8, 0x4du8] + encode_scalar(scalar_or_replacement(cb))
                + encode_scalar(scalar_or_replacement(sat_add(cx, 32) as u32)) + encode_scalar(
                scalar_or_replacement(sat_add(cy, 32) as u32),
            )
        },
    }
}

fn decimal_byte_vec(n: u128) -> (r: Vec<u8>)
    ensures
        r@ == decimal_bytes(n as nat),
{
    let digits = decimal_chars(n);
    let mut r: Vec<u8> = Vec::new();
    let mut i: usize = 0;
    while i < digits.len()
        invariant
            i <= digits@.len(),
            r@ == digits@.take(i as int).map_values(|c: char| c as u8),
        decreases digits.len() - i,
    {
        r.push(digits[i] as u8);
        i += 1;
        proof {
            assert(digits@.take(i as int).map_values(|c: char| c as u8) =~= digits@.take(
                i - 1,
            ).map_values(|c: char| c as u8).push(digits@[i - 1] as u8));
        }
    }
    proof {
        assert(digits@.take(digits@.len() as int) =~= digits@);
    }
    r
}

fn append_bytes(out: &mut Vec<u8>, extra: &[u8])
    ensures
        final(out)@ == old(out)@ + extra@,
{
    let mut i: usize = 0;
    while i < extra.len()
        invariant
            i <= extra@.len(),
            out@ == old(out)@ + extra@.take(i as int),
        decreases extra.len() - i,
    {
        out.push(extra[i]);
        i += 1;
        proof {
            assert(old(out)@ + extra@.take(i as int) =~= (old(out)@ + extra@.take(i - 1)).push(
                extra@[i - 1],
            ));
        }
    }
    proof {
        assert(extra@.take(extra@.len() as int) =~= extra@);
    }
}

/// Append the UTF-8 encoding of `value` (U+FFFD when it is not a scalar).
fn push_utf8(out: &mut Vec<u8>, value: u32)
    ensures
        final(out)@ == old(out)@ + encode_scalar(scalar_or_replacement(value)),
{
    let s: u32 = if value <= 0x7F || (0x80 <= value && value <= 0x7FF) || (0x800 <= value && value
        <= 0xFFFF && !(0xD800 <= value && value <= 0xDFFF)) || (0x10000 <= value && value
        <= 0x10FFFF) {
        value
    } else {
        0xFFFD
    };
    let ghost before = out@;
    if s <= 0x7F {
        out.push((s & 0x7F) as u8);
    } else if s <= 0x7FF {
        out.push(0xC0 | ((s >> 6) & 0x1F) as u8);
        out.push(0x80 | (s & 0x3F) as u8);
    } else if s <= 0xFFFF {
        out.push(0xE0 | ((s >> 12) & 0x0F) as u8);
        out.push(0x80 | ((s >> 6) & 0x3F) as u8);
        out.push(0x80 | (s & 0x3F) as u8);
    } else {
        out.push(0xF0 | ((s >> 18) & 0x7) as u8);
        out.push(0x80 | ((s >> 12) & 0x3F) as u8);
        out.push(0x80 | ((s >> 6) & 0x3F) as u8);
        out.push(0x80 | (s & 0x3F) as u8);
    }
    proof {
        assert(out@ =~= before + encode_scalar(s));
    }
}

fn usize_sat_add(a: usize, b: usize) -> (r: usize)
    ensures
        r == sat_add(a as int, b as int),
{
    if a > usize::MAX - b {
        usize::MAX
    } else {
        a + b
    }
}

/// Bytes of one mouse report in `protocol`.
pub fn encode_mouse_bytes(
    protocol: MouseProtocol,
    col: usize,
    row: usize,
    kind: TermMouseKind,
    mods: TermMouseMods,
) -> (r: Vec<u8>)
    ensures
        r@ == mouse_bytes_spec(protocol, col, row, kind, mods),
{
    let (code, release) = button_code(kind, mods);
    // Protocols report 1-based cells.
    let cx = usize_sat_add(col, 1);
    let cy = usize_sat_add(row, 1);
    match protocol {
        MouseProtocol::Sgr => {
            let mut out: Vec<u8> = Vec::new();
            out.push(0x1b);
            out.push(0x5b);
            out.push(0x3c);
            append_bytes(&mut out, &decimal_byte_vec(code as u128));
            out.push(0x3b);
            append_bytes(&mut out, &decimal_byte_vec(cx as u128));
            out.push(0x3b);
            append_bytes(&mut out, &decimal_byte_vec(cy as u128));
            out.push(
                if release {
                    0x6d
                } else {
                    0x4d
                },
            );
            proof {
                assert(out@ =~= mouse_bytes_spec(protocol, col, row, kind, mods));
            }
            out
        },
        MouseProtocol::Normal => {
            // One byte each, biased by 32. Coordinates cap at 223.
            let cb = legacy_button(code, release) + 32;
            let x = (if cx < 223 {
                cx
            } else {
                223
            }) as u32 + 32;
            let y = (if cy < 223 {
                cy
            } else {
                223
            }) as u32 + 32;
            let mut out: Vec<u8> = Vec::new();
            out.push(0x1b);
            out.push(0x5b);
            out.push(0x4d);
            out.push(cb as u8);
            out.push(x as u8);
            out.push(y as u8);
            proof {
                assert(out@ =~= mouse_bytes_spec(protocol, col, row, kind, mods));
            }
            out
        },
        MouseProtocol::Utf8 => {
            let cb = legacy_button(code, release) + 32;
            let mut out: Vec<u8> = Vec::new();
            out.push(0x1b);
            out.push(0x5b);
            out.push(0x4d);
            push_utf8(&mut out, cb);
            push_utf8(&mut out, usize_sat_add(cx, 32) as u32);
            push_utf8(&mut out, usize_sat_add(cy, 32) as u32);
            proof {
                assert(out@ =~= mouse_bytes_spec(protocol, col, row, kind, mods));
            }
            out
        },
    }
}

impl MouseTracking {
    /// A tracking state as the terminal's DECSET modes report it.
    pub fn new(clicks: bool, drag: bool, motion: bool, sgr: bool, utf8: bool) -> (r: Self)
        ensures
            r.clicks_spec() == clicks,
            r.drag_spec() == drag,
            r.motion_spec() == motion,
            r.sgr_spec() == sgr,
            r.utf8_spec() == utf8,
    {
        MouseTracking { clicks, drag, motion, sgr, utf8 }
    }

    pub closed spec fn clicks_spec(self) -> bool {
        self.clicks
    }

    pub closed spec fn drag_spec(self) -> bool {
        self.drag
    }

    pub closed spec fn motion_spec(self) -> bool {
        self.motion
    }

    pub closed spec fn sgr_spec(self) -> bool {
        self.sgr
    }

    pub closed spec fn utf8_spec(self) -> bool {
        self.utf8
    }

    pub open spec fn active_spec(self) -> bool {
        self.clicks_spec() || self.drag_spec() || self.motion_spec()
    }

    pub open spec fn protocol_spec(self) -> MouseProtocol {
        if self.sgr_spec() {
            MouseProtocol::Sgr
        } else if self.utf8_spec() {
            MouseProtocol::Utf8
        } else {
            MouseProtocol::Normal
        }
    }

    pub fn active(self) -> (r: bool)
        ensures
            r == self.active_spec(),
    {
        self.clicks || self.drag || self.motion
    }

    /// Button-down motion (1002 cell motion, or 1003 any motion).
    pub fn reports_drag(self) -> (r: bool)
        ensures
            r == (self.drag_spec() || self.motion_spec()),
    {
        self.drag || self.motion
    }

    /// Motion with no button (1003 only).
    pub fn reports_move(self) -> (r: bool)
        ensures
            r == self.motion_spec(),
    {
        self.motion
    }

    /// Bytes to write to the PTY, or `None` when this mode does not want `kind`.
    pub fn encode(self, col: usize, row: usize, kind: TermMouseKind, mods: TermMouseMods) -> (r:
        Option<Vec<u8>>)
        ensures
            match r {
                None => !self.active_spec() || (kind is Move && !self.motion_spec()) || (
                kind is Drag && !(self.drag_spec() || self.motion_spec())),
                Some(b) => self.active_spec() && !(kind is Move && !self.motion_spec()) && !(
                kind is Drag && !(self.drag_spec() || self.motion_spec())) && b@
                    == mouse_bytes_spec(self.protocol_spec(), col, row, kind, mods),
            },
    {
        if !self.active() {
            return None;
        }
        match kind {
            TermMouseKind::Move => {
                if !self.reports_move() {
                    return None;
                }
            },
            TermMouseKind::Drag(_) => {
                if !self.reports_drag() {
                    return None;
                }
            },
            _ => {},
        }
        let protocol = if self.sgr {
            MouseProtocol::Sgr
        } else if self.utf8 {
            MouseProtocol::Utf8
        } else {
            MouseProtocol::Normal
        };
        Some(encode_mouse_bytes(protocol, col, row, kind, mods))
    }
}

/// SGR reports of a press and its release differ only in the final byte.
pub proof fn sgr_release_differs_only_at_end(
    col: usize,
    row: usize,
    button: TermMouseButton,
    mods: TermMouseMods,
)
    ensures
        ({
            let down = mouse_bytes_spec(MouseProtocol::Sgr, col, row, TermMouseKind::Down(button), mods);
            let up = mouse_bytes_spec(MouseProtocol::Sgr, col, row, TermMouseKind::Up(button), mods);
            &&& down.len() == up.len()
            &&& down.drop_last() == up.drop_last()
            &&& down.last() == 0x4du8
            &&& up.last() == 0x6du8
        }),
{
    let down = mouse_bytes_spec(MouseProtocol::Sgr, col, row, TermMouseKind::Down(button), mods);
    let up = mouse_bytes_spec(MouseProtocol::Sgr, col, row, TermMouseKind::Up(button), mods);
    assert(down.drop_last() =~= up.drop_last());
}

pub open spec fn rgb(r: u8, g: u8, b: u8) -> [u8; 3] {
    [r, g, b]
}

/// The sixteen ANSI colors of the terminal palette.
pub open spec fn ansi16_spec(index: u8) -> [u8; 3] {
    let i = if index < 15 {
        index
    } else {
        15
    };
    if i == 0 {
        [0x1e, 0x1e, 0x1e]
    } else if i == 1 {
        [0xf4, 0x47, 0x47]
    } else if i == 2 {
        [0x3f, 0xb9, 0x50]
    } else if i == 3 {
        [0xd2, 0x99, 0x22]
    } else if i == 4 {
        [0x55, 0x99, 0xdd]
    } else if i == 5 {
        [0xd2, 0x6a, 0xc2]
    } else if i == 6 {
        [0x39, 0xc5, 0xcf]
    } else if i == 7 {
        [0xd0, 0xd0, 0xd0]
    } else if i == 8 {
        [0x80, 0x80, 0x80]
    } else if i == 9 {
        [0xff, 0x6b, 0x68]
    } else if i == 10 {
        [0x6b, 0xd4, 0x6b]
    } else if i == 11 {
        [0xf0, 0xc6, 0x74]
    } else if i == 12 {
        [0x79, 0xb8, 0xff]
    } else if i == 13 {
        [0xff, 0x7a, 0xd9]
    } else if i == 14 {
        [0x6e, 0xe7, 0xe7]
    } else {
        [0xff, 0xff, 0xff]
    }
}

/// One of the sixteen ANSI colors. Indices past 15 clamp to 15.
pub fn ansi16(index: u8) -> (c: [u8; 3])
    ensures
        c == ansi16_spec(index),
{
    let i = if index < 15 {
        index
    } else {
        15
    };
    if i == 0 {
        [0x1e, 0x1e, 0x1e]
    } else if i == 1 {
        [0xf4, 0x47, 0x47]
    } else if i == 2 {
        [0x3f, 0xb9, 0x50]
    } else if i == 3 {
        [0xd2, 0x99, 0x22]
    } else if i == 4 {
        [0x55, 0x99, 0xdd]
    } else if i == 5 {
        [0xd2, 0x6a, 0xc2]
    } else if i == 6 {
        [0x39, 0xc5, 0xcf]
    } else if i == 7 {
        [0xd0, 0xd0, 0xd0]
    } else if i == 8 {
        [0x80, 0x80, 0x80]
    } else if i == 9 {
        [0xff, 0x6b, 0x68]
    } else if i == 10 {
        [0x6b, 0xd4, 0x6b]
    } else if i == 11 {
        [0xf0, 0xc6, 0x74]
    } else if i == 12 {
        [0x79, 0xb8, 0xff]
    } else if i == 13 {
        [0xff, 0x7a, 0xd9]
    } else if i == 14 {
        [0x6e, 0xe7, 0xe7]
    } else {
        [0xff, 0xff, 0xff]
    }
}

pub open spec fn cube_level(n: int) -> int {
    if n == 0 {
        0
    } else {
        55 + 40 * n
    }
}

/// xterm 256-color palette: ANSI 16, the 6×6×6 cube, then 24 grays.
pub open spec fn indexed_color_spec(index: u8) -> [u8; 3] {
    if index < 16 {
        ansi16_spec(index)
    } else if index >= 232 {
        let v = (8 + 10 * (index - 232)) as u8;
        [v, v, v]
    } else {
        let cube = index - 16;
        [
            cube_level(cube / 36) as u8,
            cube_level((cube % 36) / 6) as u8,
            cube_level(cube % 6) as u8,
        ]
    }
}

fn level(n: u8) -> (r: u8)
    requires
        n < 6,
    ensures
        r == cube_level(n as int),
{
    if n == 0 {
        0
    } else {
        55 + 40 * n
    }
}

pub fn indexed_color(index: u8) -> (c: [u8; 3])
    ensures
        c == indexed_color_spec(index),
{
    if index < 16 {
        return ansi16(index);
    }
    if index >= 232 {
        let value = 8 + 10 * (index - 232);
        return [value, value, value];
    }
    let cube = index - 16;
    let r = cube / 36;
    let g = (cube % 36) / 6;
    let b = cube % 6;
    [level(r), level(g), level(b)]
}

/// Default foreground and background of the terminal canvas.
pub open spec fn default_fg() -> [u8; 3] {
    [0xe6, 0xe6, 0xe6]
}

pub open spec fn default_bg() -> [u8; 3] {
    [0x1e, 0x1e, 0x1e]
}

/// Palette entry a program asked for with an OSC color query: 0–255, then
/// 256 (foreground) and 257 (background).
pub fn rgb_for_index(index: usize) -> (c: [u8; 3])
    ensures
        c == (if index < 16 {
            ansi16_spec(index as u8)
        } else if index == 256 {
            default_fg()
        } else if index == 257 {
            default_bg()
        } else if index < 256 {
            indexed_color_spec(index as u8)
        } else {
            default_fg()
        }),
{
    if index < 16 {
        ansi16(index as u8)
    } else if index == 256 {
        [0xe6, 0xe6, 0xe6]
    } else if index == 257 {
        [0x1e, 0x1e, 0x1e]
    } else if index < 256 {
        indexed_color(index as u8)
    } else {
        [0xe6, 0xe6, 0xe6]
    }
}


/// What `str::to_lowercase` returns: the Unicode lowercase mapping of every
/// scalar.
pub uninterp spec fn unicode_lowercase(s: Seq<char>) -> Seq<char>;

/// `str::to_lowercase`. ASCII input maps letter by letter to ASCII lowercase.
#[verifier::external_body]
pub(crate) fn to_lowercase(s: &str) -> (r: String)
    ensures
        r@ == unicode_lowercase(s@),
        (forall|i: int| 0 <= i < s@.len() ==> (#[trigger] s@[i] as u32) < 0x80) ==> r@
            == lower_ascii(s@),
{
    s.to_lowercase()
}

/// A text in lowercase: ASCII text letter by letter, other text as
/// `str::to_lowercase` maps it.
pub open spec fn lowercase(s: Seq<char>) -> Seq<char> {
    if forall|i: int| 0 <= i < s.len() ==> (#[trigger] s[i] as u32) < 0x80 {
        lower_ascii(s)
    } else {
        unicode_lowercase(s)
    }
}

/// `s` in lowercase.
pub(crate) fn lower(s: &str) -> (r: String)
    ensures
        r@ == lowercase(s@),
{
    to_lowercase(s)
}

/// Key names after lowercasing; browser-style arrow names become short ones.
pub open spec fn normalized_key(lower: Seq<char>) -> Seq<char> {
    if lower == "arrowup"@ {
        "up"@
    } else if lower == "arrowdown"@ {
        "down"@
    } else if lower == "arrowleft"@ {
        "left"@
    } else if lower == "arrowright"@ {
        "right"@
    } else {
        lower
    }
}

fn normalize_key(key: &str) -> (r: String)
    ensures
        r@ == normalized_key(lowercase(key@)),
{
    let lower = lower(key);
    let l = lower.as_str();
    if str_eq(l, "arrowup") {
        "up".to_string()
    } else if str_eq(l, "arrowdown") {
        "down".to_string()
    } else if str_eq(l, "arrowleft") {
        "left".to_string()
    } else if str_eq(l, "arrowright") {
        "right".to_string()
    } else {
        lower
    }
}

/// Keys that only modify other keys.
pub open spec fn is_modifier_key(k: Seq<char>) -> bool {
    k == "control"@ || k == "shift"@ || k == "alt"@ || k == "meta"@ || k == "win"@ || k
        == "super"@
}

/// Ctrl chords the window keeps for itself.
pub open spec fn is_host_chord(k: Seq<char>) -> bool {
    k == "w"@ || k == "s"@ || k == "t"@ || k == "p"@ || k == "b"@ || k == "tab"@ || k == "v"@
}

/// The CSI final byte of an arrow key.
pub open spec fn arrow_letter(k: Seq<char>) -> Option<u8> {
    if k == "up"@ {
        Some(0x41u8)
    } else if k == "down"@ {
        Some(0x42u8)
    } else if k == "right"@ {
        Some(0x43u8)
    } else if k == "left"@ {
        Some(0x44u8)
    } else {
        None
    }
}

/// `ESC [ 1 ; m X` for Ctrl (m = 5) or Alt (m = 3) alone on an arrow key.
pub open spec fn modified_arrow_spec(k: Seq<char>, ctrl: bool, alt: bool) -> Option<Seq<u8>> {
    match arrow_letter(k) {
        None => None,
        Some(letter) => if ctrl && !alt {
            Some(seq![0x1bu8, 0x5bu8, 0x31u8, 0x3bu8, 0x35u8, letter])
        } else if !ctrl && alt {
            Some(seq![0x1bu8, 0x5bu8, 0x31u8, 0x3bu8, 0x33u8, letter])
        } else {
            None
        },
    }
}

fn modified_arrow(key: &str, ctrl: bool, alt: bool) -> (r: Option<Vec<u8>>)
    ensures
        match r {
            Some(v) => modified_arrow_spec(key@, ctrl, alt) == Some(v@),
            None => modified_arrow_spec(key@, ctrl, alt) is None,
        },
{
    let letter: u8 = if str_eq(key, "up") {
        0x41
    } else if str_eq(key, "down") {
        0x42
    } else if str_eq(key, "right") {
        0x43
    } else if str_eq(key, "left") {
        0x44
    } else {
        return None;
    };
    let modifier: u8 = if ctrl && !alt {
        0x35
    } else if !ctrl && alt {
        0x33
    } else {
        return None;
    };
    let v = vec![0x1bu8, 0x5bu8, 0x31u8, 0x3bu8, modifier, letter];
    proof {
        assert(v@ =~= seq![0x1bu8, 0x5bu8, 0x31u8, 0x3bu8, modifier, letter]);
    }
    Some(v)
}

/// A key name that is one ASCII character (one byte of UTF-8).
pub open spec fn single_ascii(k: Seq<char>) -> bool {
    k.len() == 1 && (k[0] as u32) < 0x80
}

/// The byte of a one-character ASCII key name.
pub open spec fn key_byte(k: Seq<char>) -> u8 {
    (k[0] as u32) as u8
}

pub open spec fn is_lower_byte(b: u8) -> bool {
    0x61 <= b <= 0x7a
}

/// `u8::to_ascii_uppercase`.
pub open spec fn upper_byte(b: u8) -> u8 {
    if is_lower_byte(b) {
        (b - 0x20) as u8
    } else {
        b
    }
}

/// Cursor keys: normal mode `ESC [ X`, application-cursor mode `ESC O X`.
pub open spec fn cursor_key(letter: u8, app_cursor: bool) -> Seq<u8> {
    if app_cursor {
        seq![0x1bu8, 0x4fu8, letter]
    } else {
        seq![0x1bu8, 0x5bu8, letter]
    }
}

/// Bytes for an unmodified (or Ctrl+Alt) key, after the chords above.
pub open spec fn plain_key_bytes(
    k: Seq<char>,
    key_char: Option<Seq<char>>,
    shift: bool,
    app_cursor: bool,
) -> Option<Seq<u8>> {
    if k == "enter"@ || k == "return"@ {
        Some(seq![0x0du8])
    } else if k == "tab"@ {
        Some(seq![0x09u8])
    } else if k == "escape"@ {
        Some(seq![0x1bu8])
    } else if k == "backspace"@ {
        Some(seq![0x7fu8])
    } else if k == "delete"@ {
        Some(seq![0x1bu8, 0x5bu8, 0x33u8, 0x7eu8])
    } else if k == "up"@ {
        Some(cursor_key(0x41u8, app_cursor))
    } else if k == "down"@ {
        Some(cursor_key(0x42u8, app_cursor))
    } else if k == "right"@ {
        Some(cursor_key(0x43u8, app_cursor))
    } else if k == "left"@ {
        Some(cursor_key(0x44u8, app_cursor))
    } else if k == "home"@ {
        Some(cursor_key(0x48u8, app_cursor))
    } else if k == "end"@ {
        Some(cursor_key(0x46u8, app_cursor))
    } else if k == "pageup"@ {
        Some(seq![0x1bu8, 0x5bu8, 0x35u8, 0x7eu8])
    } else if k == "pagedown"@ {
        Some(seq![0x1bu8, 0x5bu8, 0x36u8, 0x7eu8])
    } else if k == "space"@ {
        Some(seq![0x20u8])
    } else if key_char is Some && key_char->0.len() > 0 {
        Some(encode_utf8(key_char->0))
    } else if single_ascii(k) {
        Some(
            seq![
                if shift {
                    upper_byte(key_byte(k))
                } else {
                    key_byte(k)
                },
            ],
        )
    } else {
        None
    }
}

/// PTY bytes for a key whose name is already normalized (`k`).
pub open spec fn key_bytes(
    k: Seq<char>,
    key_char: Option<Seq<char>>,
    ctrl: bool,
    alt: bool,
    shift: bool,
    app_cursor: bool,
) -> Option<Seq<u8>> {
    if is_modifier_key(k) {
        None
    } else if ctrl && !alt && is_host_chord(k) {
        None
    } else if ctrl && !alt {
        if modified_arrow_spec(k, true, false) is Some {
            modified_arrow_spec(k, true, false)
        } else if single_ascii(k) && is_lower_byte(key_byte(k)) {
            Some(seq![(key_byte(k) - 0x60) as u8])
        } else {
            None
        }
    } else if alt && !ctrl {
        if modified_arrow_spec(k, false, true) is Some {
            modified_arrow_spec(k, false, true)
        } else if key_char is Some && key_char->0.len() > 0 {
            Some(seq![0x1bu8] + encode_utf8(key_char->0))
        } else if single_ascii(k) {
            Some(seq![0x1bu8, key_byte(k)])
        } else {
            None
        }
    } else {
        plain_key_bytes(k, key_char, shift, app_cursor)
    }
}

pub open spec fn opt_view(o: Option<&str>) -> Option<Seq<char>> {
    match o {
        Some(s) => Some(s@),
        None => None,
    }
}

fn utf8_bytes(s: &str) -> (r: Vec<u8>)
    ensures
        r@ == encode_utf8(s@),
{
    let mut out: Vec<u8> = Vec::new();
    append_bytes(&mut out, s.as_bytes());
    out
}

fn cursor_key_bytes(letter: u8, app_cursor: bool) -> (r: Vec<u8>)
    ensures
        r@ == cursor_key(letter, app_cursor),
{
    let v = if app_cursor {
        vec![0x1bu8, 0x4fu8, letter]
    } else {
        vec![0x1bu8, 0x5bu8, letter]
    };
    proof {
        assert(v@ =~= cursor_key(letter, app_cursor));
    }
    v
}

fn one_byte(b: u8) -> (r: Vec<u8>)
    ensures
        r@ == seq![b],
{
    let v = vec![b];
    proof {
        assert(v@ =~= seq![b]);
    }
    v
}

/// Bytes for an already-normalized key name `key`; see [`keystroke_to_bytes`].
pub fn key_to_bytes(
    key: &str,
    key_char: Option<&str>,
    ctrl: bool,
    alt: bool,
    shift: bool,
    app_cursor: bool,
) -> (r: Option<Vec<u8>>)
    ensures
        match r {
            Some(v) => key_bytes(key@, opt_view(key_char), ctrl, alt, shift, app_cursor) == Some(
                v@,
            ),
            None => key_bytes(key@, opt_view(key_char), ctrl, alt, shift, app_cursor) is None,
        },
{
    if str_eq(key, "control") || str_eq(key, "shift") || str_eq(key, "alt") || str_eq(key, "meta")
        || str_eq(key, "win") || str_eq(key, "super") {
        return None;
    }
    if ctrl && !alt && (str_eq(key, "w") || str_eq(key, "s") || str_eq(key, "t") || str_eq(key, "p")
        || str_eq(key, "b") || str_eq(key, "tab") || str_eq(key, "v")) {
        return None;
    }
    let k = chars_of(key);
    let one_ascii = k.len() == 1 && (k[0] as u32) < 0x80;
    proof {
        if one_ascii {
            assert(k@[0] as u32 == (k@[0] as u32) as u8);
        }
    }
    if ctrl && !alt {
        if let Some(bytes) = modified_arrow(key, true, false) {
            return Some(bytes);
        }
        if one_ascii {
            let c: u8 = (k[0] as u32) as u8;
            if 0x61 <= c && c <= 0x7a {
                let b = c & 0x1f;
                assert(0x61 <= c <= 0x7a ==> c & 0x1f == c - 0x60) by (bit_vector);
                let v = vec![b];
                proof {
                    assert(c == key_byte(key@));
                    assert(v@ =~= seq![(key_byte(key@) - 0x60) as u8]);
                }
                return Some(v);
            }
        }
        return None;
    }
    if alt && !ctrl {
        if let Some(bytes) = modified_arrow(key, false, true) {
            return Some(bytes);
        }
        if let Some(ch) = key_char {
            if !ch.is_empty() {
                let mut bytes = vec![0x1bu8];
                let tail = utf8_bytes(ch);
                append_bytes(&mut bytes, tail.as_slice());
                return Some(bytes);
            }
        }
        if one_ascii {
            let v = vec![0x1bu8, (k[0] as u32) as u8];
            proof {
                assert(v@ =~= seq![0x1bu8, key_byte(key@)]);
            }
            return Some(v);
        }
        return None;
    }
    let ghost expected = plain_key_bytes(key@, opt_view(key_char), shift, app_cursor);
    if str_eq(key, "enter") || str_eq(key, "return") {
        return Some(one_byte(0x0du8));
    }
    if str_eq(key, "tab") {
        return Some(one_byte(0x09u8));
    }
    if str_eq(key, "escape") {
        return Some(one_byte(0x1bu8));
    }
    if str_eq(key, "backspace") {
        return Some(one_byte(0x7fu8));
    }
    if str_eq(key, "delete") {
        let v = vec![0x1bu8, 0x5bu8, 0x33u8, 0x7eu8];
        proof {
            assert(v@ =~= seq![0x1bu8, 0x5bu8, 0x33u8, 0x7eu8]);
        }
        return Some(v);
    }
    if str_eq(key, "up") {
        return Some(cursor_key_bytes(0x41, app_cursor));
    }
    if str_eq(key, "down") {
        return Some(cursor_key_bytes(0x42, app_cursor));
    }
    if str_eq(key, "right") {
        return Some(cursor_key_bytes(0x43, app_cursor));
    }
    if str_eq(key, "left") {
        return Some(cursor_key_bytes(0x44, app_cursor));
    }
    if str_eq(key, "home") {
        return Some(cursor_key_bytes(0x48, app_cursor));
    }
    if str_eq(key, "end") {
        return Some(cursor_key_bytes(0x46, app_cursor));
    }
    if str_eq(key, "pageup") {
        let v = vec![0x1bu8, 0x5bu8, 0x35u8, 0x7eu8];
        proof {
            assert(v@ =~= seq![0x1bu8, 0x5bu8, 0x35u8, 0x7eu8]);
        }
        return Some(v);
    }
    if str_eq(key, "pagedown") {
        let v = vec![0x1bu8, 0x5bu8, 0x36u8, 0x7eu8];
        proof {
            assert(v@ =~= seq![0x1bu8, 0x5bu8, 0x36u8, 0x7eu8]);
        }
        return Some(v);
    }
    if str_eq(key, "space") {
        return Some(one_byte(0x20u8));
    }
    if let Some(ch) = key_char {
        if !ch.is_empty() {
            return Some(utf8_bytes(ch));
        }
    }
    if one_ascii {
        let mut c: u8 = (k[0] as u32) as u8;
        if shift && 0x61 <= c && c <= 0x7a {
            c = c - 0x20;
        }
        let v = vec![c];
        proof {
            assert(v@ =~= seq![
                if shift {
                    upper_byte(key_byte(key@))
                } else {
                    key_byte(key@)
                },
            ]);
        }
        return Some(v);
    }
    None
}

/// Map a keystroke to PTY bytes. Returns `None` for chords the host owns.
///
/// `app_cursor` is the terminal's application-cursor mode (fish, vim, less).
/// The key name is lowercased and `arrowup`-style names are shortened
/// before [`key_to_bytes`] decides.
pub fn keystroke_to_bytes(
    key: &str,
    key_char: Option<&str>,
    ctrl: bool,
    alt: bool,
    shift: bool,
    app_cursor: bool,
) -> (r: Option<Vec<u8>>)
    ensures
        match r {
            Some(v) => key_bytes(
                normalized_key(lowercase(key@)),
                opt_view(key_char),
                ctrl,
                alt,
                shift,
                app_cursor,
            ) == Some(v@),
            None => key_bytes(
                normalized_key(lowercase(key@)),
                opt_view(key_char),
                ctrl,
                alt,
                shift,
                app_cursor,
            ) is None,
        },
{
    let key = normalize_key(key);
    key_to_bytes(key.as_str(), key_char, ctrl, alt, shift, app_cursor)
}

/// Clipboard text as the shell should receive it: CRLF and lone CR become
/// LF, and ESC is dropped so the text cannot end a bracketed paste early.
pub open spec fn paste_text(s: Seq<char>) -> Seq<char>
    decreases s.len(),
{
    if s.len() == 0 {
        s
    } else if s[0] == '\r' && s.len() >= 2 && s[1] == '\n' {
        seq!['\n'] + paste_text(s.skip(2))
    } else if s[0] == '\r' {
        seq!['\n'] + paste_text(s.skip(1))
    } else if s[0] == '\u{1b}' {
        paste_text(s.skip(1))
    } else {
        seq![s[0]] + paste_text(s.skip(1))
    }
}

/// `ESC [ 200 ~`, which opens a bracketed paste.
pub open spec fn paste_start() -> Seq<u8> {
    seq![0x1bu8, 0x5bu8, 0x32u8, 0x30u8, 0x30u8, 0x7eu8]
}

/// `ESC [ 201 ~`, which closes it.
pub open spec fn paste_end() -> Seq<u8> {
    seq![0x1bu8, 0x5bu8, 0x32u8, 0x30u8, 0x31u8, 0x7eu8]
}

pub open spec fn paste_payload_spec(s: Seq<char>, bracketed: bool) -> Seq<u8> {
    if bracketed {
        paste_start() + encode_utf8(paste_text(s)) + paste_end()
    } else {
        encode_utf8(paste_text(s))
    }
}

fn paste_chars(text: &[char]) -> (r: Vec<char>)
    ensures
        r@ == paste_text(text@),
{
    let mut out: Vec<char> = Vec::new();
    let mut i: usize = 0;
    proof {
        assert(text@.skip(0) =~= text@);
        assert(out@ + paste_text(text@) =~= paste_text(text@));
    }
    while i < text.len()
        invariant
            i <= text@.len(),
            out@ + paste_text(text@.skip(i as int)) == paste_text(text@),
        decreases text.len() - i,
    {
        let c = text[i];
        let ghost rest = text@.skip(i as int);
        let ghost before = out@;
        proof {
            assert(rest[0] == c);
            if i + 1 < text.len() {
                assert(rest[1] == text@[i + 1]);
            }
        }
        if c == '\r' && i + 1 < text.len() && text[i + 1] == '\n' {
            proof {
                assert(rest.skip(2) =~= text@.skip(i + 2));
            }
            out.push('\n');
            i += 2;
            proof {
                assert(out@ + paste_text(text@.skip(i as int)) =~= before + paste_text(rest));
            }
        } else if c == '\r' {
            proof {
                assert(rest.skip(1) =~= text@.skip(i + 1));
            }
            out.push('\n');
            i += 1;
            proof {
                assert(out@ + paste_text(text@.skip(i as int)) =~= before + paste_text(rest));
            }
        } else if c == '\u{1b}' {
            proof {
                assert(rest.skip(1) =~= text@.skip(i + 1));
            }
            i += 1;
        } else {
            proof {
                assert(rest.skip(1) =~= text@.skip(i + 1));
            }
            out.push(c);
            i += 1;
            proof {
                assert(out@ + paste_text(text@.skip(i as int)) =~= before + paste_text(rest));
            }
        }
    }
    proof {
        assert(text@.skip(i as int) =~= Seq::<char>::empty());
        assert(out@ + Seq::<char>::empty() =~= out@);
    }
    out
}

/// Bytes for a clipboard paste. Bracketed mode wraps the text so fish and
/// readline insert it literally instead of running completions.
pub fn paste_payload(text: &str, bracketed: bool) -> (r: Vec<u8>)
    ensures
        r@ == paste_payload_spec(text@, bracketed),
{
    let cleaned = string_of(&paste_chars(&chars_of(text)));
    let body = utf8_bytes(cleaned.as_str());
    if !bracketed {
        return body;
    }
    let mut out = vec![0x1bu8, 0x5bu8, 0x32u8, 0x30u8, 0x30u8, 0x7eu8];
    append_bytes(&mut out, body.as_slice());
    let end = vec![0x1bu8, 0x5bu8, 0x32u8, 0x30u8, 0x31u8, 0x7eu8];
    append_bytes(&mut out, end.as_slice());
    proof {
        assert(end@ =~= paste_end());
        assert(out@ =~= paste_start() + encode_utf8(paste_text(text@)) + paste_end());
    }
    out
}

proof fn lemma_paste_text_no_escape(s: Seq<char>)
    ensures
        forall|i: int| 0 <= i < paste_text(s).len() ==> #[trigger] paste_text(s)[i] != '\u{1b}',
    decreases s.len(),
{
    if s.len() > 0 {
        let rest = if s[0] == '\r' && s.len() >= 2 && s[1] == '\n' {
            s.skip(2)
        } else {
            s.skip(1)
        };
        lemma_paste_text_no_escape(rest);
        let p = paste_text(s);
        let q = paste_text(rest);
        assert forall|i: int| 0 <= i < p.len() implies #[trigger] p[i] != '\u{1b}' by {
            if s[0] == '\u{1b}' {
                assert(p == q);
            } else {
                let head = if s[0] == '\r' {
                    '\n'
                } else {
                    s[0]
                };
                assert(p == seq![head] + q);
                if i > 0 {
                    assert(p[i] == q[i - 1]);
                }
            }
        }
    }
}

proof fn lemma_scalar_bytes_not_escape(c: u32)
    requires
        c != 0x1b,
    ensures
        forall|i: int| 0 <= i < encode_scalar(c).len() ==> #[trigger] encode_scalar(c)[i] != 0x1bu8,
{
    let w1 = leading_byte_width_1(c);
    let w2 = leading_byte_width_2(c);
    let w3 = leading_byte_width_3(c);
    let w4 = leading_byte_width_4(c);
    let l1 = last_continuation_byte(c);
    let l2 = second_last_continuation_byte(c);
    let l3 = third_last_continuation_byte(c);
    assert(c <= 0x7f && c != 0x1b ==> (c & 0x7f) as u8 != 0x1bu8) by (bit_vector);
    assert(0xC0 | ((c >> 6) & 0x1F) as u8 != 0x1bu8) by (bit_vector);
    assert(0xE0 | ((c >> 12) & 0x0F) as u8 != 0x1bu8) by (bit_vector);
    assert(0xF0 | ((c >> 18) & 0x7) as u8 != 0x1bu8) by (bit_vector);
    assert(0x80 | (c & 0x3F) as u8 != 0x1bu8) by (bit_vector);
    assert(0x80 | ((c >> 6) & 0x3F) as u8 != 0x1bu8) by (bit_vector);
    assert(0x80 | ((c >> 12) & 0x3F) as u8 != 0x1bu8) by (bit_vector);
}

proof fn lemma_utf8_no_escape(t: Seq<char>)
    requires
        forall|i: int| 0 <= i < t.len() ==> #[trigger] t[i] != '\u{1b}',
    ensures
        forall|i: int| 0 <= i < encode_utf8(t).len() ==> #[trigger] encode_utf8(t)[i] != 0x1bu8,
    decreases t.len(),
{
    if t.len() > 0 {
        assert(t[0] != '\u{1b}');
        vstd::utf8::char_u32_cast(t[0], t[0] as u32);
        vstd::utf8::char_u32_cast('\u{1b}', 0x1bu32);
        assert((t[0] as u32) != 0x1b);
        lemma_scalar_bytes_not_escape(t[0] as u32);
        assert forall|i: int| 0 <= i < t.drop_first().len() implies #[trigger] t.drop_first()[i]
            != '\u{1b}' by {
            assert(t.drop_first()[i] == t[i + 1]);
        }
        lemma_utf8_no_escape(t.drop_first());
        let head = encode_scalar(t[0] as u32);
        let tail = encode_utf8(t.drop_first());
        assert forall|i: int| 0 <= i < encode_utf8(t).len() implies #[trigger] encode_utf8(t)[i]
            != 0x1bu8 by {
            if i < head.len() {
                assert(encode_utf8(t)[i] == head[i]);
            } else {
                assert(encode_utf8(t)[i] == tail[i - head.len()]);
            }
        }
    }
}

/// A paste cannot carry an ESC byte of its own: the text is sent without
/// one, and in bracketed mode the only ESC bytes are those of the two
/// markers around it.
pub proof fn paste_carries_no_escape(text: Seq<char>)
    ensures
        forall|i: int|
            0 <= i < paste_payload_spec(text, false).len() ==> #[trigger] paste_payload_spec(
                text,
                false,
            )[i] != 0x1bu8,
        paste_payload_spec(text, true) == paste_start() + paste_payload_spec(text, false)
            + paste_end(),
{
    lemma_paste_text_no_escape(text);
    lemma_utf8_no_escape(paste_text(text));
}


/// Largest OSC 52 clipboard store the terminal accepts, in bytes.
pub const OSC52_MAX_BYTES: usize = 262144;

/// An OSC 52 copy is kept only up to [`OSC52_MAX_BYTES`] of text; a larger
/// one is dropped whole.
pub fn accepts_osc52_copy(text: &str) -> (r: bool)
    ensures
        r == (vstd::utf8::encode_utf8(text@).len() <= OSC52_MAX_BYTES),
{
    text.as_bytes().len() <= OSC52_MAX_BYTES
}

/// Number of the named foreground color in the terminal's color table.
pub const NAMED_FOREGROUND: u16 = 256;

/// Number of the named background color in the terminal's color table.
pub const NAMED_BACKGROUND: u16 = 257;

/// A cell color as the terminal grid stores it.
#[derive(Clone, Copy, Debug, PartialEq, Eq)]
pub enum CellColor {
    /// A named color, by its number: 0–15 the ANSI colors, then
    /// [`NAMED_FOREGROUND`], [`NAMED_BACKGROUND`] and the cursor and dim
    /// variants.
    Named(u16),
    /// A direct RGB color.
    Spec([u8; 3]),
    /// An entry of the 256-color palette.
    Indexed(u8),
}

/// Built-in value of a named color: the ANSI sixteen have one, the rest
/// follow the canvas defaults.
pub open spec fn named_default_spec(named: u16) -> Option<[u8; 3]> {
    if named < 16 {
        Some(ansi16_spec(named as u8))
    } else {
        None
    }
}

pub fn named_default(named: u16) -> (r: Option<[u8; 3]>)
    ensures
        r == named_default_spec(named),
{
    if named < 16 {
        Some(ansi16(named as u8))
    } else {
        None
    }
}

/// The RGB a cell is painted with, or `None` for the canvas default. The
/// default foreground of a foreground and the default background of a
/// background stay `None`; otherwise a color the program set in the
/// palette (`palette`, looked up for this color) wins over the built-in one.
pub open spec fn resolve_color_spec(color: CellColor, palette: Option<[u8; 3]>, foreground: bool) -> Option<
    [u8; 3],
> {
    match color {
        CellColor::Named(n) => if (n == NAMED_FOREGROUND && foreground) || (n == NAMED_BACKGROUND
            && !foreground) {
            None
        } else {
            match palette {
                Some(rgb) => Some(rgb),
                None => named_default_spec(n),
            }
        },
        CellColor::Spec(rgb) => Some(rgb),
        CellColor::Indexed(i) => match palette {
            Some(rgb) => Some(rgb),
            None => Some(indexed_color_spec(i)),
        },
    }
}

pub fn resolve_color(color: CellColor, palette: Option<[u8; 3]>, foreground: bool) -> (r: Option<[u8; 3]>)
    ensures
        r == resolve_color_spec(color, palette, foreground),
{
    match color {
        CellColor::Named(n) => {
            if (n == NAMED_FOREGROUND && foreground) || (n == NAMED_BACKGROUND && !foreground) {
                None
            } else {
                match palette {
                    Some(rgb) => Some(rgb),
                    None => named_default(n),
                }
            }
        },
        CellColor::Spec(rgb) => Some(rgb),
        CellColor::Indexed(i) => match palette {
            Some(rgb) => Some(rgb),
            None => Some(indexed_color(i)),
        },
    }
}


/// The arms a box-drawing character has, as bits N=1, E=2, S=4, W=8.
pub open spec fn box_arm_bits(ch: char) -> Option<u8> {
    match ch {
        '─' | '━' | '═' => Some(0b1010u8),
        '│' | '┃' | '║' => Some(0b0101u8),
        '┌' | '┍' | '┎' | '┏' | '╔' => Some(0b0110u8),
        '┐' | '┑' | '┒' | '┓' | '╗' => Some(0b1100u8),
        '└' | '┕' | '┖' | '┗' | '╚' => Some(0b0011u8),
        '┘' | '┙' | '┚' | '┛' | '╝' => Some(0b1001u8),
        '├' | '┝' | '┞' | '┟' | '┠' | '┡' | '┢' | '┣' | '╠' => Some(0b0111u8),
        '┤' | '┥' | '┦' | '┧' | '┨' | '┩' | '┪' | '┫' | '╣' => Some(0b1101u8),
        '┬' | '┭' | '┮' | '┯' | '┰' | '┱' | '┲' | '┳' | '╦' => Some(0b1110u8),
        '┴' | '┵' | '┶' | '┷' | '┸' | '┹' | '┺' | '┻' | '╩' => Some(0b1011u8),
        '┼' | '┽' | '┾' | '┿' | '╀' | '╁' | '╂' | '╃' | '╄' | '╅' | '╆' | '╇' | '╈' | '╉' | '╊' | '╋' | '╬' => Some(0b1111u8),
        '╴' | '╸' => Some(0b1000u8),
        '╵' | '╹' => Some(0b0001u8),
        '╶' | '╺' => Some(0b0010u8),
        '╷' | '╻' => Some(0b0100u8),
        '╼' => Some(0b1010u8),
        '╽' => Some(0b0101u8),
        _ => None,
    }
}

/// Stroke weight of a box-drawing character: 2 double, 1 heavy, 0 light.
/// Mixed-weight characters use the heavier common stroke.
pub open spec fn box_weight(ch: char) -> u8 {
    match ch {
        '═' | '║' | '╔' | '╗' | '╚' | '╝' | '╠' | '╣' | '╦' | '╩' | '╬' => 2u8,
        '━' | '┃' | '┏' | '┓' | '┗' | '┛' | '┣' | '┫' | '┳' | '┻' | '╋' => 1u8,
        _ => 0u8,
    }
}

/// Arms and weight of a box-drawing character the terminal draws itself
/// so that lines meet across cells; `None` for any other character.
pub fn box_arms(ch: char) -> (r: Option<(u8, u8)>)
    ensures
        r == match box_arm_bits(ch) {
            Some(a) => Some((a, box_weight(ch))),
            None => None,
        },
{
    let arms = match ch {
        '─' | '━' | '═' => Some(0b1010u8),
        '│' | '┃' | '║' => Some(0b0101u8),
        '┌' | '┍' | '┎' | '┏' | '╔' => Some(0b0110u8),
        '┐' | '┑' | '┒' | '┓' | '╗' => Some(0b1100u8),
        '└' | '┕' | '┖' | '┗' | '╚' => Some(0b0011u8),
        '┘' | '┙' | '┚' | '┛' | '╝' => Some(0b1001u8),
        '├' | '┝' | '┞' | '┟' | '┠' | '┡' | '┢' | '┣' | '╠' => Some(0b0111u8),
        '┤' | '┥' | '┦' | '┧' | '┨' | '┩' | '┪' | '┫' | '╣' => Some(0b1101u8),
        '┬' | '┭' | '┮' | '┯' | '┰' | '┱' | '┲' | '┳' | '╦' => Some(0b1110u8),
        '┴' | '┵' | '┶' | '┷' | '┸' | '┹' | '┺' | '┻' | '╩' => Some(0b1011u8),
        '┼' | '┽' | '┾' | '┿' | '╀' | '╁' | '╂' | '╃' | '╄' | '╅' | '╆' | '╇' | '╈' | '╉' | '╊' | '╋' | '╬' => Some(0b1111u8),
        '╴' | '╸' => Some(0b1000u8),
        '╵' | '╹' => Some(0b0001u8),
        '╶' | '╺' => Some(0b0010u8),
        '╷' | '╻' => Some(0b0100u8),
        '╼' => Some(0b1010u8),
        '╽' => Some(0b0101u8),
        _ => None,
    };
    let weight = match ch {
        '═' | '║' | '╔' | '╗' | '╚' | '╝' | '╠' | '╣' | '╦' | '╩' | '╬' => 2u8,
        '━' | '┃' | '┏' | '┓' | '┗' | '┛' | '┣' | '┫' | '┳' | '┻' | '╋' => 1u8,
        _ => 0u8,
    };
    match arms {
        Some(a) => Some((a, weight)),
        None => None,
    }
}

/// A cell the terminal paints as geometry rather than a font glyph: box
/// drawing, and the block elements U+2580–U+259F.
pub fn is_procedural_cell(ch: char) -> (r: bool)
    ensures
        r == (box_arm_bits(ch) is Some || ('\u{2580}' <= ch && ch <= '\u{259f}')),
{
    box_arms(ch).is_some() || ('\u{2580}' <= ch && ch <= '\u{259f}')
}


/// What a wide character leaves in the grid cell after it.
#[derive(Clone, Copy, Debug, PartialEq, Eq)]
pub enum Spacer {
    /// An ordinary cell.
    No,
    /// The second column of a wide character.
    Wide,
    /// Padding before a wide character that did not fit at the line end.
    LeadingWide,
}

/// One grid cell of a screen row as the terminal model reports it, with
/// its colors already resolved (see [`resolve_color`]).
#[derive(Clone, Debug, PartialEq, Eq)]
pub struct GridCell {
    pub c: char,
    /// Zero-width characters combined with `c`.
    pub zerowidth: Vec<char>,
    pub fg: Option<[u8; 3]>,
    pub bg: Option<[u8; 3]>,
    pub hidden: bool,
    pub inverse: bool,
    pub bold: bool,
    pub spacer: Spacer,
    /// Inside the current selection.
    pub selected: bool,
}

/// A span with its text as characters.
pub struct SpanView {
    pub text: Seq<char>,
    pub cells: nat,
    pub fg: Option<[u8; 3]>,
    pub bg: Option<[u8; 3]>,
    pub bold: bool,
    pub selected: bool,
}

pub open spec fn span_view(s: TermSpan) -> SpanView {
    SpanView { text: s.text@, cells: s.cells as nat, fg: s.fg, bg: s.bg, bold: s.bold, selected: s.selected }
}

pub open spec fn spans_view(v: Seq<TermSpan>) -> Seq<SpanView> {
    v.map_values(|s: TermSpan| span_view(s))
}

/// The text a cell paints: its character (a space when hidden or empty)
/// and the zero-width characters on it.
pub open spec fn cell_text(cell: GridCell) -> Seq<char> {
    let ch = if cell.hidden || cell.c == '\0' {
        ' '
    } else {
        cell.c
    };
    seq![ch] + cell.zerowidth@
}

/// Foreground and background a cell paints with: inverse video swaps them,
/// a default becoming the canvas default color.
pub open spec fn cell_colors(cell: GridCell) -> (Option<[u8; 3]>, Option<[u8; 3]>) {
    if cell.inverse {
        (
            Some(
                match cell.bg {
                    Some(c) => c,
                    None => default_bg(),
                },
            ),
            Some(
                match cell.fg {
                    Some(c) => c,
                    None => default_fg(),
                },
            ),
        )
    } else {
        (cell.fg, cell.bg)
    }
}

/// A blank cell joins the previous span when that span is a run of blank
/// cells with the same look; any other cell starts a span of its own, so a
/// glyph keeps its grid column.
pub open spec fn push_cell_spec(spans: Seq<SpanView>, cell: GridCell, selected: bool) -> Seq<SpanView> {
    let text = cell_text(cell);
    let (fg, bg) = cell_colors(cell);
    if text == seq![' '] && spans.len() > 0 && spans.last().text.len() > 0 && spans.last().text[0] == ' '
        && vstd::utf8::encode_utf8(spans.last().text).len() == spans.last().cells && spans.last().fg == fg
        && spans.last().bg == bg && spans.last().bold == cell.bold && spans.last().selected == selected {
        let last = spans.last();
        spans.update(
            spans.len() - 1,
            SpanView { text: last.text.push(' '), cells: last.cells + 1, ..last },
        )
    } else {
        spans.push(SpanView { text, cells: 1, fg, bg, bold: cell.bold, selected })
    }
}

/// The spans of one screen row. The column after a wide character widens
/// the span before it; padding before a wide character is never selected.
pub open spec fn row_spans_spec(cells: Seq<GridCell>) -> Seq<SpanView>
    decreases cells.len(),
{
    if cells.len() == 0 {
        Seq::empty()
    } else {
        let spans = row_spans_spec(cells.drop_last());
        let cell = cells.last();
        match cell.spacer {
            Spacer::Wide => if spans.len() > 0 {
                let last = spans.last();
                spans.update(spans.len() - 1, SpanView { cells: last.cells + 1, ..last })
            } else {
                push_cell_spec(spans, cell, false)
            },
            Spacer::LeadingWide => push_cell_spec(spans, cell, false),
            Spacer::No => push_cell_spec(spans, cell, cell.selected),
        }
    }
}

/// Grid columns the spans cover.
pub open spec fn span_columns(spans: Seq<SpanView>) -> nat
    decreases spans.len(),
{
    if spans.len() == 0 {
        0
    } else {
        span_columns(spans.drop_last()) + spans.last().cells
    }
}

proof fn lemma_total_cells_update(spans: Seq<SpanView>, s: SpanView)
    requires
        spans.len() > 0,
    ensures
        span_columns(spans.update(spans.len() - 1, s)) == span_columns(spans) - spans.last().cells + s.cells,
{
    assert(spans.update(spans.len() - 1, s).drop_last() =~= spans.drop_last());
}

/// Spans keep the grid: a row's spans cover exactly as many columns as the
/// row has cells, whatever the cells hold.
pub proof fn spans_preserve_grid_columns(cells: Seq<GridCell>)
    ensures
        span_columns(row_spans_spec(cells)) == cells.len(),
    decreases cells.len(),
{
    if cells.len() > 0 {
        let spans = row_spans_spec(cells.drop_last());
        spans_preserve_grid_columns(cells.drop_last());
        let cell = cells.last();
        if spans.len() > 0 {
            let last = spans.last();
            lemma_total_cells_update(spans, SpanView { cells: last.cells + 1, ..last });
            lemma_total_cells_update(spans, SpanView { text: last.text.push(' '), cells: last.cells + 1, ..last });
        }
        let pushed = spans.push(
            SpanView {
                text: cell_text(cell),
                cells: 1,
                fg: cell_colors(cell).0,
                bg: cell_colors(cell).1,
                bold: cell.bold,
                selected: false,
            },
        );
        assert(pushed.drop_last() =~= spans);
        let pushed2 = spans.push(
            SpanView {
                text: cell_text(cell),
                cells: 1,
                fg: cell_colors(cell).0,
                bg: cell_colors(cell).1,
                bold: cell.bold,
                selected: cell.selected,
            },
        );
        assert(pushed2.drop_last() =~= spans);
    }
}

fn cell_text_exec(cell: &GridCell) -> (r: String)
    ensures
        r@ == cell_text(*cell),
{
    let ch = if cell.hidden || cell.c == '\0' {
        ' '
    } else {
        cell.c
    };
    let mut v: Vec<char> = Vec::new();
    v.push(ch);
    let mut i: usize = 0;
    while i < cell.zerowidth.len()
        invariant
            i <= cell.zerowidth@.len(),
            v@ == seq![ch] + cell.zerowidth@.take(i as int),
        decreases cell.zerowidth.len() - i,
    {
        v.push(cell.zerowidth[i]);
        i += 1;
        proof {
            assert(cell.zerowidth@.take(i as int) =~= cell.zerowidth@.take(i - 1).push(cell.zerowidth@[i - 1]));
            assert(v@ =~= seq![ch] + cell.zerowidth@.take(i as int));
        }
    }
    proof {
        assert(cell.zerowidth@.take(i as int) =~= cell.zerowidth@);
    }
    string_of(&v)
}

fn cell_colors_exec(cell: &GridCell) -> (r: (Option<[u8; 3]>, Option<[u8; 3]>))
    ensures
        r == cell_colors(*cell),
{
    if cell.inverse {
        let fg_c = match cell.fg {
            Some(c) => c,
            None => [0xe6, 0xe6, 0xe6],
        };
        let bg_c = match cell.bg {
            Some(c) => c,
            None => [0x1e, 0x1e, 0x1e],
        };
        (Some(bg_c), Some(fg_c))
    } else {
        (cell.fg, cell.bg)
    }
}

fn same_color(a: Option<[u8; 3]>, b: Option<[u8; 3]>) -> (r: bool)
    ensures
        r == (a == b),
{
    match (a, b) {
        (Some(x), Some(y)) => {
            proof {
                if x[0] == y[0] && x[1] == y[1] && x[2] == y[2] {
                    assert(x =~= y);
                }
            }
            x[0] == y[0] && x[1] == y[1] && x[2] == y[2]
        },
        (None, None) => true,
        _ => false,
    }
}

/// Add one cell's paint to a row's spans.
pub fn push_cell(spans: &mut Vec<TermSpan>, cell: &GridCell, selected: bool)
    requires
        span_columns(spans_view(old(spans)@)) < usize::MAX,
        forall|k: int| 0 <= k < old(spans)@.len() ==> (#[trigger] old(spans)@[k]).cells <= span_columns(spans_view(old(spans)@)),
    ensures
        spans_view(final(spans)@) == push_cell_spec(spans_view(old(spans)@), *cell, selected),
{
    let text = cell_text_exec(cell);
    let (fg, bg) = cell_colors_exec(cell);
    let n = spans.len();
    let ghost sv = spans_view(spans@);
    let tv = chars_of(text.as_str());
    let is_space = tv.len() == 1 && tv[0] == ' ';
    proof {
        if tv@.len() == 1 && tv@[0] == ' ' {
            assert(tv@ =~= seq![' ']);
        }
    }
    if is_space && n > 0 {
        let last = &spans[n - 1];
        let lt = chars_of(last.text.as_str());
        proof {
            assert(sv.last() == span_view(spans@[n - 1]));
        }
        if lt.len() > 0 && lt[0] == ' ' && last.text.as_str().as_bytes().len() == last.cells && same_color(last.fg, fg)
            && same_color(last.bg, bg) && last.bold == cell.bold && last.selected == selected {
            proof {
                assert(span_columns(sv) == span_columns(sv.drop_last()) + sv.last().cells);
            }
            let mut grown: Vec<char> = lt;
            grown.push(' ');
            let merged = TermSpan {
                text: string_of(&grown),
                cells: last.cells + 1,
                fg: last.fg,
                bg: last.bg,
                bold: last.bold,
                selected: last.selected,
            };
            spans.set(n - 1, merged);
            proof {
                assert(spans_view(spans@) =~= push_cell_spec(sv, *cell, selected));
            }
            return;
        }
    }
    spans.push(TermSpan { text, cells: 1, fg, bg, bold: cell.bold, selected });
    proof {
        assert(spans_view(spans@) =~= push_cell_spec(sv, *cell, selected));
    }
}


proof fn lemma_span_within_total(spans: Seq<SpanView>, k: int)
    requires
        0 <= k < spans.len(),
    ensures
        spans[k].cells <= span_columns(spans),
    decreases spans.len(),
{
    if k < spans.len() - 1 {
        lemma_span_within_total(spans.drop_last(), k);
        assert(spans.drop_last()[k] == spans[k]);
    }
}

/// The spans of one screen row, left to right.
pub fn row_spans(cells: &[GridCell]) -> (r: Vec<TermSpan>)
    requires
        cells@.len() < usize::MAX,
    ensures
        spans_view(r@) == row_spans_spec(cells@),
        span_columns(spans_view(r@)) == cells@.len(),
{
    let mut spans: Vec<TermSpan> = Vec::new();
    let mut i: usize = 0;
    while i < cells.len()
        invariant
            i <= cells@.len(),
            cells@.len() < usize::MAX,
            spans_view(spans@) == row_spans_spec(cells@.take(i as int)),
        decreases cells.len() - i,
    {
        let ghost before = spans_view(spans@);
        proof {
            assert(cells@.take(i + 1).drop_last() =~= cells@.take(i as int));
            assert(cells@.take(i + 1).last() == cells@[i as int]);
            spans_preserve_grid_columns(cells@.take(i as int));
            assert forall|k: int| 0 <= k < spans@.len() implies (#[trigger] spans@[k]).cells <= span_columns(spans_view(spans@)) by {
                lemma_span_within_total(before, k);
                assert(before[k] == span_view(spans@[k]));
            }
        }
        let cell = &cells[i];
        match cell.spacer {
            Spacer::Wide => {
                let n = spans.len();
                if n > 0 {
                    let last = &spans[n - 1];
                    proof {
                        lemma_span_within_total(before, n - 1);
                        assert(before[n - 1] == span_view(spans@[n - 1]));
                    }
                    let widened = TermSpan {
                        text: string_of(&chars_of(last.text.as_str())),
                        cells: last.cells + 1,
                        fg: last.fg,
                        bg: last.bg,
                        bold: last.bold,
                        selected: last.selected,
                    };
                    spans.set(n - 1, widened);
                    proof {
                        assert(spans_view(spans@) =~= row_spans_spec(cells@.take(i + 1)));
                    }
                } else {
                    push_cell(&mut spans, cell, false);
                }
            },
            Spacer::LeadingWide => push_cell(&mut spans, cell, false),
            Spacer::No => push_cell(&mut spans, cell, cell.selected),
        }
        i += 1;
    }
    proof {
        assert(cells@.take(i as int) =~= cells@);
        spans_preserve_grid_columns(cells@);
    }
    spans
}

/// What a key press in a terminal pane does.
#[derive(Debug, PartialEq, Eq)]
pub enum TerminalKeyAction {
    /// Zoom the UI text in (Ctrl+Shift with `=` or `+`).
    ZoomInUi,
    /// Copy the selection to the clipboard.
    CopySelection,
    /// Paste the clipboard into the PTY.
    Paste,
    /// Scroll the viewport one page; `true` toward older output.
    ScrollPage(bool),
    /// Write these bytes to the PTY.
    Send(Vec<u8>),
    /// Leave the key to the rest of the window.
    Ignore,
}

pub enum KeyActionView {
    ZoomInUi,
    CopySelection,
    Paste,
    ScrollPage(bool),
    Send(Seq<u8>),
    Ignore,
}

pub open spec fn key_action_view(a: TerminalKeyAction) -> KeyActionView {
    match a {
        TerminalKeyAction::ZoomInUi => KeyActionView::ZoomInUi,
        TerminalKeyAction::CopySelection => KeyActionView::CopySelection,
        TerminalKeyAction::Paste => KeyActionView::Paste,
        TerminalKeyAction::ScrollPage(o) => KeyActionView::ScrollPage(o),
        TerminalKeyAction::Send(b) => KeyActionView::Send(b@),
        TerminalKeyAction::Ignore => KeyActionView::Ignore,
    }
}

/// The key handling of a terminal pane, in order: the UI zoom chord;
/// Ctrl/Cmd+C copies when there is a selection (otherwise it reaches the
/// shell as an interrupt); Ctrl/Cmd+V or Shift+Insert pastes (never with
/// Alt); Shift+PageUp/PageDown scroll the history; any other key is encoded
/// for the PTY, or ignored when it has no encoding. `platform` is Cmd.
pub open spec fn key_action_spec(
    key: Seq<char>,
    key_char: Option<Seq<char>>,
    control: bool,
    alt: bool,
    shift: bool,
    platform: bool,
    has_selection: bool,
    app_cursor: bool,
) -> KeyActionView {
    let k = lowercase(key);
    if control && shift && !alt && (k == "="@ || k == "+"@ || key_char == Some("+"@)) {
        KeyActionView::ZoomInUi
    } else if (control || platform) && !alt && k == "c"@ && has_selection {
        KeyActionView::CopySelection
    } else if !alt && ((control || platform) && k == "v"@ || shift && k == "insert"@) {
        KeyActionView::Paste
    } else if shift && !control && !alt && k == "pageup"@ {
        KeyActionView::ScrollPage(true)
    } else if shift && !control && !alt && k == "pagedown"@ {
        KeyActionView::ScrollPage(false)
    } else {
        match key_bytes(normalized_key(lowercase(key)), key_char, control, alt, shift, app_cursor) {
            Some(b) => KeyActionView::Send(b),
            None => KeyActionView::Ignore,
        }
    }
}

/// What a key press in a terminal pane does; see [`key_action_spec`].
/// `has_selection` says whether the screen holds selected text.
pub fn terminal_key_action(
    key: &str,
    key_char: Option<&str>,
    control: bool,
    alt: bool,
    shift: bool,
    platform: bool,
    has_selection: bool,
    app_cursor: bool,
) -> (r: TerminalKeyAction)
    ensures
        key_action_view(r) == key_action_spec(
            key@,
            opt_view(key_char),
            control,
            alt,
            shift,
            platform,
            has_selection,
            app_cursor,
        ),
{
    let lower = lower(key);
    let k = lower.as_str();
    proof {
        reveal_strlit("+");
    }
    if crate::editor::is_ui_zoom_in_chord(k, key_char, control, shift, alt) {
        proof {
            assert(opt_view(key_char) == Some("+"@) <==> (key_char is Some && key_char->0@ == "+"@));
        }
        return TerminalKeyAction::ZoomInUi;
    }
    proof {
        assert(opt_view(key_char) == Some("+"@) <==> (key_char is Some && key_char->0@ == "+"@));
    }
    if (control || platform) && !alt && str_eq(k, "c") && has_selection {
        return TerminalKeyAction::CopySelection;
    }
    if !alt && ((control || platform) && str_eq(k, "v") || shift && str_eq(k, "insert")) {
        return TerminalKeyAction::Paste;
    }
    if shift && !control && !alt {
        if str_eq(k, "pageup") {
            return TerminalKeyAction::ScrollPage(true);
        }
        if str_eq(k, "pagedown") {
            return TerminalKeyAction::ScrollPage(false);
        }
    }
    match keystroke_to_bytes(key, key_char, control, alt, shift, app_cursor) {
        Some(b) => TerminalKeyAction::Send(b),
        None => TerminalKeyAction::Ignore,
    }
}


// ---------------------------------------------------------------------
// The screen.

#[verifier::external_type_specification]
#[verifier::external_body]
#[verifier::reject_recursive_types(T)]
pub struct ExTerm<T>(Term<T>);

#[verifier::external_type_specification]
#[verifier::external_body]
pub struct ExEvent(Event);

#[verifier::external_type_specification]
#[verifier::external_body]
#[verifier::reject_recursive_types(T)]
pub struct ExRefCell<T: ?Sized>(RefCell<T>);

#[verifier::external_type_specification]
#[verifier::external_body]
#[verifier::reject_recursive_types(T)]
pub struct ExStdCell<T: ?Sized>(StdCell<T>);

#[verifier::external_type_specification]
#[verifier::external_body]
pub struct ExInstant(Instant);

#[verifier::external_type_specification]
#[verifier::external_body]
pub struct ExColor(Color);

/// Lines of history kept above the screen.
pub const SCROLLBACK_LINES: usize = 2000;

/// Rough cell size of the monospace font, used when a program asks for the
/// text area in pixels.
pub const CELL_WIDTH_PX: u16 = 8;
pub const CELL_HEIGHT_PX: u16 = 18;

/// What the terminal hands back between parser runs: replies for the PTY,
/// OSC 52 copies for the host clipboard, and the size last set.
struct Shared {
    replies: RefCell<Vec<u8>>,
    clipboard: RefCell<Vec<String>>,
    cols: StdCell<u16>,
    rows: StdCell<u16>,
}

/// Receives the terminal's events.
struct ReplyProxy {
    shared: Rc<Shared>,
}

impl EventListener for ReplyProxy {
    /// `alacritty_terminal`'s events: text for the PTY is kept as a reply, an
    /// OSC 52 copy is kept when [`accepts_osc52_copy`] allows it, palette and
    /// text-area queries are answered. Other events are not used.
    #[verifier::external_body]
    fn send_event(&self, event: Event) {
        let mut replies = self.shared.replies.borrow_mut();
        match event {
            Event::PtyWrite(text) => replies.extend(text.into_bytes()),
            Event::ClipboardStore(_, text) => if accepts_osc52_copy(&text) {
                self.shared.clipboard.borrow_mut().push(text);
            },
            Event::ColorRequest(index, format) => {
                let [r, g, b] = rgb_for_index(index);
                replies.extend(format(Rgb { r, g, b }).into_bytes());
            },
            Event::TextAreaSizeRequest(format) => replies.extend(format(WindowSize { num_lines: self.shared.rows.get(),
                num_cols: self.shared.cols.get(), cell_width: CELL_WIDTH_PX, cell_height: CELL_HEIGHT_PX }).into_bytes()),
            _ => {},
        }
    }
}

/// The escape-sequence parser that drives the terminal. Verus refuses a
/// declaration of `vte::ansi::Processor` (its parameter is bound by the
/// outside trait `Timeout`), so the parser is held here, out of Verus's
/// sight, and reached through its methods below.
#[verifier::external_body]
struct VtParser {
    processor: Processor<StdSyncHandler>,
}

impl VtParser {
    /// `Processor::new`.
    #[verifier::external_body]
    fn new() -> Self {
        VtParser { processor: Processor::new() }
    }

    /// `Processor::advance`: parse `bytes` into the terminal.
    #[verifier::external_body]
    fn advance(&mut self, term: &mut Term<ReplyProxy>, bytes: &[u8]) {
        self.processor.advance(term, bytes)
    }

    /// `StdSyncHandler::sync_timeout`: when an unfinished synchronized
    /// update is released.
    #[verifier::external_body]
    fn sync_deadline(&self) -> Option<Instant> {
        self.processor.sync_timeout().sync_timeout()
    }

    /// Whether that deadline has passed, by `Instant::now`.
    #[verifier::external_body]
    fn sync_expired(&self) -> bool {
        self.processor.sync_timeout().sync_timeout().is_some_and(|deadline| deadline <= Instant::now())
    }

    /// `Processor::stop_sync`: apply the held update now.
    #[verifier::external_body]
    fn stop_sync(&mut self, term: &mut Term<ReplyProxy>) {
        self.processor.stop_sync(term)
    }
}

/// `RefCell::new` and `Cell::new` for the shared reply state.
#[verifier::external_body]
fn new_shared(cols: u16, rows: u16) -> Rc<Shared> {
    Rc::new(Shared {
        replies: RefCell::new(Vec::new()),
        clipboard: RefCell::new(Vec::new()),
        cols: StdCell::new(cols),
        rows: StdCell::new(rows),
    })
}

/// `Cell::set` of the size queries are answered with.
#[verifier::external_body]
fn set_shared_size(shared: &Rc<Shared>, cols: u16, rows: u16) {
    shared.cols.set(cols);
    shared.rows.set(rows);
}

/// The replies gathered so far, taken out (`RefCell::borrow_mut`, `drain`).
#[verifier::external_body]
fn take_replies(shared: &Rc<Shared>) -> Vec<u8> {
    shared.replies.borrow_mut().drain(..).collect()
}

/// The clipboard copies gathered so far, taken out.
#[verifier::external_body]
fn take_copies(shared: &Rc<Shared>) -> Vec<String> {
    shared.clipboard.borrow_mut().drain(..).collect()
}

/// `Term::new` with `history` lines of scrollback, the kitty keyboard
/// protocol, and OSC 52 copy without paste.
#[verifier::external_body]
fn new_term(cols: usize, rows: usize, history: usize, shared: &Rc<Shared>) -> Term<ReplyProxy> {
    let config = Config { scrolling_history: history, kitty_keyboard: true, osc52: Osc52::OnlyCopy, ..Config::default() };
    Term::new(config, &TermSize::new(cols, rows), ReplyProxy { shared: Rc::clone(shared) })
}

/// `Term::resize`.
#[verifier::external_body]
fn resize_term(term: &mut Term<ReplyProxy>, cols: usize, rows: usize) {
    term.resize(TermSize::new(cols, rows))
}

/// Terminal modes a program turned on.
pub struct ModeFlags {
    pub app_cursor: bool,
    pub bracketed_paste: bool,
    pub alt_screen: bool,
    pub mouse_clicks: bool,
    pub mouse_drag: bool,
    pub mouse_motion: bool,
    pub sgr_mouse: bool,
    pub utf8_mouse: bool,
}

/// `Term::mode`, each flag read with `TermMode::contains`.
#[verifier::external_body]
fn term_modes(term: &Term<ReplyProxy>) -> ModeFlags {
    let m = *term.mode();
    ModeFlags {
        app_cursor: m.contains(TermMode::APP_CURSOR),
        bracketed_paste: m.contains(TermMode::BRACKETED_PASTE),
        alt_screen: m.contains(TermMode::ALT_SCREEN),
        mouse_clicks: m.contains(TermMode::MOUSE_REPORT_CLICK),
        mouse_drag: m.contains(TermMode::MOUSE_DRAG),
        mouse_motion: m.contains(TermMode::MOUSE_MOTION),
        sgr_mouse: m.contains(TermMode::SGR_MOUSE),
        utf8_mouse: m.contains(TermMode::UTF8_MOUSE),
    }
}

/// How to move the viewport through history.
pub enum ScrollRequest {
    /// Lines toward the live screen (positive) or into history (negative).
    Delta(i32),
    PageUp,
    PageDown,
    Bottom,
}

/// `Term::scroll_display`.
#[verifier::external_body]
fn scroll_term(term: &mut Term<ReplyProxy>, request: ScrollRequest) {
    term.scroll_display(match request {
        ScrollRequest::Delta(n) => Scroll::Delta(n),
        ScrollRequest::PageUp => Scroll::PageUp,
        ScrollRequest::PageDown => Scroll::PageDown,
        ScrollRequest::Bottom => Scroll::Bottom,
    })
}

/// `Grid::display_offset`: lines the viewport is scrolled into history.
#[verifier::external_body]
fn display_offset(term: &Term<ReplyProxy>) -> usize {
    term.grid().display_offset()
}

/// A selection anchored at viewport cell `(col, row)`, replacing any other
/// (`viewport_to_point`, `Selection::new`).
#[verifier::external_body]
fn start_selection(term: &mut Term<ReplyProxy>, col: usize, row: usize) {
    let point = viewport_to_point(term.grid().display_offset(), Point::new(row, Column(col)));
    term.selection = Some(Selection::new(SelectionType::Simple, point, Side::Left));
}

/// Move the end of the selection to viewport cell `(col, row)`
/// (`Selection::update`); nothing without a selection.
#[verifier::external_body]
fn extend_selection(term: &mut Term<ReplyProxy>, col: usize, row: usize) {
    let point = viewport_to_point(term.grid().display_offset(), Point::new(row, Column(col)));
    if let Some(selection) = term.selection.as_mut() {
        selection.update(point, Side::Right);
    }
}

/// Whether there is a selection.
#[verifier::external_body]
fn has_selection(term: &Term<ReplyProxy>) -> bool {
    term.selection.is_some()
}

/// Drop the selection.
#[verifier::external_body]
fn drop_selection(term: &mut Term<ReplyProxy>) {
    term.selection = None;
}

/// `Selection::is_empty`; true without a selection.
#[verifier::external_body]
fn selection_empty(term: &Term<ReplyProxy>) -> bool {
    term.selection.as_ref().is_none_or(Selection::is_empty)
}

/// `Term::selection_to_string`.
#[verifier::external_body]
fn selection_string(term: &Term<ReplyProxy>) -> Option<String> {
    term.selection_to_string()
}

/// A cell color as `alacritty_terminal` stores it, variant for variant.
#[verifier::external_body]
fn cell_color_of(color: Color) -> CellColor {
    match color {
        Color::Named(named) => CellColor::Named(named as u16),
        Color::Spec(rgb) => CellColor::Spec([rgb.r, rgb.g, rgb.b]),
        Color::Indexed(index) => CellColor::Indexed(index),
    }
}

/// Number of entries in the terminal's color table.
pub const PALETTE_ENTRIES: usize = 269;

/// A grid cell as the terminal stores it, before its colors are resolved.
pub struct RawCell {
    pub c: char,
    pub zerowidth: Vec<char>,
    pub fg: CellColor,
    pub bg: CellColor,
    pub hidden: bool,
    pub inverse: bool,
    pub bold: bool,
    pub wide_spacer: bool,
    pub leading_wide_spacer: bool,
    pub selected: bool,
}

/// The entry `index` of the terminal's color table (`Term::colors`), when a
/// program set it.
#[verifier::external_body]
fn palette_entry(term: &Term<ReplyProxy>, index: usize) -> Option<[u8; 3]>
    requires
        index < PALETTE_ENTRIES,
{
    term.colors()[index].map(|rgb| [rgb.r, rgb.g, rgb.b])
}

/// Which mouse reports, cursor keys and paste framing the PTY asked for, and
/// what it shows.
pub struct TermScreen {
    cols: usize,
    rows: usize,
    term: Term<ReplyProxy>,
    parser: VtParser,
    shared: Rc<Shared>,
}

/// The shape the cursor is drawn with.
#[derive(Clone, Copy, Debug, PartialEq, Eq)]
pub enum CursorShape {
    Block,
    Underline,
    Beam,
    HollowBlock,
    Hidden,
}

/// The cursor as the terminal's renderable content reports it: shape, grid
/// line, column, and the viewport's offset into history.
#[verifier::external_body]
fn cursor_state(term: &Term<ReplyProxy>) -> (CursorShape, i32, usize, usize) {
    let content = term.renderable_content();
    let shape = match content.cursor.shape {
        VtCursorShape::Block => CursorShape::Block,
        VtCursorShape::Underline => CursorShape::Underline,
        VtCursorShape::Beam => CursorShape::Beam,
        VtCursorShape::HollowBlock => CursorShape::HollowBlock,
        VtCursorShape::Hidden => CursorShape::Hidden,
    };
    (shape, content.cursor.point.line.0, content.display_offset, content.cursor.point.column.0)
}

impl TermScreen {
    /// Columns of the screen.
    pub closed spec fn width(&self) -> nat {
        self.cols as nat
    }

    /// Rows of the screen.
    pub closed spec fn height(&self) -> nat {
        self.rows as nat
    }

    /// A `cols` x `rows` screen (each at least 1) with
    /// [`SCROLLBACK_LINES`] of history.
    pub fn new(cols: usize, rows: usize) -> (s: Self)
        ensures
            s.width() == if cols < 1 { 1 } else { cols },
            s.height() == if rows < 1 { 1 } else { rows },
    {
        let cols = if cols < 1 { 1 } else { cols };
        let rows = if rows < 1 { 1 } else { rows };
        let shared = new_shared(#[verifier::truncate] (cols as u16), #[verifier::truncate] (rows as u16));
        let term = new_term(cols, rows, SCROLLBACK_LINES, &shared);
        TermScreen { cols, rows, term, parser: VtParser::new(), shared }
    }

    /// Columns of the screen.
    pub fn cols(&self) -> (r: usize)
        ensures
            r == self.width(),
    {
        self.cols
    }

    /// Rows of the screen.
    pub fn rows_count(&self) -> (r: usize)
        ensures
            r == self.height(),
    {
        self.rows
    }

    /// Ingest PTY bytes. Returns the replies the host must write back
    /// (device attributes, cursor position, palette); shells wait on these.
    pub fn feed(&mut self, bytes: &[u8]) -> (replies: Vec<u8>)
        ensures
            final(self).width() == old(self).width(),
            final(self).height() == old(self).height(),
    {
        self.parser.advance(&mut self.term, bytes);
        take_replies(&self.shared)
    }

    /// Deadline for an unfinished synchronized update (DECSET 2026).
    pub fn sync_deadline(&self) -> Option<Instant> {
        self.parser.sync_deadline()
    }

    /// Release a stalled synchronized update once its deadline passed, and
    /// return any replies it produced.
    pub fn stop_sync_if_expired(&mut self) -> (replies: Vec<u8>)
        ensures
            final(self).width() == old(self).width(),
            final(self).height() == old(self).height(),
    {
        if self.parser.sync_expired() {
            self.parser.stop_sync(&mut self.term);
        }
        take_replies(&self.shared)
    }

    /// Text OSC 52 copies asked the host to place on the clipboard; copies
    /// over [`OSC52_MAX_BYTES`] were dropped. OSC 52 paste is never answered.
    pub fn take_clipboard_stores(&self) -> Vec<String> {
        take_copies(&self.shared)
    }

    /// Resize to `cols` x `rows`, each at least 1; nothing happens when the
    /// size does not change.
    pub fn resize(&mut self, cols: usize, rows: usize)
        ensures
            final(self).width() == if cols < 1 { 1 } else { cols },
            final(self).height() == if rows < 1 { 1 } else { rows },
    {
        let cols = if cols < 1 { 1 } else { cols };
        let rows = if rows < 1 { 1 } else { rows };
        if cols == self.cols && rows == self.rows {
            return;
        }
        self.cols = cols;
        self.rows = rows;
        set_shared_size(&self.shared, #[verifier::truncate] (cols as u16), #[verifier::truncate] (rows as u16));
        resize_term(&mut self.term, cols, rows);
    }

    pub fn app_cursor(&self) -> bool {
        term_modes(&self.term).app_cursor
    }

    pub fn bracketed_paste(&self) -> bool {
        term_modes(&self.term).bracketed_paste
    }

    pub fn alt_screen(&self) -> bool {
        term_modes(&self.term).alt_screen
    }

    /// The mouse tracking the program in the PTY turned on (DECSET 1000,
    /// 1002, 1003, 1006, 1005).
    pub fn mouse_tracking(&self) -> MouseTracking {
        let m = term_modes(&self.term);
        MouseTracking::new(m.mouse_clicks, m.mouse_drag, m.mouse_motion, m.sgr_mouse, m.utf8_mouse)
    }

    /// Scroll the viewport by `lines`: negative into history (older),
    /// positive toward the live screen. Zero does nothing.
    pub fn scroll_by(&mut self, lines: i32)
        ensures
            final(self).width() == old(self).width(),
            final(self).height() == old(self).height(),
    {
        if lines == 0 {
            return;
        }
        scroll_term(&mut self.term, ScrollRequest::Delta(scroll_delta(lines)));
    }

    pub fn scroll_page(&mut self, older: bool)
        ensures
            final(self).width() == old(self).width(),
            final(self).height() == old(self).height(),
    {
        scroll_term(&mut self.term, if older { ScrollRequest::PageUp } else { ScrollRequest::PageDown });
    }

    pub fn scroll_to_bottom(&mut self)
        ensures
            final(self).width() == old(self).width(),
            final(self).height() == old(self).height(),
    {
        scroll_term(&mut self.term, ScrollRequest::Bottom);
    }

    /// Viewport cell `(col, row)` moved inside the screen.
    fn viewport_cell(&self, col: usize, row: usize) -> (r: (usize, usize))
        ensures
            r == clamp_cell(col, row, self.width(), self.height()),
    {
        let last_col = if self.cols > 0 { self.cols - 1 } else { 0 };
        let last_row = if self.rows > 0 { self.rows - 1 } else { 0 };
        let c = if col < last_col { col } else { last_col };
        let r = if row < last_row { row } else { last_row };
        (c, r)
    }

    /// Start a drag selection at viewport cell `(col, row)`, moved inside
    /// the screen.
    pub fn begin_selection(&mut self, col: usize, row: usize)
        ensures
            final(self).width() == old(self).width(),
            final(self).height() == old(self).height(),
    {
        let (c, r) = self.viewport_cell(col, row);
        start_selection(&mut self.term, c, r);
    }

    /// Move the end of the drag selection, or start one there when there
    /// is none.
    pub fn update_selection(&mut self, col: usize, row: usize)
        ensures
            final(self).width() == old(self).width(),
            final(self).height() == old(self).height(),
    {
        let (c, r) = self.viewport_cell(col, row);
        if has_selection(&self.term) {
            extend_selection(&mut self.term, c, r);
        } else {
            start_selection(&mut self.term, c, r);
        }
    }

    pub fn clear_selection(&mut self)
        ensures
            final(self).width() == old(self).width(),
            final(self).height() == old(self).height(),
    {
        drop_selection(&mut self.term);
    }

    /// Before a key goes to the PTY: drop the selection and scroll to the
    /// live screen. True when that changed what is shown.
    pub fn prepare_for_input(&mut self) -> bool {
        let changed = has_selection(&self.term) || display_offset(&self.term) != 0;
        self.clear_selection();
        self.scroll_to_bottom();
        changed
    }

    pub fn selection_is_empty(&self) -> bool {
        selection_empty(&self.term)
    }

    /// The selected text; `None` when nothing or only empty text is
    /// selected.
    pub fn selection_text(&self) -> (r: Option<String>)
        ensures
            r matches Some(t) ==> t@.len() > 0,
    {
        match selection_string(&self.term) {
            Some(t) => if chars_of(t.as_str()).len() > 0 {
                Some(t)
            } else {
                None
            },
            None => None,
        }
    }

    /// The character and zero-width characters of viewport cell `(col, row)`
    /// (`Grid` indexed at `viewport_to_point`, `Cell::zerowidth`).
    #[verifier::external_body]
    fn cell_glyph(&self, row: usize, col: usize) -> (char, Vec<char>)
        requires
            row < self.height(),
            col < self.width(),
    {
        let cell = &self.term.grid()[viewport_to_point(self.term.grid().display_offset(), Point::new(row, Column(col)))];
        (cell.c, cell.zerowidth().map(|z| z.to_vec()).unwrap_or_default())
    }

    /// The two colors of viewport cell `(col, row)`.
    #[verifier::external_body]
    fn cell_colors_at(&self, row: usize, col: usize) -> (CellColor, CellColor)
        requires
            row < self.height(),
            col < self.width(),
    {
        let cell = &self.term.grid()[viewport_to_point(self.term.grid().display_offset(), Point::new(row, Column(col)))];
        (cell_color_of(cell.fg), cell_color_of(cell.bg))
    }

    /// The flags of viewport cell `(col, row)`: hidden, inverse, bold, wide
    /// spacer, leading wide spacer (`Flags::contains`).
    #[verifier::external_body]
    fn cell_flags(&self, row: usize, col: usize) -> (bool, bool, bool, bool, bool)
        requires
            row < self.height(),
            col < self.width(),
    {
        let f = self.term.grid()[viewport_to_point(self.term.grid().display_offset(), Point::new(row, Column(col)))].flags;
        (f.contains(Flags::HIDDEN), f.contains(Flags::INVERSE), f.contains(Flags::BOLD),
         f.contains(Flags::WIDE_CHAR_SPACER), f.contains(Flags::LEADING_WIDE_CHAR_SPACER))
    }

    /// Whether viewport cell `(col, row)` is inside the selection
    /// (`Selection::to_range`, `SelectionRange::contains`).
    #[verifier::external_body]
    fn cell_selected(&self, row: usize, col: usize) -> bool
        requires
            row < self.height(),
            col < self.width(),
    {
        let point = viewport_to_point(self.term.grid().display_offset(), Point::new(row, Column(col)));
        self.term.selection.as_ref().and_then(|s| s.to_range(&self.term)).is_some_and(|r| r.contains(point))
    }

    /// The color table entry a cell color refers to, if any.
    fn palette_for(&self, color: CellColor) -> Option<[u8; 3]> {
        match color {
            CellColor::Named(n) => if (n as usize) < PALETTE_ENTRIES {
                palette_entry(&self.term, n as usize)
            } else {
                None
            },
            CellColor::Indexed(i) => palette_entry(&self.term, i as usize),
            CellColor::Spec(_) => None,
        }
    }

    /// Viewport cell `(col, row)` with its colors resolved.
    fn grid_cell(&self, row: usize, col: usize) -> (cell: GridCell)
        requires
            row < self.height(),
            col < self.width(),
    {
        let (c, zerowidth) = self.cell_glyph(row, col);
        let (fg, bg) = self.cell_colors_at(row, col);
        let (hidden, inverse, bold, wide, leading) = self.cell_flags(row, col);
        let spacer = if wide {
            Spacer::Wide
        } else if leading {
            Spacer::LeadingWide
        } else {
            Spacer::No
        };
        let selected = self.cell_selected(row, col);
        GridCell {
            c,
            zerowidth,
            fg: resolve_color(fg, self.palette_for(fg), true),
            bg: resolve_color(bg, self.palette_for(bg), false),
            hidden,
            inverse,
            bold,
            spacer,
            selected,
        }
    }

    /// The cells of viewport row `row`, one per column.
    pub fn grid_row(&self, row: usize) -> (cells: Vec<GridCell>)
        requires
            row < self.height(),
        ensures
            cells@.len() == self.width(),
    {
        let mut cells: Vec<GridCell> = Vec::new();
        let mut col: usize = 0;
        while col < self.cols
            invariant
                row < self.height(),
                col <= self.cols,
                cells@.len() == col,
            decreases self.cols - col,
        {
            cells.push(self.grid_cell(row, col));
            col += 1;
        }
        cells
    }

    /// The viewport, top to bottom, each row as spans (see [`row_spans`]).
    pub fn rows(&self) -> (r: Vec<TermRow>)
        requires
            self.width() < usize::MAX,
        ensures
            r@.len() == self.height(),
            forall|i: int| 0 <= i < r@.len() ==> span_columns(#[trigger] spans_view(r@[i].spans@)) == self.width(),
    {
        let mut out: Vec<TermRow> = Vec::new();
        let mut row: usize = 0;
        while row < self.rows
            invariant
                row <= self.rows,
                self.width() < usize::MAX,
                out@.len() == row,
                forall|i: int| 0 <= i < out@.len() ==> span_columns(#[trigger] spans_view(out@[i].spans@)) == self.width(),
            decreases self.rows - row,
        {
            let cells = self.grid_row(row);
            let spans = row_spans(&cells);
            out.push(TermRow { spans });
            row += 1;
        }
        out
    }

    /// Viewport row text, trailing blanks removed; `row` is 0 at the top.
    pub fn line_text(&self, row: usize) -> (r: Option<String>)
        requires
            self.width() < usize::MAX,
        ensures
            r is Some <==> row < self.height(),
    {
        line_text(&self.rows(), row)
    }

    /// Row text as [`TermScreen::line_text`] gives it, and grid cell
    /// `column` as a scalar column of it.
    pub fn line_text_and_char_column(&self, row: usize, column: usize) -> (r: Option<(String, usize)>)
        requires
            self.width() < usize::MAX,
        ensures
            r is Some ==> row < self.height(),
    {
        let rows = self.rows();
        if row >= rows.len() || !totals_fit(rows[row].spans.as_slice()) {
            return None;
        }
        line_text_and_char_column(&rows, row, column)
    }

    /// Select the scalars `start..end` of a visible row. False when the
    /// range is empty or lies outside the row's text.
    pub fn select_char_range(&mut self, row: usize, range: std::ops::Range<usize>) -> bool
        requires
            old(self).width() < usize::MAX,
    {
        let rows = self.rows();
        if row >= rows.len() || !totals_fit(rows[row].spans.as_slice()) {
            return false;
        }
        match char_range_cells(&rows, row, range.start, range.end) {
            Some((a, b)) => {
                self.begin_selection(a, row);
                self.update_selection(b, row);
                true
            },
            None => false,
        }
    }

    /// The text of every viewport row.
    pub fn visible_lines(&self) -> (r: Vec<String>)
        requires
            self.width() < usize::MAX,
        ensures
            r@.len() == self.height(),
    {
        let rows = self.rows();
        let mut out: Vec<String> = Vec::new();
        let mut i: usize = 0;
        while i < rows.len()
            invariant
                i <= rows@.len(),
                out@.len() == i,
            decreases rows.len() - i,
        {
            match line_text(&rows, i) {
                Some(t) => out.push(t),
                None => {},
            }
            i += 1;
        }
        out
    }

    /// The viewport's rows joined by newlines.
    pub fn visible_text(&self) -> String
        requires
            self.width() < usize::MAX,
    {
        let lines = self.visible_lines();
        let mut out: Vec<char> = Vec::new();
        let mut i: usize = 0;
        while i < lines.len()
            decreases lines.len() - i,
        {
            if i > 0 {
                out.push('\n');
            }
            let cs = chars_of(lines[i].as_str());
            let mut k: usize = 0;
            while k < cs.len()
                decreases cs.len() - k,
            {
                out.push(cs[k]);
                k += 1;
            }
            i += 1;
        }
        string_of(&out)
    }

    /// The visible cursor as `(row, column, shape)` in the viewport; `None`
    /// when it is hidden or scrolled out of view.
    pub fn cursor_cell(&self) -> (r: Option<(usize, usize, CursorShape)>)
        ensures
            r matches Some((row, col, shape)) ==> row < self.height() && col < self.width() && shape
                != CursorShape::Hidden,
    {
        let (shape, line, offset, column) = cursor_state(&self.term);
        let hidden = match shape {
            CursorShape::Hidden => true,
            _ => false,
        };
        if offset > 0x7fff_ffff || (line as i64) + (offset as i64) > 0x7fff_ffff {
            return None;
        }
        match viewport_cursor(hidden, line, offset, column, self.rows, self.cols) {
            Some((r, c)) => Some((r, c, shape)),
            None => None,
        }
    }
}

/// Size of a screen before the pane is measured.
pub const DEFAULT_COLS: usize = 80;
pub const DEFAULT_ROWS: usize = 24;

impl Default for TermScreen {
    fn default() -> (s: Self)
        ensures
            s.width() == DEFAULT_COLS,
            s.height() == DEFAULT_ROWS,
    {
        TermScreen::new(DEFAULT_COLS, DEFAULT_ROWS)
    }
}

/// Cell `(col, row)` moved inside a `cols` x `rows` screen.
pub open spec fn clamp_cell(col: usize, row: usize, cols: nat, rows: nat) -> (usize, usize) {
    let last_col: int = if cols > 0 { cols - 1 } else { 0 };
    let last_row: int = if rows > 0 { rows - 1 } else { 0 };
    (
        if col < last_col { col } else { last_col as usize },
        if row < last_row { row } else { last_row as usize },
    )
}

/// The scroll for `lines`: the viewport moves the other way round in
/// `alacritty_terminal`'s terms, and the most negative count saturates.
pub open spec fn scroll_delta_spec(lines: i32) -> i32 {
    if lines == i32::MIN {
        i32::MAX
    } else {
        (-lines) as i32
    }
}

pub fn scroll_delta(lines: i32) -> (r: i32)
    ensures
        r == scroll_delta_spec(lines),
{
    if lines == i32::MIN {
        i32::MAX
    } else {
        -lines
    }
}

/// Whether the cell and scalar totals of `spans` fit in a `usize`.
pub fn totals_fit(spans: &[TermSpan]) -> (r: bool)
    ensures
        r == (total_cells(spans@) <= usize::MAX && total_chars(spans@) <= usize::MAX),
{
    let mut cells: usize = 0;
    let mut chars: usize = 0;
    let mut i: usize = 0;
    proof {
        assert(spans@.take(0) =~= Seq::<TermSpan>::empty());
        lemma_totals_nonneg(spans@);
    }
    while i < spans.len()
        invariant
            i <= spans@.len(),
            cells == total_cells(spans@.take(i as int)),
            chars == total_chars(spans@.take(i as int)),
            0 <= total_cells(spans@) && 0 <= total_chars(spans@),
        decreases spans.len() - i,
    {
        proof {
            lemma_totals_split(spans@, i as int);
            lemma_totals_bound(spans@, i + 1);
        }
        let n = chars_of(spans[i].text.as_str()).len();
        if spans[i].cells > usize::MAX - cells || n > usize::MAX - chars {
            return false;
        }
        cells = cells + spans[i].cells;
        chars = chars + n;
        i += 1;
    }
    proof {
        assert(spans@.take(i as int) =~= spans@);
    }
    true
}

/// Lengths and first letters of the key names the encoder compares.
proof fn lemma_key_names()
    ensures
        "control"@.len() == 7 && "control"@[0] == 'c' && "control"@[1] == 'o',
        "shift"@.len() == 5 && "shift"@[0] == 's' && "shift"@[1] == 'h',
        "alt"@.len() == 3 && "alt"@[0] == 'a' && "alt"@[1] == 'l',
        "meta"@.len() == 4 && "meta"@[0] == 'm' && "meta"@[1] == 'e',
        "win"@.len() == 3 && "win"@[0] == 'w' && "win"@[1] == 'i',
        "super"@.len() == 5 && "super"@[0] == 's' && "super"@[1] == 'u',
        "enter"@.len() == 5 && "enter"@[0] == 'e' && "enter"@[1] == 'n',
        "return"@.len() == 6 && "return"@[0] == 'r' && "return"@[1] == 'e',
        "tab"@.len() == 3 && "tab"@[0] == 't' && "tab"@[1] == 'a',
        "escape"@.len() == 6 && "escape"@[0] == 'e' && "escape"@[1] == 's',
        "backspace"@.len() == 9 && "backspace"@[0] == 'b' && "backspace"@[1] == 'a',
        "delete"@.len() == 6 && "delete"@[0] == 'd' && "delete"@[1] == 'e',
        "up"@.len() == 2 && "up"@[0] == 'u' && "up"@[1] == 'p',
        "down"@.len() == 4 && "down"@[0] == 'd' && "down"@[1] == 'o',
        "right"@.len() == 5 && "right"@[0] == 'r' && "right"@[1] == 'i',
        "left"@.len() == 4 && "left"@[0] == 'l' && "left"@[1] == 'e',
        "home"@.len() == 4 && "home"@[0] == 'h' && "home"@[1] == 'o',
        "end"@.len() == 3 && "end"@[0] == 'e' && "end"@[1] == 'n',
        "pageup"@.len() == 6 && "pageup"@[0] == 'p' && "pageup"@[1] == 'a',
        "pagedown"@.len() == 8 && "pagedown"@[0] == 'p' && "pagedown"@[1] == 'a',
        "space"@.len() == 5 && "space"@[0] == 's' && "space"@[1] == 'p',
{
    reveal_strlit("control");
    reveal_strlit("shift");
    reveal_strlit("alt");
    reveal_strlit("meta");
    reveal_strlit("win");
    reveal_strlit("super");
    reveal_strlit("enter");
    reveal_strlit("return");
    reveal_strlit("tab");
    reveal_strlit("escape");
    reveal_strlit("backspace");
    reveal_strlit("delete");
    reveal_strlit("up");
    reveal_strlit("down");
    reveal_strlit("right");
    reveal_strlit("left");
    reveal_strlit("home");
    reveal_strlit("end");
    reveal_strlit("pageup");
    reveal_strlit("pagedown");
    reveal_strlit("space");
}

/// The named keys with bytes of their own.
pub open spec fn named_keys() -> Seq<Seq<char>> {
    seq![
        "enter"@, "tab"@, "escape"@, "backspace"@, "delete"@, "up"@, "down"@, "right"@, "left"@,
        "home"@, "end"@, "pageup"@, "pagedown"@, "space"@,
    ]
}

/// Unmodified named keys send distinct bytes, whichever cursor mode is on,
/// so the PTY can tell each of them from the others; Page Up and Page Down
/// are the VT220 sequences `ESC [ 5 ~` and `ESC [ 6 ~`.
#[verifier::rlimit(80)]
pub proof fn named_keys_send_distinct_bytes(i: int, j: int, app_cursor: bool)
    requires
        0 <= i < named_keys().len(),
        0 <= j < named_keys().len(),
        i != j,
    ensures
        key_bytes(named_keys()[i], None, false, false, false, app_cursor) is Some,
        key_bytes(named_keys()[i], None, false, false, false, app_cursor) != key_bytes(
            named_keys()[j],
            None,
            false,
            false,
            false,
            app_cursor,
        ),
        key_bytes("pageup"@, None, false, false, false, app_cursor) == Some(seq![0x1bu8, 0x5bu8, 0x35u8, 0x7eu8]),
        key_bytes("pagedown"@, None, false, false, false, app_cursor) == Some(seq![0x1bu8, 0x5bu8, 0x36u8, 0x7eu8]),
{
    lemma_key_names();
    let table = seq![
        seq![0x0du8],
        seq![0x09u8],
        seq![0x1bu8],
        seq![0x7fu8],
        seq![0x1bu8, 0x5bu8, 0x33u8, 0x7eu8],
        cursor_key(0x41u8, app_cursor),
        cursor_key(0x42u8, app_cursor),
        cursor_key(0x43u8, app_cursor),
        cursor_key(0x44u8, app_cursor),
        cursor_key(0x48u8, app_cursor),
        cursor_key(0x46u8, app_cursor),
        seq![0x1bu8, 0x5bu8, 0x35u8, 0x7eu8],
        seq![0x1bu8, 0x5bu8, 0x36u8, 0x7eu8],
        seq![0x20u8],
    ];
    assert forall|n: int| 0 <= n < 14 implies #[trigger] key_bytes(named_keys()[n], None, false, false, false, app_cursor)
        == Some(table[n]) by {
        let k = named_keys()[n];
        if n == 0 {
            assert(k == "enter"@);
        } else if n == 1 {
            assert(k == "tab"@);
        } else if n == 2 {
            assert(k == "escape"@);
        } else if n == 3 {
            assert(k == "backspace"@);
        } else if n == 4 {
            assert(k == "delete"@);
        } else if n == 5 {
            assert(k == "up"@);
        } else if n == 6 {
            assert(k == "down"@);
        } else if n == 7 {
            assert(k == "right"@);
        } else if n == 8 {
            assert(k == "left"@);
        } else if n == 9 {
            assert(k == "home"@);
        } else if n == 10 {
            assert(k == "end"@);
        } else if n == 11 {
            assert(k == "pageup"@);
        } else if n == 12 {
            assert(k == "pagedown"@);
        } else {
            assert(k == "space"@);
        }
    }
    assert(key_bytes(named_keys()[11], None, false, false, false, app_cursor) == Some(table[11]));
    assert(key_bytes(named_keys()[12], None, false, false, false, app_cursor) == Some(table[12]));
    assert(named_keys()[11] == "pageup"@);
    assert(named_keys()[12] == "pagedown"@);
    assert(key_bytes(named_keys()[i], None, false, false, false, app_cursor) == Some(table[i]));
    assert(key_bytes(named_keys()[j], None, false, false, false, app_cursor) == Some(table[j]));
    assert(table[i] != table[j]) by {
        assert(table[i].len() != table[j].len() || table[i].last() != table[j].last() || table[i][0] != table[j][0]
            || (table[i].len() >= 3 && table[i][2] != table[j][2]) || (table[i].len() >= 2 && table[i][1] != table[j][1]));
    }
}


/// Ctrl with a letter sends that letter's control byte (`a` is 1, `z` is
/// 26), except the letters the window keeps for its own chords; Alt with a
/// letter sends ESC and the letter.
pub proof fn ctrl_and_alt_letters(c: char, app_cursor: bool)
    requires
        'a' <= c <= 'z',
    ensures
        !(c == 'w' || c == 's' || c == 't' || c == 'p' || c == 'b' || c == 'v') ==> key_bytes(seq![c], None, true, false, false, app_cursor)
            == Some(seq![((c as u32) - 0x60) as u8]),
        (c == 'w' || c == 's' || c == 't' || c == 'p' || c == 'b' || c == 'v') ==> key_bytes(seq![c], None, true, false, false, app_cursor) is None,
        key_bytes(seq![c], None, false, true, false, app_cursor) == Some(seq![0x1bu8, c as u8]),
{
    lemma_key_names();
    reveal_strlit("w");
    reveal_strlit("s");
    reveal_strlit("t");
    reveal_strlit("p");
    reveal_strlit("b");
    reveal_strlit("v");
    assert("w"@ =~= seq!['w']);
    assert("s"@ =~= seq!['s']);
    assert("t"@ =~= seq!['t']);
    assert("p"@ =~= seq!['p']);
    assert("b"@ =~= seq!['b']);
    assert("v"@ =~= seq!['v']);
    let k = seq![c];
    assert(!is_modifier_key(k));
    assert(arrow_letter(k) is None);
    assert(single_ascii(k));
    assert(key_byte(k) == c as u8);
}

/// Cursor keys send `ESC [ X` normally and `ESC O X` in application-cursor
/// mode, with the same final byte in both.
pub proof fn cursor_keys_follow_the_cursor_mode(n: int)
    requires
        5 <= n <= 10,
    ensures
        ({
            let normal = key_bytes(named_keys()[n], None, false, false, false, false);
            let app = key_bytes(named_keys()[n], None, false, false, false, true);
            &&& normal is Some && app is Some
            &&& normal->0.len() == 3 && app->0.len() == 3
            &&& normal->0[0] == 0x1b && app->0[0] == 0x1b
            &&& normal->0[1] == 0x5b && app->0[1] == 0x4f
            &&& normal->0[2] == app->0[2]
        }),
{
    named_keys_send_distinct_bytes(n, if n == 5 { 6 } else { 5 }, false);
    named_keys_send_distinct_bytes(n, if n == 5 { 6 } else { 5 }, true);
    lemma_key_names();
    let k = named_keys()[n];
    if n == 5 {
        assert(k == "up"@);
    } else if n == 6 {
        assert(k == "down"@);
    } else if n == 7 {
        assert(k == "right"@);
    } else if n == 8 {
        assert(k == "left"@);
    } else if n == 9 {
        assert(k == "home"@);
    } else {
        assert(k == "end"@);
    }
}
} // verus!
