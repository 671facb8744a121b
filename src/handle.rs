//! Decisions of the terminal handle: where the view scrolls to show a search
//! match, where a search continues, how host codes map to selection
//! parameters, and the window size reported to the child.

use vstd::prelude::*;
use crate::grid_snapshot::{GridPoint, MatchRange};

verus! {

/// Grid line `line` is on screen when the view is scrolled `offset` lines
/// into history and shows `screen` lines.
pub open spec fn line_visible(line: int, offset: int, screen: int) -> bool {
    -offset <= line <= -offset + screen - 1
}

pub open spec fn clamp(v: int, lo: int, hi: int) -> int {
    if v < lo {
        lo
    } else if v > hi {
        hi
    } else {
        v
    }
}

/// The offset after the emulator scrolls the view by `delta` lines: it stays
/// between 0 (live output) and the history size.
pub open spec fn scrolled_offset(offset: int, delta: int, history: int) -> int {
    clamp(offset + delta, 0, history)
}

/// The scroll, in lines (positive into history), that brings a match
/// starting on grid line `line` into view: none when it is visible, else
/// what puts it near the middle of the screen, as far as the history allows.
pub open spec fn match_scroll(line: int, offset: int, screen: int, history: int) -> int {
    if line_visible(line, offset, screen) {
        0
    } else {
        clamp(-line + screen / 2, 0, history) - offset
    }
}

/// The scroll that shows a search match whose first line is `match_line`;
/// 0 when it is already on screen.
pub fn match_scroll_delta(match_line: i32, display_offset: usize, screen_lines: usize, history_size: usize) -> (r: i32)
    requires
        display_offset <= history_size <= i32::MAX,
        screen_lines <= i32::MAX,
    ensures
        r == match_scroll(match_line as int, display_offset as int, screen_lines as int, history_size as int),
{
    let offset = display_offset as i64;
    let screen = screen_lines as i64;
    let line = match_line as i64;
    let top_visible = -offset;
    let bottom_visible = top_visible + screen - 1;
    if line >= top_visible && line <= bottom_visible {
        return 0;
    }
    let mut target = -line + screen / 2;
    if target < 0 {
        target = 0;
    }
    if target > history_size as i64 {
        target = history_size as i64;
    }
    (target - offset) as i32
}

/// After the scroll that `match_scroll` asks for, a match inside the grid is
/// on screen, and asking again scrolls no further.
pub proof fn lemma_match_scroll_settles(line: int, offset: int, screen: int, history: int)
    requires
        0 <= offset <= history,
        screen >= 1,
        -history <= line < screen,
    ensures
        line_visible(line, scrolled_offset(offset, match_scroll(line, offset, screen, history), history), screen),
        match_scroll(line, scrolled_offset(offset, match_scroll(line, offset, screen, history), history), screen, history)
            == 0,
{
}

/// Where a search continues from the current match: its end going forward,
/// its start going back.
pub fn advance_origin(current: &MatchRange, forward: bool) -> (r: GridPoint)
    ensures
        r == if forward {
            current.end
        } else {
            current.start
        },
{
    if forward {
        current.end
    } else {
        current.start
    }
}

#[derive(Clone, Copy, Debug, PartialEq, Eq, Structural)]
pub enum SelectionSide {
    Left,
    Right,
}

#[derive(Clone, Copy, Debug, PartialEq, Eq, Structural)]
pub enum SelectionKind {
    Simple,
    Block,
    Semantic,
    Lines,
}

/// A host's side code: 0 is the left half of a cell, anything else the
/// right.
pub fn side_from_code(side: u8) -> (r: SelectionSide)
    ensures
        r == if side == 0 {
            SelectionSide::Left
        } else {
            SelectionSide::Right
        },
{
    if side == 0 {
        SelectionSide::Left
    } else {
        SelectionSide::Right
    }
}

/// A host's selection kind code: 1 block, 2 semantic, 3 lines, anything
/// else simple.
pub fn selection_kind_from_code(kind: u8) -> (r: SelectionKind)
    ensures
        r == if kind == 1 {
            SelectionKind::Block
        } else if kind == 2 {
            SelectionKind::Semantic
        } else if kind == 3 {
            SelectionKind::Lines
        } else {
            SelectionKind::Simple
        },
{
    match kind {
        1 => SelectionKind::Block,
        2 => SelectionKind::Semantic,
        3 => SelectionKind::Lines,
        _ => SelectionKind::Simple,
    }
}

/// The window size reported to the child through the PTY.
#[derive(Clone, Copy, Debug, PartialEq, Eq, Structural)]
pub struct WindowSize {
    pub ws_row: u16,
    pub ws_col: u16,
    pub ws_xpixel: u16,
    pub ws_ypixel: u16,
}

/// The window size for a grid of `cols` by `rows` cells of the given pixel
/// size; each field is 16 bits wide, so larger values wrap.
pub fn window_size(cols: u32, rows: u32, cell_width: u16, cell_height: u16) -> (r: WindowSize)
    ensures
        r.ws_row == rows % 0x1_0000,
        r.ws_col == cols % 0x1_0000,
        r.ws_xpixel == ((cols % 0x1_0000) * cell_width) % 0x1_0000,
        r.ws_ypixel == ((rows % 0x1_0000) * cell_height) % 0x1_0000,
{
    let ws_row = (rows % 0x1_0000) as u16;
    let ws_col = (cols % 0x1_0000) as u16;
    WindowSize {
        ws_row,
        ws_col,
        ws_xpixel: ws_col.wrapping_mul(cell_width),
        ws_ypixel: ws_row.wrapping_mul(cell_height),
    }
}

} // verus!
