//! Sparse, incrementally updated snapshots of the visible grid.
//!
//! The emulator's visible state is handed over as a `TermFrame`. A
//! `PersistentGrid` keeps the sparse cells of each row between snapshots, so
//! that only the rows reported as damaged are rebuilt.

use vstd::prelude::*;
use crate::color::{CellColor, ColorPalette, Rgb, NAMED_BACKGROUND, resolved, resolve_color};

verus! {

// Cell attribute bits as the emulator stores them.
pub const TERM_INVERSE: u16 = 0x001;
pub const TERM_BOLD: u16 = 0x002;
pub const TERM_ITALIC: u16 = 0x004;
pub const TERM_UNDERLINE: u16 = 0x008;
pub const TERM_WIDE_CHAR: u16 = 0x020;
pub const TERM_WIDE_CHAR_SPACER: u16 = 0x040;
pub const TERM_DIM: u16 = 0x080;
pub const TERM_HIDDEN: u16 = 0x100;
pub const TERM_STRIKEOUT: u16 = 0x200;

// Cell flag bits of a snapshot.
pub const CELL_BOLD: u16 = 0x001;
pub const CELL_ITALIC: u16 = 0x002;
pub const CELL_UNDERLINE: u16 = 0x004;
pub const CELL_STRIKEOUT: u16 = 0x008;
pub const CELL_DIM: u16 = 0x010;
pub const CELL_INVERSE: u16 = 0x020;
pub const CELL_WIDE_CHAR: u16 = 0x040;
pub const CELL_WIDE_CHAR_SPACER: u16 = 0x080;
pub const CELL_HIDDEN: u16 = 0x100;
pub const CELL_SELECTED: u16 = 0x200;
pub const CELL_SEARCH_MATCH: u16 = 0x400;

// Terminal mode bits.
pub const MODE_SHOW_CURSOR: u32 = 0x1;
pub const MODE_VI: u32 = 0x1_0000;

/// A grid position: `line` 0 is the top of the live screen, negative lines
/// are history.
#[derive(Clone, Copy, Debug, PartialEq, Eq, Structural)]
pub struct GridPoint {
    pub line: i32,
    pub column: usize,
}

/// One cell of the grid.
#[derive(Clone, Copy, Debug, PartialEq, Eq, Structural)]
pub struct GridCell {
    pub c: char,
    pub fg: CellColor,
    pub bg: CellColor,
    /// Attribute bits, `TERM_*`.
    pub flags: u16,
}

/// The selected region, from `start` to `end`; a block selection covers the
/// same columns on every line.
#[derive(Clone, Copy, Debug, PartialEq, Eq, Structural)]
pub struct SelectionRange {
    pub start: GridPoint,
    pub end: GridPoint,
    pub is_block: bool,
}

/// The current search match, `start` to `end` inclusive.
#[derive(Clone, Copy, Debug, PartialEq, Eq, Structural)]
pub struct MatchRange {
    pub start: GridPoint,
    pub end: GridPoint,
}

#[derive(Clone, Copy, Debug, PartialEq, Eq, Structural)]
pub enum CursorShape {
    Block,
    Underline,
    Beam,
    HollowBlock,
    Hidden,
}

impl CursorShape {
    pub open spec fn spec_code(self) -> u8 {
        match self {
            CursorShape::Block => 0,
            CursorShape::Underline => 1,
            CursorShape::Beam => 2,
            CursorShape::Hidden => 3,
            CursorShape::HollowBlock => 4,
        }
    }

    /// The shape's number in a snapshot.
    pub fn code(&self) -> (r: u8)
        ensures
            r == self.spec_code(),
    {
        match self {
            CursorShape::Block => 0,
            CursorShape::Underline => 1,
            CursorShape::Beam => 2,
            CursorShape::Hidden => 3,
            CursorShape::HollowBlock => 4,
        }
    }
}

/// The emulator's visible state at the time of a snapshot.
pub struct TermFrame {
    /// The visible rows, top to bottom: row `r` is grid line
    /// `r - display_offset`.
    pub lines: Vec<Vec<GridCell>>,
    pub cols: usize,
    /// How far the view is scrolled into history.
    pub display_offset: usize,
    /// Terminal mode bits, `MODE_*` among them.
    pub mode: u32,
    /// The grid cursor.
    pub cursor: GridPoint,
    /// The vi-mode cursor.
    pub vi_cursor: GridPoint,
    /// Attribute bits of the cell under the active cursor.
    pub cursor_cell_flags: u16,
    /// The shape of the cursor style.
    pub cursor_shape: CursorShape,
    /// The emulator's colour table.
    pub colors: Vec<Option<Rgb>>,
    pub selection: Option<SelectionRange>,
}

impl TermFrame {
    /// At least one row and one column, every row `cols` wide, the
    /// dimensions and the scroll offset within the snapshot's integer
    /// fields, cursors inside the grid's columns.
    pub open spec fn wf(&self) -> bool {
        &&& 1 <= self.lines@.len() <= i32::MAX
        &&& 1 <= self.cols <= u32::MAX
        &&& forall|r: int| 0 <= r < self.lines@.len() ==> (#[trigger] self.lines@[r])@.len() == self.cols
        &&& self.display_offset <= i32::MAX
        &&& self.cursor.column < self.cols
        &&& self.vi_cursor.column < self.cols
    }

    pub open spec fn rows(&self) -> nat {
        self.lines@.len()
    }

    /// Grid line shown at visible row `r`.
    pub open spec fn line_of_row(&self, r: int) -> int {
        r - self.display_offset
    }

    pub open spec fn line_cells(&self, r: int) -> Seq<GridCell> {
        self.lines@[r]@
    }
}

/// Per-cell record of a snapshot.
#[derive(Clone, Copy, Debug, PartialEq, Eq, Structural)]
pub struct ClaideCellData {
    pub row: u16,
    pub col: u16,
    pub codepoint: u32,
    pub fg_r: u8,
    pub fg_g: u8,
    pub fg_b: u8,
    pub bg_r: u8,
    pub bg_g: u8,
    pub bg_b: u8,
    /// `CELL_*` bits.
    pub flags: u16,
}

/// Cursor of a snapshot; `shape` is a `CursorShape` number.
#[derive(Clone, Copy, Debug, PartialEq, Eq, Structural)]
pub struct ClaideCursorInfo {
    pub row: u32,
    pub col: u32,
    pub shape: u8,
    pub visible: bool,
}

/// A snapshot of the visible grid: the non-trivial cells only, in row order.
pub struct ClaideGridSnapshot {
    pub cells: Vec<ClaideCellData>,
    pub cell_count: u32,
    pub rows: u32,
    pub cols: u32,
    pub cursor: ClaideCursorInfo,
    pub mode_flags: u32,
    pub padding_bg_r: u8,
    pub padding_bg_g: u8,
    pub padding_bg_b: u8,
}

pub open spec fn has_flag(flags: u16, bit: u16) -> bool {
    flags & bit == bit
}

fn flag_set(flags: u16, bit: u16) -> (r: bool)
    ensures
        r == has_flag(flags, bit),
{
    flags & bit == bit
}

/// `abi_bit` when the emulator's `term_bit` is set, else nothing.
pub open spec fn carried(flags: u16, term_bit: u16, abi_bit: u16) -> u16 {
    if has_flag(flags, term_bit) {
        abi_bit
    } else {
        0
    }
}

fn carried_exec(flags: u16, term_bit: u16, abi_bit: u16) -> (r: u16)
    ensures
        r == carried(flags, term_bit, abi_bit),
{
    if flag_set(flags, term_bit) {
        abi_bit
    } else {
        0
    }
}

/// The snapshot's bits for the emulator's attribute bits `flags`: each
/// `CELL_*` bit is set exactly when the matching `TERM_*` bit is.
pub open spec fn abi_flags(flags: u16) -> u16 {
    carried(flags, TERM_BOLD, CELL_BOLD) | carried(flags, TERM_ITALIC, CELL_ITALIC) | carried(
        flags,
        TERM_UNDERLINE,
        CELL_UNDERLINE,
    ) | carried(flags, TERM_STRIKEOUT, CELL_STRIKEOUT) | carried(flags, TERM_DIM, CELL_DIM)
        | carried(flags, TERM_INVERSE, CELL_INVERSE) | carried(flags, TERM_WIDE_CHAR, CELL_WIDE_CHAR)
        | carried(flags, TERM_WIDE_CHAR_SPACER, CELL_WIDE_CHAR_SPACER) | carried(
        flags,
        TERM_HIDDEN,
        CELL_HIDDEN,
    )
}

/// Maps the emulator's cell attribute bits to the snapshot's.
pub fn map_flags(flags: u16) -> (r: u16)
    ensures
        r == abi_flags(flags),
{
    carried_exec(flags, TERM_BOLD, CELL_BOLD) | carried_exec(flags, TERM_ITALIC, CELL_ITALIC) | carried_exec(
        flags,
        TERM_UNDERLINE,
        CELL_UNDERLINE,
    ) | carried_exec(flags, TERM_STRIKEOUT, CELL_STRIKEOUT) | carried_exec(flags, TERM_DIM, CELL_DIM)
        | carried_exec(flags, TERM_INVERSE, CELL_INVERSE) | carried_exec(
        flags,
        TERM_WIDE_CHAR,
        CELL_WIDE_CHAR,
    ) | carried_exec(flags, TERM_WIDE_CHAR_SPACER, CELL_WIDE_CHAR_SPACER) | carried_exec(
        flags,
        TERM_HIDDEN,
        CELL_HIDDEN,
    )
}

/// The colour shown behind the cell: its background, or its foreground when
/// INVERSE swaps them.
pub open spec fn effective_bg(cell: GridCell) -> CellColor {
    if has_flag(cell.flags, TERM_INVERSE) {
        cell.fg
    } else {
        cell.bg
    }
}

pub open spec fn spec_has_default_bg(cell: GridCell) -> bool {
    effective_bg(cell) == CellColor::Named(NAMED_BACKGROUND)
}

/// Whether the cell's effective background is the terminal default.
pub fn has_default_bg(cell: &GridCell) -> (r: bool)
    ensures
        r == spec_has_default_bg(*cell),
{
    let bg = if flag_set(cell.flags, TERM_INVERSE) {
        cell.fg
    } else {
        cell.bg
    };
    match bg {
        CellColor::Named(n) => n == NAMED_BACKGROUND,
        _ => false,
    }
}

/// `(l1, c1)` is at or before `(l2, c2)` in reading order.
pub open spec fn point_le(l1: int, c1: int, l2: int, c2: int) -> bool {
    l1 < l2 || (l1 == l2 && c1 <= c2)
}

pub open spec fn in_selection(sel: Option<SelectionRange>, line: int, col: int) -> bool {
    match sel {
        Some(s) => {
            &&& s.start.line <= line
            &&& s.end.line >= line
            &&& (s.start.column <= col || (s.start.line != line && !s.is_block))
            &&& (s.end.column >= col || (s.end.line != line && !s.is_block))
        },
        None => false,
    }
}

pub open spec fn in_match(m: Option<MatchRange>, line: int, col: int) -> bool {
    match m {
        Some(m) => point_le(m.start.line as int, m.start.column as int, line, col) && point_le(
            line,
            col,
            m.end.line as int,
            m.end.column as int,
        ),
        None => false,
    }
}

fn selection_contains(sel: &Option<SelectionRange>, line: i64, col: usize) -> (r: bool)
    ensures
        r == in_selection(*sel, line as int, col as int),
{
    match sel {
        Some(s) => {
            (s.start.line as i64) <= line && (s.end.line as i64) >= line && (s.start.column <= col || (
            (s.start.line as i64) != line && !s.is_block)) && (s.end.column >= col || ((s.end.line as i64)
                != line && !s.is_block))
        },
        None => false,
    }
}

fn match_contains(m: &Option<MatchRange>, line: i64, col: usize) -> (r: bool)
    ensures
        r == in_match(*m, line as int, col as int),
{
    match m {
        Some(m) => {
            let sl = m.start.line as i64;
            let el = m.end.line as i64;
            (sl < line || (sl == line && m.start.column <= col)) && (line < el || (line == el && col
                <= m.end.column))
        },
        None => false,
    }
}

pub open spec fn is_blank(c: char) -> bool {
    c as u32 == 0x20 || c as u32 == 0 || c as u32 == 0x7f
}

pub open spec fn is_wide(cell: GridCell) -> bool {
    cell.flags & (TERM_WIDE_CHAR | TERM_WIDE_CHAR_SPACER) != 0
}

/// A cell that a snapshot leaves out: blank, on the default background, not
/// selected, not in the search match, not part of a wide character.
pub open spec fn is_trivial(cell: GridCell, selected: bool, matched: bool) -> bool {
    is_blank(cell.c) && spec_has_default_bg(cell) && !selected && !matched && !is_wide(cell)
}

pub open spec fn halved(c: Rgb) -> Rgb {
    Rgb { r: c.r / 2, g: c.g / 2, b: c.b / 2 }
}

/// What a snapshot shows for a cell: its colours resolved (swapped under
/// INVERSE), the foreground halved under DIM, its attribute bits with
/// SELECTED and SEARCH_MATCH added.
pub open spec fn cell_record(
    cell: GridCell,
    row: int,
    col: int,
    selected: bool,
    matched: bool,
    colors: Seq<Option<Rgb>>,
    p: crate::color::PaletteView,
) -> ClaideCellData {
    let inverse = has_flag(cell.flags, TERM_INVERSE);
    let fg0 = if inverse {
        resolved(cell.bg, colors, true, p)
    } else {
        resolved(cell.fg, colors, true, p)
    };
    let bg = if inverse {
        resolved(cell.fg, colors, false, p)
    } else {
        resolved(cell.bg, colors, false, p)
    };
    let fg = if has_flag(cell.flags, TERM_DIM) {
        halved(fg0)
    } else {
        fg0
    };
    ClaideCellData {
        row: row as u16,
        col: col as u16,
        codepoint: cell.c as u32,
        fg_r: fg.r,
        fg_g: fg.g,
        fg_b: fg.b,
        bg_r: bg.r,
        bg_g: bg.g,
        bg_b: bg.b,
        flags: abi_flags(cell.flags) | (if selected {
            CELL_SELECTED
        } else {
            0
        }) | (if matched {
            CELL_SEARCH_MATCH
        } else {
            0
        }),
    }
}

/// The records of the non-trivial cells among the first `n` cells of
/// `line`, shown at visible row `row` and lying on grid line `line_no`.
pub open spec fn row_records(
    line: Seq<GridCell>,
    row: int,
    line_no: int,
    n: int,
    colors: Seq<Option<Rgb>>,
    p: crate::color::PaletteView,
    sel: Option<SelectionRange>,
    m: Option<MatchRange>,
) -> Seq<ClaideCellData>
    decreases n,
{
    if n <= 0 {
        seq![]
    } else {
        let earlier = row_records(line, row, line_no, n - 1, colors, p, sel, m);
        let col = n - 1;
        let selected = in_selection(sel, line_no, col);
        let matched = in_match(m, line_no, col);
        if is_trivial(line[col], selected, matched) {
            earlier
        } else {
            earlier.push(cell_record(line[col], row, col, selected, matched, colors, p))
        }
    }
}

/// The records of visible row `r` of `frame`.
pub open spec fn frame_row_records(
    frame: &TermFrame,
    p: crate::color::PaletteView,
    m: Option<MatchRange>,
    r: int,
) -> Seq<ClaideCellData> {
    row_records(
        frame.line_cells(r),
        r,
        frame.line_of_row(r),
        frame.cols as int,
        frame.colors@,
        p,
        frame.selection,
        m,
    )
}

/// Builds the sparse records of one grid row: only cells that are not
/// trivial, in column order.
pub fn process_row(
    grid_row: &[GridCell],
    row_idx: usize,
    cols: usize,
    line: i64,
    colors: &[Option<Rgb>],
    palette: &ColorPalette,
    selection_range: &Option<SelectionRange>,
    search_match: &Option<MatchRange>,
) -> (r: Vec<ClaideCellData>)
    requires
        cols <= grid_row@.len(),
    ensures
        r@ == row_records(
            grid_row@,
            row_idx as int,
            line as int,
            cols as int,
            colors@,
            palette@,
            *selection_range,
            *search_match,
        ),
{
    let mut cells: Vec<ClaideCellData> = Vec::new();
    let mut col_idx: usize = 0;
    while col_idx < cols
        invariant
            col_idx <= cols <= grid_row@.len(),
            cells@ == row_records(
                grid_row@,
                row_idx as int,
                line as int,
                col_idx as int,
                colors@,
                palette@,
                *selection_range,
                *search_match,
            ),
        decreases cols - col_idx,
    {
        let cell = &grid_row[col_idx];
        let selected = selection_contains(selection_range, line, col_idx);
        let is_search_match = match_contains(search_match, line, col_idx);
        let cp = cell.c as u32;
        let is_blank = cp == 0x20 || cp == 0x00 || cp == 0x7F;
        let is_wide = cell.flags & (TERM_WIDE_CHAR | TERM_WIDE_CHAR_SPACER) != 0;
        if !(is_blank && has_default_bg(cell) && !selected && !is_search_match && !is_wide) {
            let inverse = flag_set(cell.flags, TERM_INVERSE);
            let (mut fg, bg) = if inverse {
                (
                    resolve_color(&cell.bg, colors, true, palette),
                    resolve_color(&cell.fg, colors, false, palette),
                )
            } else {
                (
                    resolve_color(&cell.fg, colors, true, palette),
                    resolve_color(&cell.bg, colors, false, palette),
                )
            };
            if flag_set(cell.flags, TERM_DIM) {
                fg = Rgb { r: fg.r / 2, g: fg.g / 2, b: fg.b / 2 };
            }
            let sel_bit: u16 = if selected {
                CELL_SELECTED
            } else {
                0
            };
            let match_bit: u16 = if is_search_match {
                CELL_SEARCH_MATCH
            } else {
                0
            };
            let cell_flags = map_flags(cell.flags) | sel_bit | match_bit;
            cells.push(
                ClaideCellData {
                    row: row_idx as u16,
                    col: col_idx as u16,
                    codepoint: cp,
                    fg_r: fg.r,
                    fg_g: fg.g,
                    fg_b: fg.b,
                    bg_r: bg.r,
                    bg_g: bg.g,
                    bg_b: bg.b,
                    flags: cell_flags,
                },
            );
        }
        col_idx = col_idx + 1;
    }
    cells
}

/// The rows of a cache, joined in row order.
pub open spec fn concat_rows(rows: Seq<Seq<ClaideCellData>>) -> Seq<ClaideCellData>
    decreases rows.len(),
{
    if rows.len() == 0 {
        seq![]
    } else {
        concat_rows(rows.drop_last()) + rows.last()
    }
}

pub open spec fn record_views(rows: Seq<Vec<ClaideCellData>>) -> Seq<Seq<ClaideCellData>> {
    rows.map_values(|v: Vec<ClaideCellData>| v@)
}

/// Per-row cache of sparse records, kept between snapshots.
pub struct PersistentGrid {
    row_cells: Vec<Vec<ClaideCellData>>,
    total_cells: usize,
    grid_rows: usize,
    grid_cols: usize,
}

impl PersistentGrid {
    /// The cached records, row by row.
    pub closed spec fn cached_rows(&self) -> Seq<Seq<ClaideCellData>> {
        record_views(self.row_cells@)
    }

    /// The grid size, rows and columns, that the cache was built for.
    pub closed spec fn dims(&self) -> (nat, nat) {
        (self.grid_rows as nat, self.grid_cols as nat)
    }

    /// One cached row per grid row; the cell count is the sum of the rows'
    /// lengths.
    pub closed spec fn wf(&self) -> bool {
        &&& self.row_cells@.len() == self.grid_rows
        &&& self.total_cells == concat_rows(self.cached_rows()).len()
    }

    pub closed spec fn spec_total_cells(&self) -> nat {
        self.total_cells as nat
    }

    /// The cell count is the number of records that the cache holds.
    pub proof fn lemma_total_cells(&self)
        requires
            self.wf(),
        ensures
            self.spec_total_cells() == concat_rows(self.cached_rows()).len(),
            self.cached_rows().len() == self.dims().0,
    {
    }

    /// An empty cache, built for no grid yet.
    pub fn new() -> (r: Self)
        ensures
            r.wf(),
            r.cached_rows() == Seq::<Seq<ClaideCellData>>::empty(),
            r.dims() == (0nat, 0nat),
    {
        let r = Self { row_cells: Vec::new(), total_cells: 0, grid_rows: 0, grid_cols: 0 };
        assert(r.cached_rows() =~= Seq::<Seq<ClaideCellData>>::empty());
        r
    }

    /// Rows of the grid that the cache was built for.
    pub fn rows(&self) -> (r: usize)
        ensures
            r == self.dims().0,
    {
        self.grid_rows
    }

    /// Columns of the grid that the cache was built for.
    pub fn cols(&self) -> (r: usize)
        ensures
            r == self.dims().1,
    {
        self.grid_cols
    }

    /// Number of records in the cache.
    pub fn total_cells(&self) -> (r: usize)
        ensures
            r == self.spec_total_cells(),
    {
        self.total_cells
    }
}

/// Joins the rows' records in row order.
fn flatten_rows(rows: &Vec<Vec<ClaideCellData>>) -> (r: Vec<ClaideCellData>)
    ensures
        r@ == concat_rows(record_views(rows@)),
{
    let ghost views = record_views(rows@);
    let mut out: Vec<ClaideCellData> = Vec::new();
    let mut i: usize = 0;
    while i < rows.len()
        invariant
            i <= rows@.len(),
            views == record_views(rows@),
            out@ == concat_rows(views.subrange(0, i as int)),
        decreases rows@.len() - i,
    {
        let row = &rows[i];
        let ghost before = out@;
        let mut k: usize = 0;
        while k < row.len()
            invariant
                k <= row@.len(),
                out@ == before + row@.subrange(0, k as int),
            decreases row@.len() - k,
        {
            out.push(row[k]);
            assert(row@.subrange(0, k + 1) =~= row@.subrange(0, k as int).push(row@[k as int]));
            k = k + 1;
        }
        assert(row@.subrange(0, row@.len() as int) =~= row@);
        assert(views.subrange(0, i + 1).drop_last() =~= views.subrange(0, i as int));
        i = i + 1;
    }
    assert(views.subrange(0, rows@.len() as int) =~= views);
    out
}

pub open spec fn has_mode(mode: u32, bit: u32) -> bool {
    mode & bit == bit
}

/// The vi-mode cursor in vi mode, else the grid cursor.
pub open spec fn active_cursor(f: &TermFrame) -> GridPoint {
    if has_mode(f.mode, MODE_VI) {
        f.vi_cursor
    } else {
        f.cursor
    }
}

/// Row of the view on which the active cursor lies (possibly outside the
/// view).
pub open spec fn cursor_view_row(f: &TermFrame) -> int {
    active_cursor(f).line + f.display_offset
}

/// The cursor that a snapshot of `f` reports: the vi-mode cursor in vi mode,
/// else the grid cursor; moved one column left off a wide-character spacer;
/// its row relative to the top of the view. A cursor outside the view is
/// hidden and its row clamped to the nearest row of the view; outside vi
/// mode the cursor is also hidden when the terminal hides it.
pub open spec fn cursor_info(f: &TermFrame) -> ClaideCursorInfo {
    let vi = has_mode(f.mode, MODE_VI);
    let p = active_cursor(f);
    let col = if has_flag(f.cursor_cell_flags, TERM_WIDE_CHAR_SPACER) && p.column > 0 {
        p.column - 1
    } else {
        p.column as int
    };
    let row = cursor_view_row(f);
    let in_view = 0 <= row < f.rows();
    let shape = if !in_view || (!vi && !has_mode(f.mode, MODE_SHOW_CURSOR)) {
        CursorShape::Hidden
    } else {
        f.cursor_shape
    };
    ClaideCursorInfo {
        row: if row < 0 {
            0
        } else if row >= f.rows() {
            (f.rows() - 1) as u32
        } else {
            row as u32
        },
        col: col as u32,
        shape: shape.spec_code(),
        visible: shape.spec_code() != 3,
    }
}

/// The background behind the bottom-left visible cell.
pub open spec fn padding_bg(f: &TermFrame, p: crate::color::PaletteView) -> Rgb {
    resolved(effective_bg(f.line_cells(f.rows() - 1)[0]), f.colors@, false, p)
}

fn snapshot_cursor(frame: &TermFrame) -> (r: ClaideCursorInfo)
    requires
        frame.wf(),
    ensures
        r == cursor_info(frame),
{
    let vi = frame.mode & MODE_VI == MODE_VI;
    let mut point = if vi {
        frame.vi_cursor
    } else {
        frame.cursor
    };
    if flag_set(frame.cursor_cell_flags, TERM_WIDE_CHAR_SPACER) && point.column > 0 {
        point.column = point.column - 1;
    }
    let rows = frame.lines.len() as i64;
    let row = point.line as i64 + frame.display_offset as i64;
    let in_view = 0 <= row && row < rows;
    let shape = if !in_view || (!vi && frame.mode & MODE_SHOW_CURSOR != MODE_SHOW_CURSOR) {
        CursorShape::Hidden
    } else {
        frame.cursor_shape
    };
    let shape_id = shape.code();
    ClaideCursorInfo {
        row: if row < 0 {
            0
        } else if row >= rows {
            (rows - 1) as u32
        } else {
            row as u32
        },
        col: point.column as u32,
        shape: shape_id,
        visible: shape_id != 3,
    }
}

/// Row `r` of the cache after the rows listed in `damaged` were rebuilt
/// from `frame`, the others kept from `old_rows`.
pub open spec fn after_damage(
    frame: &TermFrame,
    p: crate::color::PaletteView,
    m: Option<MatchRange>,
    old_rows: Seq<Seq<ClaideCellData>>,
    damaged: Seq<usize>,
    r: int,
) -> Seq<ClaideCellData> {
    if damaged.contains(r as usize) {
        frame_row_records(frame, p, m, r)
    } else {
        old_rows[r]
    }
}

/// The rows that a snapshot rebuilds: all of them (`None`) when no damage
/// list is given or the grid size differs from the cache's, else the listed
/// ones.
pub open spec fn rebuilt_rows(cache_dims: (nat, nat), frame: &TermFrame, damaged_rows: Option<Vec<usize>>) -> Option<
    Seq<usize>,
> {
    if damaged_rows is None || cache_dims != (frame.rows(), frame.cols as nat) {
        None
    } else {
        Some(damaged_rows.unwrap()@)
    }
}

/// Row `r` of the cache after a snapshot of `frame` that rebuilt `rebuilt`.
pub open spec fn refreshed_row(
    frame: &TermFrame,
    p: crate::color::PaletteView,
    m: Option<MatchRange>,
    old_grid: &PersistentGrid,
    rebuilt: Option<Seq<usize>>,
    r: int,
) -> Seq<ClaideCellData> {
    match rebuilt {
        None => frame_row_records(frame, p, m, r),
        Some(damaged) => after_damage(frame, p, m, old_grid.cached_rows(), damaged, r),
    }
}

/// Takes a sparse snapshot of the visible grid, rebuilding only what is
/// needed: every row when `damaged_rows` is `None` or the grid size changed
/// since the last snapshot, else only the listed rows (indices past the last
/// row are ignored). The other rows keep their cached records.
pub fn take_snapshot_incremental(
    frame: &TermFrame,
    palette: &ColorPalette,
    search_match: Option<MatchRange>,
    grid: &mut PersistentGrid,
    damaged_rows: Option<Vec<usize>>,
) -> (snap: ClaideGridSnapshot)
    requires
        frame.wf(),
        old(grid).wf(),
    ensures
        final(grid).wf(),
        final(grid).dims() == (frame.rows(), frame.cols as nat),
        final(grid).cached_rows().len() == frame.rows(),
        forall|r: int|
            0 <= r < frame.rows() ==> #[trigger] final(grid).cached_rows()[r] == refreshed_row(
                frame,
                palette@,
                search_match,
                old(grid),
                rebuilt_rows(old(grid).dims(), frame, damaged_rows),
                r,
            ),
        snap.cells@ == concat_rows(final(grid).cached_rows()),
        snap.cell_count == #[verifier::truncate] (snap.cells@.len() as u32),
        snap.rows == frame.rows() as u32,
        snap.cols == frame.cols as u32,
        snap.cursor == cursor_info(frame),
        snap.cursor.row < snap.rows,
        snap.cursor.col < snap.cols,
        snap.mode_flags == frame.mode,
        crate::color::rgb(snap.padding_bg_r, snap.padding_bg_g, snap.padding_bg_b) == padding_bg(frame, palette@),
{
    let rows = frame.lines.len();
    let cols = frame.cols;
    let offset = frame.display_offset;
    let colors = frame.colors.as_slice();
    let ghost p = palette@;

    let last_cell = &frame.lines[rows - 1][0];
    let padding = if flag_set(last_cell.flags, TERM_INVERSE) {
        resolve_color(&last_cell.fg, colors, false, palette)
    } else {
        resolve_color(&last_cell.bg, colors, false, palette)
    };

    let dimensions_changed = grid.grid_rows != rows || grid.grid_cols != cols;
    let ghost old_rows = grid.cached_rows();
    let ghost rebuilt = rebuilt_rows(grid.dims(), frame, damaged_rows);
    match damaged_rows {
        Some(damaged) if !dimensions_changed => {
            let mut k: usize = 0;
            while k < damaged.len()
                invariant
                    k <= damaged@.len(),
                    frame.wf(),
                    rows == frame.rows(),
                    cols == frame.cols,
                    offset == frame.display_offset,
                    colors@ == frame.colors@,
                    p == palette@,
                    grid.row_cells@.len() == rows,
                    grid.grid_rows == rows,
                    grid.grid_cols == cols,
                    old_rows.len() == rows,
                    forall|r: int|
                        0 <= r < rows ==> #[trigger] grid.cached_rows()[r] == after_damage(
                            frame,
                            p,
                            search_match,
                            old_rows,
                            damaged@.subrange(0, k as int),
                            r,
                        ),
                decreases damaged@.len() - k,
            {
                let row_idx = damaged[k];
                let ghost prev = grid.row_cells@;
                let ghost prev_rows = grid.cached_rows();
                assert(prev_rows == record_views(prev));
                if row_idx < rows {
                    let line = (row_idx as i64) - (offset as i64);
                    let new_row = process_row(
                        frame.lines[row_idx].as_slice(),
                        row_idx,
                        cols,
                        line,
                        colors,
                        palette,
                        &frame.selection,
                        &search_match,
                    );
                    let ghost added = new_row@;
                    grid.row_cells.set(row_idx, new_row);
                    assert(grid.cached_rows() =~= record_views(prev).update(row_idx as int, added));
                }
                proof {
                    let next = damaged@.subrange(0, k + 1);
                    assert forall|r: int| 0 <= r < rows implies #[trigger] grid.cached_rows()[r]
                        == after_damage(frame, p, search_match, old_rows, next, r) by {
                        let before = damaged@.subrange(0, k as int);
                        assert(prev_rows[r] == after_damage(frame, p, search_match, old_rows, before, r));
                        if r == row_idx as int {
                            assert(grid.cached_rows()[r] == frame_row_records(frame, p, search_match, r));
                        } else {
                            assert(grid.cached_rows()[r] == prev_rows[r]);
                        }
                        assert(next =~= before.push(damaged@[k as int]));
                        assert(next.contains(r as usize) <==> (before.contains(r as usize) || damaged@[k as int]
                            == r as usize)) by {
                            if before.contains(r as usize) {
                                let j = choose|j: int| 0 <= j < before.len() && before[j] == r as usize;
                                assert(next[j] == r as usize);
                            }
                            if damaged@[k as int] == r as usize {
                                assert(next[k as int] == r as usize);
                            }
                            if next.contains(r as usize) {
                                let j = choose|j: int| 0 <= j < next.len() && next[j] == r as usize;
                                if j < k {
                                    assert(before[j] == r as usize);
                                }
                            }
                        }
                    }
                }
                k = k + 1;
            }
            assert(damaged@.subrange(0, damaged@.len() as int) =~= damaged@);
            assert(rebuilt == Some(damaged@));
            assert forall|r: int| 0 <= r < rows implies #[trigger] grid.cached_rows()[r] == refreshed_row(
                frame,
                p,
                search_match,
                old(grid),
                rebuilt,
                r,
            ) by {}
        },
        _ => {
            let mut fresh: Vec<Vec<ClaideCellData>> = Vec::new();
            let mut row_idx: usize = 0;
            while row_idx < rows
                invariant
                    row_idx <= rows,
                    frame.wf(),
                    rows == frame.rows(),
                    cols == frame.cols,
                    offset == frame.display_offset,
                    colors@ == frame.colors@,
                    p == palette@,
                    fresh@.len() == row_idx,
                    forall|r: int|
                        0 <= r < row_idx ==> #[trigger] record_views(fresh@)[r] == frame_row_records(
                            frame,
                            p,
                            search_match,
                            r,
                        ),
                decreases rows - row_idx,
            {
                let line = (row_idx as i64) - (offset as i64);
                let new_row = process_row(
                    frame.lines[row_idx].as_slice(),
                    row_idx,
                    cols,
                    line,
                    colors,
                    palette,
                    &frame.selection,
                    &search_match,
                );
                let ghost before = fresh@;
                let ghost added = new_row@;
                fresh.push(new_row);
                assert(record_views(fresh@) =~= record_views(before).push(added));
                row_idx = row_idx + 1;
            }
            grid.row_cells = fresh;
            grid.grid_rows = rows;
            grid.grid_cols = cols;
            assert(rebuilt is None);
            assert forall|r: int| 0 <= r < rows implies #[trigger] grid.cached_rows()[r] == refreshed_row(
                frame,
                p,
                search_match,
                old(grid),
                rebuilt,
                r,
            ) by {
                assert(grid.cached_rows()[r] == record_views(fresh@)[r]);
            }
        },
    }

    let ghost new_rows = grid.cached_rows();
    let cells = flatten_rows(&grid.row_cells);
    grid.total_cells = cells.len();
    assert(grid.cached_rows() == new_rows);
    let cell_count = #[verifier::truncate] (cells.len() as u32);
    ClaideGridSnapshot {
        cells,
        cell_count,
        rows: rows as u32,
        cols: cols as u32,
        cursor: snapshot_cursor(frame),
        mode_flags: frame.mode,
        padding_bg_r: padding.r,
        padding_bg_g: padding.g,
        padding_bg_b: padding.b,
    }
}

proof fn lemma_blank_row(
    line: Seq<GridCell>,
    row: int,
    line_no: int,
    n: int,
    colors: Seq<Option<Rgb>>,
    p: crate::color::PaletteView,
)
    requires
        n <= line.len(),
        forall|c: int| 0 <= c < n ==> is_blank((#[trigger] line[c]).c) && spec_has_default_bg(line[c]) && !is_wide(line[c]),
    ensures
        row_records(line, row, line_no, n, colors, p, None, None) == Seq::<ClaideCellData>::empty(),
    decreases n,
{
    if n > 0 {
        lemma_blank_row(line, row, line_no, n - 1, colors, p);
        assert(is_trivial(line[n - 1], false, false));
    }
}

proof fn lemma_concat_empty_rows(rows: Seq<Seq<ClaideCellData>>)
    requires
        forall|r: int| 0 <= r < rows.len() ==> (#[trigger] rows[r]).len() == 0,
    ensures
        concat_rows(rows).len() == 0,
    decreases rows.len(),
{
    if rows.len() > 0 {
        lemma_concat_empty_rows(rows.drop_last());
    }
}

/// A screen of blanks (space, NUL or DEL) on the default background, with no
/// wide characters, no selection and no search match, yields no records: rows
/// built from it are empty, and so is the snapshot that joins them.
pub proof fn lemma_blank_screen_has_no_cells(
    frame: &TermFrame,
    p: crate::color::PaletteView,
    rows: Seq<Seq<ClaideCellData>>,
)
    requires
        frame.wf(),
        frame.selection is None,
        forall|r: int, c: int|
            0 <= r < frame.rows() && 0 <= c < frame.cols ==> is_blank((#[trigger] frame.line_cells(r)[c]).c)
                && spec_has_default_bg(frame.line_cells(r)[c]) && !is_wide(frame.line_cells(r)[c]),
        rows.len() == frame.rows(),
        forall|r: int| 0 <= r < rows.len() ==> #[trigger] rows[r] == frame_row_records(frame, p, None, r),
    ensures
        forall|r: int| 0 <= r < rows.len() ==> (#[trigger] rows[r]).len() == 0,
        concat_rows(rows) == Seq::<ClaideCellData>::empty(),
{
    assert forall|r: int| 0 <= r < rows.len() implies (#[trigger] rows[r]).len() == 0 by {
        assert(frame.line_cells(r).len() == frame.cols);
        assert forall|c: int| 0 <= c < frame.cols implies is_blank((#[trigger] frame.line_cells(r)[c]).c)
            && spec_has_default_bg(frame.line_cells(r)[c]) && !is_wide(frame.line_cells(r)[c]) by {}
        lemma_blank_row(
            frame.line_cells(r),
            r,
            frame.line_of_row(r),
            frame.cols as int,
            frame.colors@,
            p,
        );
    }
    lemma_concat_empty_rows(rows);
    assert(concat_rows(rows) =~= Seq::<ClaideCellData>::empty());
}

/// The reported cursor always lies inside the grid; it is visible only on
/// a row of the view, at that row.
pub proof fn lemma_cursor_in_grid(frame: &TermFrame)
    requires
        frame.wf(),
    ensures
        cursor_info(frame).row < frame.rows(),
        cursor_info(frame).col < frame.cols,
        cursor_info(frame).visible ==> cursor_info(frame).row == cursor_view_row(frame),
{
}

/// INVERSE shows a cell's background colour in front and its foreground
/// colour behind; DIM in addition halves each channel in front.
pub proof fn lemma_inverse_and_dim(
    cell: GridCell,
    row: int,
    col: int,
    selected: bool,
    matched: bool,
    colors: Seq<Option<Rgb>>,
    p: crate::color::PaletteView,
)
    requires
        has_flag(cell.flags, TERM_INVERSE),
    ensures
        ({
            let rec = cell_record(cell, row, col, selected, matched, colors, p);
            let front = resolved(cell.bg, colors, true, p);
            let back = resolved(cell.fg, colors, false, p);
            &&& rec.bg_r == back.r && rec.bg_g == back.g && rec.bg_b == back.b
            &&& has_flag(cell.flags, TERM_DIM) ==> rec.fg_r == front.r / 2 && rec.fg_g == front.g / 2
                && rec.fg_b == front.b / 2
            &&& !has_flag(cell.flags, TERM_DIM) ==> rec.fg_r == front.r && rec.fg_g == front.g && rec.fg_b
                == front.b
        }),
{
}

/// The character that row text shows for a cell: a space for NUL and for
/// U+FFFF, else the cell's character.
pub open spec fn shown_char(c: char) -> char {
    if c as u32 == 0 || c as u32 == 0xFFFF {
        ' '
    } else {
        c
    }
}

/// The text of the first `n` cells of a row, wide-character spacers left
/// out.
pub open spec fn line_chars(line: Seq<GridCell>, n: int) -> Seq<char>
    decreases n,
{
    if n <= 0 {
        seq![]
    } else {
        let earlier = line_chars(line, n - 1);
        if has_flag(line[n - 1].flags, TERM_WIDE_CHAR_SPACER) {
            earlier
        } else {
            earlier.push(shown_char(line[n - 1].c))
        }
    }
}

/// The text of a grid row, one character per cell, wide-character spacers
/// left out.
pub fn line_text(line: &[GridCell]) -> (r: Vec<char>)
    ensures
        r@ == line_chars(line@, line@.len() as int),
{
    let mut text: Vec<char> = Vec::new();
    let mut col: usize = 0;
    while col < line.len()
        invariant
            col <= line@.len(),
            text@ == line_chars(line@, col as int),
        decreases line@.len() - col,
    {
        let cell = &line[col];
        if !flag_set(cell.flags, TERM_WIDE_CHAR_SPACER) {
            let cp = cell.c as u32;
            if cp == 0 || cp == 0xFFFF {
                text.push(' ');
            } else {
                text.push(cell.c);
            }
        }
        col = col + 1;
    }
    text
}

} // verus!
