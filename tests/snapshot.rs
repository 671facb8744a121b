use claide_terminal::color::{CellColor, ClaideColorPalette, ColorPalette, Rgb, resolve_color};
use claide_terminal::grid_snapshot::{
    map_flags, has_default_bg, line_text, process_row, take_snapshot_incremental, ClaideCellData, CursorShape,
    GridCell, GridPoint, MatchRange, PersistentGrid, SelectionRange, TermFrame,
};

const FG: CellColor = CellColor::Named(256);
const BG: CellColor = CellColor::Named(257);

fn blank() -> GridCell {
    GridCell { c: ' ', fg: FG, bg: BG, flags: 0 }
}

fn glyph(c: char) -> GridCell {
    GridCell { c, fg: FG, bg: BG, flags: 0 }
}

fn frame(rows: usize, cols: usize) -> TermFrame {
    TermFrame {
        lines: vec![vec![blank(); cols]; rows],
        cols,
        display_offset: 0,
        mode: 0x1,
        cursor: GridPoint { line: 0, column: 0 },
        vi_cursor: GridPoint { line: 0, column: 0 },
        cursor_cell_flags: 0,
        cursor_shape: CursorShape::Block,
        colors: vec![None; 269],
        selection: None,
    }
}

fn write_text(f: &mut TermFrame, row: usize, col: usize, text: &str) {
    for (i, ch) in text.chars().enumerate() {
        f.lines[row][col + i] = glyph(ch);
    }
}

fn cells_text(cells: &[ClaideCellData]) -> String {
    cells.iter().map(|c| char::from_u32(c.codepoint).unwrap()).collect()
}

#[test]
fn blank_screen_has_no_cells() {
    let f = frame(200, 500);
    let mut grid = PersistentGrid::new();
    let snap = take_snapshot_incremental(&f, &ColorPalette::default(), None, &mut grid, None);
    assert_eq!(snap.cell_count, 0);
    assert!(snap.cells.is_empty());
    assert_eq!(snap.rows, 200);
    assert_eq!(snap.cols, 500);
}

#[test]
fn text_cells_are_emitted_sparsely() {
    let mut f = frame(3, 20);
    write_text(&mut f, 0, 0, "hello");
    write_text(&mut f, 2, 10, "world");
    let palette = ColorPalette::default();
    let mut grid = PersistentGrid::new();
    let snap = take_snapshot_incremental(&f, &palette, None, &mut grid, None);
    assert_eq!(snap.cell_count, 10);
    assert_eq!(cells_text(&snap.cells), "helloworld");
    assert_eq!((snap.cells[0].row, snap.cells[0].col), (0, 0));
    assert_eq!((snap.cells[5].row, snap.cells[5].col), (2, 10));
    let fg = palette.fg;
    let bg = palette.bg;
    assert_eq!((snap.cells[0].fg_r, snap.cells[0].fg_g, snap.cells[0].fg_b), (fg.r, fg.g, fg.b));
    assert_eq!((snap.cells[0].bg_r, snap.cells[0].bg_g, snap.cells[0].bg_b), (bg.r, bg.g, bg.b));
    assert_eq!(grid.total_cells(), 10);
}

#[test]
fn padding_background_follows_bottom_left_cell() {
    let mut f = frame(4, 6);
    let palette = ColorPalette::default();
    let mut grid = PersistentGrid::new();
    let snap = take_snapshot_incremental(&f, &palette, None, &mut grid, None);
    assert_eq!((snap.padding_bg_r, snap.padding_bg_g, snap.padding_bg_b), (0x15, 0x17, 0x28));

    f.lines[3][0] = GridCell { c: ' ', fg: CellColor::Indexed(1), bg: BG, flags: 0x001 };
    let snap = take_snapshot_incremental(&f, &palette, None, &mut grid, Some(vec![3]));
    assert_eq!((snap.padding_bg_r, snap.padding_bg_g, snap.padding_bg_b), (0xff, 0x5c, 0x57));

    f.lines[3][0] = GridCell { c: ' ', fg: FG, bg: CellColor::Spec(Rgb { r: 1, g: 2, b: 3 }), flags: 0 };
    let snap = take_snapshot_incremental(&f, &palette, None, &mut grid, Some(vec![]));
    assert_eq!((snap.padding_bg_r, snap.padding_bg_g, snap.padding_bg_b), (1, 2, 3));
}

#[test]
fn cursor_reported_inside_grid() {
    let mut f = frame(24, 80);
    f.cursor = GridPoint { line: 23, column: 79 };
    let mut grid = PersistentGrid::new();
    let snap = take_snapshot_incremental(&f, &ColorPalette::default(), None, &mut grid, None);
    assert_eq!((snap.cursor.row, snap.cursor.col), (23, 79));
    assert!(snap.cursor.row < snap.rows && snap.cursor.col < snap.cols);
    assert_eq!(snap.cursor.shape, 0);
    assert!(snap.cursor.visible);
}

#[test]
fn cursor_below_view_clamped_and_hidden() {
    let mut f = frame(24, 80);
    f.display_offset = 1;
    f.cursor = GridPoint { line: 23, column: 4 };
    let mut grid = PersistentGrid::new();
    let snap = take_snapshot_incremental(&f, &ColorPalette::default(), None, &mut grid, None);
    assert_eq!((snap.cursor.row, snap.cursor.col), (23, 4));
    assert!(snap.cursor.row < snap.rows);
    assert_eq!(snap.cursor.shape, 3);
    assert!(!snap.cursor.visible);

    f.display_offset = 0;
    let snap = take_snapshot_incremental(&f, &ColorPalette::default(), None, &mut grid, None);
    assert_eq!(snap.cursor.row, 23);
    assert!(snap.cursor.visible);
}

#[test]
fn cursor_hidden_spacer_and_vi_mode() {
    let mut f = frame(10, 10);
    f.mode = 0;
    f.cursor = GridPoint { line: 2, column: 5 };
    f.cursor_cell_flags = 0x040;
    f.cursor_shape = CursorShape::Beam;
    let mut grid = PersistentGrid::new();
    let snap = take_snapshot_incremental(&f, &ColorPalette::default(), None, &mut grid, None);
    assert_eq!((snap.cursor.row, snap.cursor.col), (2, 4));
    assert_eq!(snap.cursor.shape, 3);
    assert!(!snap.cursor.visible);

    f.mode = 0x1_0000;
    f.cursor_cell_flags = 0;
    f.vi_cursor = GridPoint { line: -7, column: 3 };
    f.display_offset = 4;
    let snap = take_snapshot_incremental(&f, &ColorPalette::default(), None, &mut grid, None);
    assert_eq!((snap.cursor.row, snap.cursor.col), (0, 3));
    assert_eq!(snap.cursor.shape, 3);
    assert!(!snap.cursor.visible);
    assert_eq!(snap.mode_flags, 0x1_0000);

    f.vi_cursor = GridPoint { line: -2, column: 3 };
    let snap = take_snapshot_incremental(&f, &ColorPalette::default(), None, &mut grid, None);
    assert_eq!((snap.cursor.row, snap.cursor.col), (2, 3));
    assert_eq!(snap.cursor.shape, 2);
    assert!(snap.cursor.visible);
}

#[test]
fn inverse_swaps_and_dim_halves() {
    let palette = ColorPalette::default();
    let colors = vec![None; 269];
    let red = CellColor::Spec(Rgb { r: 201, g: 100, b: 51 });
    let blue = CellColor::Spec(Rgb { r: 10, g: 20, b: 30 });
    let inverse = GridCell { c: 'x', fg: red, bg: blue, flags: 0x001 };
    let row = process_row(&[inverse], 0, 1, 0, &colors, &palette, &None, &None);
    assert_eq!(row.len(), 1);
    assert_eq!((row[0].fg_r, row[0].fg_g, row[0].fg_b), (10, 20, 30));
    assert_eq!((row[0].bg_r, row[0].bg_g, row[0].bg_b), (201, 100, 51));
    assert_eq!(row[0].flags, 0x020);

    let dim_inverse = GridCell { c: 'x', fg: red, bg: blue, flags: 0x081 };
    let row = process_row(&[dim_inverse], 0, 1, 0, &colors, &palette, &None, &None);
    assert_eq!((row[0].fg_r, row[0].fg_g, row[0].fg_b), (5, 10, 15));
    assert_eq!((row[0].bg_r, row[0].bg_g, row[0].bg_b), (201, 100, 51));
    assert_eq!(row[0].flags, 0x030);
}

#[test]
fn selection_and_match_mark_cells() {
    let palette = ColorPalette::default();
    let colors = vec![None; 269];
    let line = vec![blank(); 6];
    let sel = Some(SelectionRange {
        start: GridPoint { line: 0, column: 1 },
        end: GridPoint { line: 0, column: 2 },
        is_block: false,
    });
    let m = Some(MatchRange { start: GridPoint { line: 0, column: 2 }, end: GridPoint { line: 0, column: 4 } });
    let row = process_row(&line, 0, 6, 0, &colors, &palette, &sel, &m);
    let marks: Vec<(u16, u16)> = row.iter().map(|c| (c.col, c.flags)).collect();
    assert_eq!(marks, vec![(1, 0x200), (2, 0x600), (3, 0x400), (4, 0x400)]);
}

#[test]
fn block_selection_spans_columns_only() {
    let palette = ColorPalette::default();
    let colors = vec![None; 269];
    let line = vec![blank(); 5];
    let sel = Some(SelectionRange {
        start: GridPoint { line: -1, column: 1 },
        end: GridPoint { line: 1, column: 2 },
        is_block: true,
    });
    let row = process_row(&line, 0, 5, 0, &colors, &palette, &sel, &None);
    let cols: Vec<u16> = row.iter().map(|c| c.col).collect();
    assert_eq!(cols, vec![1, 2]);
    let simple = Some(SelectionRange { is_block: false, ..sel.unwrap() });
    let row = process_row(&line, 0, 5, 0, &colors, &palette, &simple, &None);
    assert_eq!(row.len(), 5);
}

#[test]
fn wide_and_coloured_blanks_are_kept() {
    let palette = ColorPalette::default();
    let colors = vec![None; 269];
    let line = vec![
        GridCell { c: ' ', fg: FG, bg: BG, flags: 0x040 },
        GridCell { c: ' ', fg: FG, bg: CellColor::Indexed(4), flags: 0 },
        GridCell { c: '\0', fg: FG, bg: BG, flags: 0 },
        GridCell { c: '\u{7f}', fg: FG, bg: BG, flags: 0 },
        GridCell { c: ' ', fg: BG, bg: CellColor::Indexed(2), flags: 0x001 },
    ];
    let row = process_row(&line, 7, 5, 0, &colors, &palette, &None, &None);
    let cols: Vec<u16> = row.iter().map(|c| c.col).collect();
    assert_eq!(cols, vec![0, 1]);
    assert!(row.iter().all(|c| c.row == 7));
}

#[test]
fn damaged_rows_only_are_rebuilt() {
    let mut f = frame(3, 4);
    write_text(&mut f, 0, 0, "ab");
    let palette = ColorPalette::default();
    let mut grid = PersistentGrid::new();
    let snap = take_snapshot_incremental(&f, &palette, None, &mut grid, Some(vec![0]));
    assert_eq!(cells_text(&snap.cells), "ab");

    write_text(&mut f, 1, 0, "c");
    write_text(&mut f, 2, 0, "d");
    let snap = take_snapshot_incremental(&f, &palette, None, &mut grid, Some(vec![2, 9]));
    assert_eq!(cells_text(&snap.cells), "abd");
    assert_eq!(grid.total_cells(), 3);

    let snap = take_snapshot_incremental(&f, &palette, None, &mut grid, None);
    assert_eq!(cells_text(&snap.cells), "abcd");
}

#[test]
fn resize_smaller_then_larger_resets_cache() {
    let palette = ColorPalette::default();
    let mut grid = PersistentGrid::new();
    let mut big = frame(24, 80);
    write_text(&mut big, 5, 70, "tail");
    let snap = take_snapshot_incremental(&big, &palette, None, &mut grid, Some(vec![]));
    assert_eq!((snap.rows, snap.cols), (24, 80));
    assert_eq!(snap.cell_count, 4);

    let small = frame(24, 40);
    let snap = take_snapshot_incremental(&small, &palette, None, &mut grid, Some(vec![]));
    assert_eq!((grid.rows(), grid.cols()), (24, 40));
    assert_eq!((snap.rows, snap.cols), (24, 40));
    assert_eq!(snap.cell_count, 0);

    big.lines[5] = vec![blank(); 80];
    let snap = take_snapshot_incremental(&big, &palette, None, &mut grid, Some(vec![]));
    assert_eq!((grid.rows(), grid.cols()), (24, 80));
    assert_eq!((snap.rows, snap.cols), (24, 80));
    assert_eq!(snap.cell_count, 0);
}

#[test]
fn new_persistent_grid_is_empty() {
    let grid = PersistentGrid::new();
    assert_eq!((grid.rows(), grid.cols(), grid.total_cells()), (0, 0, 0));
}

#[test]
fn colour_resolution_values() {
    let palette = ColorPalette::default();
    let none = vec![None; 269];
    assert_eq!(resolve_color(&CellColor::Indexed(16), &none, true, &palette), Rgb { r: 0, g: 0, b: 0 });
    assert_eq!(resolve_color(&CellColor::Indexed(196), &none, true, &palette), Rgb { r: 255, g: 0, b: 0 });
    assert_eq!(resolve_color(&CellColor::Indexed(110), &none, true, &palette), Rgb { r: 135, g: 175, b: 215 });
    assert_eq!(resolve_color(&CellColor::Indexed(231), &none, true, &palette), Rgb { r: 255, g: 255, b: 255 });
    assert_eq!(resolve_color(&CellColor::Indexed(232), &none, true, &palette), Rgb { r: 8, g: 8, b: 8 });
    assert_eq!(resolve_color(&CellColor::Indexed(255), &none, true, &palette), Rgb { r: 238, g: 238, b: 238 });
    assert_eq!(resolve_color(&CellColor::Indexed(3), &none, true, &palette), Rgb { r: 0xf3, g: 0xf9, b: 0x9d });
    assert_eq!(resolve_color(&CellColor::Named(9), &none, false, &palette), Rgb { r: 0xff, g: 0x5c, b: 0x57 });
    assert_eq!(resolve_color(&FG, &none, false, &palette), palette.fg);
    assert_eq!(resolve_color(&BG, &none, true, &palette), palette.bg);
    assert_eq!(resolve_color(&CellColor::Named(258), &none, true, &palette), palette.fg);
    assert_eq!(resolve_color(&CellColor::Named(258), &none, false, &palette), palette.bg);
    let mut table = vec![None; 269];
    table[196] = Some(Rgb { r: 1, g: 1, b: 1 });
    table[257] = Some(Rgb { r: 2, g: 2, b: 2 });
    assert_eq!(resolve_color(&CellColor::Indexed(196), &table, true, &palette), Rgb { r: 1, g: 1, b: 1 });
    assert_eq!(resolve_color(&BG, &table, false, &palette), Rgb { r: 2, g: 2, b: 2 });
    let c = CellColor::Indexed(150);
    assert_eq!(resolve_color(&c, &none, true, &palette), resolve_color(&c, &none, true, &palette));
}

#[test]
fn set_colors_twice_is_same_as_once() {
    let mut host = ClaideColorPalette { ansi: [0; 48], fg_r: 9, fg_g: 8, fg_b: 7, bg_r: 1, bg_g: 2, bg_b: 3 };
    for (i, b) in host.ansi.iter_mut().enumerate() {
        *b = i as u8;
    }
    let mut p = ColorPalette::default();
    p.set_colors(&host);
    let once = (p.ansi, p.fg, p.bg);
    p.set_colors(&host);
    assert_eq!((p.ansi, p.fg, p.bg), once);
    assert_eq!(p.ansi[5], Rgb { r: 15, g: 16, b: 17 });
    assert_eq!(p.fg, Rgb { r: 9, g: 8, b: 7 });
    assert_eq!(p.bg, Rgb { r: 1, g: 2, b: 3 });
}

#[test]
fn flag_mapping_and_default_background() {
    assert_eq!(map_flags(0), 0);
    assert_eq!(map_flags(0x002), 0x001);
    assert_eq!(map_flags(0x001 | 0x080 | 0x200), 0x020 | 0x010 | 0x008);
    assert_eq!(map_flags(0x3ff), 0x1ff);
    assert_eq!(map_flags(0x010 | 0x400 | 0x800), 0);
    assert!(has_default_bg(&blank()));
    assert!(!has_default_bg(&GridCell { flags: 0x001, ..blank() }));
    assert!(has_default_bg(&GridCell { fg: BG, bg: FG, flags: 0x001, c: 'a' }));
}

#[test]
fn line_text_skips_spacers() {
    let line = vec![
        glyph('a'),
        GridCell { c: '\u{4e2d}', fg: FG, bg: BG, flags: 0x020 },
        GridCell { c: ' ', fg: FG, bg: BG, flags: 0x040 },
        glyph('\0'),
        glyph('\u{ffff}'),
        glyph('z'),
    ];
    let text: String = line_text(&line).into_iter().collect();
    assert_eq!(text, "a\u{4e2d}  z");
}
