//! Colours: the per-terminal palette and the resolution of a cell's colour
//! to RGB.

use vstd::prelude::*;

verus! {

#[derive(Clone, Copy, Debug, PartialEq, Eq, Structural)]
pub struct Rgb {
    pub r: u8,
    pub g: u8,
    pub b: u8,
}

/// A cell colour as the emulator stores it.
#[derive(Clone, Copy, Debug, PartialEq, Eq, Structural)]
pub enum CellColor {
    /// A direct RGB value.
    Spec(Rgb),
    /// A named colour, by its number: 0 to 15 for the ANSI colours,
    /// `NAMED_FOREGROUND`, `NAMED_BACKGROUND`, and further named roles.
    Named(u16),
    /// An entry of the 256-colour table.
    Indexed(u8),
}

/// Number of the named default foreground colour.
pub const NAMED_FOREGROUND: u16 = 256;

/// Number of the named default background colour.
pub const NAMED_BACKGROUND: u16 = 257;

/// Per-terminal palette: 16 ANSI colours and the default foreground and
/// background.
pub struct ColorPalette {
    pub ansi: [Rgb; 16],
    pub fg: Rgb,
    pub bg: Rgb,
}

/// The palette as a host hands it over: 16 colours as consecutive r, g, b
/// bytes, then the default foreground and background.
pub struct ClaideColorPalette {
    pub ansi: [u8; 48],
    pub fg_r: u8,
    pub fg_g: u8,
    pub fg_b: u8,
    pub bg_r: u8,
    pub bg_g: u8,
    pub bg_b: u8,
}

/// What a palette holds: the ANSI colours, the foreground, the background.
pub struct PaletteView {
    pub ansi: Seq<Rgb>,
    pub fg: Rgb,
    pub bg: Rgb,
}

impl View for ColorPalette {
    type V = PaletteView;

    open spec fn view(&self) -> PaletteView {
        PaletteView { ansi: self.ansi@, fg: self.fg, bg: self.bg }
    }
}

pub open spec fn rgb(r: u8, g: u8, b: u8) -> Rgb {
    Rgb { r, g, b }
}

/// The palette that a host's `ClaideColorPalette` describes.
pub open spec fn palette_of(c: ClaideColorPalette) -> PaletteView {
    PaletteView {
        ansi: Seq::new(16, |i: int| rgb(c.ansi@[3 * i], c.ansi@[3 * i + 1], c.ansi@[3 * i + 2])),
        fg: rgb(c.fg_r, c.fg_g, c.fg_b),
        bg: rgb(c.bg_r, c.bg_g, c.bg_b),
    }
}

/// The palette after `set_colors(c)`, whatever it was before.
pub open spec fn after_set_colors(before: PaletteView, c: ClaideColorPalette) -> PaletteView {
    palette_of(c)
}

/// Setting the same colours twice leaves the palette as setting them once.
pub proof fn lemma_set_colors_idempotent(p: PaletteView, c: ClaideColorPalette)
    ensures
        after_set_colors(after_set_colors(p, c), c) == after_set_colors(p, c),
{
}

pub open spec fn default_ansi() -> Seq<Rgb> {
    seq![
        rgb(0x00, 0x00, 0x00),
        rgb(0xff, 0x5c, 0x57),
        rgb(0x5a, 0xf7, 0x8e),
        rgb(0xf3, 0xf9, 0x9d),
        rgb(0x57, 0xc7, 0xff),
        rgb(0xff, 0x6a, 0xc1),
        rgb(0x9a, 0xed, 0xfe),
        rgb(0xf1, 0xf1, 0xf0),
        rgb(0x68, 0x68, 0x68),
        rgb(0xff, 0x5c, 0x57),
        rgb(0x5a, 0xf7, 0x8e),
        rgb(0xf3, 0xf9, 0x9d),
        rgb(0x57, 0xc7, 0xff),
        rgb(0xff, 0x6a, 0xc1),
        rgb(0x9a, 0xed, 0xfe),
        rgb(0xef, 0xf0, 0xeb),
    ]
}

pub open spec fn default_fg() -> Rgb {
    rgb(0xef, 0xf0, 0xeb)
}

pub open spec fn default_bg() -> Rgb {
    rgb(0x15, 0x17, 0x28)
}

impl Default for ColorPalette {
    fn default() -> (r: ColorPalette)
        ensures
            r@ == (PaletteView { ansi: default_ansi(), fg: default_fg(), bg: default_bg() }),
    {
        let r = ColorPalette {
            ansi: [
                Rgb { r: 0x00, g: 0x00, b: 0x00 },
                Rgb { r: 0xff, g: 0x5c, b: 0x57 },
                Rgb { r: 0x5a, g: 0xf7, b: 0x8e },
                Rgb { r: 0xf3, g: 0xf9, b: 0x9d },
                Rgb { r: 0x57, g: 0xc7, b: 0xff },
                Rgb { r: 0xff, g: 0x6a, b: 0xc1 },
                Rgb { r: 0x9a, g: 0xed, b: 0xfe },
                Rgb { r: 0xf1, g: 0xf1, b: 0xf0 },
                Rgb { r: 0x68, g: 0x68, b: 0x68 },
                Rgb { r: 0xff, g: 0x5c, b: 0x57 },
                Rgb { r: 0x5a, g: 0xf7, b: 0x8e },
                Rgb { r: 0xf3, g: 0xf9, b: 0x9d },
                Rgb { r: 0x57, g: 0xc7, b: 0xff },
                Rgb { r: 0xff, g: 0x6a, b: 0xc1 },
                Rgb { r: 0x9a, g: 0xed, b: 0xfe },
                Rgb { r: 0xef, g: 0xf0, b: 0xeb },
            ],
            fg: Rgb { r: 0xef, g: 0xf0, b: 0xeb },
            bg: Rgb { r: 0x15, g: 0x17, b: 0x28 },
        };
        assert(r.ansi@ =~= default_ansi());
        r
    }
}

impl ColorPalette {
    /// Replaces every colour of the palette with the host's.
    pub fn set_colors(&mut self, c: &ClaideColorPalette)
        ensures
            final(self)@ == after_set_colors(old(self)@, *c),
    {
        let mut i: usize = 0;
        while i < 16
            invariant
                i <= 16,
                forall|j: int| 0 <= j < i ==> self.ansi@[j] == #[trigger] palette_of(*c).ansi[j],
            decreases 16 - i,
        {
            self.ansi[i] = Rgb { r: c.ansi[i * 3], g: c.ansi[i * 3 + 1], b: c.ansi[i * 3 + 2] };
            i = i + 1;
        }
        self.fg = Rgb { r: c.fg_r, g: c.fg_g, b: c.fg_b };
        self.bg = Rgb { r: c.bg_r, g: c.bg_g, b: c.bg_b };
        assert(self.ansi@ =~= palette_of(*c).ansi);
    }
}

/// Entry `i` of the emulator's colour table, if it has one.
pub open spec fn table_entry(colors: Seq<Option<Rgb>>, i: int) -> Option<Rgb> {
    if 0 <= i < colors.len() {
        colors[i]
    } else {
        None
    }
}

/// One channel of the 6x6x6 colour cube, for level `k` in 0..6.
pub open spec fn cube_level(k: int) -> u8 {
    if k == 0 {
        0
    } else {
        (k * 40 + 55) as u8
    }
}

/// Entry `i` (16 to 255) of the 256-colour table: the 6x6x6 cube, then the
/// grey ramp.
pub open spec fn indexed_rgb(i: int) -> Rgb {
    if i < 232 {
        let k = i - 16;
        rgb(cube_level(k / 36), cube_level((k / 6) % 6), cube_level(k % 6))
    } else {
        let v = (8 + (i - 232) * 10) as u8;
        rgb(v, v, v)
    }
}

/// The RGB value of `color`: the emulator's colour table first, then the
/// palette; the standard 256-colour table for indexed colours beyond 16; the
/// default foreground or background, by role, for other named colours.
pub open spec fn resolved(color: CellColor, colors: Seq<Option<Rgb>>, is_foreground: bool, p: PaletteView) -> Rgb {
    match color {
        CellColor::Spec(c) => c,
        CellColor::Named(n) => match table_entry(colors, n as int) {
            Some(c) => c,
            None => if n == NAMED_FOREGROUND {
                p.fg
            } else if n == NAMED_BACKGROUND {
                p.bg
            } else if n < 16 {
                p.ansi[n as int]
            } else if is_foreground {
                p.fg
            } else {
                p.bg
            },
        },
        CellColor::Indexed(i) => match table_entry(colors, i as int) {
            Some(c) => c,
            None => if i < 16 {
                p.ansi[i as int]
            } else {
                indexed_rgb(i as int)
            },
        },
    }
}

/// Colour resolution depends on its inputs alone: equal inputs resolve to
/// equal colours.
pub proof fn lemma_resolution_is_pure(
    color_a: CellColor,
    table_a: Seq<Option<Rgb>>,
    foreground_a: bool,
    pal_a: PaletteView,
    color_b: CellColor,
    table_b: Seq<Option<Rgb>>,
    foreground_b: bool,
    pal_b: PaletteView,
)
    requires
        color_a == color_b,
        table_a == table_b,
        foreground_a == foreground_b,
        pal_a == pal_b,
    ensures
        resolved(color_a, table_a, foreground_a, pal_a) == resolved(color_b, table_b, foreground_b, pal_b),
{
}

fn table_lookup(colors: &[Option<Rgb>], i: usize) -> (r: Option<Rgb>)
    ensures
        r == table_entry(colors@, i as int),
{
    if i < colors.len() {
        colors[i]
    } else {
        None
    }
}

fn cube_level_exec(k: u8) -> (r: u8)
    requires
        k < 6,
    ensures
        r == cube_level(k as int),
{
    if k > 0 {
        k * 40 + 55
    } else {
        0
    }
}

/// Resolves a cell colour to RGB through the emulator's colour table
/// `colors` and, where that has no entry, the palette.
pub fn resolve_color(color: &CellColor, colors: &[Option<Rgb>], is_foreground: bool, palette: &ColorPalette) -> (r: Rgb)
    ensures
        r == resolved(*color, colors@, is_foreground, palette@),
{
    match color {
        CellColor::Spec(c) => *c,
        CellColor::Named(n) => {
            let index = *n as usize;
            match table_lookup(colors, index) {
                Some(c) => c,
                None => {
                    if *n == NAMED_FOREGROUND {
                        palette.fg
                    } else if *n == NAMED_BACKGROUND {
                        palette.bg
                    } else if index < 16 {
                        palette.ansi[index]
                    } else if is_foreground {
                        palette.fg
                    } else {
                        palette.bg
                    }
                },
            }
        },
        CellColor::Indexed(i) => {
            let index = *i as usize;
            match table_lookup(colors, index) {
                Some(c) => c,
                None => {
                    if index < 16 {
                        palette.ansi[index]
                    } else if index < 232 {
                        let k = *i - 16;
                        Rgb {
                            r: cube_level_exec(k / 36),
                            g: cube_level_exec((k / 6) % 6),
                            b: cube_level_exec(k % 6),
                        }
                    } else {
                        let v = 8 + (*i - 232) * 10;
                        Rgb { r: v, g: v, b: v }
                    }
                },
            }
        },
    }
}

} // verus!
