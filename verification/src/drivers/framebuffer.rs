//! Text console on a UEFI GOP framebuffer: 8x16 glyphs, a cursor, line
//! wrapping and scrolling. The framebuffer is held as scanlines of `stride`
//! pixels.
use vstd::prelude::*;
use crate::boot::boot_info::{FramebufferInfo, PixelFormat};

verus! {

pub const FONT_WIDTH: usize = 8;
pub const FONT_HEIGHT: usize = 16;

/// Number of glyphs in the font.
pub const FONT_GLYPHS: usize = 256;

pub const DEFAULT_FG: u32 = 0x00FF_FFFF;
pub const DEFAULT_BG: u32 = 0x0000_0000;

/// The sixteen VGA text colours.
#[derive(Debug, Clone, Copy, PartialEq, Eq, Structural)]
pub enum Color {
    Black,
    Blue,
    Green,
    Cyan,
    Red,
    Magenta,
    Brown,
    LightGray,
    DarkGray,
    LightBlue,
    LightGreen,
    LightCyan,
    LightRed,
    Pink,
    Yellow,
    White,
}

/// The red, green and blue components of a colour.
pub open spec fn rgb(color: Color) -> (u8, u8, u8) {
    match color {
        Color::Black => (0, 0, 0),
        Color::Blue => (0, 0, 170),
        Color::Green => (0, 170, 0),
        Color::Cyan => (0, 170, 170),
        Color::Red => (170, 0, 0),
        Color::Magenta => (170, 0, 170),
        Color::Brown => (170, 85, 0),
        Color::LightGray => (170, 170, 170),
        Color::DarkGray => (85, 85, 85),
        Color::LightBlue => (85, 85, 255),
        Color::LightGreen => (85, 255, 85),
        Color::LightCyan => (85, 255, 255),
        Color::LightRed => (255, 85, 85),
        Color::Pink => (255, 85, 255),
        Color::Yellow => (255, 255, 85),
        Color::White => (255, 255, 255),
    }
}

/// The pixel value of `color`: red in bits 16..24 for RGB framebuffers, blue
/// there otherwise.
pub open spec fn pixel_value(color: Color, format: PixelFormat) -> u32 {
    let (r, g, b) = rgb(color);
    match format {
        PixelFormat::Rgb => (r * 0x1_0000 + g * 0x100 + b) as u32,
        _ => (b * 0x1_0000 + g * 0x100 + r) as u32,
    }
}

/// The pixel value of `color` in `format`.
pub fn color_to_u32(color: Color, format: PixelFormat) -> (r: u32)
    ensures
        r == pixel_value(color, format),
{
    let (r, g, b): (u8, u8, u8) = match color {
        Color::Black => (0, 0, 0),
        Color::Blue => (0, 0, 170),
        Color::Green => (0, 170, 0),
        Color::Cyan => (0, 170, 170),
        Color::Red => (170, 0, 0),
        Color::Magenta => (170, 0, 170),
        Color::Brown => (170, 85, 0),
        Color::LightGray => (170, 170, 170),
        Color::DarkGray => (85, 85, 85),
        Color::LightBlue => (85, 85, 255),
        Color::LightGreen => (85, 255, 85),
        Color::LightCyan => (85, 255, 255),
        Color::LightRed => (255, 85, 85),
        Color::Pink => (255, 85, 255),
        Color::Yellow => (255, 255, 85),
        Color::White => (255, 255, 255),
    };
    match format {
        PixelFormat::Rgb => (r as u32) * 0x1_0000 + (g as u32) * 0x100 + (b as u32),
        _ => (b as u32) * 0x1_0000 + (g as u32) * 0x100 + (r as u32),
    }
}

/// The 16 colours are the standard VGA text palette: the dark colours use
/// 0xAA for each component they have, the bright ones add 0x55 to every
/// component, and brown is dark yellow with its green halved to 0x55. In an
/// RGB framebuffer the red component is the high byte of the pixel.
pub proof fn law_vga_palette()
    ensures
        pixel_value(Color::Black, PixelFormat::Rgb) == 0x000000,
        pixel_value(Color::Blue, PixelFormat::Rgb) == 0x0000AA,
        pixel_value(Color::Green, PixelFormat::Rgb) == 0x00AA00,
        pixel_value(Color::Cyan, PixelFormat::Rgb) == 0x00AAAA,
        pixel_value(Color::Red, PixelFormat::Rgb) == 0xAA0000,
        pixel_value(Color::Magenta, PixelFormat::Rgb) == 0xAA00AA,
        pixel_value(Color::Brown, PixelFormat::Rgb) == 0xAA5500,
        pixel_value(Color::LightGray, PixelFormat::Rgb) == 0xAAAAAA,
        pixel_value(Color::DarkGray, PixelFormat::Rgb) == 0x555555,
        pixel_value(Color::LightBlue, PixelFormat::Rgb) == 0x5555FF,
        pixel_value(Color::LightGreen, PixelFormat::Rgb) == 0x55FF55,
        pixel_value(Color::LightCyan, PixelFormat::Rgb) == 0x55FFFF,
        pixel_value(Color::LightRed, PixelFormat::Rgb) == 0xFF5555,
        pixel_value(Color::Pink, PixelFormat::Rgb) == 0xFF55FF,
        pixel_value(Color::Yellow, PixelFormat::Rgb) == 0xFFFF55,
        pixel_value(Color::White, PixelFormat::Rgb) == 0xFFFFFF,
{
}

/// A BGR (or unknown-format) pixel holds the same components as the RGB
/// pixel of the colour, with red and blue swapped.
pub proof fn law_bgr_swaps_red_and_blue(color: Color, format: PixelFormat)
    requires
        format != PixelFormat::Rgb,
    ensures
        ({
            let v = pixel_value(color, PixelFormat::Rgb);
            pixel_value(color, format) == (v % 0x100) * 0x1_0000 + (v / 0x100 % 0x100) * 0x100 + v / 0x1_0000
        }),
{
}

/// Row `dy` of `glyph` lights column `dx` (bit 7 is the leftmost column).
pub open spec fn glyph_bit(glyph: [u8; 16], dy: int, dx: int) -> bool {
    glyph@[dy] & (1u8 << (7 - dx) as u8) != 0
}

/// The screen after drawing `glyph` in text cell (`col`, `row`): pixels of
/// the cell inside the visible `width` x `height` area take the foreground
/// or background colour, all others stay.
pub open spec fn drawn(
    screen: Seq<Seq<u32>>,
    width: int,
    height: int,
    glyph: [u8; 16],
    col: int,
    row: int,
    fg: u32,
    bg: u32,
) -> Seq<Seq<u32>> {
    Seq::new(
        screen.len(),
        |y: int|
            Seq::new(
                screen[y].len(),
                |x: int|
                    if x < width && y < height && col * 8 <= x < col * 8 + 8 && row * 16 <= y < row * 16 + 16 {
                        if glyph_bit(glyph, y - row * 16, x - col * 8) {
                            fg
                        } else {
                            bg
                        }
                    } else {
                        screen[y][x]
                    },
            ),
    )
}

/// The screen scrolled up by one text row: scanline `y` takes scanline
/// `y + 16` for the rows that stay, and the visible part of the last text
/// row and anything below it is cleared to `bg`.
pub open spec fn scrolled(screen: Seq<Seq<u32>>, width: int, text_rows: int, bg: u32) -> Seq<Seq<u32>> {
    Seq::new(
        screen.len(),
        |y: int|
            if y < (text_rows - 1) * 16 {
                screen[y + 16]
            } else {
                Seq::new(screen[y].len(), |x: int| if x < width { bg } else { screen[y][x] })
            },
    )
}

/// The screen filled with `bg` over its visible part.
pub open spec fn cleared(screen: Seq<Seq<u32>>, width: int, bg: u32) -> Seq<Seq<u32>> {
    Seq::new(screen.len(), |y: int| Seq::new(screen[y].len(), |x: int| if x < width { bg } else { screen[y][x] }))
}

/// A text console on a GOP framebuffer.
pub struct GopWriter {
    pub base_addr: u64,
    pub width: usize,
    pub height: usize,
    pub stride: usize,
    pub pixel_format: PixelFormat,
    pub cursor_col: usize,
    pub cursor_row: usize,
    pub fg_color: u32,
    pub bg_color: u32,
    /// The framebuffer: `height` scanlines of `stride` pixels.
    pub pixels: Vec<Vec<u32>>,
    /// The 8x16 glyphs of characters 0..=255.
    pub font: Vec<[u8; 16]>,
}

impl GopWriter {
    /// The scanlines as pixel values.
    pub open spec fn screen(&self) -> Seq<Seq<u32>> {
        Seq::new(self.pixels@.len(), |y: int| self.pixels@[y]@)
    }

    pub open spec fn text_cols(&self) -> int {
        self.width as int / 8
    }

    pub open spec fn text_rows(&self) -> int {
        self.height as int / 16
    }

    pub open spec fn spec_is_active(&self) -> bool {
        self.base_addr != 0 && self.width > 0 && self.height > 0
    }

    pub open spec fn wf(&self) -> bool {
        &&& self.pixels@.len() == self.height
        &&& forall|y: int| 0 <= y < self.height ==> (#[trigger] self.pixels@[y])@.len() == self.stride
        &&& self.width <= self.stride
        &&& self.font@.len() == FONT_GLYPHS
        &&& self.cursor_row < self.text_rows() || (self.text_rows() == 0 && self.cursor_row == 0)
        &&& self.cursor_col <= self.text_cols() || self.cursor_col <= 1
    }

    /// The screen after a line feed: the cursor moves down a row, or the
    /// screen scrolls when it is on the last one.
    pub open spec fn new_line_screen(&self) -> Seq<Seq<u32>> {
        if self.cursor_row + 1 < self.text_rows() {
            self.screen()
        } else {
            scrolled(self.screen(), self.width as int, self.text_rows(), self.bg_color)
        }
    }

    pub open spec fn new_line_row(&self) -> int {
        if self.cursor_row + 1 < self.text_rows() {
            self.cursor_row + 1
        } else {
            self.cursor_row as int
        }
    }

    /// No framebuffer, white on black.
    pub fn empty() -> (r: Self)
        ensures
            r.wf(),
            !r.spec_is_active(),
            r.width == 0 && r.height == 0 && r.stride == 0,
            r.fg_color == DEFAULT_FG && r.bg_color == DEFAULT_BG,
            r.cursor_col == 0 && r.cursor_row == 0,
    {
        let mut font: Vec<[u8; 16]> = Vec::new();
        let mut i: usize = 0;
        while i < FONT_GLYPHS
            invariant
                i <= FONT_GLYPHS,
                font@.len() == i,
            decreases FONT_GLYPHS - i,
        {
            font.push([0u8; 16]);
            i = i + 1;
        }
        GopWriter {
            base_addr: 0,
            width: 0,
            height: 0,
            stride: 0,
            pixel_format: PixelFormat::Rgb,
            cursor_col: 0,
            cursor_row: 0,
            fg_color: DEFAULT_FG,
            bg_color: DEFAULT_BG,
            pixels: Vec::new(),
            font,
        }
    }

    /// Takes over the framebuffer `info` with the glyphs `font`: cursor at
    /// the top left, white on black, the screen cleared.
    pub fn init(&mut self, info: FramebufferInfo, font: Vec<[u8; 16]>)
        requires
            info.width <= info.stride,
            font@.len() == FONT_GLYPHS,
        ensures
            final(self).wf(),
            final(self).base_addr == info.base_addr,
            final(self).width == info.width,
            final(self).height == info.height,
            final(self).stride == info.stride,
            final(self).pixel_format == info.pixel_format,
            final(self).font@ == font@,
            final(self).cursor_col == 0 && final(self).cursor_row == 0,
            final(self).fg_color == DEFAULT_FG && final(self).bg_color == DEFAULT_BG,
            final(self).screen() == cleared(
                Seq::new(info.height as nat, |y: int| Seq::new(info.stride as nat, |x: int| 0u32)),
                info.width as int,
                DEFAULT_BG,
            ),
    {
        let mut pixels: Vec<Vec<u32>> = Vec::new();
        let mut y: usize = 0;
        while y < info.height
            invariant
                y <= info.height,
                pixels@.len() == y,
                forall|k: int| 0 <= k < y ==> (#[trigger] pixels@[k])@ == Seq::new(info.stride as nat, |x: int| 0u32),
            decreases info.height - y,
        {
            let row = vec![0u32; info.stride];
            proof {
                assert(row@ =~= Seq::new(info.stride as nat, |x: int| 0u32));
            }
            pixels.push(row);
            y = y + 1;
        }
        self.base_addr = info.base_addr;
        self.width = info.width;
        self.height = info.height;
        self.stride = info.stride;
        self.pixel_format = info.pixel_format;
        self.cursor_col = 0;
        self.cursor_row = 0;
        self.fg_color = DEFAULT_FG;
        self.bg_color = DEFAULT_BG;
        self.pixels = pixels;
        self.font = font;
        proof {
            assert(self.screen() =~= Seq::new(info.height as nat, |y: int| Seq::new(info.stride as nat, |x: int| 0u32)));
        }
        self.clear_screen();
    }

    /// A framebuffer is attached.
    pub fn is_active(&self) -> (r: bool)
        ensures
            r == self.spec_is_active(),
    {
        self.base_addr != 0 && self.width > 0 && self.height > 0
    }

    /// Text columns.
    pub fn cols(&self) -> (r: usize)
        ensures
            r == self.text_cols(),
    {
        if self.width == 0 {
            0
        } else {
            self.width / FONT_WIDTH
        }
    }

    /// Text rows.
    pub fn rows(&self) -> (r: usize)
        ensures
            r == self.text_rows(),
    {
        if self.height == 0 {
            0
        } else {
            self.height / FONT_HEIGHT
        }
    }

    /// Sets the colours of the text that follows.
    pub fn set_color(&mut self, fg: Color, bg: Color)
        ensures
            final(self).fg_color == pixel_value(fg, old(self).pixel_format),
            final(self).bg_color == pixel_value(bg, old(self).pixel_format),
            final(self).pixels == old(self).pixels,
            final(self).font == old(self).font,
            final(self).width == old(self).width && final(self).height == old(self).height,
            final(self).stride == old(self).stride && final(self).base_addr == old(self).base_addr,
            final(self).pixel_format == old(self).pixel_format,
            final(self).cursor_col == old(self).cursor_col && final(self).cursor_row == old(self).cursor_row,
    {
        self.fg_color = color_to_u32(fg, self.pixel_format);
        self.bg_color = color_to_u32(bg, self.pixel_format);
    }

    /// Sets pixel (`x`, `y`) where it is visible.
    pub fn draw_pixel(&mut self, x: usize, y: usize, color: u32)
        requires
            old(self).wf(),
        ensures
            final(self).wf(),
            final(self).screen() == (if x < old(self).width && y < old(self).height {
                old(self).screen().update(y as int, old(self).screen()[y as int].update(x as int, color))
            } else {
                old(self).screen()
            }),
            final(self).width == old(self).width && final(self).height == old(self).height,
            final(self).stride == old(self).stride && final(self).base_addr == old(self).base_addr,
            final(self).font == old(self).font && final(self).pixel_format == old(self).pixel_format,
            final(self).cursor_col == old(self).cursor_col && final(self).cursor_row == old(self).cursor_row,
            final(self).fg_color == old(self).fg_color && final(self).bg_color == old(self).bg_color,
    {
        if x < self.width && y < self.height {
            let ghost before = self.screen();
            self.pixels[y].set(x, color);
            proof {
                assert(self.screen() =~= before.update(y as int, before[y as int].update(x as int, color)));
            }
        }
    }

    /// Draws `c` (glyph 255 past the font) in text cell (`col`, `row`).
    pub fn draw_char(&mut self, c: char, col: usize, row: usize, fg: u32, bg: u32)
        requires
            old(self).wf(),
            col * 8 + 8 <= usize::MAX,
            row * 16 + 16 <= usize::MAX,
        ensures
            final(self).wf(),
            final(self).screen() == drawn(
                old(self).screen(),
                old(self).width as int,
                old(self).height as int,
                old(self).font@[if c as u32 > 255 { 255int } else { c as int }],
                col as int,
                row as int,
                fg,
                bg,
            ),
            final(self).width == old(self).width && final(self).height == old(self).height,
            final(self).stride == old(self).stride && final(self).base_addr == old(self).base_addr,
            final(self).font == old(self).font && final(self).pixel_format == old(self).pixel_format,
            final(self).cursor_col == old(self).cursor_col && final(self).cursor_row == old(self).cursor_row,
            final(self).fg_color == old(self).fg_color && final(self).bg_color == old(self).bg_color,
    {
        let x_start = col * FONT_WIDTH;
        let y_start = row * FONT_HEIGHT;
        let code = c as u32;
        let glyph_idx: usize = if code > 255 { 255 } else { code as usize };
        let glyph = self.font[glyph_idx];
        let ghost s0 = self.screen();
        let ghost width = self.width as int;
        let ghost height = self.height as int;
        let mut dy: usize = 0;
        while dy < FONT_HEIGHT
            invariant
                self.wf(),
                0 <= dy <= 16,
                x_start == col * 8,
                y_start == row * 16,
                col * 8 + 8 <= usize::MAX,
                row * 16 + 16 <= usize::MAX,
                width == self.width,
                height == self.height,
                self.font == old(self).font,
                self.width == old(self).width && self.height == old(self).height,
                self.stride == old(self).stride && self.base_addr == old(self).base_addr,
                self.pixel_format == old(self).pixel_format,
                self.cursor_col == old(self).cursor_col && self.cursor_row == old(self).cursor_row,
                self.fg_color == old(self).fg_color && self.bg_color == old(self).bg_color,
                self.screen().len() == s0.len(),
                forall|y: int| 0 <= y < s0.len() ==> (#[trigger] self.screen()[y]).len() == s0[y].len(),
                forall|y: int, x: int|
                    0 <= y < s0.len() && 0 <= x < s0[y].len() ==> #[trigger] self.screen()[y][x] == (if x < width
                        && y < height && x_start <= x < x_start + 8 && y_start <= y < y_start + dy {
                        if glyph_bit(glyph, y - y_start, x - x_start) {
                            fg
                        } else {
                            bg
                        }
                    } else {
                        s0[y][x]
                    }),
            decreases 16 - dy,
        {
            let row_byte = glyph[dy];
            let mut dx: usize = 0;
            while dx < FONT_WIDTH
                invariant
                    self.wf(),
                    0 <= dy < 16,
                    0 <= dx <= 8,
                    row_byte == glyph@[dy as int],
                    x_start == col * 8,
                    y_start == row * 16,
                    col * 8 + 8 <= usize::MAX,
                    row * 16 + 16 <= usize::MAX,
                    width == self.width,
                    height == self.height,
                    self.font == old(self).font,
                    self.width == old(self).width && self.height == old(self).height,
                    self.stride == old(self).stride && self.base_addr == old(self).base_addr,
                    self.pixel_format == old(self).pixel_format,
                    self.cursor_col == old(self).cursor_col && self.cursor_row == old(self).cursor_row,
                    self.fg_color == old(self).fg_color && self.bg_color == old(self).bg_color,
                    self.screen().len() == s0.len(),
                    forall|y: int| 0 <= y < s0.len() ==> (#[trigger] self.screen()[y]).len() == s0[y].len(),
                    forall|y: int, x: int|
                        0 <= y < s0.len() && 0 <= x < s0[y].len() ==> #[trigger] self.screen()[y][x] == (if x < width
                            && y < height && x_start <= x < x_start + 8 && (y_start <= y < y_start + dy || (y
                            == y_start + dy && x < x_start + dx)) {
                            if glyph_bit(glyph, y - y_start, x - x_start) {
                                fg
                            } else {
                                bg
                            }
                        } else {
                            s0[y][x]
                        }),
                decreases 8 - dx,
            {
                let is_fg = (row_byte & (1u8 << (7 - dx) as u8)) != 0;
                let color = if is_fg { fg } else { bg };
                self.draw_pixel(x_start + dx, y_start + dy, color);
                dx = dx + 1;
            }
            dy = dy + 1;
        }
        proof {
            assert(self.screen() =~~= drawn(s0, width, height, glyph, col as int, row as int, fg, bg));
        }
    }

    /// Clears the visible area to the background colour and homes the cursor.
    pub fn clear_screen(&mut self)
        requires
            old(self).wf(),
        ensures
            final(self).wf(),
            final(self).screen() == cleared(old(self).screen(), old(self).width as int, old(self).bg_color),
            final(self).cursor_col == 0 && final(self).cursor_row == 0,
            final(self).width == old(self).width && final(self).height == old(self).height,
            final(self).stride == old(self).stride && final(self).base_addr == old(self).base_addr,
            final(self).font == old(self).font && final(self).pixel_format == old(self).pixel_format,
            final(self).fg_color == old(self).fg_color && final(self).bg_color == old(self).bg_color,
    {
        let ghost s0 = self.screen();
        let bg = self.bg_color;
        let mut y: usize = 0;
        while y < self.height
            invariant
                self.wf(),
                0 <= y <= self.height,
                bg == self.bg_color,
                self.font == old(self).font,
                self.width == old(self).width && self.height == old(self).height,
                self.stride == old(self).stride && self.base_addr == old(self).base_addr,
                self.pixel_format == old(self).pixel_format,
                self.cursor_col == old(self).cursor_col && self.cursor_row == old(self).cursor_row,
                self.fg_color == old(self).fg_color && self.bg_color == old(self).bg_color,
                self.screen().len() == s0.len(),
                forall|k: int| 0 <= k < s0.len() ==> (#[trigger] self.screen()[k]).len() == s0[k].len(),
                forall|k: int, x: int|
                    0 <= k < s0.len() && 0 <= x < s0[k].len() ==> #[trigger] self.screen()[k][x] == (if x
                        < self.width && k < y {
                        bg
                    } else {
                        s0[k][x]
                    }),
            decreases self.height - y,
        {
            let mut x: usize = 0;
            while x < self.width
                invariant
                    self.wf(),
                    0 <= y < self.height,
                    0 <= x <= self.width,
                    bg == self.bg_color,
                    self.font == old(self).font,
                    self.width == old(self).width && self.height == old(self).height,
                    self.stride == old(self).stride && self.base_addr == old(self).base_addr,
                    self.pixel_format == old(self).pixel_format,
                    self.cursor_col == old(self).cursor_col && self.cursor_row == old(self).cursor_row,
                    self.fg_color == old(self).fg_color && self.bg_color == old(self).bg_color,
                    self.screen().len() == s0.len(),
                    forall|k: int| 0 <= k < s0.len() ==> (#[trigger] self.screen()[k]).len() == s0[k].len(),
                    forall|k: int, i: int|
                        0 <= k < s0.len() && 0 <= i < s0[k].len() ==> #[trigger] self.screen()[k][i] == (if i
                            < self.width && (k < y || (k == y && i < x)) {
                            bg
                        } else {
                            s0[k][i]
                        }),
                decreases self.width - x,
            {
                self.draw_pixel(x, y, bg);
                x = x + 1;
            }
            y = y + 1;
        }
        self.cursor_col = 0;
        self.cursor_row = 0;
        proof {
            assert(self.screen() =~~= cleared(s0, self.width as int, bg));
        }
    }

    /// Moves the cursor to the start of the next line, scrolling the
    /// screen up by one text row when it is on the last one.
    pub fn new_line(&mut self)
        requires
            old(self).wf(),
            old(self).text_rows() >= 1,
        ensures
            final(self).wf(),
            final(self).screen() == old(self).new_line_screen(),
            final(self).cursor_row == old(self).new_line_row(),
            final(self).cursor_col == 0,
            final(self).width == old(self).width && final(self).height == old(self).height,
            final(self).stride == old(self).stride && final(self).base_addr == old(self).base_addr,
            final(self).font == old(self).font && final(self).pixel_format == old(self).pixel_format,
            final(self).fg_color == old(self).fg_color && final(self).bg_color == old(self).bg_color,
    {
        let text_rows = self.rows();
        if self.cursor_row + 1 < text_rows {
            self.cursor_row = self.cursor_row + 1;
        } else {
            let ghost s0 = self.screen();
            proof {
                assert(text_rows * 16 <= self.height) by (nonlinear_arith)
                    requires
                        text_rows == self.height as int / 16,
                ;
            }
            let copy_rows = (text_rows - 1) * FONT_HEIGHT;
            let mut y: usize = 0;
            while y < copy_rows
                invariant
                    self.wf(),
                    text_rows == self.text_rows(),
                    text_rows >= 1,
                    copy_rows == (text_rows - 1) * 16,
                    copy_rows + 16 <= self.height,
                    0 <= y <= copy_rows,
                    self.font == old(self).font,
                    self.width == old(self).width && self.height == old(self).height,
                    self.stride == old(self).stride && self.base_addr == old(self).base_addr,
                    self.pixel_format == old(self).pixel_format,
                    self.cursor_col == old(self).cursor_col && self.cursor_row == old(self).cursor_row,
                    self.fg_color == old(self).fg_color && self.bg_color == old(self).bg_color,
                    s0.len() == self.height,
                    forall|k: int| 0 <= k < s0.len() ==> (#[trigger] s0[k]).len() == self.stride,
                    self.screen().len() == s0.len(),
                    forall|k: int| 0 <= k < y ==> #[trigger] self.screen()[k] == s0[k + 16],
                    forall|k: int| y <= k < s0.len() ==> #[trigger] self.screen()[k] == s0[k],
                decreases copy_rows - y,
            {
                let ghost before = self.screen();
                let mut x: usize = 0;
                while x < self.stride
                    invariant
                        self.wf(),
                        0 <= y < copy_rows,
                        copy_rows + 16 <= self.height,
                        0 <= x <= self.stride,
                        self.font == old(self).font,
                        self.width == old(self).width && self.height == old(self).height,
                        self.stride == old(self).stride && self.base_addr == old(self).base_addr,
                        self.pixel_format == old(self).pixel_format,
                        self.cursor_col == old(self).cursor_col && self.cursor_row == old(self).cursor_row,
                        self.fg_color == old(self).fg_color && self.bg_color == old(self).bg_color,
                        self.screen().len() == before.len(),
                        forall|k: int| 0 <= k < before.len() && k != y ==> #[trigger] self.screen()[k] == before[k],
                        self.screen()[y as int].len() == self.stride,
                        before[y as int + 16].len() == self.stride,
                        forall|i: int|
                            0 <= i < self.stride ==> #[trigger] self.screen()[y as int][i] == (if i < x {
                                before[y as int + 16][i]
                            } else {
                                before[y as int][i]
                            }),
                    decreases self.stride - x,
                {
                    let v = self.pixels[y + FONT_HEIGHT][x];
                    let ghost mid = self.screen();
                    proof {
                        assert(mid[y as int + 16] == before[y as int + 16]);
                        assert(v == mid[y as int + 16][x as int]);
                    }
                    self.pixels[y].set(x, v);
                    proof {
                        assert(self.screen() =~= mid.update(y as int, mid[y as int].update(x as int, v)));
                    }
                    x = x + 1;
                }
                proof {
                    assert(self.screen()[y as int] =~= s0[y as int + 16]);
                }
                y = y + 1;
            }
            let bg = self.bg_color;
            let mut y2: usize = copy_rows;
            while y2 < self.height
                invariant
                    self.wf(),
                    text_rows == self.text_rows(),
                    copy_rows == (text_rows - 1) * 16,
                    copy_rows + 16 <= self.height,
                    copy_rows <= y2 <= self.height,
                    bg == self.bg_color,
                    self.font == old(self).font,
                    self.width == old(self).width && self.height == old(self).height,
                    self.stride == old(self).stride && self.base_addr == old(self).base_addr,
                    self.pixel_format == old(self).pixel_format,
                    self.cursor_col == old(self).cursor_col && self.cursor_row == old(self).cursor_row,
                    self.fg_color == old(self).fg_color && self.bg_color == old(self).bg_color,
                    s0.len() == self.height,
                    forall|k: int| 0 <= k < s0.len() ==> (#[trigger] s0[k]).len() == self.stride,
                    self.screen().len() == s0.len(),
                    forall|k: int| 0 <= k < copy_rows ==> #[trigger] self.screen()[k] == s0[k + 16],
                    forall|k: int| y2 <= k < s0.len() ==> #[trigger] self.screen()[k] == s0[k],
                    forall|k: int|
                        copy_rows <= k < y2 ==> #[trigger] self.screen()[k] == Seq::new(
                            s0[k].len(),
                            |i: int|
                                if i < self.width {
                                    bg
                                } else {
                                    s0[k][i]
                                },
                        ),
                decreases self.height - y2,
            {
                let ghost before = self.screen();
                let mut x: usize = 0;
                while x < self.width
                    invariant
                        self.wf(),
                        copy_rows <= y2 < self.height,
                        0 <= x <= self.width,
                        bg == self.bg_color,
                        self.font == old(self).font,
                        self.width == old(self).width && self.height == old(self).height,
                        self.stride == old(self).stride && self.base_addr == old(self).base_addr,
                        self.pixel_format == old(self).pixel_format,
                        self.cursor_col == old(self).cursor_col && self.cursor_row == old(self).cursor_row,
                        self.fg_color == old(self).fg_color && self.bg_color == old(self).bg_color,
                        self.screen().len() == before.len(),
                        forall|k: int| 0 <= k < before.len() && k != y2 ==> #[trigger] self.screen()[k] == before[k],
                        self.screen()[y2 as int].len() == self.stride,
                        before[y2 as int].len() == self.stride,
                        forall|i: int|
                            0 <= i < self.stride ==> #[trigger] self.screen()[y2 as int][i] == (if i < x {
                                bg
                            } else {
                                before[y2 as int][i]
                            }),
                    decreases self.width - x,
                {
                    let ghost mid = self.screen();
                    self.pixels[y2].set(x, bg);
                    proof {
                        assert(self.screen() =~= mid.update(y2 as int, mid[y2 as int].update(x as int, bg)));
                    }
                    x = x + 1;
                }
                proof {
                    assert(self.screen()[y2 as int] =~= Seq::new(
                        s0[y2 as int].len(),
                        |i: int|
                            if i < self.width {
                                bg
                            } else {
                                s0[y2 as int][i]
                            },
                    ));
                }
                y2 = y2 + 1;
            }
            proof {
                assert(self.screen() =~~= scrolled(s0, self.width as int, text_rows as int, bg));
            }
        }
        self.cursor_col = 0;
    }

    /// The screen after `byte` is written.
    pub open spec fn byte_screen(&self, byte: u8) -> Seq<Seq<u32>> {
        if !self.spec_is_active() {
            self.screen()
        } else if byte == 0x0A {
            self.new_line_screen()
        } else {
            let wraps = self.cursor_col >= self.text_cols();
            let screen = if wraps { self.new_line_screen() } else { self.screen() };
            let row = if wraps { self.new_line_row() } else { self.cursor_row as int };
            let col = if wraps { 0 } else { self.cursor_col as int };
            drawn(
                screen,
                self.width as int,
                self.height as int,
                self.font@[byte as int],
                col,
                row,
                self.fg_color,
                self.bg_color,
            )
        }
    }

    /// The cursor (column, row) after `byte` is written.
    pub open spec fn byte_cursor(&self, byte: u8) -> (int, int) {
        if !self.spec_is_active() {
            (self.cursor_col as int, self.cursor_row as int)
        } else if byte == 0x0A {
            (0, self.new_line_row())
        } else if self.cursor_col >= self.text_cols() {
            (1, self.new_line_row())
        } else {
            (self.cursor_col + 1, self.cursor_row as int)
        }
    }

    /// Writes `byte` at the cursor: a line feed starts a new line, any other
    /// byte is drawn with its glyph, wrapping first at the end of the line.
    pub fn write_byte(&mut self, byte: u8)
        requires
            old(self).wf(),
            old(self).spec_is_active() ==> old(self).text_rows() >= 1,
        ensures
            final(self).wf(),
            final(self).screen() == old(self).byte_screen(byte),
            (final(self).cursor_col as int, final(self).cursor_row as int) == old(self).byte_cursor(byte),
            final(self).width == old(self).width && final(self).height == old(self).height,
            final(self).stride == old(self).stride && final(self).base_addr == old(self).base_addr,
            final(self).font == old(self).font && final(self).pixel_format == old(self).pixel_format,
            final(self).fg_color == old(self).fg_color && final(self).bg_color == old(self).bg_color,
    {
        if !self.is_active() {
            return;
        }
        if byte == 0x0A {
            self.new_line();
            return;
        }
        if self.cursor_col >= self.cols() {
            self.new_line();
        }
        proof {
            let tr = self.text_rows();
            assert(tr * 16 <= self.height) by (nonlinear_arith)
                requires
                    tr == self.height as int / 16,
            ;
            let tc = self.text_cols();
            assert(tc * 8 <= self.width) by (nonlinear_arith)
                requires
                    tc == self.width as int / 8,
            ;
            assert(self.cursor_col * 8 + 8 <= usize::MAX) by (nonlinear_arith)
                requires
                    self.cursor_col < tc || self.cursor_col == 0,
                    tc * 8 <= self.width,
            ;
            assert(self.cursor_row * 16 + 16 <= usize::MAX) by (nonlinear_arith)
                requires
                    self.cursor_row < tr,
                    tr * 16 <= self.height,
            ;
        }
        let col = self.cursor_col;
        let row = self.cursor_row;
        let fg = self.fg_color;
        let bg = self.bg_color;
        self.draw_char(byte as char, col, row, fg, bg);
        self.cursor_col = col + 1;
    }

    /// Steps the cursor back one column and blanks that cell.
    pub fn backspace(&mut self)
        requires
            old(self).wf(),
        ensures
            final(self).wf(),
            old(self).cursor_col == 0 ==> final(self).screen() == old(self).screen() && final(self).cursor_col == 0,
            old(self).cursor_col > 0 ==> final(self).cursor_col == old(self).cursor_col - 1 && final(self).screen()
                == drawn(
                old(self).screen(),
                old(self).width as int,
                old(self).height as int,
                old(self).font@[0x20],
                old(self).cursor_col - 1,
                old(self).cursor_row as int,
                old(self).fg_color,
                old(self).bg_color,
            ),
            final(self).cursor_row == old(self).cursor_row,
            final(self).width == old(self).width && final(self).height == old(self).height,
            final(self).stride == old(self).stride && final(self).base_addr == old(self).base_addr,
            final(self).font == old(self).font && final(self).pixel_format == old(self).pixel_format,
            final(self).fg_color == old(self).fg_color && final(self).bg_color == old(self).bg_color,
    {
        if self.cursor_col > 0 {
            self.cursor_col = self.cursor_col - 1;
            proof {
                let tr = self.text_rows();
                assert(tr * 16 <= self.height) by (nonlinear_arith)
                    requires
                        tr == self.height as int / 16,
                ;
                let tc = self.text_cols();
                assert(tc * 8 <= self.width) by (nonlinear_arith)
                    requires
                        tc == self.width as int / 8,
                ;
                assert(self.cursor_col * 8 + 8 <= usize::MAX) by (nonlinear_arith)
                    requires
                        self.cursor_col + 1 <= tc || self.cursor_col == 0,
                        tc * 8 <= self.width,
                ;
                assert(self.cursor_row * 16 + 16 <= usize::MAX) by (nonlinear_arith)
                    requires
                        self.cursor_row < tr || self.cursor_row == 0,
                        tr * 16 <= self.height,
                ;
            }
            let col = self.cursor_col;
            let row = self.cursor_row;
            let fg = self.fg_color;
            let bg = self.bg_color;
            self.draw_char(' ', col, row, fg, bg);
        }
    }
}

/// Drawing into a text cell replaces whatever an earlier glyph drew there.
pub proof fn law_redraw_replaces_cell(
    screen: Seq<Seq<u32>>,
    width: int,
    height: int,
    first: [u8; 16],
    second: [u8; 16],
    col: int,
    row: int,
    fg1: u32,
    bg1: u32,
    fg2: u32,
    bg2: u32,
)
    ensures
        drawn(drawn(screen, width, height, first, col, row, fg1, bg1), width, height, second, col, row, fg2, bg2)
            == drawn(screen, width, height, second, col, row, fg2, bg2),
{
    assert(drawn(drawn(screen, width, height, first, col, row, fg1, bg1), width, height, second, col, row, fg2, bg2)
        =~~= drawn(screen, width, height, second, col, row, fg2, bg2));
}

/// Writing a byte that fits on the line and then backspacing puts the
/// cursor back and leaves a blank glyph in that cell, whatever the byte was.
pub proof fn law_write_then_backspace(w: GopWriter, byte: u8)
    requires
        w.wf(),
        w.spec_is_active(),
        byte != 0x0A,
        w.cursor_col < w.text_cols(),
    ensures
        w.byte_cursor(byte) == (w.cursor_col + 1, w.cursor_row as int),
        drawn(
            w.byte_screen(byte),
            w.width as int,
            w.height as int,
            w.font@[0x20],
            w.cursor_col as int,
            w.cursor_row as int,
            w.fg_color,
            w.bg_color,
        ) == drawn(
            w.screen(),
            w.width as int,
            w.height as int,
            w.font@[0x20],
            w.cursor_col as int,
            w.cursor_row as int,
            w.fg_color,
            w.bg_color,
        ),
{
    law_redraw_replaces_cell(
        w.screen(),
        w.width as int,
        w.height as int,
        w.font@[byte as int],
        w.font@[0x20],
        w.cursor_col as int,
        w.cursor_row as int,
        w.fg_color,
        w.bg_color,
        w.fg_color,
        w.bg_color,
    );
}

} // verus!
