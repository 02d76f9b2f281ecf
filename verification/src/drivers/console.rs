//! The kernel console: which display it writes to, and the console
//! operations on a framebuffer display.
use vstd::prelude::*;
use crate::boot::boot_info::DisplayMode;
use crate::drivers::framebuffer::{Color, GopWriter, cleared, drawn, pixel_value, FONT_GLYPHS};

verus! {

#[derive(Debug, Clone, Copy, PartialEq, Eq, Structural)]
pub enum ConsoleKind {
    Vga,
    Gop,
}

/// The display the console uses: the framebuffer where the boot loader set
/// one up and the kernel has framebuffer support, VGA text otherwise.
pub open spec fn kind_for(display: DisplayMode, framebuffer: bool) -> ConsoleKind {
    match display {
        DisplayMode::GopFramebuffer(_) => if framebuffer {
            ConsoleKind::Gop
        } else {
            ConsoleKind::Vga
        },
        DisplayMode::VgaText { .. } => ConsoleKind::Vga,
    }
}

/// The console: its kind and, for a framebuffer, its writer. The VGA text
/// writer lives with the platform code.
pub struct Console {
    pub kind: ConsoleKind,
    pub gop: GopWriter,
}

impl Console {
    /// A VGA console.
    pub fn new() -> (r: Self)
        ensures
            r.kind == ConsoleKind::Vga,
            r.gop.wf(),
    {
        Console { kind: ConsoleKind::Vga, gop: GopWriter::empty() }
    }

    /// Selects the display; a framebuffer display takes over the
    /// framebuffer with the glyphs `font`.
    pub fn init(&mut self, display: DisplayMode, framebuffer: bool, font: Vec<[u8; 16]>)
        requires
            font@.len() == FONT_GLYPHS,
            display matches DisplayMode::GopFramebuffer(info) ==> info.width <= info.stride,
            old(self).gop.wf(),
        ensures
            final(self).kind == kind_for(display, framebuffer),
            final(self).gop.wf(),
            framebuffer ==> match display {
                DisplayMode::GopFramebuffer(info) => final(self).gop.base_addr == info.base_addr && final(self).gop.width
                    == info.width && final(self).gop.height == info.height && final(self).gop.cursor_col == 0
                    && final(self).gop.cursor_row == 0,
                DisplayMode::VgaText { .. } => final(self).gop == old(self).gop,
            },
    {
        match display {
            DisplayMode::VgaText { .. } => {
                self.kind = ConsoleKind::Vga;
            },
            DisplayMode::GopFramebuffer(info) => {
                if framebuffer {
                    self.kind = ConsoleKind::Gop;
                    self.gop.init(info, font);
                } else {
                    self.kind = ConsoleKind::Vga;
                }
            },
        }
    }

    /// Clears the screen of a framebuffer console.
    pub fn clear_screen(&mut self)
        requires
            old(self).gop.wf(),
        ensures
            final(self).kind == old(self).kind,
            final(self).gop.wf(),
            old(self).kind == ConsoleKind::Gop ==> final(self).gop.screen() == cleared(
                old(self).gop.screen(),
                old(self).gop.width as int,
                old(self).gop.bg_color,
            ) && final(self).gop.cursor_col == 0 && final(self).gop.cursor_row == 0,
            old(self).kind == ConsoleKind::Vga ==> final(self).gop == old(self).gop,
    {
        if self.kind == ConsoleKind::Gop {
            self.gop.clear_screen();
        }
    }

    /// Erases the character before the cursor of a framebuffer console.
    pub fn backspace(&mut self)
        requires
            old(self).gop.wf(),
        ensures
            final(self).kind == old(self).kind,
            final(self).gop.wf(),
            old(self).kind == ConsoleKind::Gop && old(self).gop.cursor_col > 0 ==> final(self).gop.cursor_col == old(
                self,
            ).gop.cursor_col - 1 && final(self).gop.screen() == drawn(
                old(self).gop.screen(),
                old(self).gop.width as int,
                old(self).gop.height as int,
                old(self).gop.font@[0x20],
                old(self).gop.cursor_col - 1,
                old(self).gop.cursor_row as int,
                old(self).gop.fg_color,
                old(self).gop.bg_color,
            ),
            old(self).kind == ConsoleKind::Gop && old(self).gop.cursor_col == 0 ==> final(self).gop.screen() == old(
                self,
            ).gop.screen(),
            old(self).kind == ConsoleKind::Vga ==> final(self).gop == old(self).gop,
    {
        if self.kind == ConsoleKind::Gop {
            self.gop.backspace();
        }
    }

    /// Sets the colours of a framebuffer console.
    pub fn set_color(&mut self, fg: Color, bg: Color)
        ensures
            final(self).kind == old(self).kind,
            old(self).kind == ConsoleKind::Gop ==> final(self).gop.fg_color == pixel_value(fg, old(self).gop.pixel_format)
                && final(self).gop.bg_color == pixel_value(bg, old(self).gop.pixel_format),
            final(self).gop.pixels == old(self).gop.pixels,
            old(self).kind == ConsoleKind::Vga ==> final(self).gop == old(self).gop,
            old(self).gop.wf() ==> final(self).gop.wf(),
    {
        if self.kind == ConsoleKind::Gop {
            self.gop.set_color(fg, bg);
        }
    }
}

/// Clears the console (see `Console::clear_screen`).
pub fn clear_screen(console: &mut Console)
    requires
        old(console).gop.wf(),
    ensures
        final(console).kind == old(console).kind,
        final(console).gop.wf(),
        old(console).kind == ConsoleKind::Gop ==> final(console).gop.screen() == cleared(
            old(console).gop.screen(),
            old(console).gop.width as int,
            old(console).gop.bg_color,
        ),
        old(console).kind == ConsoleKind::Vga ==> final(console).gop == old(console).gop,
{
    console.clear_screen()
}

/// Erases the character before the cursor (see `Console::backspace`).
pub fn backspace(console: &mut Console)
    requires
        old(console).gop.wf(),
    ensures
        final(console).kind == old(console).kind,
        final(console).gop.wf(),
        old(console).kind == ConsoleKind::Gop && old(console).gop.cursor_col > 0 ==> final(console).gop.cursor_col
            == old(console).gop.cursor_col - 1,
        old(console).kind == ConsoleKind::Vga ==> final(console).gop == old(console).gop,
{
    console.backspace()
}

/// Sets the console colours (see `Console::set_color`).
pub fn set_color(console: &mut Console, fg: Color, bg: Color)
    ensures
        final(console).kind == old(console).kind,
        old(console).kind == ConsoleKind::Gop ==> final(console).gop.fg_color == pixel_value(
            fg,
            old(console).gop.pixel_format,
        ) && final(console).gop.bg_color == pixel_value(bg, old(console).gop.pixel_format),
        old(console).kind == ConsoleKind::Vga ==> final(console).gop == old(console).gop,
{
    console.set_color(fg, bg)
}

} // verus!
