use saeos::boot::boot_info::{DisplayMode, FramebufferInfo, PixelFormat};
use saeos::drivers::console::{self, Console, ConsoleKind};
use saeos::drivers::framebuffer::{color_to_u32, Color, GopWriter, DEFAULT_BG, DEFAULT_FG};
use saeos::drivers::serial::SerialPort as Uart;
use saeos::serial::SerialPort;

#[test]
fn serial_line_feeds_become_crlf() {
    let port = SerialPort::default();
    assert_eq!(port.port, 0x3F8);
    assert_eq!(port.send_string(b"a\nb\n"), b"a\r\nb\r\n".to_vec());
    assert_eq!(port.send_string(b""), Vec::<u8>::new());
}

#[test]
fn uart_setup_and_transmit() {
    let uart = Uart::new(0x3F8);
    let writes = uart.init_writes();
    assert_eq!(writes[0], (0x3F9, 0x00));
    assert_eq!(writes[1], (0x3FB, 0x80));
    assert_eq!(writes[2], (0x3F8, 0x01));
    assert_eq!(writes[6], (0x3FC, 0x0B));
    assert_eq!(uart.line_status_port(), 0x3FD);
    assert!(Uart::ready_to_send(0x20));
    assert!(!Uart::ready_to_send(0x1F));
    assert_eq!(uart.write_string(b"ok\n"), b"ok\n".to_vec());
}

#[test]
fn colour_values_by_pixel_format() {
    assert_eq!(color_to_u32(Color::Brown, PixelFormat::Rgb), 0xAA5500);
    assert_eq!(color_to_u32(Color::Brown, PixelFormat::Bgr), 0x0055AA);
    assert_eq!(color_to_u32(Color::White, PixelFormat::Unknown), 0xFFFFFF);
    assert_eq!(color_to_u32(Color::LightBlue, PixelFormat::Rgb), 0x5555FF);
}

fn font() -> Vec<[u8; 16]> {
    let mut glyphs = vec![[0u8; 16]; 256];
    glyphs[b'A' as usize] = [0xFF; 16];
    glyphs[b'B' as usize] = [0x80; 16];
    glyphs
}

fn info(width: usize, height: usize) -> FramebufferInfo {
    FramebufferInfo {
        base_addr: 0x8000_0000,
        size: width * height * 4,
        width,
        height,
        stride: width + 4,
        pixel_format: PixelFormat::Rgb,
    }
}

#[test]
fn writer_draws_wraps_and_scrolls() {
    let mut writer = GopWriter::empty();
    assert!(!writer.is_active());
    writer.init(info(16, 32), font());
    assert!(writer.is_active());
    assert_eq!(writer.cols(), 2);
    assert_eq!(writer.rows(), 2);
    writer.write_byte(b'A');
    assert_eq!((writer.cursor_col, writer.cursor_row), (1, 0));
    assert_eq!(writer.pixels[0][0], DEFAULT_FG);
    assert_eq!(writer.pixels[15][7], DEFAULT_FG);
    assert_eq!(writer.pixels[0][8], DEFAULT_BG);
    writer.write_byte(b'B');
    assert_eq!(writer.pixels[3][8], DEFAULT_FG);
    assert_eq!(writer.pixels[3][9], DEFAULT_BG);
    writer.write_byte(b'A');
    assert_eq!((writer.cursor_col, writer.cursor_row), (1, 1));
    assert_eq!(writer.pixels[16][0], DEFAULT_FG);
    writer.write_byte(b'\n');
    assert_eq!((writer.cursor_col, writer.cursor_row), (0, 1));
    assert_eq!(writer.pixels[0][0], DEFAULT_FG);
    assert_eq!(writer.pixels[16][0], DEFAULT_BG);
    writer.backspace();
    assert_eq!(writer.cursor_col, 0);
}

#[test]
fn backspace_blanks_the_last_cell() {
    let mut writer = GopWriter::empty();
    writer.init(info(16, 16), font());
    writer.write_byte(b'A');
    writer.backspace();
    assert_eq!(writer.cursor_col, 0);
    assert_eq!(writer.pixels[0][0], DEFAULT_BG);
    writer.set_color(Color::Yellow, Color::Blue);
    assert_eq!(writer.fg_color, 0xFFFF55);
    assert_eq!(writer.bg_color, 0x0000AA);
    writer.clear_screen();
    assert_eq!(writer.pixels[5][5], 0x0000AA);
    assert_eq!(writer.pixels[5][17], 0);
}

#[test]
fn inactive_writer_ignores_bytes() {
    let mut writer = GopWriter::empty();
    writer.write_byte(b'A');
    assert_eq!(writer.cursor_col, 0);
}

#[test]
fn console_follows_the_display() {
    let mut vga = Console::new();
    vga.init(DisplayMode::VgaText { buffer_addr: 0xb8000 }, true, font());
    assert_eq!(vga.kind, ConsoleKind::Vga);
    let mut gop = Console::new();
    gop.init(DisplayMode::GopFramebuffer(info(16, 16)), true, font());
    assert_eq!(gop.kind, ConsoleKind::Gop);
    console::set_color(&mut gop, Color::Black, Color::White);
    console::clear_screen(&mut gop);
    assert_eq!(gop.gop.pixels[0][0], 0xFFFFFF);
    let mut no_fb = Console::new();
    no_fb.init(DisplayMode::GopFramebuffer(info(16, 16)), false, font());
    assert_eq!(no_fb.kind, ConsoleKind::Vga);
    console::backspace(&mut no_fb);
}
