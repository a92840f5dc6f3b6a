use kernelcore::console::Console;
use kernelcore::exceptions::is_svc_exception;
use kernelcore::font::get_char_pixels;
use kernelcore::framebuffer::Color;
use kernelcore::framebuffer::ColorFormat;
use kernelcore::framebuffer::FrameBuffer;
use kernelcore::nolock::NoLock;
use kernelcore::translation::mair_value;
use kernelcore::translation::prepare_identity_map;
use kernelcore::translation::sctlr_value;
use kernelcore::translation::tcr_value;
use kernelcore::translation::TranslationTable;
use kernelcore::translation::TranslationTableEntry;

#[test]
fn pixel_round_trip_in_32_bit_formats() {
    let color = Color { r: 10, g: 20, b: 30, a: 40 };
    let mut fb = FrameBuffer::new(8, 8, ColorFormat::RGBA32);
    fb.set_pixel(3, 5, color);
    assert_eq!(fb.get_pixel(3, 5), color);
    assert_eq!(fb.get_pixel(0, 0), Color { r: 0, g: 0, b: 0, a: 0 });
    let mut fb2 = FrameBuffer::new(8, 8, ColorFormat::BGRA32);
    fb2.set_pixel(0, 0, color);
    assert_eq!(fb2.get_pixel(0, 0), color);
}

#[test]
fn sixteen_bit_formats_drop_low_bits() {
    let color = Color { r: 255, g: 255, b: 255, a: 255 };
    let mut fb = FrameBuffer::new(4, 4, ColorFormat::RGB16);
    fb.set_pixel(1, 1, color);
    let read = fb.get_pixel(1, 1);
    assert_eq!(read, Color { r: 0xf8, g: 0xfc, b: 0xf8, a: 255 });
}

#[test]
fn shift_up_scrolls_and_fills() {
    let red = Color { r: 255, g: 0, b: 0, a: 255 };
    let blue = Color { r: 0, g: 0, b: 255, a: 255 };
    let mut fb = FrameBuffer::new(2, 3, ColorFormat::RGBA32);
    fb.set_pixel(0, 1, red);
    fb.shift_up(1, blue);
    assert_eq!(fb.get_pixel(0, 0), red);
    assert_eq!(fb.get_pixel(1, 0), Color { r: 0, g: 0, b: 0, a: 0 });
    assert_eq!(fb.get_pixel(0, 2), blue);
    assert_eq!(fb.get_pixel(1, 2), blue);
}

#[test]
fn font_lookup_reads_packed_bits() {
    let mut font = vec![0u8; 480];
    // Bit 0 is pixel (0, 0) of the first glyph, the space character.
    font[0] = 0b1;
    // Bit 80 is pixel (0, 1) of the same glyph: one full table row later.
    font[10] = 0b1;
    let pixels = get_char_pixels(' ', &font);
    assert_eq!(pixels.len(), 7);
    assert_eq!(pixels[0].len(), 10);
    assert!(pixels[1][1]);
    assert!(pixels[1][2]);
    assert!(!pixels[2][1]);
    // The padding border stays clear.
    assert!(!pixels[0][0]);
    assert!(!pixels[6][9]);
}

#[test]
fn unknown_characters_map_to_the_last_glyph() {
    let mut font = vec![0u8; 480];
    // Pixel (0, 0) of glyph 95 sits at bit 5 * 15 + 640 * 5 = 3275.
    font[3275 / 8] = 1 << (3275 % 8);
    let pixels = get_char_pixels('\u{80}', &font);
    assert!(pixels[1][1]);
}

#[test]
fn console_cursor_movement() {
    let fb = FrameBuffer::new(70, 30, ColorFormat::RGBA32);
    let font = vec![0u8; 480];
    let mut con = Console::init(fb, font);
    assert_eq!(con.grid_columns(), 10);
    assert_eq!(con.grid_rows(), 3);
    assert_eq!((con.cursor_row(), con.cursor_column()), (0, 0));
    con.write_char('a');
    assert_eq!((con.cursor_row(), con.cursor_column()), (0, 1));
    con.write_char('\n');
    assert_eq!((con.cursor_row(), con.cursor_column()), (1, 0));
    con.write_str("ab");
    con.write_char('\r');
    assert_eq!((con.cursor_row(), con.cursor_column()), (1, 0));
    con.write_char('\t');
    assert_eq!(con.cursor_column() % 4, 0);
    con.clear();
    assert_eq!((con.cursor_row(), con.cursor_column()), (0, 0));
}

#[test]
fn console_wraps_at_the_right_edge() {
    let fb = FrameBuffer::new(70, 30, ColorFormat::RGBA32);
    let font = vec![0u8; 480];
    let mut con = Console::new(fb, font);
    con.write_str("0123456789");
    assert_eq!((con.cursor_row(), con.cursor_column()), (1, 0));
}

#[test]
fn console_scrolls_on_the_last_line() {
    let fb = FrameBuffer::new(70, 30, ColorFormat::RGBA32);
    let font = vec![0u8; 480];
    let mut con = Console::init(fb, font);
    con.write_char('\n');
    con.write_char('\n');
    assert_eq!(con.cursor_row(), 2);
    con.write_char('\n');
    // The cursor stays on the last line; the contents scrolled instead.
    assert_eq!(con.cursor_row(), 2);
}

#[test]
fn translation_table_entries() {
    let invalid = TranslationTableEntry::invalid();
    assert_eq!(invalid.value(), 0);
    let block = TranslationTableEntry::block_descriptor(0x1234_5678);
    assert_eq!(block.value(), (0x1234_5678 & 0x0000_ffff_ffff_f000) | 0x400 | 1);
    let truncated = TranslationTableEntry::block_descriptor(0xffff_0000_0000_0fff);
    assert_eq!(truncated.value(), 0x401);
}

#[test]
fn translation_bring_up_values() {
    assert_eq!(mair_value(), 0xff);
    assert_eq!(tcr_value(), (1 << 23) | 28 | (1 << 8) | (1 << 10) | (3 << 12));
    assert_eq!(sctlr_value(), 0b101 | (1 << 12));
}

#[test]
fn identity_map_occupies_entry_zero() {
    let mut table = TranslationTable::empty();
    assert_eq!(table.entry(0).value(), 0);
    assert_eq!(table.entry(511).value(), 0);
    prepare_identity_map(&mut table);
    assert_eq!(table.entry(0).value(), 0x401);
    assert_eq!(table.entry(1).value(), 0);
    let high = TranslationTableEntry::block_descriptor(0x4000_0000);
    table.set_entry(1, high);
    assert_eq!(table.entry(1).value(), 0x4000_0401);
}

#[test]
fn nolock_cell_round_trip() {
    let mut cell = NoLock::new(41u64);
    assert_eq!(*cell.borrow(), 41);
    *cell.lock() = 42;
    assert_eq!(*cell.borrow(), 42);
    assert_eq!(cell.into_inner(), 42);
}

#[test]
fn syndrome_classification() {
    assert!(is_svc_exception(0b010101 << 26));
    assert!(is_svc_exception((0b010101 << 26) | 0xdead));
    assert!(!is_svc_exception(0b100101 << 26));
    assert!(!is_svc_exception(0));
}
