use kernel_heap::drivers::pic8259::{InterruptIndex, PRIMARY_PIC_OFFSET, SECONDARY_PIC_OFFSET};
use kernel_heap::drivers::vga_buffer::{
    Color, ColorCode, ScreenChar, Writer, BUFFER_HEIGHT, BUFFER_WIDTH, UNPRINTABLE,
};
use kernel_heap::mm::paging::{heap_page_addr, heap_page_count, HEAP_SIZE, HEAP_START, PAGE_SIZE};
use kernel_heap::mm::pow2::ceil_log2;
use kernel_heap::mm::{round_down, round_up};

#[test]
fn round_up_to_alignment() {
    assert_eq!(round_up(0, 4096), 0);
    assert_eq!(round_up(1, 4096), 4096);
    assert_eq!(round_up(4095, 4096), 4096);
    assert_eq!(round_up(4096, 4096), 4096);
    assert_eq!(round_up(4097, 4096), 8192);
    assert_eq!(round_up(10, 3), 12);
    assert_eq!(round_up(7, 1), 7);
}

#[test]
fn round_down_to_alignment() {
    assert_eq!(round_down(0, 4096), 0);
    assert_eq!(round_down(1, 4096), 0);
    assert_eq!(round_down(4095, 4096), 0);
    assert_eq!(round_down(4096, 4096), 4096);
    assert_eq!(round_down(8191, 4096), 4096);
    assert_eq!(round_down(10, 3), 9);
    assert_eq!(round_down(usize::MAX, 4096), usize::MAX - 4095);
}

#[test]
fn binary_logarithm_rounded_up() {
    assert_eq!(ceil_log2(0), 0);
    assert_eq!(ceil_log2(1), 0);
    assert_eq!(ceil_log2(2), 1);
    assert_eq!(ceil_log2(3), 2);
    assert_eq!(ceil_log2(4), 2);
    assert_eq!(ceil_log2(5), 3);
    assert_eq!(ceil_log2(1024), 10);
    assert_eq!(ceil_log2(1025), 11);
    assert_eq!(ceil_log2(usize::MAX), usize::BITS);
}

#[test]
fn interrupt_vectors() {
    assert_eq!(PRIMARY_PIC_OFFSET, 32);
    assert_eq!(SECONDARY_PIC_OFFSET, 40);
    assert_eq!(InterruptIndex::Timer.as_u8(), 32);
    assert_eq!(InterruptIndex::Timer.as_usize(), 32);
}

#[test]
fn colour_numbers() {
    assert_eq!(Color::Black.code(), 0);
    assert_eq!(Color::Blue.code(), 1);
    assert_eq!(Color::LightGray.code(), 7);
    assert_eq!(Color::Yellow.code(), 14);
    assert_eq!(Color::White.code(), 15);
}

#[test]
fn colour_code_packs_background_high() {
    assert_eq!(ColorCode::new(Color::Yellow, Color::Black), ColorCode(0x0e));
    assert_eq!(ColorCode::new(Color::Black, Color::Black), ColorCode(0x00));
    assert_eq!(ColorCode::new(Color::White, Color::Blue), ColorCode(0x1f));
    assert_eq!(ColorCode::new(Color::Red, Color::White), ColorCode(0xf4));
}

#[test]
fn writer_starts_blank_in_column_zero() {
    let w = Writer::new(ColorCode::new(Color::Yellow, Color::Black));
    assert_eq!(w.column(), 0);
    let blank = ScreenChar { ascii_character: 0, color_code: ColorCode(0) };
    assert_eq!(w.cell(0, 0), blank);
    assert_eq!(w.cell(BUFFER_HEIGHT - 1, BUFFER_WIDTH - 1), blank);
}

#[test]
fn writer_puts_bytes_on_the_bottom_line() {
    let yellow = ColorCode::new(Color::Yellow, Color::Black);
    let mut w = Writer::new(yellow);
    w.write_byte(b'H');
    w.write_byte(b'i');
    assert_eq!(w.column(), 2);
    assert_eq!(w.cell(24, 0), ScreenChar { ascii_character: b'H', color_code: yellow });
    assert_eq!(w.cell(24, 1), ScreenChar { ascii_character: b'i', color_code: yellow });
    assert_eq!(w.cell(24, 2).ascii_character, 0);
    assert_eq!(w.cell(23, 0).ascii_character, 0);
}

#[test]
fn writer_newline_scrolls() {
    let mut w = Writer::new(ColorCode(0x0e));
    w.write_string("ab\ncd");
    assert_eq!(w.column(), 2);
    assert_eq!(w.cell(23, 0).ascii_character, b'a');
    assert_eq!(w.cell(23, 1).ascii_character, b'b');
    assert_eq!(w.cell(23, 2).ascii_character, 0);
    assert_eq!(w.cell(24, 0).ascii_character, b'c');
    assert_eq!(w.cell(24, 1).ascii_character, b'd');
    w.new_line();
    assert_eq!(w.column(), 0);
    assert_eq!(w.cell(22, 0).ascii_character, b'a');
    assert_eq!(w.cell(23, 0).ascii_character, b'c');
    assert_eq!(w.cell(24, 0), ScreenChar { ascii_character: 0, color_code: ColorCode(0) });
}

#[test]
fn writer_wraps_a_full_line() {
    let mut w = Writer::new(ColorCode(0x0e));
    for _ in 0..BUFFER_WIDTH {
        w.write_byte(b'x');
    }
    // the line is full, but it breaks only when the next byte comes
    assert_eq!(w.column(), BUFFER_WIDTH);
    assert_eq!(w.cell(24, 79).ascii_character, b'x');
    assert_eq!(w.cell(23, 0).ascii_character, 0);
    w.write_byte(b'y');
    assert_eq!(w.column(), 1);
    assert_eq!(w.cell(23, 0).ascii_character, b'x');
    assert_eq!(w.cell(23, 79).ascii_character, b'x');
    assert_eq!(w.cell(24, 0).ascii_character, b'y');
    assert_eq!(w.cell(24, 1).ascii_character, 0);
}

#[test]
fn writer_shows_unprintable_bytes_as_a_block() {
    let mut w = Writer::new(ColorCode(0x0e));
    w.write_string("a\té~ ");
    // a tab is one byte, the accented letter two; none of them is printable ASCII
    assert_eq!(w.column(), 6);
    assert_eq!(w.cell(24, 0).ascii_character, b'a');
    assert_eq!(w.cell(24, 1).ascii_character, UNPRINTABLE);
    assert_eq!(w.cell(24, 2).ascii_character, UNPRINTABLE);
    assert_eq!(w.cell(24, 3).ascii_character, UNPRINTABLE);
    assert_eq!(w.cell(24, 4).ascii_character, b'~');
    assert_eq!(w.cell(24, 5).ascii_character, b' ');
    assert_eq!(UNPRINTABLE, 0xfe);
}

#[test]
fn writer_scrolls_the_top_line_away() {
    let mut w = Writer::new(ColorCode(0x0e));
    w.write_string("top");
    for _ in 0..BUFFER_HEIGHT - 1 {
        w.write_byte(b'\n');
    }
    assert_eq!(w.cell(0, 0).ascii_character, b't');
    w.write_byte(b'\n');
    assert_eq!(w.cell(0, 0).ascii_character, 0);
}

#[test]
fn heap_window_pages() {
    assert_eq!(HEAP_START, 0x4444_4444_0000);
    assert_eq!(HEAP_SIZE, 1024 * 1024);
    assert_eq!(PAGE_SIZE, 4096);
    assert_eq!(heap_page_count(), 256);
    assert_eq!(heap_page_addr(0), 0x4444_4444_0000);
    assert_eq!(heap_page_addr(1), 0x4444_4444_1000);
    assert_eq!(heap_page_addr(255), 0x4444_4444_0000 + 255 * 4096);
}
