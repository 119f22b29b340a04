use slab_allocator::vga_buffer::{Color, Writer, BUFFER_HEIGHT, BUFFER_WIDTH};

fn row_text(w: &Writer, row: usize, len: usize) -> Vec<u8> {
    (0..len).map(|c| w.cell(row, c).0).collect()
}

#[test]
fn new_writer_shows_a_blank_screen() {
    let w = Writer::new(Color::Yellow, Color::Blue);
    for row in 0..BUFFER_HEIGHT {
        for col in 0..BUFFER_WIDTH {
            assert_eq!(w.cell(row, col), (b' ', 0x1e));
        }
    }
}

#[test]
fn byte_goes_to_the_cursor_on_the_last_row() {
    let mut w = Writer::new(Color::White, Color::Black);
    w.write_byte(b'A');
    w.write_byte(b'B');
    assert_eq!(w.cell(24, 0), (b'A', 0x0f));
    assert_eq!(w.cell(24, 1), (b'B', 0x0f));
    assert_eq!(w.cell(23, 0), (b' ', 0x0f));
}

#[test]
fn newline_scrolls_the_screen_up() {
    let mut w = Writer::new(Color::White, Color::Black);
    w.write_string("ab\ncd");
    assert_eq!(row_text(&w, 23, 2), b"ab".to_vec());
    assert_eq!(row_text(&w, 24, 3), b"cd ".to_vec());
    w.write_string("\n");
    assert_eq!(row_text(&w, 22, 2), b"ab".to_vec());
    assert_eq!(row_text(&w, 23, 2), b"cd".to_vec());
    assert_eq!(row_text(&w, 24, 2), b"  ".to_vec());
}

#[test]
fn full_line_wraps_before_the_next_byte() {
    let mut w = Writer::new(Color::Green, Color::Black);
    let line: String = std::iter::repeat('x').take(BUFFER_WIDTH).collect();
    w.write_string(&line);
    assert_eq!(w.cell(24, BUFFER_WIDTH - 1).0, b'x');
    assert_eq!(w.cell(23, 0).0, b' ');
    w.write_byte(b'y');
    assert_eq!(row_text(&w, 23, BUFFER_WIDTH), vec![b'x'; BUFFER_WIDTH]);
    assert_eq!(w.cell(24, 0), (b'y', 0x02));
    assert_eq!(w.cell(24, 1).0, b' ');
}

#[test]
fn unprintable_bytes_are_replaced() {
    let mut w = Writer::new(Color::White, Color::Black);
    w.write_string("é\t~");
    assert_eq!(row_text(&w, 24, 4), vec![0xfe, 0xfe, 0xfe, b'~']);
}

#[test]
fn writing_in_pieces_equals_writing_at_once() {
    let mut a = Writer::new(Color::White, Color::Black);
    let mut b = Writer::new(Color::White, Color::Black);
    a.write_string("hello, ");
    a.write_string("world\nnext line");
    b.write_string("hello, world\nnext line");
    for row in 0..BUFFER_HEIGHT {
        for col in 0..BUFFER_WIDTH {
            assert_eq!(a.cell(row, col), b.cell(row, col));
        }
    }
}

#[test]
fn init_does_nothing() {
    slab_allocator::vga_buffer::init();
}

#[test]
fn only_displayable_bytes_reach_the_screen() {
    let mut w = Writer::new(Color::White, Color::Black);
    w.write_string("\x07bell\x1b[0m\r\u{7f}ok\n\u{263a}");
    for row in 0..BUFFER_HEIGHT {
        for col in 0..BUFFER_WIDTH {
            let b = w.cell(row, col).0;
            assert!((0x20..=0x7e).contains(&b) || b == 0xfe, "byte {:#x}", b);
        }
    }
}
