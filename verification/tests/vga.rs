use blog_os::vga_buffer::{Color, ScreenChar, Writer, BUFFER_HEIGHT, BUFFER_WIDTH};

#[test]
fn color_codes() {
    assert_eq!(Color::Black.code(), 0);
    assert_eq!(Color::Blue.code(), 1);
    assert_eq!(Color::White.code(), 15);
    // background in the high nibble, foreground in the low one
    let c = ScreenChar::new(Color::Blue, Color::White, b'x');
    assert_eq!(c.color_code, 0xf1);
    assert_eq!(c.ascii_character, b'x');
}

#[test]
fn writer_prints_single_line() {
    let mut w = Writer::new(Color::Blue, Color::White);
    let s = b"Single line";
    w.write_str(s);
    for (i, &c) in s.iter().enumerate() {
        assert_eq!(w.char_at(0, i).ascii_character, c);
    }
    assert_eq!(w.row_position(), 0);
    assert_eq!(w.column_position(), s.len());
}

#[test]
fn writer_wraps_full_rows() {
    let mut w = Writer::new(Color::Blue, Color::White);
    for _ in 0..(BUFFER_WIDTH + 1) {
        w.write_byte(b'a');
    }
    // the 81st character starts the next row
    assert_eq!(w.row_position(), 1);
    assert_eq!(w.column_position(), 1);
    assert_eq!(w.char_at(0, BUFFER_WIDTH - 1).ascii_character, b'a');
    assert_eq!(w.char_at(1, 0).ascii_character, b'a');
}

#[test]
fn writer_scrolls_on_last_row() {
    let mut w = Writer::new(Color::Blue, Color::White);
    for _ in 0..(BUFFER_HEIGHT - 1) {
        w.write_byte(b'\n');
    }
    assert_eq!(w.row_position(), BUFFER_HEIGHT - 1);
    w.write_byte(b'x');
    w.write_byte(b'\n');
    // the cursor stays on the last row; the screen moved up by one
    assert_eq!(w.row_position(), BUFFER_HEIGHT - 1);
    assert_eq!(w.char_at(BUFFER_HEIGHT - 2, 0).ascii_character, b'x');
    assert_eq!(w.char_at(BUFFER_HEIGHT - 1, 0).ascii_character, b' ');
}

#[test]
fn unprintable_bytes_are_replaced() {
    let mut w = Writer::new(Color::Blue, Color::White);
    w.write_str(&[0x01, b'k', 0x7f]);
    assert_eq!(w.char_at(0, 0).ascii_character, 0xfe);
    assert_eq!(w.char_at(0, 1).ascii_character, b'k');
    assert_eq!(w.char_at(0, 2).ascii_character, 0xfe);
}

#[test]
fn many_lines_of_output() {
    let mut w = Writer::new(Color::Blue, Color::White);
    for _ in 0..200 {
        w.write_str(b"output\n");
    }
    for (i, &c) in b"output".iter().enumerate() {
        assert_eq!(w.char_at(BUFFER_HEIGHT - 2, i).ascii_character, c);
    }
}
