use lilith::vga_buffer::{unicode_to_cp437, Color, ColorCode, ScreenChar, Writer, BUFFER_HEIGHT, BUFFER_WIDTH};

fn blank_writer() -> Writer {
    let code = ColorCode::new(Color::Yellow, Color::Black);
    let blank = ScreenChar { ascii_character: b' ', color_code: code };
    Writer::new(code, vec![blank; BUFFER_HEIGHT * BUFFER_WIDTH])
}

fn row_text(w: &Writer, row: usize) -> String {
    w.cells()[row * BUFFER_WIDTH..(row + 1) * BUFFER_WIDTH]
        .iter()
        .map(|c| c.ascii_character as char)
        .collect::<String>()
        .trim_end()
        .to_string()
}

#[test]
fn color_code_packs_background_high() {
    assert_eq!(ColorCode::new(Color::Yellow, Color::Black), ColorCode(0x0e));
    assert_eq!(ColorCode::new(Color::White, Color::Blue), ColorCode(0x1f));
    assert_eq!(Color::LightGray.number(), 7);
}

#[test]
fn cp437_translation() {
    assert_eq!(unicode_to_cp437('A'), Some(b'A'));
    assert_eq!(unicode_to_cp437('\u{e9}'), Some(0x82));
    assert_eq!(unicode_to_cp437('\u{2588}'), Some(0xdb));
    assert_eq!(unicode_to_cp437('\u{2554}'), Some(0xc9));
    assert_eq!(unicode_to_cp437('\u{20ac}'), None);
    assert_eq!(unicode_to_cp437('\u{1f600}'), None);
}

#[test]
fn bytes_go_to_the_bottom_row() {
    let mut w = blank_writer();
    w.write_byte(b'h');
    w.write_byte(b'i');
    assert_eq!(row_text(&w, BUFFER_HEIGHT - 1), "hi");
    assert_eq!(w.cells()[(BUFFER_HEIGHT - 1) * BUFFER_WIDTH].color_code, ColorCode(0x0e));
}

#[test]
fn newline_scrolls_up() {
    let mut w = blank_writer();
    w.write_string(&"one\ntwo".chars().collect::<Vec<char>>());
    assert_eq!(row_text(&w, BUFFER_HEIGHT - 2), "one");
    assert_eq!(row_text(&w, BUFFER_HEIGHT - 1), "two");
}

#[test]
fn full_rows_wrap() {
    let mut w = blank_writer();
    let line: Vec<char> = std::iter::repeat('x').take(BUFFER_WIDTH).chain("yz".chars()).collect();
    w.write_string(&line);
    assert_eq!(row_text(&w, BUFFER_HEIGHT - 2), "x".repeat(BUFFER_WIDTH));
    assert_eq!(row_text(&w, BUFFER_HEIGHT - 1), "yz");
}

#[test]
fn characters_without_a_glyph_show_a_block() {
    let mut w = blank_writer();
    w.write_string(&['\u{20ac}', '\u{e9}']);
    let base = (BUFFER_HEIGHT - 1) * BUFFER_WIDTH;
    assert_eq!(w.cells()[base].ascii_character, 0xfe);
    assert_eq!(w.cells()[base + 1].ascii_character, 0x82);
}
