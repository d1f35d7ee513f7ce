use lilith::vesa::{ModeInfoBlock, TextAction, TextCursor, VgaRenderer};

fn mode() -> ModeInfoBlock {
    ModeInfoBlock {
        mode_attributes: 0,
        win_a_attributes: 0,
        win_b_attributes: 0,
        win_granularity: 0,
        win_size: 0,
        win_a_segment: 0,
        win_b_segment: 0,
        win_func_ptr: 0,
        bytes_per_scan_line: 4096,
        x_resolution: 1024,
        y_resolution: 768,
        x_char_size: 0,
        y_char_size: 0,
        number_of_planes: 1,
        bits_per_pixel: 32,
        number_of_banks: 0,
        memory_model: 6,
        bank_size: 0,
        number_of_image_pages: 0,
        reserved0: 0,
        red_mask_size: 8,
        red_field_position: 16,
        green_mask_size: 8,
        green_field_position: 8,
        blue_mask_size: 8,
        blue_field_position: 0,
        rsvd_mask_size: 8,
        rsvd_field_position: 24,
        direct_color_mode_info: 0,
        phys_base_ptr: 0xfd00_0000,
        reserved1: 0,
        reserved2: 0,
        lin_bytes_per_scan_line: 4096,
        bnk_number_of_image_pages: 0,
        lin_number_of_image_pages: 0,
        lin_red_mask_size: 8,
        lin_red_field_position: 16,
        lin_green_mask_size: 8,
        lin_green_field_position: 8,
        lin_blue_mask_size: 8,
        lin_blue_field_position: 0,
        lin_rsvd_mask_size: 8,
        lin_rsvd_field_position: 24,
        max_pixel_clock: 0,
        reserved3: [0; 190],
    }
}

#[test]
fn supported_mode_geometry() {
    let m = mode();
    assert!(m.supported());
    let r = m.screen_rect();
    assert_eq!((r.tl.x, r.tl.y, r.br.x, r.br.y), (0, 0, 1024, 768));
    assert_eq!(m.stride(), 1024);
}

#[test]
fn unsupported_modes() {
    let mut m = mode();
    m.bits_per_pixel = 24;
    assert!(!m.supported());
    let mut m = mode();
    m.bytes_per_scan_line = 4098;
    assert!(!m.supported());
    let mut m = mode();
    m.red_field_position = 0;
    assert!(!m.supported());
}

#[test]
fn render_char_writes_glyph_pixels() {
    let mut font = vec![0u8; 14 * 256];
    // glyph 'A': top row has the leftmost pixel lit, row 13 the rightmost
    font[14 * 65] = 0x80;
    font[14 * 65 + 13] = 0x01;
    let r = VgaRenderer { screen_width: 100, screen_height: 100, stride: 400 };
    let writes = r.render_char(&font, 10, 20, 65);
    assert_eq!(writes.len(), 16 * 8);
    assert_eq!(writes[0], (400 * 20 + 4 * 10, 0xffffff));
    assert_eq!(writes[1], (400 * 20 + 4 * 11, 0));
    // row 13, rightmost pixel
    assert_eq!(writes[13 * 8 + 7], (400 * 33 + 4 * 17, 0xffffff));
    // rows 14 and 15 stay dark for a letter
    assert_eq!(writes[14 * 8 + 7], (400 * 34 + 4 * 17, 0));
}

#[test]
fn box_drawing_glyphs_extend_their_last_row() {
    let mut font = vec![0u8; 14 * 256];
    font[14 * 0xc4 + 13] = 0xff;
    let r = VgaRenderer { screen_width: 100, screen_height: 100, stride: 400 };
    let writes = r.render_char(&font, 0, 0, 0xc4);
    assert_eq!(writes[15 * 8].1, 0xffffff);
}

#[test]
fn render_char_clips_to_the_screen() {
    let font = vec![0xffu8; 14 * 256];
    let r = VgaRenderer { screen_width: 12, screen_height: 10, stride: 48 };
    let writes = r.render_char(&font, 8, 4, 1);
    // 4 columns (8..12) by 6 rows (4..10)
    assert_eq!(writes.len(), 24);
    assert!(writes.iter().all(|&(off, _)| off < 48 * 10));
}

#[test]
fn cursor_advances_wraps_and_scrolls() {
    let mut c = TextCursor { x_pos: 0, y_pos: 0 };
    assert_eq!(c.write_byte(b'a', 16, 32), vec![TextAction::Render { x: 0, y: 0, ch: b'a' }]);
    assert_eq!((c.x_pos, c.y_pos), (8, 0));
    assert_eq!(c.write_byte(b'b', 16, 32), vec![TextAction::Render { x: 8, y: 0, ch: b'b' }]);
    assert_eq!((c.x_pos, c.y_pos), (0, 16));
    assert_eq!(c.write_byte(b'\n', 16, 32), vec![TextAction::Scroll { lines: 16 }]);
    assert_eq!((c.x_pos, c.y_pos), (0, 16));
}
