use lilith::geometry::{Color, Point, Rect};
use lilith::surface::Surface;

#[test]
fn new_surface_is_filled() {
    let s = Surface::new(Rect::new(10, 10, 20, 15), Color::red());
    assert_eq!(s.rect().width(), 10);
    assert_eq!(s.pixel_at(10, 10), Color::red());
    assert_eq!(s.pixel_at(19, 14), Color::red());
}

#[test]
fn fill_paints_only_the_overlap() {
    let mut s = Surface::new(Rect::new(0, 0, 10, 10), Color::black());
    s.fill(Rect::new(5, 5, 50, 50), Color::blue());
    assert_eq!(s.pixel_at(4, 4), Color::black());
    assert_eq!(s.pixel_at(5, 5), Color::blue());
    assert_eq!(s.pixel_at(9, 9), Color::blue());
    assert_eq!(s.pixel_at(9, 4), Color::black());
}

#[test]
fn from_raw_reads_rows_with_stride() {
    let mut image = Vec::new();
    for i in 0..12u8 {
        image.push(Color { r: i, g: 0, b: 0, a: 0xff });
    }
    // two rows of three pixels, four pixels apart
    let s = Surface::from_raw(image, Rect::new(0, 0, 3, 3), 4, Color::white());
    assert_eq!(s.pixel_at(0, 0).r, 0);
    assert_eq!(s.pixel_at(2, 0).r, 2);
    assert_eq!(s.pixel_at(0, 1).r, 4);
    assert_eq!(s.pixel_at(1, 2).r, 9);
}

#[test]
fn blit_copies_and_uses_fill_outside_the_source() {
    let mut dst = Surface::new(Rect::new(0, 0, 10, 10), Color::black());
    let mut src = Surface::new(Rect::new(100, 100, 104, 104), Color::green());
    src.fill(Rect::new(100, 100, 102, 102), Color::red());
    dst.blit(Rect::new(2, 2, 8, 8), &src, Point::new(100, 100));
    // (2,2) reads (100,100): red
    assert_eq!(dst.pixel_at(2, 2), Color::red());
    // (4,4) reads (102,102): green
    assert_eq!(dst.pixel_at(4, 4), Color::green());
    // (7,7) reads (105,105): outside the source, its fill colour
    assert_eq!(dst.pixel_at(7, 7), Color::green());
    // outside the destination rectangle nothing changes
    assert_eq!(dst.pixel_at(1, 1), Color::black());
    assert_eq!(dst.pixel_at(8, 8), Color::black());
}

#[test]
fn self_blit_reads_before_writing() {
    let mut s = Surface::new(Rect::new(0, 0, 4, 1), Color::black());
    s.fill(Rect::new(0, 0, 1, 1), Color::red());
    s.fill(Rect::new(1, 0, 2, 1), Color::green());
    // shift right by one: every point takes its left neighbour's old colour
    s.self_blit(Rect::new(1, 0, 4, 1), Point::new(0, 0));
    assert_eq!(s.pixel_at(0, 0), Color::red());
    assert_eq!(s.pixel_at(1, 0), Color::red());
    assert_eq!(s.pixel_at(2, 0), Color::green());
    assert_eq!(s.pixel_at(3, 0), Color::black());
}
