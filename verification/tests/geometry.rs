use lilith::geometry::{Color, Point, Rect};

fn same_rect(a: Rect, b: Rect) -> bool {
    a.tl.x == b.tl.x && a.tl.y == b.tl.y && a.br.x == b.br.x && a.br.y == b.br.y
}

#[test]
fn rect_new_keeps_corners() {
    let r = Rect::new(1, 2, 30, 40);
    assert_eq!((r.tl.x, r.tl.y, r.br.x, r.br.y), (1, 2, 30, 40));
}

#[test]
fn rect_width_height_size() {
    let r = Rect::new(10, 20, 110, 70);
    assert_eq!(r.width(), 100);
    assert_eq!(r.height(), 50);
    let s = r.size();
    assert_eq!((s.x, s.y), (100, 50));
}

#[test]
fn rect_contains_point_is_half_open() {
    let r = Rect::new(0, 0, 10, 10);
    assert!(r.contains_point(Point::new(0, 0)));
    assert!(r.contains_point(Point::new(9, 9)));
    assert!(!r.contains_point(Point::new(10, 5)));
    assert!(!r.contains_point(Point::new(5, 10)));
    assert!(!r.contains_point(Point::new(-1, 5)));
}

#[test]
fn rect_is_empty() {
    assert!(Rect::empty().is_empty());
    assert!(Rect::new(5, 5, 5, 10).is_empty());
    assert!(Rect::new(5, 5, 10, 4).is_empty());
    assert!(!Rect::new(5, 5, 6, 6).is_empty());
}

#[test]
fn rect_intersect_overlapping() {
    let a = Rect::new(0, 0, 10, 10);
    let b = Rect::new(5, 5, 20, 20);
    let r = a.intersect(b).unwrap();
    assert!(same_rect(r, Rect::new(5, 5, 10, 10)));
}

#[test]
fn rect_intersect_disjoint_or_touching_is_none() {
    let a = Rect::new(0, 0, 10, 10);
    assert!(a.intersect(Rect::new(10, 0, 20, 10)).is_none());
    assert!(a.intersect(Rect::new(20, 20, 30, 30)).is_none());
}

#[test]
fn rect_intersect_commutes() {
    let a = Rect::new(-5, 3, 17, 40);
    let b = Rect::new(2, -8, 9, 12);
    let ab = a.intersect(b).unwrap();
    let ba = b.intersect(a).unwrap();
    assert!(same_rect(ab, ba));
    assert!(same_rect(ab, Rect::new(2, 3, 9, 12)));
}

#[test]
fn rect_merge_bounding_box() {
    let a = Rect::new(0, 0, 10, 10);
    let b = Rect::new(20, -5, 30, 5);
    assert!(same_rect(a.merge(b), Rect::new(0, -5, 30, 10)));
}

#[test]
fn rect_merge_with_empty_is_identity() {
    let a = Rect::new(3, 4, 8, 9);
    assert!(same_rect(a.merge(Rect::empty()), a));
    assert!(same_rect(Rect::empty().merge(a), a));
}

#[test]
fn point_arithmetic() {
    let p = Point::new(3, -4).add_point(Point::new(10, 20));
    assert_eq!((p.x, p.y), (13, 16));
    let q = p.sub_point(Point::new(13, 16));
    assert_eq!((q.x, q.y), (0, 0));
    let z = Point::zero();
    assert_eq!((z.x, z.y), (0, 0));
}

#[test]
fn colors_are_opaque_primaries() {
    assert_eq!(Color::white(), Color { r: 0xff, g: 0xff, b: 0xff, a: 0xff });
    assert_eq!(Color::black(), Color { r: 0, g: 0, b: 0, a: 0xff });
    assert_eq!(Color::red(), Color { r: 0xff, g: 0, b: 0, a: 0xff });
    assert_eq!(Color::green(), Color { r: 0, g: 0xff, b: 0, a: 0xff });
    assert_eq!(Color::blue(), Color { r: 0, g: 0, b: 0xff, a: 0xff });
}
