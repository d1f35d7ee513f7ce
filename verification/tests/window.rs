use lilith::geometry::{Color, Rect};
use lilith::surface::Surface;
use lilith::window::Screen;

fn screen_and_buffer() -> (Screen, Surface) {
    let rect = Rect::new(0, 0, 100, 100);
    (Screen::new(rect), Surface::new(rect, Color::black()))
}

#[test]
fn new_screen_draws_the_background() {
    let (mut screen, mut fb) = screen_and_buffer();
    screen.update(&mut fb);
    assert_eq!(fb.pixel_at(0, 0), Color::white());
    assert_eq!(fb.pixel_at(99, 99), Color::white());
}

#[test]
fn new_window_is_drawn_over_the_background() {
    let (mut screen, mut fb) = screen_and_buffer();
    let a = screen.new_window(Rect::new(10, 10, 50, 50), 0);
    screen.window_mut(a).surface_mut().fill(Rect::new(0, 0, 100, 100), Color::red());
    screen.update(&mut fb);
    assert_eq!(fb.pixel_at(20, 20), Color::red());
    assert_eq!(fb.pixel_at(5, 5), Color::white());
    assert_eq!(fb.pixel_at(50, 50), Color::white());
}

#[test]
fn front_window_covers_the_one_behind() {
    let (mut screen, mut fb) = screen_and_buffer();
    let a = screen.new_window(Rect::new(10, 10, 50, 50), 0);
    let b = screen.new_window(Rect::new(30, 30, 70, 70), 0);
    screen.window_mut(a).surface_mut().fill(Rect::new(0, 0, 100, 100), Color::red());
    screen.window_mut(b).surface_mut().fill(Rect::new(0, 0, 100, 100), Color::blue());
    screen.update(&mut fb);
    assert_eq!(fb.pixel_at(20, 20), Color::red());
    assert_eq!(fb.pixel_at(40, 40), Color::blue());
    assert_eq!(fb.pixel_at(60, 60), Color::blue());
    assert_eq!(fb.pixel_at(80, 80), Color::white());
}

#[test]
fn new_window_behind_is_hidden_where_covered() {
    let (mut screen, mut fb) = screen_and_buffer();
    let a = screen.new_window(Rect::new(10, 10, 50, 50), 0);
    // z index past the back is clamped to the back
    let b = screen.new_window(Rect::new(30, 30, 70, 70), 5);
    screen.window_mut(a).surface_mut().fill(Rect::new(0, 0, 100, 100), Color::red());
    screen.window_mut(b).surface_mut().fill(Rect::new(0, 0, 100, 100), Color::blue());
    screen.update(&mut fb);
    assert_eq!(fb.pixel_at(40, 40), Color::red());
    assert_eq!(fb.pixel_at(60, 60), Color::blue());
}

#[test]
fn bringing_a_window_to_the_front_redraws_it() {
    let (mut screen, mut fb) = screen_and_buffer();
    let a = screen.new_window(Rect::new(10, 10, 50, 50), 0);
    let b = screen.new_window(Rect::new(30, 30, 70, 70), 0);
    screen.window_mut(a).surface_mut().fill(Rect::new(0, 0, 100, 100), Color::red());
    screen.window_mut(b).surface_mut().fill(Rect::new(0, 0, 100, 100), Color::blue());
    screen.update(&mut fb);
    assert_eq!(fb.pixel_at(40, 40), Color::blue());
    screen.set_window_z_index(a, 0);
    screen.update(&mut fb);
    assert_eq!(fb.pixel_at(40, 40), Color::red());
    assert_eq!(fb.pixel_at(60, 60), Color::blue());
}

#[test]
fn moving_a_window_uncovers_the_one_behind() {
    let (mut screen, mut fb) = screen_and_buffer();
    let a = screen.new_window(Rect::new(10, 10, 50, 50), 0);
    let b = screen.new_window(Rect::new(30, 30, 70, 70), 0);
    screen.window_mut(a).surface_mut().fill(Rect::new(0, 0, 100, 100), Color::red());
    screen.window_mut(b).surface_mut().fill(Rect::new(0, 0, 100, 100), Color::blue());
    screen.update(&mut fb);
    screen.move_window(b, Rect::new(80, 80, 90, 90));
    screen.update(&mut fb);
    // b's old place in front of a shows a again
    assert_eq!(fb.pixel_at(40, 40), Color::red());
    // b's new place shows its fresh white image
    assert_eq!(fb.pixel_at(85, 85), Color::white());
    assert_eq!(screen.window_mut(b).rect().tl.x, 80);
}

#[test]
fn mark_dirty_redraws_changed_window_content() {
    let (mut screen, mut fb) = screen_and_buffer();
    let a = screen.new_window(Rect::new(10, 10, 50, 50), 0);
    screen.update(&mut fb);
    assert_eq!(fb.pixel_at(20, 20), Color::white());
    screen.window_mut(a).surface_mut().fill(Rect::new(0, 0, 100, 100), Color::green());
    screen.mark_dirty(a, Rect::new(15, 15, 25, 25));
    screen.update(&mut fb);
    assert_eq!(fb.pixel_at(20, 20), Color::green());
    // outside the marked rectangle the old picture stays
    assert_eq!(fb.pixel_at(30, 30), Color::white());
}

#[test]
fn mark_dirty_beyond_redraws_from_a_depth_on() {
    let (mut screen, mut fb) = screen_and_buffer();
    let a = screen.new_window(Rect::new(10, 10, 50, 50), 0);
    screen.update(&mut fb);
    screen.window_mut(a).surface_mut().fill(Rect::new(0, 0, 100, 100), Color::blue());
    screen.mark_dirty_beyond(0, Rect::new(0, 0, 100, 100));
    screen.update(&mut fb);
    assert_eq!(fb.pixel_at(20, 20), Color::blue());
    assert_eq!(fb.pixel_at(90, 90), Color::white());
}

#[test]
fn two_overlapping_windows_over_the_background() {
    let screen_rect = Rect::new(0, 0, 300, 300);
    let mut screen = Screen::new(screen_rect);
    let a = screen.new_window(Rect::new(100, 100, 200, 200), 0);
    let b = screen.new_window(Rect::new(150, 150, 250, 250), 0);
    screen.window_mut(a).surface_mut().fill(screen_rect, Color::red());
    screen.window_mut(b).surface_mut().fill(screen_rect, Color::blue());
    let mut fb = Surface::new(screen_rect, Color::black());
    screen.update(&mut fb);
    assert_eq!(fb.pixel_at(120, 120), Color::red());
    // b went in front of a
    assert_eq!(fb.pixel_at(175, 175), Color::blue());
    assert_eq!(fb.pixel_at(220, 220), Color::blue());
    assert_eq!(fb.pixel_at(50, 50), Color::white());
    assert_eq!(fb.pixel_at(120, 220), Color::white());
}
