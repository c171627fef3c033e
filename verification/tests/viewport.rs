use oxiden::position::Position;
use oxiden::viewport::Viewport;

#[test]
fn cursor_within_view_does_not_scroll() {
    let mut viewport = Viewport::new(80, 24);

    viewport.scroll_to(Position::new(5, 5));

    assert_eq!(viewport.top, 0);
    assert_eq!(viewport.left, 0);
}

#[test]
fn cursor_below_view_scrolls_down() {
    let mut viewport = Viewport::new(80, 24);

    viewport.scroll_to(Position::new(30, 0));

    assert_eq!(viewport.top, 7);
}

#[test]
fn cursor_above_view_scrolls_up() {
    let mut viewport = Viewport { top: 10, ..Viewport::new(80, 24) };

    viewport.scroll_to(Position::new(2, 0));

    assert_eq!(viewport.top, 2);
}

#[test]
fn cursor_right_of_view_scrolls_right() {
    let mut viewport = Viewport::new(10, 24);

    viewport.scroll_to(Position::new(0, 25));

    assert_eq!(viewport.left, 16);
}

// ===== Own tests =====

#[test]
fn cursor_left_of_view_scrolls_left() {
    let mut viewport = Viewport { left: 20, ..Viewport::new(10, 24) };

    viewport.scroll_to(Position::new(0, 3));

    assert_eq!(viewport.left, 3);
}

#[test]
fn resize_keeps_the_scroll_offsets() {
    let mut viewport = Viewport { top: 4, left: 2, ..Viewport::new(10, 10) };

    viewport.resize(30, 5);

    assert_eq!((viewport.width, viewport.height), (30, 5));
    assert_eq!((viewport.top, viewport.left), (4, 2));
}
