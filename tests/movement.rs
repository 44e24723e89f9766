use dodgecoin::{
    blocked, camera_follow, diagonal_part, input_step, move_box, player_movement, step_length,
    Point, Rect,
};

fn rect(cx: i64, cy: i64, hx: i64, hy: i64) -> Rect {
    Rect::new(Point::new(cx, cy), Point::new(hx, hy))
}

fn east_wall() -> Vec<Rect> {
    // A full-length wall whose west face is at x = 16.
    vec![rect(26, 0, 10, 300)]
}

#[test]
fn east_input_stops_at_contact() {
    let half = Point::new(16, 16);
    let mut pos = Point::new(0, 0);
    for _ in 0..10 {
        pos = player_movement(pos, half, 1, 0, 300, 20, &east_wall());
        assert!(pos.x + 16 <= 16);
    }
    assert_eq!(pos, Point::new(0, 0));
}

#[test]
fn diagonal_input_slides_along_wall() {
    let half = Point::new(16, 16);
    let pos = player_movement(Point::new(0, 0), half, 1, 1, 300, 20, &east_wall());
    // A step of 6 split over two axes gives 4 on each; x is blocked.
    assert_eq!(pos, Point::new(0, 4));
}

#[test]
fn free_movement_uses_full_step() {
    let half = Point::new(16, 16);
    assert_eq!(player_movement(Point::new(0, 0), half, -1, 0, 300, 20, &east_wall()), Point::new(-6, 0));
    assert_eq!(player_movement(Point::new(0, 0), half, 0, -1, 300, 20, &east_wall()), Point::new(0, -6));
    assert_eq!(player_movement(Point::new(0, 0), half, 0, 0, 300, 20, &east_wall()), Point::new(0, 0));
}

#[test]
fn step_and_diagonal_values() {
    assert_eq!(step_length(300, 16), 4);
    assert_eq!(step_length(300, 1000), 300);
    assert_eq!(step_length(u32::MAX, u32::MAX), ((u32::MAX as u64 * u32::MAX as u64) / 1000) as i64);
    assert_eq!(diagonal_part(0), 0);
    assert_eq!(diagonal_part(1), 0);
    assert_eq!(diagonal_part(5), 3);
    assert_eq!(diagonal_part(10), 7);
    assert_eq!(diagonal_part(300), 212);
    assert_eq!(input_step(1, -1, 300, 1000), (212, -212));
    assert_eq!(input_step(0, 1, 300, 1000), (0, 300));
}

#[test]
fn move_box_axis_order() {
    // A wall right above the box: moving up-right, x goes, y is blocked.
    let walls = vec![rect(0, 30, 100, 10)];
    let half = Point::new(5, 5);
    assert_eq!(move_box(Point::new(0, 0), half, 3, 20, &walls), Point::new(3, 0));
    assert!(blocked(&rect(0, 20, 5, 5), &walls));
    assert!(!blocked(&rect(0, 0, 5, 5), &walls));
}

#[test]
fn camera_is_centered_on_player() {
    assert_eq!(camera_follow(Point::new(-7, 12)), Point::new(-7, 12));
}

#[test]
fn player_starts_at_origin_with_fixed_box() {
    let p = dodgecoin::Player::new();
    assert_eq!(p.position, Point::new(0, 0));
    assert_eq!(p.body(), rect(0, 0, 16, 16));
}
