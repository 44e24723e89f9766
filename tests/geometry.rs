use dodgecoin::{overlap, Direction, Point, Rect, Side};

fn rect(cx: i64, cy: i64, hx: i64, hy: i64) -> Rect {
    Rect::new(Point::new(cx, cy), Point::new(hx, hy))
}

#[test]
fn overlap_names_each_face() {
    let wall = rect(0, 0, 10, 10);
    assert_eq!(overlap(&rect(-12, 0, 5, 5), &wall), Some(Side::Left));
    assert_eq!(overlap(&rect(12, 0, 5, 5), &wall), Some(Side::Right));
    assert_eq!(overlap(&rect(0, 12, 5, 5), &wall), Some(Side::Top));
    assert_eq!(overlap(&rect(0, -12, 5, 5), &wall), Some(Side::Bottom));
    assert_eq!(overlap(&rect(0, 0, 5, 5), &wall), Some(Side::Inside));
}

#[test]
fn overlap_touching_edges_do_not_count() {
    let wall = rect(0, 0, 10, 10);
    assert_eq!(overlap(&rect(15, 0, 5, 5), &wall), None);
    assert_eq!(overlap(&rect(0, -15, 5, 5), &wall), None);
    assert_eq!(overlap(&rect(100, 100, 5, 5), &wall), None);
}

#[test]
fn overlap_picks_shallower_axis() {
    let wall = rect(0, 0, 10, 10);
    // Into the left face by 2, into the bottom face by 4: the left face wins.
    assert_eq!(overlap(&rect(-13, -11, 5, 5), &wall), Some(Side::Left));
    // Into the left face by 4, into the top face by 1.
    assert_eq!(overlap(&rect(-11, 14, 5, 5), &wall), Some(Side::Top));
    // Equal depths go to the x axis.
    assert_eq!(overlap(&rect(12, 12, 5, 5), &wall), Some(Side::Right));
}

#[test]
fn overlap_with_extreme_coordinates() {
    let a = rect(i64::MAX, i64::MIN, i64::MAX, i64::MAX);
    let b = rect(i64::MIN, i64::MAX, 1, 1);
    assert_eq!(overlap(&a, &b), None);
    let c = rect(i64::MAX, i64::MAX, i64::MAX, i64::MAX);
    let d = rect(i64::MAX, i64::MAX, 1, 1);
    assert_eq!(overlap(&c, &d), Some(Side::Inside));
}

#[test]
fn directions_vectors_and_opposites() {
    assert_eq!(Direction::North.to_vec2(), Point::new(0, 1));
    assert_eq!(Direction::South.to_vec2(), Point::new(0, -1));
    assert_eq!(Direction::East.to_vec2(), Point::new(1, 0));
    assert_eq!(Direction::West.to_vec2(), Point::new(-1, 0));
    assert_eq!(Direction::North.opposite(), Direction::South);
    assert_eq!(Direction::South.opposite(), Direction::North);
    assert_eq!(Direction::East.opposite(), Direction::West);
    assert_eq!(Direction::West.opposite(), Direction::East);
    assert_eq!(
        Direction::all(),
        vec![Direction::North, Direction::South, Direction::East, Direction::West]
    );
}
