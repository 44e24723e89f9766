use dodgecoin::{
    filter_exits, new_room_exits, room_walls, setup, draw_new_room_exits, Direction, Level, Point,
    Rect, ROOM_SIZE,
};
use rand::SeedableRng;
use dodgecoin::StdRng;

fn rect(cx: i64, cy: i64, hx: i64, hy: i64) -> Rect {
    Rect::new(Point::new(cx, cy), Point::new(hx, hy))
}

fn positions_unique(level: &Level) -> bool {
    for i in 0..level.rooms.len() {
        for j in (i + 1)..level.rooms.len() {
            if level.rooms[i].position == level.rooms[j].position {
                return false;
            }
        }
    }
    true
}

#[test]
fn full_retention_gives_eight_walls() {
    let mut rng = StdRng::seed_from_u64(1);
    let mut level = Level::new(1, 1);
    level.spawn_room(Point::new(0, 0), &Direction::all(), &mut rng);
    assert_eq!(level.rooms.len(), 1);
    assert_eq!(level.rooms[0].exits, Direction::all());
    assert_eq!(level.walls.len(), 8);
}

#[test]
fn zero_retention_gives_four_walls() {
    let mut rng = StdRng::seed_from_u64(1);
    let mut level = Level::new(0, 1);
    level.spawn_room(Point::new(0, 0), &Direction::all(), &mut rng);
    assert!(level.rooms[0].exits.is_empty());
    assert_eq!(level.walls.len(), 4);
}

#[test]
fn closed_room_walls_exact() {
    let walls = room_walls(Point::new(600, -1200), &vec![]);
    assert_eq!(
        walls,
        vec![
            rect(600, -900, 300, 10),
            rect(600, -1500, 300, 10),
            rect(300, -1200, 10, 300),
            rect(900, -1200, 10, 300),
        ]
    );
}

#[test]
fn open_sides_leave_centered_passage() {
    let walls = room_walls(Point::new(0, 0), &vec![Direction::North, Direction::East]);
    assert_eq!(
        walls,
        vec![
            rect(-175, 300, 125, 10),
            rect(175, 300, 125, 10),
            rect(0, -300, 300, 10),
            rect(-300, 0, 10, 300),
            rect(300, 175, 10, 125),
            rect(300, -175, 10, 125),
        ]
    );
    // The passage between the two northern segments is 100 wide.
    assert_eq!((175 - 125) - (-175 + 125), 100);
}

#[test]
fn filter_exits_keeps_marked_in_order() {
    let exits = Direction::all();
    let kept = filter_exits(&exits, &vec![true, false, false, true]);
    assert_eq!(kept, vec![Direction::North, Direction::West]);
}

#[test]
fn new_room_exits_starts_with_way_back() {
    let order = vec![Direction::East, Direction::North, Direction::West];
    assert_eq!(new_room_exits(Direction::South, 1, &order), vec![Direction::South]);
    assert_eq!(
        new_room_exits(Direction::South, 3, &order),
        vec![Direction::South, Direction::East, Direction::North]
    );
}

#[test]
fn drawn_exits_are_well_formed() {
    for seed in 0..200u64 {
        let mut rng = StdRng::seed_from_u64(seed);
        for back in Direction::all() {
            let exits = draw_new_room_exits(back, &mut rng);
            assert!(!exits.is_empty() && exits.len() <= 4);
            assert_eq!(exits[0], back);
            for k in 1..exits.len() {
                assert_ne!(exits[k], back);
                for m in (k + 1)..exits.len() {
                    assert_ne!(exits[k], exits[m]);
                }
            }
        }
    }
}

#[test]
fn generation_materializes_every_exit_of_players_room() {
    for seed in 0..50u64 {
        let mut rng = StdRng::seed_from_u64(seed);
        let mut level = setup(&mut rng);
        assert_eq!(level.rooms.len(), 1);
        level.check_room_generation(Point::new(10, -20), &mut rng);
        let origin = &level.rooms[0];
        for d in origin.exits.iter() {
            let v = d.to_vec2();
            let p = Point::new(v.x * ROOM_SIZE, v.y * ROOM_SIZE);
            assert!(level.has_room_at(p));
        }
        assert!(positions_unique(&level));
    }
}

#[test]
fn repeated_generation_creates_no_duplicates() {
    for seed in 0..30u64 {
        let mut rng = StdRng::seed_from_u64(seed);
        let mut level = setup(&mut rng);
        level.check_room_generation(Point::new(0, 0), &mut rng);
        let rooms = level.rooms.len();
        let walls = level.walls.len();
        level.check_room_generation(Point::new(0, 0), &mut rng);
        level.check_room_generation(Point::new(5, 5), &mut rng);
        assert_eq!(level.rooms.len(), rooms);
        assert_eq!(level.walls.len(), walls);
        // Walk into a neighbor and generate again, several times.
        for _ in 0..5 {
            let n = level.rooms.len();
            let target = level.rooms[n - 1].position;
            level.check_room_generation(target, &mut rng);
            assert!(positions_unique(&level));
        }
    }
}

#[test]
fn newly_created_rooms_ask_for_the_way_back() {
    // With every exit kept, a room made through exit `d` has `d.opposite()`.
    let order = vec![Direction::North, Direction::South, Direction::West];
    let requested = new_room_exits(Direction::East.opposite(), 2, &order);
    let mut rng = StdRng::seed_from_u64(9);
    let mut level = Level::new(1, 1);
    level.spawn_room(Point::new(600, 0), &requested, &mut rng);
    assert!(level.rooms[0].exits.contains(&Direction::West));
}

#[test]
fn generation_outside_every_room_does_nothing() {
    let mut rng = StdRng::seed_from_u64(3);
    let mut level = setup(&mut rng);
    level.check_room_generation(Point::new(5000, 5000), &mut rng);
    assert_eq!(level.rooms.len(), 1);
    assert_eq!(level.find_room(Point::new(5000, 5000)), None);
    assert_eq!(level.find_room(Point::new(300, -300)), Some(0));
}

#[test]
fn walls_match_rooms() {
    let mut rng = StdRng::seed_from_u64(11);
    let mut level = setup(&mut rng);
    level.check_room_generation(Point::new(0, 0), &mut rng);
    let mut all = Vec::new();
    for r in level.rooms.iter() {
        all.extend(room_walls(r.position, &r.exits));
    }
    assert_eq!(all, level.walls);
}

fn linked_back(level: &Level, n: usize) -> bool {
    for p in 0..n {
        for d in level.rooms[p].exits.iter() {
            let v = d.to_vec2();
            let q = level.rooms[p].position;
            let nb = Point::new(q.x + v.x * ROOM_SIZE, q.y + v.y * ROOM_SIZE);
            if level.rooms[n].position == nb && level.rooms[n].exits.contains(&d.opposite()) {
                return true;
            }
        }
    }
    false
}

#[test]
fn full_retention_links_every_new_room_back() {
    for seed in 0..40u64 {
        let mut rng = StdRng::seed_from_u64(seed);
        let mut level = Level::new(1, 1);
        level.spawn_room(Point::new(0, 0), &Direction::all(), &mut rng);
        level.check_room_generation(Point::new(0, 0), &mut rng);
        for _ in 0..4 {
            let target = level.rooms[level.rooms.len() - 1].position;
            level.check_room_generation(target, &mut rng);
        }
        assert!(level.rooms.len() > 4);
        for n in 1..level.rooms.len() {
            assert!(linked_back(&level, n));
        }
    }
}

#[test]
fn second_room_at_a_position_is_ignored() {
    let mut rng = StdRng::seed_from_u64(4);
    let mut level = Level::new(1, 1);
    level.spawn_room(Point::new(0, 0), &vec![Direction::North], &mut rng);
    level.spawn_room(Point::new(0, 0), &Direction::all(), &mut rng);
    assert_eq!(level.rooms.len(), 1);
    assert_eq!(level.rooms[0].exits, vec![Direction::North]);
    assert_eq!(level.walls.len(), 5);
}

#[test]
fn generation_stays_within_distance() {
    for seed in 0..40u64 {
        let mut rng = StdRng::seed_from_u64(seed);
        let mut level = setup(&mut rng);
        level.check_room_generation(Point::new(0, 0), &mut rng);
        for r in level.rooms.iter() {
            assert_eq!(r.position.x % ROOM_SIZE, 0);
            assert_eq!(r.position.y % ROOM_SIZE, 0);
            assert!(r.position.x.abs() + r.position.y.abs() <= 2 * ROOM_SIZE);
        }
        // Rooms one hop out are expanded in turn.
        let origin_exits = level.rooms[0].exits.clone();
        for d in origin_exits.iter() {
            let v = d.to_vec2();
            let p = Point::new(v.x * ROOM_SIZE, v.y * ROOM_SIZE);
            let idx = level.rooms.iter().position(|r| r.position == p).unwrap();
            let room = &level.rooms[idx];
            if idx > 0 {
                for e in room.exits.iter() {
                    let w = e.to_vec2();
                    let q = Point::new(p.x + w.x * ROOM_SIZE, p.y + w.y * ROOM_SIZE);
                    assert!(level.has_room_at(q));
                }
            }
        }
    }
}
