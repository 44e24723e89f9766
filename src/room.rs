use vstd::prelude::*;

use rand::rngs::StdRng;

use crate::direction::{all_directions, opposite_of, unit_x, unit_y, Direction};
use crate::geometry::{Point, Rect};
use crate::random::{chance, range_i64, shuffle_directions};

verus! {

/// Side length of a room and the pitch of the room grid.
pub const ROOM_SIZE: i64 = 600;

/// Thickness of every wall segment.
pub const WALL_THICKNESS: i64 = 20;

/// Width of the gap that an open exit leaves in its wall.
pub const PASSAGE_WIDTH: i64 = 100;

/// A requested exit stays open with chance
/// `EXIT_KEEP_NUMERATOR / EXIT_KEEP_DENOMINATOR`.
pub const EXIT_KEEP_NUMERATOR: u32 = 99;

pub const EXIT_KEEP_DENOMINATOR: u32 = 100;

/// How many room hops out from the player's room are generated.
pub const ROOM_GENERATION_DISTANCE: u32 = 2;

/// Room positions stay within this distance of the origin on each axis, so
/// that every wall coordinate fits in `i64` with room to spare.
pub const WORLD_LIMIT: i64 = 0x10_0000_0000_0000;

/// The player may be anywhere within this distance of the origin on each
/// axis; rooms are generated up to `ROOM_GENERATION_DISTANCE` hops beyond.
pub const PLAYER_LIMIT: i64 = 0x4_0000_0000_0000;

/// A cell of the room grid: its center and the exits that are open.
pub struct Room {
    pub position: Point,
    pub exits: Vec<Direction>,
}

pub open spec fn in_world(p: Point) -> bool {
    -WORLD_LIMIT <= p.x <= WORLD_LIMIT && -WORLD_LIMIT <= p.y <= WORLD_LIMIT
}

/// `p` lies far enough inside the world that `hops` further rooms in any
/// direction are still inside it.
pub open spec fn in_world_by(p: Point, hops: int) -> bool {
    -WORLD_LIMIT + ROOM_SIZE * hops <= p.x <= WORLD_LIMIT - ROOM_SIZE * hops && -WORLD_LIMIT
        + ROOM_SIZE * hops <= p.y <= WORLD_LIMIT - ROOM_SIZE * hops
}

/// The center of the neighboring room through exit `d`.
pub open spec fn neighbor_of(p: Point, d: Direction) -> Point {
    Point {
        x: (p.x + unit_x(d) * ROOM_SIZE) as i64,
        y: (p.y + unit_y(d) * ROOM_SIZE) as i64,
    }
}

pub open spec fn rect_of(cx: int, cy: int, hx: int, hy: int) -> Rect {
    Rect { center: Point { x: cx as i64, y: cy as i64 }, half: Point { x: hx as i64, y: hy as i64 } }
}

/// Half the length of each of the two segments that flank a passage.
pub open spec fn segment_half() -> int {
    (ROOM_SIZE - PASSAGE_WIDTH) / 4
}

/// The wall along y = `cy`, centered on x = `cx`: one full-length segment,
/// or, when `open`, two segments that leave the passage free in the middle.
pub open spec fn horizontal_side(cx: int, cy: int, open: bool) -> Seq<Rect> {
    if open {
        seq![
            rect_of(cx - ROOM_SIZE / 2 + segment_half(), cy, segment_half(), WALL_THICKNESS / 2),
            rect_of(cx + ROOM_SIZE / 2 - segment_half(), cy, segment_half(), WALL_THICKNESS / 2),
        ]
    } else {
        seq![rect_of(cx, cy, ROOM_SIZE / 2, WALL_THICKNESS / 2)]
    }
}

/// The wall along x = `cx`, centered on y = `cy`, as for `horizontal_side`.
pub open spec fn vertical_side(cx: int, cy: int, open: bool) -> Seq<Rect> {
    if open {
        seq![
            rect_of(cx, cy + ROOM_SIZE / 2 - segment_half(), WALL_THICKNESS / 2, segment_half()),
            rect_of(cx, cy - ROOM_SIZE / 2 + segment_half(), WALL_THICKNESS / 2, segment_half()),
        ]
    } else {
        seq![rect_of(cx, cy, WALL_THICKNESS / 2, ROOM_SIZE / 2)]
    }
}

/// The walls of the room centered at `p`: north, south, west, then east.
pub open spec fn wall_segments(p: Point, exits: Seq<Direction>) -> Seq<Rect> {
    horizontal_side(p.x as int, p.y + ROOM_SIZE / 2, exits.contains(Direction::North))
        + horizontal_side(p.x as int, p.y - ROOM_SIZE / 2, exits.contains(Direction::South))
        + vertical_side(p.x - ROOM_SIZE / 2, p.y as int, exits.contains(Direction::West))
        + vertical_side(p.x + ROOM_SIZE / 2, p.y as int, exits.contains(Direction::East))
}

/// The exits of `exits` whose decision in `keep` is true, in their order.
pub open spec fn kept(exits: Seq<Direction>, keep: Seq<bool>) -> Seq<Direction>
    decreases exits.len(),
{
    if exits.len() == 0 || keep.len() == 0 {
        seq![]
    } else {
        let rest = kept(exits.drop_last(), keep.drop_last());
        if keep.last() {
            rest.push(exits.last())
        } else {
            rest
        }
    }
}

/// The exits asked for a room entered through `back`'s opposite: `back`
/// first, then the first `count - 1` directions of `order`.
pub open spec fn requested_exits(back: Direction, count: int, order: Seq<Direction>) -> Seq<
    Direction,
> {
    seq![back] + order.take(count - 1)
}

pub fn has_exit(exits: &Vec<Direction>, d: Direction) -> (r: bool)
    ensures
        r == exits@.contains(d),
{
    let mut i: usize = 0;
    while i < exits.len()
        invariant
            i <= exits.len(),
            forall|j: int| 0 <= j < i ==> exits@[j] != d,
        decreases exits.len() - i,
    {
        if exits[i] == d {
            return true;
        }
        i = i + 1;
    }
    false
}

fn copy_exits(exits: &Vec<Direction>) -> (r: Vec<Direction>)
    ensures
        r@ == exits@,
{
    let mut r: Vec<Direction> = Vec::new();
    let mut i: usize = 0;
    while i < exits.len()
        invariant
            i <= exits.len(),
            r@ == exits@.take(i as int),
        decreases exits.len() - i,
    {
        r.push(exits[i]);
        i = i + 1;
        assert(r@ =~= exits@.take(i as int));
    }
    assert(exits@.take(i as int) =~= exits@);
    r
}

fn push_horizontal_side(walls: &mut Vec<Rect>, cx: i64, cy: i64, open: bool)
    requires
        -WORLD_LIMIT - ROOM_SIZE <= cx <= WORLD_LIMIT + ROOM_SIZE,
        -WORLD_LIMIT - ROOM_SIZE <= cy <= WORLD_LIMIT + ROOM_SIZE,
    ensures
        final(walls)@ == old(walls)@ + horizontal_side(cx as int, cy as int, open),
{
    let seg: i64 = (ROOM_SIZE - PASSAGE_WIDTH) / 4;
    let pre = Ghost(walls@);
    if open {
        walls.push(
            Rect {
                center: Point { x: cx - ROOM_SIZE / 2 + seg, y: cy },
                half: Point { x: seg, y: WALL_THICKNESS / 2 },
            },
        );
        walls.push(
            Rect {
                center: Point { x: cx + ROOM_SIZE / 2 - seg, y: cy },
                half: Point { x: seg, y: WALL_THICKNESS / 2 },
            },
        );
    } else {
        walls.push(
            Rect {
                center: Point { x: cx, y: cy },
                half: Point { x: ROOM_SIZE / 2, y: WALL_THICKNESS / 2 },
            },
        );
    }
    assert(walls@ =~= pre@ + horizontal_side(cx as int, cy as int, open));
}

fn push_vertical_side(walls: &mut Vec<Rect>, cx: i64, cy: i64, open: bool)
    requires
        -WORLD_LIMIT - ROOM_SIZE <= cx <= WORLD_LIMIT + ROOM_SIZE,
        -WORLD_LIMIT - ROOM_SIZE <= cy <= WORLD_LIMIT + ROOM_SIZE,
    ensures
        final(walls)@ == old(walls)@ + vertical_side(cx as int, cy as int, open),
{
    let seg: i64 = (ROOM_SIZE - PASSAGE_WIDTH) / 4;
    let pre = Ghost(walls@);
    if open {
        walls.push(
            Rect {
                center: Point { x: cx, y: cy + ROOM_SIZE / 2 - seg },
                half: Point { x: WALL_THICKNESS / 2, y: seg },
            },
        );
        walls.push(
            Rect {
                center: Point { x: cx, y: cy - ROOM_SIZE / 2 + seg },
                half: Point { x: WALL_THICKNESS / 2, y: seg },
            },
        );
    } else {
        walls.push(
            Rect {
                center: Point { x: cx, y: cy },
                half: Point { x: WALL_THICKNESS / 2, y: ROOM_SIZE / 2 },
            },
        );
    }
    assert(walls@ =~= pre@ + vertical_side(cx as int, cy as int, open));
}

/// The wall segments of a room centered at `position` with the given open
/// exits.
pub fn room_walls(position: Point, exits: &Vec<Direction>) -> (r: Vec<Rect>)
    requires
        in_world(position),
    ensures
        r@ == wall_segments(position, exits@),
{
    let half: i64 = ROOM_SIZE / 2;
    let mut walls: Vec<Rect> = Vec::new();
    push_horizontal_side(&mut walls, position.x, position.y + half, has_exit(exits, Direction::North));
    push_horizontal_side(&mut walls, position.x, position.y - half, has_exit(exits, Direction::South));
    push_vertical_side(&mut walls, position.x - half, position.y, has_exit(exits, Direction::West));
    push_vertical_side(&mut walls, position.x + half, position.y, has_exit(exits, Direction::East));
    assert(walls@ =~= wall_segments(position, exits@));
    walls
}


/// The keep decisions for `exits`, one Bernoulli draw each.
pub(crate) fn roll_keep(n: usize, numerator: u32, denominator: u32, rng: &mut StdRng) -> (r: Vec<bool>)
    requires
        0 < denominator,
        numerator <= denominator,
    ensures
        r@.len() == n,
        numerator == denominator ==> forall|i: int| 0 <= i < n ==> r@[i],
        numerator == 0 ==> forall|i: int| 0 <= i < n ==> !r@[i],
{
    let mut r: Vec<bool> = Vec::new();
    let mut i: usize = 0;
    while i < n
        invariant
            0 < denominator,
            numerator <= denominator,
            i <= n,
            r@.len() == i,
            numerator == denominator ==> forall|j: int| 0 <= j < i ==> r@[j],
            numerator == 0 ==> forall|j: int| 0 <= j < i ==> !r@[j],
        decreases n - i,
    {
        let b = chance(rng, numerator, denominator);
        r.push(b);
        i = i + 1;
    }
    r
}

/// Keeps the exits whose decision in `keep` is true, in their order.
pub fn filter_exits(exits: &Vec<Direction>, keep: &Vec<bool>) -> (r: Vec<Direction>)
    requires
        keep@.len() == exits@.len(),
    ensures
        r@ == kept(exits@, keep@),
{
    let mut r: Vec<Direction> = Vec::new();
    let mut i: usize = 0;
    while i < exits.len()
        invariant
            keep@.len() == exits@.len(),
            i <= exits.len(),
            r@ == kept(exits@.take(i as int), keep@.take(i as int)),
        decreases exits.len() - i,
    {
        assert(exits@.take(i + 1).drop_last() =~= exits@.take(i as int));
        assert(keep@.take(i + 1).drop_last() =~= keep@.take(i as int));
        if keep[i] {
            r.push(exits[i]);
        }
        i = i + 1;
    }
    assert(exits@.take(i as int) =~= exits@);
    assert(keep@.take(i as int) =~= keep@);
    r
}

/// Every exit is kept when every decision is true; none when none is.
pub proof fn lemma_kept_all_or_none(exits: Seq<Direction>, keep: Seq<bool>)
    requires
        keep.len() == exits.len(),
    ensures
        (forall|i: int| 0 <= i < keep.len() ==> keep[i]) ==> kept(exits, keep) == exits,
        (forall|i: int| 0 <= i < keep.len() ==> !keep[i]) ==> kept(exits, keep).len() == 0,
    decreases exits.len(),
{
    if exits.len() > 0 {
        lemma_kept_all_or_none(exits.drop_last(), keep.drop_last());
        if forall|i: int| 0 <= i < keep.len() ==> keep[i] {
            assert(forall|i: int|
                0 <= i < keep.drop_last().len() ==> keep.drop_last()[i] == keep[i]);
            assert(kept(exits, keep) =~= exits);
        }
        if forall|i: int| 0 <= i < keep.len() ==> !keep[i] {
            assert(forall|i: int|
                0 <= i < keep.drop_last().len() ==> keep.drop_last()[i] == keep[i]);
        }
    }
}

/// An exit whose decision is true is among the kept exits.
pub proof fn lemma_kept_contains(exits: Seq<Direction>, keep: Seq<bool>, i: int)
    requires
        keep.len() == exits.len(),
        0 <= i < exits.len(),
        keep[i],
    ensures
        kept(exits, keep).contains(exits[i]),
    decreases exits.len(),
{
    if i == exits.len() - 1 {
        assert(kept(exits, keep).last() == exits[i]);
    } else {
        lemma_kept_contains(exits.drop_last(), keep.drop_last(), i);
        let rest = kept(exits.drop_last(), keep.drop_last());
        let j = choose|j: int| 0 <= j < rest.len() && rest[j] == exits[i];
        if keep.last() {
            assert(kept(exits, keep)[j] == exits[i]);
        }
    }
}

/// The three directions other than `d`, in the order north, south, east,
/// west.
pub open spec fn others_of(d: Direction) -> Seq<Direction> {
    match d {
        Direction::North => seq![Direction::South, Direction::East, Direction::West],
        Direction::South => seq![Direction::North, Direction::East, Direction::West],
        Direction::East => seq![Direction::North, Direction::South, Direction::West],
        Direction::West => seq![Direction::North, Direction::South, Direction::East],
    }
}

fn others(d: Direction) -> (r: Vec<Direction>)
    ensures
        r@ == others_of(d),
{
    let r = match d {
        Direction::North => vec![Direction::South, Direction::East, Direction::West],
        Direction::South => vec![Direction::North, Direction::East, Direction::West],
        Direction::East => vec![Direction::North, Direction::South, Direction::West],
        Direction::West => vec![Direction::North, Direction::South, Direction::East],
    };
    assert(r@ =~= others_of(d));
    r
}

/// The exits asked for a new room: `back` first, then the first
/// `count - 1` directions of `order`.
pub fn new_room_exits(back: Direction, count: usize, order: &Vec<Direction>) -> (r: Vec<Direction>)
    requires
        1 <= count <= order@.len() + 1,
    ensures
        r@ == requested_exits(back, count as int, order@),
{
    let mut r: Vec<Direction> = vec![back];
    let mut i: usize = 0;
    while i + 1 < count
        invariant
            1 <= count <= order@.len() + 1,
            i + 1 <= count,
            r@ == seq![back] + order@.take(i as int),
        decreases count - i,
    {
        r.push(order[i]);
        i = i + 1;
        assert(r@ =~= seq![back] + order@.take(i as int));
    }
    r
}

/// Draws the exits asked for a room that is entered from its `back` side:
/// between one and four exits, `back` among them, the rest a random choice
/// of the other three directions.
pub fn draw_new_room_exits(back: Direction, rng: &mut StdRng) -> (r: Vec<Direction>)
    ensures
        exists|count: int, order: Seq<Direction>|
            1 <= count <= 4 && order.to_multiset() == others_of(back).to_multiset() && r@
                == requested_exits(back, count, order),
        1 <= r@.len() <= 4,
        r@[0] == back,
{
    let mut order = others(back);
    shuffle_directions(rng, &mut order);
    proof {
        order@.to_multiset_ensures();
        others_of(back).to_multiset_ensures();
    }
    let count = range_i64(rng, 1, 5) as usize;
    new_room_exits(back, count, &order)
}

/// A room of `rooms` is centered at `p`.
pub open spec fn has_room(rooms: Seq<Room>, p: Point) -> bool {
    exists|i: int| 0 <= i < rooms.len() && (#[trigger] rooms[i]).position == p
}

/// The walls of every room of `rooms`, room after room.
pub open spec fn walls_of(rooms: Seq<Room>) -> Seq<Rect>
    decreases rooms.len(),
{
    if rooms.len() == 0 {
        seq![]
    } else {
        walls_of(rooms.drop_last()) + wall_segments(rooms.last().position, rooms.last().exits@)
    }
}

/// The point `p` lies in the square of the room centered at `c`, edges
/// included.
pub open spec fn room_holds(c: Point, p: Point) -> bool {
    c.x - ROOM_SIZE / 2 <= p.x <= c.x + ROOM_SIZE / 2 && c.y - ROOM_SIZE / 2 <= p.y <= c.y
        + ROOM_SIZE / 2
}

/// No two rooms of `rooms` share a position.
pub open spec fn positions_unique(rooms: Seq<Room>) -> bool {
    forall|i: int, j: int|
        0 <= i < j < rooms.len() ==> (#[trigger] rooms[i]).position != (#[trigger] rooms[j]).position
}

/// Room `n` of `rooms` was entered through exit `d` of an earlier room
/// and has the exit `opposite_of(d)` that leads back there.
pub open spec fn linked_back(rooms: Seq<Room>, n: int) -> bool {
    exists|p: int, d: Direction|
        0 <= p < n && rooms[p].exits@.contains(d) && rooms[n].position == #[trigger] neighbor_of(
            rooms[p].position,
            d,
        ) && rooms[n].exits@.contains(opposite_of(d))
}

/// `linked_back` of room `n` survives any growth that leaves rooms `0..=n`
/// as they are.
pub proof fn lemma_linked_back_stable(a: Seq<Room>, b: Seq<Room>, n: int)
    requires
        0 <= n < a.len() <= b.len(),
        forall|i: int| 0 <= i < a.len() ==> #[trigger] b[i] == a[i],
        linked_back(a, n),
    ensures
        linked_back(b, n),
{
    let (p, d) = choose|p: int, d: Direction|
        0 <= p < n && a[p].exits@.contains(d) && a[n].position == #[trigger] neighbor_of(
            a[p].position,
            d,
        ) && a[n].exits@.contains(opposite_of(d));
    assert(b[p] == a[p] && b[n] == a[n]);
}

/// `exits` are those of a new room entered from its `back` side: between
/// one and four requested, `back` first and the rest a choice without
/// repetition from the other three, each then kept or dropped by a draw.
pub open spec fn new_room_shape(exits: Seq<Direction>, back: Direction) -> bool {
    exists|count: int, order: Seq<Direction>, keep: Seq<bool>|
        1 <= count <= 4 && order.to_multiset() == others_of(back).to_multiset() && keep.len()
            == requested_exits(back, count, order).len() && #[trigger] kept(
            requested_exits(back, count, order),
            keep,
        ) == exits
}

/// `room` was made by crossing an exit `d` of the room at `from`: it stands
/// one hop beyond, and its exits have the shape of a room entered from
/// `opposite_of(d)`.
pub open spec fn entered_through(from: Point, from_exits: Seq<Direction>, room: Room) -> bool {
    exists|d: Direction|
        from_exits.contains(d) && room.position == #[trigger] neighbor_of(from, d)
            && new_room_shape(room.exits@, opposite_of(d))
}

/// Every exit of room `n` leads to a room of `rooms`.
pub open spec fn expanded(rooms: Seq<Room>, n: int) -> bool {
    forall|k: int|
        0 <= k < rooms[n].exits@.len() ==> has_room(
            rooms,
            #[trigger] neighbor_of(rooms[n].position, rooms[n].exits@[k]),
        )
}

/// Room `before.len() + t` of `after` was made at hop `hops[t]` of a
/// growth from the room at `origin`: at hop 1 through an exit of the origin,
/// later through a room made one hop earlier; and unless it lies `depth`
/// hops out, every exit of it leads to a room.
pub open spec fn hop_ok(
    before: Seq<Room>,
    after: Seq<Room>,
    origin: Point,
    exits: Seq<Direction>,
    depth: int,
    hops: Seq<int>,
    t: int,
) -> bool {
    let n = before.len() + t;
    &&& 1 <= hops[t] <= depth
    &&& hops[t] == 1 ==> entered_through(origin, exits, after[n])
    &&& hops[t] > 1 ==> exists|m: int|
        before.len() <= m < n && hops[m - before.len()] == hops[t] - 1
            && #[trigger] entered_through(after[m].position, after[m].exits@, after[n])
    &&& hops[t] < depth ==> expanded(after, n)
}

/// `after` is `before` with the rooms of a growth `depth` hops out from the
/// room at `origin` added, room `before.len() + t` made at hop `hops[t]`.
pub open spec fn grown_by(
    before: Seq<Room>,
    after: Seq<Room>,
    origin: Point,
    exits: Seq<Direction>,
    depth: int,
    hops: Seq<int>,
) -> bool {
    &&& hops.len() == after.len() - before.len()
    &&& forall|t: int| 0 <= t < hops.len() ==> #[trigger] hop_ok(before, after, origin, exits, depth, hops, t)
}

pub proof fn lemma_has_room_grows(a: Seq<Room>, b: Seq<Room>, p: Point)
    requires
        a.len() <= b.len(),
        forall|i: int| 0 <= i < a.len() ==> #[trigger] b[i] == a[i],
        has_room(a, p),
    ensures
        has_room(b, p),
{
    let j = choose|j: int| 0 <= j < a.len() && (#[trigger] a[j]).position == p;
    assert(b[j] == a[j]);
}

/// What `hop_ok` says of a room survives growth that leaves the rooms made
/// so far, and their hops, as they are.
pub proof fn lemma_hop_ok_stable(
    before: Seq<Room>,
    a: Seq<Room>,
    b: Seq<Room>,
    origin: Point,
    exits: Seq<Direction>,
    depth: int,
    h1: Seq<int>,
    h2: Seq<int>,
    t: int,
)
    requires
        0 <= t < h1.len(),
        h1.len() == a.len() - before.len(),
        a.len() <= b.len(),
        forall|i: int| 0 <= i < a.len() ==> #[trigger] b[i] == a[i],
        h1.len() <= h2.len(),
        forall|i: int| 0 <= i < h1.len() ==> #[trigger] h2[i] == h1[i],
        hop_ok(before, a, origin, exits, depth, h1, t),
    ensures
        hop_ok(before, b, origin, exits, depth, h2, t),
{
    let n = before.len() + t;
    assert(b[n] == a[n]);
    if h1[t] > 1 {
        let m = choose|m: int|
            before.len() <= m < n && h1[m - before.len()] == h1[t] - 1
                && #[trigger] entered_through(a[m].position, a[m].exits@, a[n]);
        assert(b[m] == a[m]);
        assert(h2[m - before.len()] == h1[m - before.len()]);
    }
    if h1[t] < depth {
        assert forall|k: int| 0 <= k < b[n].exits@.len() implies has_room(
            b,
            #[trigger] neighbor_of(b[n].position, b[n].exits@[k]),
        ) by {
            lemma_has_room_grows(a, b, neighbor_of(a[n].position, a[n].exits@[k]));
        }
    }
}

/// The grid distance, in pixels, between two points: |dx| + |dy|.
pub open spec fn grid_distance(a: Point, b: Point) -> int {
    (if a.x >= b.x {
        a.x - b.x
    } else {
        b.x - a.x
    }) + (if a.y >= b.y {
        a.y - b.y
    } else {
        b.y - a.y
    })
}

/// A room made at hop `h` of a growth lies on the room grid at most `h`
/// rooms from the origin, counted along the axes.
pub proof fn lemma_hop_distance(
    before: Seq<Room>,
    after: Seq<Room>,
    origin: Point,
    exits: Seq<Direction>,
    depth: int,
    hops: Seq<int>,
    t: int,
)
    requires
        grown_by(before, after, origin, exits, depth, hops),
        0 <= t < hops.len(),
        in_world(origin),
        forall|i: int| 0 <= i < after.len() ==> in_world(#[trigger] after[i].position),
    ensures
        grid_distance(after[before.len() + t].position, origin) <= hops[t] * ROOM_SIZE,
    decreases t,
{
    assert(hop_ok(before, after, origin, exits, depth, hops, t));
    let n = before.len() + t;
    if hops[t] == 1 {
        let d = choose|d: Direction|
            exits.contains(d) && after[n].position == #[trigger] neighbor_of(origin, d)
                && new_room_shape(after[n].exits@, opposite_of(d));
        assert(grid_distance(neighbor_of(origin, d), origin) == ROOM_SIZE);
    } else {
        let m = choose|m: int|
            before.len() <= m < n && hops[m - before.len()] == hops[t] - 1
                && #[trigger] entered_through(after[m].position, after[m].exits@, after[n]);
        lemma_hop_distance(before, after, origin, exits, depth, hops, m - before.len());
        let from = after[m].position;
        assert(in_world(from));
        let d = choose|d: Direction|
            after[m].exits@.contains(d) && after[n].position == #[trigger] neighbor_of(from, d)
                && new_room_shape(after[n].exits@, opposite_of(d));
        assert(grid_distance(neighbor_of(from, d), from) == ROOM_SIZE);
    }
}

/// One step of a growth: the room made through exit `i` of the origin, at
/// hop 1, followed by the growth from it one hop shorter.
pub proof fn lemma_grow_step(
    start: Seq<Room>,
    before: Seq<Room>,
    spawned: Seq<Room>,
    after: Seq<Room>,
    origin: Point,
    exits: Seq<Direction>,
    depth: int,
    i: int,
    hops: Seq<int>,
    sub: Seq<int>,
) -> (r: Seq<int>)
    requires
        depth >= 1,
        grown_by(start, before, origin, exits, depth, hops),
        spawned.len() == before.len() + 1,
        forall|j: int| 0 <= j < before.len() ==> #[trigger] spawned[j] == before[j],
        spawned.len() <= after.len(),
        forall|j: int| 0 <= j < spawned.len() ==> #[trigger] after[j] == spawned[j],
        0 <= i < exits.len(),
        spawned.last().position == neighbor_of(origin, exits[i]),
        new_room_shape(spawned.last().exits@, opposite_of(exits[i])),
        grown_by(spawned, after, spawned.last().position, spawned.last().exits@, depth - 1, sub),
        depth > 1 ==> expanded(after, spawned.len() - 1),
    ensures
        r.len() == after.len() - start.len(),
        forall|j: int| 0 <= j < hops.len() ==> #[trigger] r[j] == hops[j],
        grown_by(start, after, origin, exits, depth, r),
{
    let r = hops.push(1) + sub.map_values(|x: int| x + 1);
    let n = spawned.len() - 1;
    assert(after[n] == spawned[n]);
    assert forall|t: int| 0 <= t < r.len() implies #[trigger] hop_ok(
        start,
        after,
        origin,
        exits,
        depth,
        r,
        t,
    ) by {
        if t < hops.len() {
            assert(hop_ok(start, before, origin, exits, depth, hops, t));
            lemma_hop_ok_stable(start, before, after, origin, exits, depth, hops, r, t);
        } else if t == hops.len() {
            assert(exits.contains(exits[i]));
            assert(entered_through(origin, exits, after[n]));
        } else {
            let u = t - hops.len() - 1;
            assert(hop_ok(spawned, after, spawned.last().position, spawned.last().exits@, depth - 1, sub, u));
            assert(r[t] == sub[u] + 1);
            if sub[u] == 1 {
                assert(entered_through(after[n].position, after[n].exits@, after[start.len() + t]));
                assert(r[n - start.len()] == 1);
            } else {
                let m = choose|m: int|
                    spawned.len() <= m < spawned.len() + u && sub[m - spawned.len()] == sub[u] - 1
                        && #[trigger] entered_through(
                        after[m].position,
                        after[m].exits@,
                        after[spawned.len() + u],
                    );
                assert(r[m - start.len()] == sub[m - spawned.len()] + 1);
            }
        }
    }
    r
}

/// Room `j` is the first room of `rooms` whose square holds `player`.
pub open spec fn first_room_holding(rooms: Seq<Room>, player: Point, j: int) -> bool {
    &&& 0 <= j < rooms.len()
    &&& room_holds(rooms[j].position, player)
    &&& forall|i: int| 0 <= i < j ==> !room_holds(#[trigger] rooms[i].position, player)
}

/// Generation has nothing left to do for a player at `player`: every exit
/// of the first room holding the player, if any, leads to a room.
pub open spec fn settled(rooms: Seq<Room>, player: Point) -> bool {
    forall|j: int| #[trigger] first_room_holding(rooms, player, j) ==> expanded(rooms, j)
}

/// The generated world: its rooms, in the order they were made, the wall
/// segments of all of them, and the chance
/// `keep_numerator / keep_denominator` with which a requested exit of a new
/// room stays open.
pub struct Level {
    pub rooms: Vec<Room>,
    pub walls: Vec<Rect>,
    pub keep_numerator: u32,
    pub keep_denominator: u32,
}

impl Level {
    /// No two rooms share a position, every room lies inside the world, the
    /// walls are exactly those of the rooms, and the keep chance is a
    /// probability.
    pub open spec fn wf(&self) -> bool {
        &&& 0 < self.keep_denominator
        &&& self.keep_numerator <= self.keep_denominator
        &&& positions_unique(self.rooms@)
        &&& forall|i: int| 0 <= i < self.rooms@.len() ==> in_world(#[trigger] self.rooms@[i].position)
        &&& self.walls@ == walls_of(self.rooms@)
    }

    /// `self` holds every room of `before`, unchanged and at the same index,
    /// and the walls of `before` as its first walls.
    pub open spec fn extends(&self, before: &Level) -> bool {
        &&& self.keep_numerator == before.keep_numerator
        &&& self.keep_denominator == before.keep_denominator
        &&& before.rooms@.len() <= self.rooms@.len()
        &&& forall|i: int| 0 <= i < before.rooms@.len() ==> #[trigger] self.rooms@[i] == before.rooms@[i]
        &&& before.walls@.len() <= self.walls@.len()
        &&& forall|i: int| 0 <= i < before.walls@.len() ==> #[trigger] self.walls@[i] == before.walls@[i]
    }

    /// Every requested exit of a new room stays open.
    pub open spec fn keeps_all(&self) -> bool {
        self.keep_numerator == self.keep_denominator
    }

    /// An empty level whose new rooms keep each requested exit with chance
    /// `keep_numerator / keep_denominator`.
    pub fn new(keep_numerator: u32, keep_denominator: u32) -> (r: Level)
        requires
            0 < keep_denominator,
            keep_numerator <= keep_denominator,
        ensures
            r.wf(),
            r.rooms@.len() == 0,
            r.keep_numerator == keep_numerator,
            r.keep_denominator == keep_denominator,
    {
        let r = Level { rooms: Vec::new(), walls: Vec::new(), keep_numerator, keep_denominator };
        assert(r.walls@ =~= walls_of(r.rooms@));
        r
    }

    pub fn has_room_at(&self, p: Point) -> (r: bool)
        ensures
            r == has_room(self.rooms@, p),
    {
        let mut i: usize = 0;
        while i < self.rooms.len()
            invariant
                i <= self.rooms@.len(),
                forall|j: int| 0 <= j < i ==> (#[trigger] self.rooms@[j]).position != p,
            decreases self.rooms.len() - i,
        {
            if self.rooms[i].position == p {
                return true;
            }
            i = i + 1;
        }
        false
    }

    /// Adds a room with exactly the given exits, and its walls; where a room
    /// stands at `position` already, nothing changes.
    pub fn add_room(&mut self, position: Point, exits: Vec<Direction>)
        requires
            old(self).wf(),
            in_world(position),
        ensures
            final(self).wf(),
            final(self).extends(old(self)),
            has_room(old(self).rooms@, position) ==> final(self).rooms@ == old(self).rooms@
                && final(self).walls@ == old(self).walls@,
            !has_room(old(self).rooms@, position) ==> {
                &&& final(self).rooms@.len() == old(self).rooms@.len() + 1
                &&& final(self).rooms@.last().position == position
                &&& final(self).rooms@.last().exits@ == exits@
            },
    {
        if self.has_room_at(position) {
            return;
        }
        let mut segs = room_walls(position, &exits);
        let ghost old_rooms = self.rooms@;
        self.walls.append(&mut segs);
        self.rooms.push(Room { position, exits });
        assert(self.rooms@.drop_last() =~= old_rooms);
        assert(self.rooms@[old_rooms.len() as int].exits == exits);
        assert(self.walls@ =~= walls_of(self.rooms@));
    }

    /// Materializes a room at `position` with the requested `exits`, each of
    /// which stays open with the level's keep chance, drawn once here and
    /// never again. Where a room stands at `position` already, nothing
    /// changes.
    pub fn spawn_room(&mut self, position: Point, exits: &Vec<Direction>, rng: &mut StdRng)
        requires
            old(self).wf(),
            in_world(position),
        ensures
            final(self).wf(),
            final(self).extends(old(self)),
            has_room(old(self).rooms@, position) ==> final(self).rooms@ == old(self).rooms@
                && final(self).walls@ == old(self).walls@,
            !has_room(old(self).rooms@, position) ==> {
                &&& final(self).rooms@.len() == old(self).rooms@.len() + 1
                &&& final(self).rooms@.last().position == position
                &&& exists|keep: Seq<bool>|
                    keep.len() == exits@.len() && final(self).rooms@.last().exits@ == kept(
                        exits@,
                        keep,
                    )
                &&& old(self).keeps_all() ==> final(self).rooms@.last().exits@ == exits@
                &&& old(self).keep_numerator == 0 ==> final(self).rooms@.last().exits@.len() == 0
            },
    {
        if self.has_room_at(position) {
            return;
        }
        let keep = roll_keep(exits.len(), self.keep_numerator, self.keep_denominator, rng);
        let actual = filter_exits(exits, &keep);
        proof {
            lemma_kept_all_or_none(exits@, keep@);
        }
        self.add_room(position, actual);
    }

    /// The first room whose square holds `p`.
    pub fn find_room(&self, p: Point) -> (r: Option<usize>)
        requires
            self.wf(),
            -PLAYER_LIMIT <= p.x <= PLAYER_LIMIT,
            -PLAYER_LIMIT <= p.y <= PLAYER_LIMIT,
        ensures
            r matches Some(i) ==> i < self.rooms@.len() && room_holds(self.rooms@[i as int].position, p)
                && forall|j: int| 0 <= j < i ==> !room_holds(#[trigger] self.rooms@[j].position, p),
            r is None ==> forall|j: int|
                0 <= j < self.rooms@.len() ==> !room_holds(#[trigger] self.rooms@[j].position, p),
    {
        let half: i64 = ROOM_SIZE / 2;
        assert(half == 300);
        let mut i: usize = 0;
        while i < self.rooms.len()
            invariant
                self.wf(),
                -PLAYER_LIMIT <= p.x <= PLAYER_LIMIT,
                -PLAYER_LIMIT <= p.y <= PLAYER_LIMIT,
                half == ROOM_SIZE / 2,
                i <= self.rooms@.len(),
                forall|j: int| 0 <= j < i ==> !room_holds(#[trigger] self.rooms@[j].position, p),
            decreases self.rooms.len() - i,
        {
            let c = self.rooms[i].position;
            assert(in_world(self.rooms@[i as int].position));
            assert(-WORLD_LIMIT <= c.x <= WORLD_LIMIT && -WORLD_LIMIT <= c.y <= WORLD_LIMIT);
            if c.x - half <= p.x && p.x <= c.x + half && c.y - half <= p.y && p.y <= c.y + half {
                return Some(i);
            }
            i = i + 1;
        }
        None
    }

    /// Every exit of the room at `position` leads to a materialized room,
    /// and so on `depth` hops out: each missing neighbor is created with
    /// freshly drawn exits (the way back always requested) and then
    /// expanded in turn with one hop less. Rooms that exist are never
    /// touched or made again. `grown_by` states the whole growth: where each
    /// new room stands, the shape of its exits, and that each one made
    /// fewer than `depth` hops out is expanded.
    pub fn generate_rooms_recursive(
        &mut self,
        position: Point,
        exits: &Vec<Direction>,
        depth: u32,
        rng: &mut StdRng,
    )
        requires
            old(self).wf(),
            in_world_by(position, depth as int),
            exists|p: int|
                0 <= p < old(self).rooms@.len() && (#[trigger] old(self).rooms@[p]).position
                    == position && old(self).rooms@[p].exits@ == exits@,
        ensures
            final(self).wf(),
            final(self).extends(old(self)),
            old(self).keeps_all() ==> forall|n: int|
                old(self).rooms@.len() <= n < final(self).rooms@.len() ==> linked_back(
                    final(self).rooms@,
                    n,
                ),
            depth > 0 ==> forall|k: int|
                0 <= k < exits@.len() ==> has_room(
                    final(self).rooms@,
                    #[trigger] neighbor_of(position, exits@[k]),
                ),
            exists|hops: Seq<int>|
                grown_by(old(self).rooms@, final(self).rooms@, position, exits@, depth as int, hops),
            (depth == 0 || forall|k: int|
                0 <= k < exits@.len() ==> has_room(
                    old(self).rooms@,
                    #[trigger] neighbor_of(position, exits@[k]),
                )) ==> final(self).rooms@ == old(self).rooms@ && final(self).walls@ == old(
                self,
            ).walls@,
        decreases depth,
    {
        if depth == 0 {
            assert(grown_by(self.rooms@, self.rooms@, position, exits@, 0, Seq::<int>::empty()));
            return;
        }
        let ghost start = *self;
        let ghost mut hops = Seq::<int>::empty();
        let mut i: usize = 0;
        while i < exits.len()
            invariant
                self.wf(),
                self.extends(&start),
                start == *old(self),
                in_world_by(position, depth as int),
                exists|p: int|
                    0 <= p < start.rooms@.len() && (#[trigger] start.rooms@[p]).position
                        == position && start.rooms@[p].exits@ == exits@,
                start.keeps_all() ==> forall|n: int|
                    start.rooms@.len() <= n < self.rooms@.len() ==> linked_back(self.rooms@, n),
                depth > 0,
                i <= exits@.len(),
                grown_by(start.rooms@, self.rooms@, position, exits@, depth as int, hops),
                forall|k: int|
                    0 <= k < i ==> has_room(self.rooms@, #[trigger] neighbor_of(position, exits@[k])),
                (forall|k: int|
                    0 <= k < i ==> has_room(start.rooms@, #[trigger] neighbor_of(position, exits@[k])))
                    ==> self.rooms@ == start.rooms@ && self.walls@ == start.walls@,
            decreases exits.len() - i,
        {
            let d = exits[i];
            let step = d.to_vec2();
            let next = Point { x: position.x + step.x * ROOM_SIZE, y: position.y + step.y * ROOM_SIZE };
            assert(next == neighbor_of(position, exits@[i as int]));
            if !self.has_room_at(next) {
                let ghost before = *self;
                let requested = draw_new_room_exits(d.opposite(), rng);
                self.spawn_room(next, &requested, rng);
                let made = copy_exits(&self.rooms[self.rooms.len() - 1].exits);
                let ghost spawned = *self;
                proof {
                    let n = (spawned.rooms@.len() - 1) as int;
                    assert(spawned.rooms@[n].position == next);
                    let back = opposite_of(d);
                    let (count, order) = choose|count: int, order: Seq<Direction>|
                        1 <= count <= 4 && order.to_multiset() == others_of(back).to_multiset()
                            && requested@ == requested_exits(back, count, order);
                    let keep = choose|keep: Seq<bool>|
                        keep.len() == requested@.len() && spawned.rooms@.last().exits@ == kept(
                            requested@,
                            keep,
                        );
                    assert(kept(requested_exits(back, count, order), keep)
                        == spawned.rooms@.last().exits@);
                    assert(new_room_shape(spawned.rooms@.last().exits@, back));
                    if start.keeps_all() {
                        let p = choose|p: int|
                            0 <= p < start.rooms@.len() && (#[trigger] start.rooms@[p]).position
                                == position && start.rooms@[p].exits@ == exits@;
                        assert(spawned.rooms@[p] == start.rooms@[p]);
                        assert(spawned.rooms@[p].exits@[i as int] == d);
                        assert(spawned.rooms@[n].exits@[0] == opposite_of(d));
                        assert(linked_back(spawned.rooms@, n));
                        assert forall|m: int|
                            start.rooms@.len() <= m < spawned.rooms@.len() implies linked_back(
                            spawned.rooms@,
                            m,
                        ) by {
                            if m < n {
                                lemma_linked_back_stable(before.rooms@, spawned.rooms@, m);
                            }
                        }
                    }
                }
                self.generate_rooms_recursive(next, &made, depth - 1, rng);
                proof {
                    let n = (spawned.rooms@.len() - 1) as int;
                    let dd: int = depth - 1;
                    let sub = choose|sub: Seq<int>|
                        #[trigger] grown_by(spawned.rooms@, self.rooms@, next, made@, dd, sub);
                    assert(spawned.rooms@.last() == spawned.rooms@[n]);
                    if depth > 1 {
                        assert forall|k: int| 0 <= k < self.rooms@[n].exits@.len() implies has_room(
                            self.rooms@,
                            #[trigger] neighbor_of(self.rooms@[n].position, self.rooms@[n].exits@[k]),
                        ) by {
                            assert(self.rooms@[n] == spawned.rooms@[n]);
                            assert(has_room(self.rooms@, neighbor_of(next, made@[k])));
                        }
                    }
                    hops = lemma_grow_step(
                        start.rooms@,
                        before.rooms@,
                        spawned.rooms@,
                        self.rooms@,
                        position,
                        exits@,
                        depth as int,
                        i as int,
                        hops,
                        sub,
                    );
                    if start.keeps_all() {
                        assert forall|m: int|
                            start.rooms@.len() <= m < self.rooms@.len() implies linked_back(
                            self.rooms@,
                            m,
                        ) by {
                            if m < spawned.rooms@.len() {
                                lemma_linked_back_stable(spawned.rooms@, self.rooms@, m);
                            }
                        }
                    }
                    assert(self.rooms@[n] == spawned.rooms@[n]);
                    assert(has_room(self.rooms@, next));
                    assert forall|k: int|
                        0 <= k < i implies has_room(
                            self.rooms@,
                            #[trigger] neighbor_of(position, exits@[k]),
                        ) by {
                        assert(has_room(before.rooms@, neighbor_of(position, exits@[k])));
                        let j = choose|j: int|
                            0 <= j < before.rooms@.len() && (#[trigger] before.rooms@[j]).position
                                == neighbor_of(position, exits@[k]);
                        assert(self.rooms@[j] == spawned.rooms@[j]);
                    }
                    assert(!has_room(start.rooms@, neighbor_of(position, exits@[i as int]))) by {
                        if has_room(start.rooms@, neighbor_of(position, exits@[i as int])) {
                            let j = choose|j: int|
                                0 <= j < start.rooms@.len() && (#[trigger] start.rooms@[j]).position
                                    == neighbor_of(position, exits@[i as int]);
                            assert(before.rooms@[j] == start.rooms@[j]);
                        }
                    }
                }
            }
            i = i + 1;
        }
    }

    /// Once per frame: finds the room that holds the player and grows the
    /// level `ROOM_GENERATION_DISTANCE` hops out from it (see `grown_by`), so
    /// that the rooms within that many hops through exits exist. Nothing changes when the player is in no room or every
    /// exit of the player's room already leads to a room. Where the level
    /// keeps every requested exit, each room made here has the exit that
    /// leads back to the room it was entered from.
    pub fn check_room_generation(&mut self, player: Point, rng: &mut StdRng)
        requires
            old(self).wf(),
            -PLAYER_LIMIT <= player.x <= PLAYER_LIMIT,
            -PLAYER_LIMIT <= player.y <= PLAYER_LIMIT,
        ensures
            final(self).wf(),
            final(self).extends(old(self)),
            settled(final(self).rooms@, player),
            settled(old(self).rooms@, player) ==> final(self).rooms@ == old(self).rooms@
                && final(self).walls@ == old(self).walls@,
            old(self).keeps_all() ==> forall|n: int|
                old(self).rooms@.len() <= n < final(self).rooms@.len() ==> linked_back(
                    final(self).rooms@,
                    n,
                ),
            (forall|j: int|
                0 <= j < old(self).rooms@.len() ==> !room_holds(
                    #[trigger] old(self).rooms@[j].position,
                    player,
                )) ==> final(self).rooms@ == old(self).rooms@ && final(self).walls@ == old(
                self,
            ).walls@,
            forall|j: int|
                0 <= j < old(self).rooms@.len() && room_holds(
                    #[trigger] old(self).rooms@[j].position,
                    player,
                ) && (forall|i: int|
                    0 <= i < j ==> !room_holds(#[trigger] old(self).rooms@[i].position, player))
                    ==> {
                    let r = old(self).rooms@[j];
                    &&& exists|hops: Seq<int>|
                        grown_by(
                            old(self).rooms@,
                            final(self).rooms@,
                            r.position,
                            r.exits@,
                            ROOM_GENERATION_DISTANCE as int,
                            hops,
                        )
                    &&& forall|k: int|
                        0 <= k < r.exits@.len() ==> has_room(
                            final(self).rooms@,
                            #[trigger] neighbor_of(r.position, r.exits@[k]),
                        )
                    &&& (forall|k: int|
                        0 <= k < r.exits@.len() ==> has_room(
                            old(self).rooms@,
                            #[trigger] neighbor_of(r.position, r.exits@[k]),
                        )) ==> final(self).rooms@ == old(self).rooms@ && final(self).walls@ == old(
                        self,
                    ).walls@
                },
    {
        match self.find_room(player) {
            None => {
                assert forall|j: int| #[trigger]
                    first_room_holding(self.rooms@, player, j) implies expanded(self.rooms@, j) by {
                    assert(!room_holds(self.rooms@[j].position, player));
                }
            },
            Some(i) => {
                let position = self.rooms[i].position;
                let exits = copy_exits(&self.rooms[i].exits);
                proof {
                    let ghost j0 = i as int;
                    assert forall|j: int|
                        0 <= j < old(self).rooms@.len() && room_holds(
                            #[trigger] old(self).rooms@[j].position,
                            player,
                        ) && (forall|i2: int|
                            0 <= i2 < j ==> !room_holds(
                                #[trigger] old(self).rooms@[i2].position,
                                player,
                            )) implies j == j0 by {
                        if j < j0 {
                        } else if j > j0 {
                            assert(!room_holds(old(self).rooms@[j0].position, player));
                        }
                    }
                }
                self.generate_rooms_recursive(position, &exits, ROOM_GENERATION_DISTANCE, rng);
                proof {
                    let j0 = i as int;
                    assert(old(self).rooms@[j0] == self.rooms@[j0]);
                    assert forall|j: int| #[trigger]
                        first_room_holding(self.rooms@, player, j) implies expanded(
                        self.rooms@,
                        j,
                    ) by {
                        if j < j0 {
                            assert(self.rooms@[j] == old(self).rooms@[j]);
                        } else if j > j0 {
                            assert(!room_holds(self.rooms@[j0].position, player));
                        }
                    }
                    if settled(old(self).rooms@, player) {
                        assert(first_room_holding(old(self).rooms@, player, j0));
                    }
                }
            },
        }
    }
}

/// The level at the start of a session: one room at the origin with all
/// four exits requested.
pub fn setup(rng: &mut StdRng) -> (r: Level)
    ensures
        r.wf(),
        r.rooms@.len() == 1,
        r.rooms@[0].position == (Point { x: 0, y: 0 }),
        r.keep_numerator == EXIT_KEEP_NUMERATOR,
        r.keep_denominator == EXIT_KEEP_DENOMINATOR,
        exists|keep: Seq<bool>|
            keep.len() == 4 && r.rooms@[0].exits@ == kept(all_directions(), keep),
{
    let mut level = Level::new(EXIT_KEEP_NUMERATOR, EXIT_KEEP_DENOMINATOR);
    let all = Direction::all();
    level.spawn_room(Point { x: 0, y: 0 }, &all, rng);
    level
}

/// A room has four walls, each of one segment, plus one more segment for
/// every side with an open passage: eight with all four exits open, four
/// with none.
pub proof fn lemma_wall_count(p: Point, exits: Seq<Direction>)
    ensures
        wall_segments(p, exits).len() == 4 + (if exits.contains(Direction::North) {
            1int
        } else {
            0
        }) + (if exits.contains(Direction::South) {
            1int
        } else {
            0
        }) + (if exits.contains(Direction::West) {
            1int
        } else {
            0
        }) + (if exits.contains(Direction::East) {
            1int
        } else {
            0
        }),
        exits == all_directions() ==> wall_segments(p, exits).len() == 8,
        exits.len() == 0 ==> wall_segments(p, exits).len() == 4,
{
    if exits == all_directions() {
        assert(exits[0] == Direction::North);
        assert(exits[1] == Direction::South);
        assert(exits[2] == Direction::East);
        assert(exits[3] == Direction::West);
    }
}

/// A room created through exit `d` of its neighbor asks for the way back,
/// `opposite_of(d)`, and has it whenever the draw for that exit keeps it;
/// in particular whenever every draw keeps its exit.
pub proof fn lemma_way_back_kept(d: Direction, count: int, order: Seq<Direction>, keep: Seq<bool>)
    requires
        1 <= count <= order.len() + 1,
        keep.len() == requested_exits(opposite_of(d), count, order).len(),
        keep[0],
    ensures
        kept(requested_exits(opposite_of(d), count, order), keep).contains(opposite_of(d)),
{
    let req = requested_exits(opposite_of(d), count, order);
    assert(req[0] == opposite_of(d));
    lemma_kept_contains(req, keep, 0);
}

} // verus!
