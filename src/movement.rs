use vstd::prelude::*;

use crate::geometry::{intersects, overlap, Point, Rect};

verus! {

/// Half the side of the player's square box.
pub const PLAYER_HALF_SIZE: i64 = 16;

/// Player speed in pixels per second.
pub const PLAYER_SPEED: u32 = 300;

/// The one player: a square box of half side `PLAYER_HALF_SIZE`.
#[derive(Clone, Copy, PartialEq, Eq, Structural, Debug)]
pub struct Player {
    pub position: Point,
}

impl Player {
    /// The player at the start of a session, at the origin.
    pub fn new() -> (r: Player)
        ensures
            r.position == (Point { x: 0, y: 0 }),
    {
        Player { position: Point { x: 0, y: 0 } }
    }

    /// The player's box.
    pub fn body(&self) -> (r: Rect)
        ensures
            r.center == self.position,
            r.half == (Point { x: PLAYER_HALF_SIZE, y: PLAYER_HALF_SIZE }),
    {
        Rect { center: self.position, half: Point { x: PLAYER_HALF_SIZE, y: PLAYER_HALF_SIZE } }
    }
}

/// Some wall of `walls` shares area with the box `b`.
pub open spec fn blocked_by(b: Rect, walls: Seq<Rect>) -> bool {
    exists|i: int| 0 <= i < walls.len() && intersects(b, #[trigger] walls[i])
}

/// Where a box at `pos` ends up when it tries to move by `dx` and then by
/// `dy`: each axis step is taken only if the box, moved by it, meets no
/// wall; the y step starts from wherever the x step left the box.
pub open spec fn slide(pos: Point, half: Point, dx: int, dy: int, walls: Seq<Rect>) -> Point {
    let x = if dx != 0 && !blocked_by(
        Rect { center: Point { x: (pos.x + dx) as i64, y: pos.y }, half },
        walls,
    ) {
        (pos.x + dx) as i64
    } else {
        pos.x
    };
    let y = if dy != 0 && !blocked_by(
        Rect { center: Point { x, y: (pos.y + dy) as i64 }, half },
        walls,
    ) {
        (pos.y + dy) as i64
    } else {
        pos.y
    };
    Point { x, y }
}

/// `a` is the length of each axis component of a diagonal step of length
/// `s`, rounded down: the largest `a` with `a * sqrt(2) <= s`.
pub open spec fn is_diagonal_part(s: int, a: int) -> bool {
    0 <= a && 2 * a * a <= s * s < 2 * (a + 1) * (a + 1)
}

/// The per-axis displacement for input `(ix, iy)`: the input is normalized,
/// then scaled to the step length `s`.
pub open spec fn input_displacement(ix: int, iy: int, s: int, dx: int, dy: int) -> bool {
    if ix != 0 && iy != 0 {
        exists|a: int| is_diagonal_part(s, a) && dx == ix * a && dy == iy * a
    } else {
        dx == ix * s && dy == iy * s
    }
}

/// Whether the box meets any of the walls.
pub fn blocked(b: &Rect, walls: &Vec<Rect>) -> (r: bool)
    ensures
        r == blocked_by(*b, walls@),
{
    let mut i: usize = 0;
    while i < walls.len()
        invariant
            i <= walls@.len(),
            forall|j: int| 0 <= j < i ==> !intersects(*b, #[trigger] walls@[j]),
        decreases walls.len() - i,
    {
        if overlap(b, &walls[i]).is_some() {
            return true;
        }
        i = i + 1;
    }
    false
}

/// The distance covered in `dt_ms` milliseconds at `speed` pixels per
/// second, rounded down.
pub fn step_length(speed: u32, dt_ms: u32) -> (r: i64)
    ensures
        r == (speed as int) * (dt_ms as int) / 1000,
        0 <= r < 0x80_0000_0000_0000,
{
    assert((speed as int) * (dt_ms as int) <= 0xFFFF_FFFF * 0xFFFF_FFFF) by (nonlinear_arith)
        requires
            speed <= 0xFFFF_FFFF,
            dt_ms <= 0xFFFF_FFFF,
    ;
    let p: u64 = speed as u64 * dt_ms as u64;
    (p / 1000) as i64
}

/// The length of each axis component of a diagonal step of length `s`.
pub fn diagonal_part(s: i64) -> (r: i64)
    requires
        0 <= s < 0x80_0000_0000_0000,
    ensures
        is_diagonal_part(s as int, r as int),
{
    assert(s * s <= 0x80_0000_0000_0000 * 0x80_0000_0000_0000) by (nonlinear_arith)
        requires
            0 <= s < 0x80_0000_0000_0000,
    ;
    let ss: u128 = s as u128 * s as u128;
    let mut lo: u128 = 0;
    let mut hi: u128 = s as u128 + 1;
    assert(2 * hi * hi > ss) by (nonlinear_arith)
        requires
            hi == s + 1,
            ss == s * s,
            0 <= s,
    ;
    while lo + 1 < hi
        invariant
            lo < hi <= s + 1,
            ss == s as int * s as int,
            0 <= s < 0x80_0000_0000_0000,
            2 * lo * lo <= ss,
            2 * hi * hi > ss,
        decreases hi - lo,
    {
        let mid: u128 = lo + (hi - lo) / 2;
        assert(2 * mid * mid <= 2 * 0x80_0000_0000_0000 * 0x80_0000_0000_0000) by (nonlinear_arith)
            requires
                0 <= mid <= s,
                0 <= s < 0x80_0000_0000_0000,
        ;
        if 2 * mid * mid <= ss {
            lo = mid;
        } else {
            hi = mid;
        }
    }
    lo as i64
}

/// The displacement for keyboard input `(ix, iy)`, each of -1, 0 or 1, at
/// `speed` pixels per second over `dt_ms` milliseconds.
pub fn input_step(ix: i8, iy: i8, speed: u32, dt_ms: u32) -> (r: (i64, i64))
    requires
        -1 <= ix <= 1,
        -1 <= iy <= 1,
    ensures
        input_displacement(
            ix as int,
            iy as int,
            (speed as int) * (dt_ms as int) / 1000,
            r.0 as int,
            r.1 as int,
        ),
        -0x80_0000_0000_0000 < r.0 < 0x80_0000_0000_0000,
        -0x80_0000_0000_0000 < r.1 < 0x80_0000_0000_0000,
{
    let s = step_length(speed, dt_ms);
    let a = if ix != 0 && iy != 0 {
        diagonal_part(s)
    } else {
        s
    };
    proof {
        if ix != 0 && iy != 0 {
            assert(a <= s) by (nonlinear_arith)
                requires
                    is_diagonal_part(s as int, a as int),
                    0 <= s,
            ;
        }
    }
    let dx: i64 = if ix > 0 {
        a
    } else if ix < 0 {
        -a
    } else {
        0
    };
    let dy: i64 = if iy > 0 {
        a
    } else if iy < 0 {
        -a
    } else {
        0
    };
    proof {
        assert(dx == ix * a && dy == iy * a) by (nonlinear_arith)
            requires
                -1 <= ix <= 1,
                -1 <= iy <= 1,
                ix > 0 ==> dx == a,
                ix < 0 ==> dx == -a,
                ix == 0 ==> dx == 0,
                iy > 0 ==> dy == a,
                iy < 0 ==> dy == -a,
                iy == 0 ==> dy == 0,
        ;
        if ix != 0 && iy != 0 {
            assert(is_diagonal_part(s as int, a as int));
        }
    }
    (dx, dy)
}

/// Moves a box by `(dx, dy)`, one axis at a time, x first; an axis step
/// that would make the box meet a wall is dropped, which lets the box slide
/// along a wall it runs into at an angle.
pub fn move_box(pos: Point, half: Point, dx: i64, dy: i64, walls: &Vec<Rect>) -> (r: Point)
    requires
        -0x2000_0000_0000_0000 <= pos.x <= 0x2000_0000_0000_0000,
        -0x2000_0000_0000_0000 <= pos.y <= 0x2000_0000_0000_0000,
        -0x2000_0000_0000_0000 <= dx <= 0x2000_0000_0000_0000,
        -0x2000_0000_0000_0000 <= dy <= 0x2000_0000_0000_0000,
    ensures
        r == slide(pos, half, dx as int, dy as int, walls@),
{
    let mut p = pos;
    if dx != 0 {
        let moved = Rect { center: Point { x: pos.x + dx, y: pos.y }, half };
        if !blocked(&moved, walls) {
            p = moved.center;
        }
    }
    if dy != 0 {
        let moved = Rect { center: Point { x: p.x, y: pos.y + dy }, half };
        if !blocked(&moved, walls) {
            p = moved.center;
        }
    }
    p
}

/// One frame of player movement: the keyboard input `(ix, iy)` is
/// normalized, scaled to `speed` pixels per second over `dt_ms`
/// milliseconds, and applied axis by axis against the walls.
pub fn player_movement(
    pos: Point,
    half: Point,
    ix: i8,
    iy: i8,
    speed: u32,
    dt_ms: u32,
    walls: &Vec<Rect>,
) -> (r: Point)
    requires
        -1 <= ix <= 1,
        -1 <= iy <= 1,
        -0x2000_0000_0000_0000 <= pos.x <= 0x2000_0000_0000_0000,
        -0x2000_0000_0000_0000 <= pos.y <= 0x2000_0000_0000_0000,
    ensures
        exists|dx: int, dy: int|
            input_displacement(ix as int, iy as int, (speed as int) * (dt_ms as int) / 1000, dx, dy)
                && r == slide(pos, half, dx, dy, walls@),
{
    let (dx, dy) = input_step(ix, iy, speed, dt_ms);
    move_box(pos, half, dx, dy, walls)
}

/// The camera is kept centered on the player.
pub fn camera_follow(player: Point) -> (r: Point)
    ensures
        r == player,
{
    player
}

/// A box that starts clear of every wall is still clear of every wall after
/// a move: an axis step that would make it meet a wall is never taken.
pub proof fn lemma_slide_stays_clear(pos: Point, half: Point, dx: int, dy: int, walls: Seq<Rect>)
    requires
        !blocked_by(Rect { center: pos, half }, walls),
    ensures
        !blocked_by(Rect { center: slide(pos, half, dx, dy, walls), half }, walls),
{
    let r = slide(pos, half, dx, dy, walls);
    let mid = Point { x: r.x, y: pos.y };
    assert(!blocked_by(Rect { center: mid, half }, walls));
}

} // verus!
