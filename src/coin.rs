use vstd::prelude::*;

use rand::rngs::StdRng;

use crate::geometry::{intersects, overlap, overlap_spec, Point, Rect, Side};
use crate::random::range_i64;
use crate::room::{in_world, roll_keep, Level, Room, ROOM_SIZE};

verus! {

/// Half the side of a coin's square box.
pub const COIN_HALF_SIZE: i64 = 12;

/// Speed of an active coin in pixels per second.
pub const COIN_SPEED: i64 = 200;

/// Each frame, each room spawns a coin with chance
/// `COIN_SPAWN_NUMERATOR / COIN_SPAWN_DENOMINATOR`.
pub const COIN_SPAWN_NUMERATOR: u32 = 2;

pub const COIN_SPAWN_DENOMINATOR: u32 = 100;

/// How long a new coin stays dormant, in milliseconds.
pub const COIN_WAKE_MS: u64 = 3000;

/// A coin spawns at least this far inside its room's walls.
pub const COIN_SPAWN_MARGIN: i64 = 50;

/// Coins this far beyond the edge of the view are still kept.
pub const VISIBILITY_BUFFER: i64 = 100;

/// Coin velocities stay within this bound on each axis.
pub const MAX_COIN_VELOCITY: i64 = 0x10_0000;

/// Coin positions stay within this bound on each axis while they move.
pub const COIN_LIMIT: i64 = 0x1000_0000_0000_0000;

/// A hazard: dormant (zero velocity) until its wake timer runs out, then
/// active and moving for good.
#[derive(Clone, Copy, PartialEq, Eq, Structural, Debug)]
pub struct Coin {
    pub position: Point,
    pub velocity: Point,
    /// Milliseconds left before the coin wakes.
    pub wake_ms: u64,
}

pub open spec fn is_active(c: Coin) -> bool {
    c.velocity != (Point { x: 0, y: 0 })
}

pub open spec fn coin_box(p: Point) -> Rect {
    Rect { center: p, half: Point { x: COIN_HALF_SIZE, y: COIN_HALF_SIZE } }
}

/// One timer step of `dt` milliseconds: a coin whose timer runs out in this
/// step takes `wake_velocity`; a coin whose timer already ran out is left
/// alone.
pub open spec fn tick(c: Coin, dt: u64, wake_velocity: Point) -> Coin {
    if c.wake_ms == 0 {
        c
    } else if dt >= c.wake_ms {
        Coin { wake_ms: 0, velocity: wake_velocity, ..c }
    } else {
        Coin { wake_ms: (c.wake_ms - dt) as u64, ..c }
    }
}

/// `v * dt_ms / 1000`, rounded toward zero.
pub open spec fn travel(v: int, dt_ms: int) -> int {
    if v >= 0 {
        v * dt_ms / 1000
    } else {
        -((-v) * dt_ms / 1000)
    }
}

/// The first wall of `walls`, from index `i` on, that the box strikes, and
/// the face struck.
pub open spec fn first_hit_from(b: Rect, walls: Seq<Rect>, i: int) -> Option<Side>
    decreases walls.len() - i,
{
    if i < 0 || i >= walls.len() {
        None
    } else if overlap_spec(b, walls[i]).is_some() {
        overlap_spec(b, walls[i])
    } else {
        first_hit_from(b, walls, i + 1)
    }
}

/// One movement step of `dt` milliseconds against `walls`. A dormant coin
/// stays put. An active coin moves to its next position unless the first
/// wall it would meet there holds it inside; meeting a left or right face
/// reverses its x velocity, a top or bottom face its y velocity.
pub open spec fn step_coin(c: Coin, walls: Seq<Rect>, dt: int) -> Coin {
    if !is_active(c) {
        c
    } else {
        let next = Point {
            x: (c.position.x + travel(c.velocity.x as int, dt)) as i64,
            y: (c.position.y + travel(c.velocity.y as int, dt)) as i64,
        };
        match first_hit_from(coin_box(next), walls, 0) {
            None => Coin { position: next, ..c },
            Some(Side::Left) | Some(Side::Right) => Coin {
                position: next,
                velocity: Point { x: -c.velocity.x as i64, y: c.velocity.y },
                ..c
            },
            Some(Side::Top) | Some(Side::Bottom) => Coin {
                position: next,
                velocity: Point { x: c.velocity.x, y: -c.velocity.y as i64 },
                ..c
            },
            Some(Side::Inside) => c,
        }
    }
}

/// The coin lies within the view centered on `camera` with half extents
/// `view_half`, widened by `VISIBILITY_BUFFER`; the edge counts as inside.
pub open spec fn is_visible(c: Coin, camera: Point, view_half: Point) -> bool {
    &&& -(view_half.x + VISIBILITY_BUFFER) <= c.position.x - camera.x <= view_half.x
        + VISIBILITY_BUFFER
    &&& -(view_half.y + VISIBILITY_BUFFER) <= c.position.y - camera.y <= view_half.y
        + VISIBILITY_BUFFER
}

/// Bounds that keep a moving coin's arithmetic inside `i64`.
pub open spec fn coin_in_bounds(c: Coin) -> bool {
    &&& -COIN_LIMIT <= c.position.x <= COIN_LIMIT
    &&& -COIN_LIMIT <= c.position.y <= COIN_LIMIT
    &&& -MAX_COIN_VELOCITY <= c.velocity.x <= MAX_COIN_VELOCITY
    &&& -MAX_COIN_VELOCITY <= c.velocity.y <= MAX_COIN_VELOCITY
}

impl Coin {
    /// A dormant coin at `position` that wakes after `COIN_WAKE_MS`.
    pub fn new(position: Point) -> (r: Coin)
        ensures
            r.position == position,
            r.velocity == (Point { x: 0, y: 0 }),
            r.wake_ms == COIN_WAKE_MS,
    {
        Coin { position, velocity: Point { x: 0, y: 0 }, wake_ms: COIN_WAKE_MS }
    }

    pub fn is_active(&self) -> (r: bool)
        ensures
            r == is_active(*self),
    {
        self.velocity.x != 0 || self.velocity.y != 0
    }
}

/// Advances every coin's wake timer by `dt_ms`; a coin that wakes in this
/// step takes its entry of `wake_velocities` (the caller draws a random
/// heading of speed `COIN_SPEED` for each, never zero).
pub fn handle_coin_state_change(coins: &mut Vec<Coin>, dt_ms: u64, wake_velocities: &Vec<Point>)
    requires
        wake_velocities@.len() == old(coins)@.len(),
        forall|i: int|
            0 <= i < wake_velocities@.len() ==> #[trigger] wake_velocities@[i] != (Point {
                x: 0,
                y: 0,
            }),
    ensures
        final(coins)@.len() == old(coins)@.len(),
        forall|i: int|
            0 <= i < old(coins)@.len() ==> #[trigger] final(coins)@[i] == tick(
                old(coins)@[i],
                dt_ms,
                wake_velocities@[i],
            ),
{
    let mut out: Vec<Coin> = Vec::new();
    let mut i: usize = 0;
    while i < coins.len()
        invariant
            wake_velocities@.len() == coins@.len(),
            i <= coins@.len(),
            out@.len() == i,
            forall|j: int|
                0 <= j < i ==> #[trigger] out@[j] == tick(coins@[j], dt_ms, wake_velocities@[j]),
        decreases coins.len() - i,
    {
        let c = coins[i];
        let next = if c.wake_ms == 0 {
            c
        } else if dt_ms >= c.wake_ms {
            Coin { wake_ms: 0, velocity: wake_velocities[i], ..c }
        } else {
            Coin { wake_ms: c.wake_ms - dt_ms, ..c }
        };
        out.push(next);
        i = i + 1;
    }
    *coins = out;
}

/// The first wall that the box strikes, and the face struck.
pub fn first_hit(b: &Rect, walls: &Vec<Rect>) -> (r: Option<Side>)
    ensures
        r == first_hit_from(*b, walls@, 0),
{
    let mut i: usize = 0;
    while i < walls.len()
        invariant
            i <= walls@.len(),
            first_hit_from(*b, walls@, i as int) == first_hit_from(*b, walls@, 0),
        decreases walls.len() - i,
    {
        let hit = overlap(b, &walls[i]);
        if hit.is_some() {
            return hit;
        }
        i = i + 1;
    }
    None
}

fn travel_exec(v: i64, dt_ms: u32) -> (r: i64)
    requires
        -MAX_COIN_VELOCITY <= v <= MAX_COIN_VELOCITY,
    ensures
        r == travel(v as int, dt_ms as int),
        -0x10_0000_0000_0000 <= r <= 0x10_0000_0000_0000,
{
    if v >= 0 {
        assert(v * dt_ms <= MAX_COIN_VELOCITY * 0xFFFF_FFFF) by (nonlinear_arith)
            requires
                0 <= v <= MAX_COIN_VELOCITY,
                dt_ms <= 0xFFFF_FFFF,
        ;
        v * (dt_ms as i64) / 1000
    } else {
        assert((-v) * dt_ms <= MAX_COIN_VELOCITY * 0xFFFF_FFFF) by (nonlinear_arith)
            requires
                0 <= -v <= MAX_COIN_VELOCITY,
                dt_ms <= 0xFFFF_FFFF,
        ;
        -((-v) * (dt_ms as i64) / 1000)
    }
}

/// Moves every active coin one step of `dt_ms` milliseconds, reflecting it
/// off the first wall that it strikes.
pub fn coin_movement(coins: &mut Vec<Coin>, walls: &Vec<Rect>, dt_ms: u32)
    requires
        forall|i: int| 0 <= i < old(coins)@.len() ==> coin_in_bounds(#[trigger] old(coins)@[i]),
    ensures
        final(coins)@.len() == old(coins)@.len(),
        forall|i: int|
            0 <= i < old(coins)@.len() ==> #[trigger] final(coins)@[i] == step_coin(
                old(coins)@[i],
                walls@,
                dt_ms as int,
            ),
{
    let mut out: Vec<Coin> = Vec::new();
    let mut i: usize = 0;
    while i < coins.len()
        invariant
            forall|j: int| 0 <= j < coins@.len() ==> coin_in_bounds(#[trigger] coins@[j]),
            i <= coins@.len(),
            out@.len() == i,
            forall|j: int|
                0 <= j < i ==> #[trigger] out@[j] == step_coin(coins@[j], walls@, dt_ms as int),
        decreases coins.len() - i,
    {
        let c = coins[i];
        assert(coin_in_bounds(coins@[i as int]));
        let mut next = c;
        if c.is_active() {
            let p = Point {
                x: c.position.x + travel_exec(c.velocity.x, dt_ms),
                y: c.position.y + travel_exec(c.velocity.y, dt_ms),
            };
            let b = Rect { center: p, half: Point { x: COIN_HALF_SIZE, y: COIN_HALF_SIZE } };
            match first_hit(&b, walls) {
                None => {
                    next = Coin { position: p, ..c };
                },
                Some(Side::Left) | Some(Side::Right) => {
                    next = Coin {
                        position: p,
                        velocity: Point { x: -c.velocity.x, y: c.velocity.y },
                        ..c
                    };
                },
                Some(Side::Top) | Some(Side::Bottom) => {
                    next = Coin {
                        position: p,
                        velocity: Point { x: c.velocity.x, y: -c.velocity.y },
                        ..c
                    };
                },
                Some(Side::Inside) => {},
            }
        }
        out.push(next);
        i = i + 1;
    }
    *coins = out;
}

/// Whether the player's box meets an active coin; dormant coins never
/// count.
pub fn check_coin_collision(player: &Rect, coins: &Vec<Coin>) -> (r: bool)
    ensures
        r == exists|i: int|
            0 <= i < coins@.len() && is_active(#[trigger] coins@[i]) && intersects(
                *player,
                coin_box(coins@[i].position),
            ),
{
    let mut i: usize = 0;
    while i < coins.len()
        invariant
            i <= coins@.len(),
            forall|j: int|
                0 <= j < i ==> !(is_active(#[trigger] coins@[j]) && intersects(
                    *player,
                    coin_box(coins@[j].position),
                )),
        decreases coins.len() - i,
    {
        let c = coins[i];
        if c.is_active() {
            let b = Rect { center: c.position, half: Point { x: COIN_HALF_SIZE, y: COIN_HALF_SIZE } };
            if overlap(player, &b).is_some() {
                return true;
            }
        }
        i = i + 1;
    }
    false
}

fn visible(c: &Coin, camera: Point, view_half: Point) -> (r: bool)
    ensures
        r == is_visible(*c, camera, view_half),
{
    let dx = c.position.x as i128 - camera.x as i128;
    let dy = c.position.y as i128 - camera.y as i128;
    let hx = view_half.x as i128 + VISIBILITY_BUFFER as i128;
    let hy = view_half.y as i128 + VISIBILITY_BUFFER as i128;
    -hx <= dx && dx <= hx && -hy <= dy && dy <= hy
}

/// Removes every coin outside the view around `camera` (half extents
/// `view_half`, widened by `VISIBILITY_BUFFER`); the others stay, in their
/// order.
pub fn despawn_invisible_coins(coins: &mut Vec<Coin>, camera: Point, view_half: Point)
    ensures
        final(coins)@ == old(coins)@.filter(|c: Coin| is_visible(c, camera, view_half)),
{
    let ghost f = |c: Coin| is_visible(c, camera, view_half);
    let mut out: Vec<Coin> = Vec::new();
    let mut i: usize = 0;
    while i < coins.len()
        invariant
            i <= coins@.len(),
            f == (|c: Coin| is_visible(c, camera, view_half)),
            out@ == coins@.take(i as int).filter(f),
        decreases coins.len() - i,
    {
        let c = coins[i];
        proof {
            assert(coins@.take(i + 1).drop_last() =~= coins@.take(i as int));
            reveal_with_fuel(Seq::filter, 1);
        }
        if visible(&c, camera, view_half) {
            out.push(c);
        }
        i = i + 1;
    }
    assert(coins@.take(i as int) =~= coins@);
    *coins = out;
}

/// A new dormant coin at `p` moved by `offset`.
pub open spec fn coin_at(p: Point, offset: Point) -> Coin {
    Coin {
        position: Point { x: (p.x + offset.x) as i64, y: (p.y + offset.y) as i64 },
        velocity: Point { x: 0, y: 0 },
        wake_ms: COIN_WAKE_MS,
    }
}

/// The coins spawned in `rooms`: one for each room whose entry of `spawn`
/// is true, at its center moved by its entry of `offsets`, in room order.
pub open spec fn spawned_coins(rooms: Seq<Room>, spawn: Seq<bool>, offsets: Seq<Point>) -> Seq<
    Coin,
>
    decreases rooms.len(),
{
    if rooms.len() == 0 || spawn.len() == 0 || offsets.len() == 0 {
        seq![]
    } else {
        let rest = spawned_coins(rooms.drop_last(), spawn.drop_last(), offsets.drop_last());
        if spawn.last() {
            rest.push(coin_at(rooms.last().position, offsets.last()))
        } else {
            rest
        }
    }
}

/// One coin per room when every draw spawns; none when no draw does.
pub proof fn lemma_spawned_all_or_none(rooms: Seq<Room>, spawn: Seq<bool>, offsets: Seq<Point>)
    requires
        spawn.len() == rooms.len(),
        offsets.len() == rooms.len(),
    ensures
        (forall|i: int| 0 <= i < spawn.len() ==> spawn[i]) ==> spawned_coins(rooms, spawn, offsets).len()
            == rooms.len(),
        (forall|i: int| 0 <= i < spawn.len() ==> !spawn[i]) ==> spawned_coins(rooms, spawn, offsets)
            == Seq::<Coin>::empty(),
    decreases rooms.len(),
{
    if rooms.len() > 0 {
        lemma_spawned_all_or_none(rooms.drop_last(), spawn.drop_last(), offsets.drop_last());
        assert(forall|i: int|
            0 <= i < spawn.drop_last().len() ==> spawn.drop_last()[i] == spawn[i]);
    } else {
        assert(spawned_coins(rooms, spawn, offsets) =~= Seq::<Coin>::empty());
    }
}

/// Adds the coins that the draws `spawn` and `offsets` give: one dormant
/// coin for each room whose draw is true; the coins there stay as they are.
pub fn place_coins(level: &Level, coins: &mut Vec<Coin>, spawn: &Vec<bool>, offsets: &Vec<Point>)
    requires
        level.wf(),
        spawn@.len() == level.rooms@.len(),
        offsets@.len() == level.rooms@.len(),
        forall|k: int|
            0 <= k < offsets@.len() ==> -ROOM_SIZE <= (#[trigger] offsets@[k]).x <= ROOM_SIZE
                && -ROOM_SIZE <= offsets@[k].y <= ROOM_SIZE,
    ensures
        final(coins)@ == old(coins)@ + spawned_coins(level.rooms@, spawn@, offsets@),
{
    let ghost start = coins@;
    let mut i: usize = 0;
    while i < level.rooms.len()
        invariant
            level.wf(),
            spawn@.len() == level.rooms@.len(),
            offsets@.len() == level.rooms@.len(),
            forall|k: int|
                0 <= k < offsets@.len() ==> -ROOM_SIZE <= (#[trigger] offsets@[k]).x <= ROOM_SIZE
                    && -ROOM_SIZE <= offsets@[k].y <= ROOM_SIZE,
            i <= level.rooms@.len(),
            coins@ == start + spawned_coins(
                level.rooms@.take(i as int),
                spawn@.take(i as int),
                offsets@.take(i as int),
            ),
        decreases level.rooms.len() - i,
    {
        assert(level.rooms@.take(i + 1).drop_last() =~= level.rooms@.take(i as int));
        assert(spawn@.take(i + 1).drop_last() =~= spawn@.take(i as int));
        assert(offsets@.take(i + 1).drop_last() =~= offsets@.take(i as int));
        let ghost before = coins@;
        if spawn[i] {
            let r = level.rooms[i].position;
            let o = offsets[i];
            assert(in_world(level.rooms@[i as int].position));
            assert(-ROOM_SIZE <= offsets@[i as int].x <= ROOM_SIZE);
            coins.push(Coin::new(Point { x: r.x + o.x, y: r.y + o.y }));
            assert(coins@ =~= start + spawned_coins(
                level.rooms@.take(i + 1),
                spawn@.take(i + 1),
                offsets@.take(i + 1),
            ));
        }
        i = i + 1;
    }
    assert(level.rooms@.take(i as int) =~= level.rooms@);
    assert(spawn@.take(i as int) =~= spawn@);
    assert(offsets@.take(i as int) =~= offsets@);
}

/// Each room independently spawns one dormant coin with chance
/// `numerator / denominator`, at a random point at least
/// `COIN_SPAWN_MARGIN` inside its walls; the coins there stay as they are.
pub fn spawn_coins(
    level: &Level,
    coins: &mut Vec<Coin>,
    numerator: u32,
    denominator: u32,
    rng: &mut StdRng,
)
    requires
        level.wf(),
        0 < denominator,
        numerator <= denominator,
    ensures
        exists|spawn: Seq<bool>, offsets: Seq<Point>|
            {
                &&& spawn.len() == level.rooms@.len()
                &&& offsets.len() == level.rooms@.len()
                &&& forall|k: int|
                    0 <= k < offsets.len() ==> -(ROOM_SIZE / 2 - COIN_SPAWN_MARGIN) <= (
                    #[trigger] offsets[k]).x < ROOM_SIZE / 2 - COIN_SPAWN_MARGIN && -(ROOM_SIZE
                        / 2 - COIN_SPAWN_MARGIN) <= offsets[k].y < ROOM_SIZE / 2
                        - COIN_SPAWN_MARGIN
                &&& final(coins)@ == old(coins)@ + spawned_coins(level.rooms@, spawn, offsets)
            },
        numerator == denominator ==> final(coins)@.len() == old(coins)@.len()
            + level.rooms@.len(),
        numerator == 0 ==> final(coins)@ == old(coins)@,
{
    let spawn = roll_keep(level.rooms.len(), numerator, denominator, rng);
    let reach: i64 = ROOM_SIZE / 2 - COIN_SPAWN_MARGIN;
    let mut offsets: Vec<Point> = Vec::new();
    let mut i: usize = 0;
    while i < level.rooms.len()
        invariant
            reach == ROOM_SIZE / 2 - COIN_SPAWN_MARGIN,
            i <= level.rooms@.len(),
            offsets@.len() == i,
            forall|k: int|
                0 <= k < i ==> -reach <= (#[trigger] offsets@[k]).x < reach && -reach
                    <= offsets@[k].y < reach,
        decreases level.rooms.len() - i,
    {
        let ox = range_i64(rng, -reach, reach);
        let oy = range_i64(rng, -reach, reach);
        offsets.push(Point { x: ox, y: oy });
        i = i + 1;
    }
    place_coins(level, coins, &spawn, &offsets);
    proof {
        lemma_spawned_all_or_none(level.rooms@, spawn@, offsets@);
        if numerator == 0 {
            assert(coins@ =~= old(coins)@);
        }
    }
}

/// A dormant coin whose timer is fed its whole remaining time wakes in that
/// step with the velocity drawn for it; from then on no timer step changes
/// its velocity again.
pub proof fn lemma_wakes_once(c: Coin, v: Point, later: Seq<(u64, Point)>)
    requires
        c.wake_ms > 0,
        !is_active(c),
    ensures
        tick(c, c.wake_ms, v).velocity == v,
        tick(c, c.wake_ms, v).wake_ms == 0,
        ticks(tick(c, c.wake_ms, v), later) == tick(c, c.wake_ms, v),
    decreases later.len(),
{
    lemma_woken_coin_stays(tick(c, c.wake_ms, v), later);
}

/// The coin after a run of timer steps, each a duration and the velocity
/// drawn for that step.
pub open spec fn ticks(c: Coin, steps: Seq<(u64, Point)>) -> Coin
    decreases steps.len(),
{
    if steps.len() == 0 {
        c
    } else {
        ticks(tick(c, steps[0].0, steps[0].1), steps.drop_first())
    }
}

/// Timer steps leave a coin whose timer has run out unchanged.
pub proof fn lemma_woken_coin_stays(c: Coin, steps: Seq<(u64, Point)>)
    requires
        c.wake_ms == 0,
    ensures
        ticks(c, steps) == c,
    decreases steps.len(),
{
    if steps.len() > 0 {
        lemma_woken_coin_stays(c, steps.drop_first());
    }
}

/// The total duration of a run of timer steps.
pub open spec fn elapsed(steps: Seq<(u64, Point)>) -> int
    decreases steps.len(),
{
    if steps.len() == 0 {
        0
    } else {
        steps[0].0 + elapsed(steps.drop_first())
    }
}

/// A dormant coin fed a run of timer steps stays dormant, its timer counted
/// down, while the steps add up to less than its wake time; once they reach
/// it, the coin has the velocity drawn for the step that crossed the wake
/// time, whatever the steps after it draw.
pub proof fn lemma_wakes_at_crossing(c: Coin, steps: Seq<(u64, Point)>)
    requires
        c.wake_ms > 0,
        !is_active(c),
    ensures
        elapsed(steps) < c.wake_ms ==> ticks(c, steps) == (Coin {
            wake_ms: (c.wake_ms - elapsed(steps)) as u64,
            ..c
        }),
        forall|k: int|
            0 <= k < steps.len() && elapsed(steps.take(k)) < c.wake_ms <= elapsed(
                #[trigger] steps.take(k + 1),
            ) ==> ticks(c, steps).velocity == steps[k].1 && ticks(c, steps).wake_ms == 0,
    decreases steps.len(),
{
    if steps.len() > 0 {
        let rest = steps.drop_first();
        let s0 = steps[0].0;
        let c1 = tick(c, s0, steps[0].1);
        assert forall|k: int| 1 <= k <= steps.len() implies elapsed(#[trigger] steps.take(k)) == s0
            + elapsed(rest.take(k - 1)) by {
            assert(steps.take(k).drop_first() =~= rest.take(k - 1));
        }
        lemma_elapsed_nonneg(rest);
        assert forall|k: int| 0 <= k < rest.len() implies elapsed(#[trigger] rest.take(k)) >= 0 by {
            lemma_elapsed_nonneg(rest.take(k));
        }
        assert(steps.take(0) =~= Seq::<(u64, Point)>::empty());
        if s0 >= c.wake_ms {
            lemma_woken_coin_stays(c1, rest);
        } else {
            lemma_wakes_at_crossing(c1, rest);
            assert forall|k: int|
                0 <= k < steps.len() && elapsed(steps.take(k)) < c.wake_ms <= elapsed(
                    #[trigger] steps.take(k + 1),
                ) implies ticks(c, steps).velocity == steps[k].1 && ticks(c, steps).wake_ms
                == 0 by {
                assert(k >= 1);
                assert(rest[k - 1] == steps[k]);
                assert(rest.take(k) == rest.take((k - 1) + 1));
            }
        }
    }
}

pub proof fn lemma_elapsed_nonneg(steps: Seq<(u64, Point)>)
    ensures
        elapsed(steps) >= 0,
    decreases steps.len(),
{
    if steps.len() > 0 {
        lemma_elapsed_nonneg(steps.drop_first());
    }
}

} // verus!
