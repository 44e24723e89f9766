//! Simulation core of a top-down avoidance game: an endless grid of rooms
//! generated on demand, wall-aware player movement, and coins that wake up
//! and bounce around.
//!
//! World lengths are whole pixels held in `i64`, with y pointing north;
//! durations are milliseconds. Random draws come from a caller-owned
//! `StdRng`, so a seeded generator replays a session exactly.

mod coin;
mod direction;
mod game;
mod geometry;
mod movement;
mod random;
mod room;

pub use coin::{
    check_coin_collision, coin_movement, despawn_invisible_coins, first_hit,
    handle_coin_state_change, place_coins, spawn_coins, Coin, COIN_HALF_SIZE, COIN_LIMIT, COIN_SPAWN_DENOMINATOR,
    COIN_SPAWN_MARGIN, COIN_SPAWN_NUMERATOR, COIN_SPEED, COIN_WAKE_MS, MAX_COIN_VELOCITY,
    VISIBILITY_BUFFER,
};
pub use direction::Direction;
pub use game::{
    handle_buttons, state_after_collision, update_timer, ButtonAction, ButtonOutcome, GameState,
    GameTimer,
};
pub use geometry::{overlap, Point, Rect, Side};
pub use movement::{
    blocked, camera_follow, diagonal_part, input_step, move_box, player_movement, step_length,
    Player, PLAYER_HALF_SIZE, PLAYER_SPEED,
};
pub use rand::rngs::StdRng;
pub use room::{
    draw_new_room_exits, filter_exits, has_exit, new_room_exits, room_walls, setup, Level, Room,
    EXIT_KEEP_DENOMINATOR, EXIT_KEEP_NUMERATOR, PASSAGE_WIDTH, PLAYER_LIMIT,
    ROOM_GENERATION_DISTANCE, ROOM_SIZE, WALL_THICKNESS, WORLD_LIMIT,
};
