use dodgecoin::{
    handle_buttons, state_after_collision, update_timer, ButtonAction, ButtonOutcome, GameState,
    GameTimer,
};

#[test]
fn timer_counts_only_while_playing() {
    let mut t = GameTimer::new();
    update_timer(GameState::Playing, &mut t, 16);
    update_timer(GameState::Menu, &mut t, 16);
    update_timer(GameState::GameOver, &mut t, 16);
    update_timer(GameState::Playing, &mut t, 4);
    assert_eq!(t.elapsed_ms, 20);
    let mut full = GameTimer { elapsed_ms: u64::MAX - 1 };
    update_timer(GameState::Playing, &mut full, 10);
    assert_eq!(full.elapsed_ms, u64::MAX);
}

#[test]
fn buttons_switch_state() {
    let mut t = GameTimer { elapsed_ms: 1234 };
    assert_eq!(handle_buttons(ButtonAction::Start, &mut t), ButtonOutcome::Switch(GameState::Playing));
    assert_eq!(t.elapsed_ms, 1234);
    assert_eq!(handle_buttons(ButtonAction::Exit, &mut t), ButtonOutcome::Quit);
    assert_eq!(handle_buttons(ButtonAction::Restart, &mut t), ButtonOutcome::Switch(GameState::Playing));
    assert_eq!(t.elapsed_ms, 0);
}

#[test]
fn hit_ends_only_a_running_game() {
    assert_eq!(state_after_collision(GameState::Playing, true), GameState::GameOver);
    assert_eq!(state_after_collision(GameState::Playing, false), GameState::Playing);
    assert_eq!(state_after_collision(GameState::Menu, true), GameState::Menu);
}
