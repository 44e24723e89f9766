use vstd::prelude::*;

verus! {

/// The screen the game is on.
#[derive(Clone, Copy, PartialEq, Eq, Structural, Debug)]
pub enum GameState {
    Menu,
    Playing,
    GameOver,
}

/// What a menu button does when pressed.
#[derive(Clone, Copy, PartialEq, Eq, Structural, Debug)]
pub enum ButtonAction {
    Start,
    Exit,
    Restart,
}

/// What the game loop is asked to do after a button press.
#[derive(Clone, Copy, PartialEq, Eq, Structural, Debug)]
pub enum ButtonOutcome {
    /// Go to this state; leaving `GameOver` tears the session down first.
    Switch(GameState),
    /// Close the game.
    Quit,
}

/// Time survived in the current session.
#[derive(Clone, Copy, PartialEq, Eq, Structural, Debug)]
pub struct GameTimer {
    pub elapsed_ms: u64,
}

impl GameTimer {
    pub fn new() -> (r: GameTimer)
        ensures
            r.elapsed_ms == 0,
    {
        GameTimer { elapsed_ms: 0 }
    }
}

/// Counts `dt_ms` while playing (saturating at `u64::MAX`); on any other
/// screen the timer stands still.
pub fn update_timer(state: GameState, timer: &mut GameTimer, dt_ms: u64)
    ensures
        state == GameState::Playing ==> final(timer).elapsed_ms == if old(timer).elapsed_ms + dt_ms
            > u64::MAX {
            u64::MAX as int
        } else {
            old(timer).elapsed_ms + dt_ms
        },
        state != GameState::Playing ==> *final(timer) == *old(timer),
{
    if state == GameState::Playing {
        if timer.elapsed_ms > u64::MAX - dt_ms {
            timer.elapsed_ms = u64::MAX;
        } else {
            timer.elapsed_ms = timer.elapsed_ms + dt_ms;
        }
    }
}

/// A pressed button: start plays, exit quits, restart clears the timer and
/// plays a fresh session.
pub fn handle_buttons(action: ButtonAction, timer: &mut GameTimer) -> (r: ButtonOutcome)
    ensures
        action == ButtonAction::Start ==> r == ButtonOutcome::Switch(GameState::Playing)
            && *final(timer) == *old(timer),
        action == ButtonAction::Exit ==> r == ButtonOutcome::Quit && *final(timer) == *old(timer),
        action == ButtonAction::Restart ==> r == ButtonOutcome::Switch(GameState::Playing)
            && final(timer).elapsed_ms == 0,
{
    match action {
        ButtonAction::Start => ButtonOutcome::Switch(GameState::Playing),
        ButtonAction::Exit => ButtonOutcome::Quit,
        ButtonAction::Restart => {
            timer.elapsed_ms = 0;
            ButtonOutcome::Switch(GameState::Playing)
        },
    }
}

/// The state after the collision check of a frame: a hit while playing
/// ends the game; nothing else changes the state.
pub fn state_after_collision(state: GameState, hit: bool) -> (r: GameState)
    ensures
        r == if state == GameState::Playing && hit {
            GameState::GameOver
        } else {
            state
        },
{
    if state == GameState::Playing && hit {
        GameState::GameOver
    } else {
        state
    }
}

} // verus!
