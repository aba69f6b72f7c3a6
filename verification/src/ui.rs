//! What the button of the game decides: the next run state, and its label.

use vstd::prelude::*;
use crate::components::Game;
use crate::components::RunState;

verus! {

/// What the pointer does to the button.
#[derive(Debug, PartialEq, Eq, Structural, Clone, Copy)]
pub enum Interaction {
    Pressed,
    Hovered,
    Idle,
}

/// The other run state.
pub open spec fn toggled(state: RunState) -> RunState {
    match state {
        RunState::Playing => RunState::GameOver,
        RunState::GameOver => RunState::Playing,
    }
}

/// The run state after the pointer has done `interaction` to the button: a
/// press ends a running game and starts an ended one anew, anything else
/// leaves the state as it is.
pub fn button_interaction_system(interaction: Interaction, run_state: RunState) -> (next: RunState)
    ensures
        next == if interaction == Interaction::Pressed {
            toggled(run_state)
        } else {
            run_state
        },
{
    match interaction {
        Interaction::Pressed => match run_state {
            RunState::Playing => RunState::GameOver,
            RunState::GameOver => RunState::Playing,
        },
        Interaction::Hovered => run_state,
        Interaction::Idle => run_state,
    }
}

/// The label of the button: what a press would do.
pub fn button_text_system(run_state: RunState) -> (label: &'static str)
    ensures
        run_state == RunState::Playing ==> label@ == "End Game"@,
        run_state == RunState::GameOver ==> label@ == "New Game"@,
{
    match run_state {
        RunState::Playing => "End Game",
        RunState::GameOver => "New Game",
    }
}

} // verus!
