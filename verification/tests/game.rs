use boxes::components::{Game, RunState};
use boxes::ui::{button_interaction_system, button_text_system, Interaction};

#[test]
fn a_game_starts_at_zero_and_playing() {
    assert_eq!(Game::default(), Game { score: 0, score_best: 0 });
    assert_eq!(RunState::default(), RunState::Playing);
}

#[test]
fn merges_add_their_sums_to_the_score() {
    let mut game = Game { score: 10, score_best: 12 };
    game.record(&vec![4, 8, 16]);
    assert_eq!(game, Game { score: 38, score_best: 38 });
}

#[test]
fn a_lower_score_leaves_the_best_score() {
    let mut game = Game { score: 10, score_best: 100 };
    game.record(&vec![4]);
    assert_eq!(game, Game { score: 14, score_best: 100 });
    game.record(&vec![]);
    assert_eq!(game, Game { score: 14, score_best: 100 });
}

#[test]
fn the_score_may_reach_the_largest_number() {
    let mut game = Game { score: u32::MAX - 4, score_best: 0 };
    game.record(&vec![4]);
    assert_eq!(game, Game { score: u32::MAX, score_best: u32::MAX });
}

#[test]
fn a_reset_score_keeps_the_best() {
    let mut game = Game { score: 14, score_best: 100 };
    game.reset();
    assert_eq!(game, Game { score: 0, score_best: 100 });
}

#[test]
fn a_press_flips_the_run_state() {
    assert_eq!(button_interaction_system(Interaction::Pressed, RunState::Playing), RunState::GameOver);
    assert_eq!(button_interaction_system(Interaction::Pressed, RunState::GameOver), RunState::Playing);
}

#[test]
fn anything_but_a_press_leaves_the_run_state() {
    for state in [RunState::Playing, RunState::GameOver] {
        assert_eq!(button_interaction_system(Interaction::Hovered, state), state);
        assert_eq!(button_interaction_system(Interaction::Idle, state), state);
    }
}

#[test]
fn the_button_says_what_a_press_does() {
    assert_eq!(button_text_system(RunState::Playing), "End Game");
    assert_eq!(button_text_system(RunState::GameOver), "New Game");
}
