use wordle::game::{Game, LetterState};

fn fresh_id() -> u128 {
    uuid::Uuid::new_v4().as_u128()
}

#[test]
fn quick_victory() {
    let mut game = Game::new(fresh_id(), "final".to_string(), 0);
    game.add_guess("guess".to_string());
    assert_eq!(game.is_complete(), false);
    game.add_guess("final".to_string());
    assert_eq!(game.is_complete(), true);
    assert_eq!(game.is_victory(), true);
    assert_eq!(game.is_loss(), false);
}

#[test]
fn victory() {
    let mut game = Game::new(fresh_id(), "final".to_string(), 0);
    game.add_guess("crane".to_string());
    assert_eq!(game.is_complete(), false);
    game.add_guess("pilot".to_string());
    assert_eq!(game.is_complete(), false);
    game.add_guess("husky".to_string());
    assert_eq!(game.is_complete(), false);
    game.add_guess("badge".to_string());
    assert_eq!(game.is_complete(), false);
    game.add_guess("epoxy".to_string());
    assert_eq!(game.is_complete(), false);
    game.add_guess("final".to_string());
    assert_eq!(game.is_complete(), true);
    assert_eq!(game.is_victory(), true);
    assert_eq!(game.is_loss(), false);
}

#[test]
fn loss() {
    let mut game = Game::new(fresh_id(), "final".to_string(), 0);
    game.add_guess("crane".to_string());
    assert_eq!(game.is_complete(), false);
    game.add_guess("pilot".to_string());
    assert_eq!(game.is_complete(), false);
    game.add_guess("husky".to_string());
    assert_eq!(game.is_complete(), false);
    game.add_guess("badge".to_string());
    assert_eq!(game.is_complete(), false);
    game.add_guess("epoxy".to_string());
    assert_eq!(game.is_complete(), false);
    game.add_guess("wrong".to_string());
    assert_eq!(game.is_complete(), true);
    assert_eq!(game.is_victory(), false);
    assert_eq!(game.is_loss(), true);
}

#[test]
fn padded_guesses_fill_the_board() {
    let mut game = Game::new(fresh_id(), "final".to_string(), 0);
    game.add_guess("crane".to_string());
    game.add_guess("pilot".to_string());
    let rows = game.get_guesses();
    assert_eq!(rows.len(), 6);
    assert_eq!(rows[0], Some("crane".to_string()));
    assert_eq!(rows[1], Some("pilot".to_string()));
    for i in 2..6 {
        assert_eq!(rows[i], None);
    }
}

fn keyboard_state(game: &Game, ch: char) -> LetterState {
    for letter in game.get_available_letters() {
        if letter.id == ch {
            return letter.state;
        }
    }
    panic!("letter not on the keyboard");
}

#[test]
fn keyboard_aggregates_best_outcome() {
    let mut game = Game::new(fresh_id(), "slate".to_string(), 0);
    game.add_guess("crane".to_string());
    // crane vs slate: c,r,n wrong; a,e correct.
    assert_eq!(keyboard_state(&game, 'a'), LetterState::Correct);
    assert_eq!(keyboard_state(&game, 'e'), LetterState::Correct);
    assert_eq!(keyboard_state(&game, 'c'), LetterState::Wrong);
    assert_eq!(keyboard_state(&game, 'q'), LetterState::Empty);
}

#[test]
fn keyboard_never_downgrades() {
    let mut game = Game::new(fresh_id(), "slate".to_string(), 0);
    game.add_guess("tabby".to_string());
    // tabby vs slate: t and a both out of place.
    assert_eq!(keyboard_state(&game, 't'), LetterState::WrongPlace);
    assert_eq!(keyboard_state(&game, 'a'), LetterState::WrongPlace);
    game.add_guess("slate".to_string());
    // Both improve to Correct; a later Wrong for the same letters never shows.
    assert_eq!(keyboard_state(&game, 't'), LetterState::Correct);
    assert_eq!(keyboard_state(&game, 'a'), LetterState::Correct);
    assert_eq!(keyboard_state(&game, 'b'), LetterState::Wrong);
}

#[test]
fn short_id_is_the_hex_prefix() {
    let id: u128 = 0x0123_4567_89ab_cdef_0000_0000_0000_0000;
    assert_eq!(wordle::game::short_id(id), "01234567".to_string());
    assert_eq!(wordle::game::short_id(0), "00000000".to_string());
    assert_eq!(
        wordle::game::short_id(u128::MAX),
        "ffffffff".to_string()
    );
}

#[test]
fn game_view_reveals_word_only_once_complete() {
    let mut game = Game::new(fresh_id(), "final".to_string(), 0);
    game.add_guess("crane".to_string());
    let view = game.game_view();
    assert_eq!(view.word, None);
    assert!(!view.complete && !view.victory && !view.loss);
    assert_eq!(view.rows.len(), 6);
    assert_eq!(view.keyboard.len(), 26);
    game.add_guess("final".to_string());
    let view = game.game_view();
    assert_eq!(view.word, Some("final".to_string()));
    assert!(view.complete && view.victory && !view.loss);
}
