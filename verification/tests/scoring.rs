use wordle::game::{LetterState, WordState};

#[test]
fn game_guess_word_into_state() {
    let state = WordState::guess(&"smell".to_string(), &"state".to_string());
    assert_eq!(state.letters[0].state, LetterState::Correct);
    assert_eq!(state.letters[1].state, LetterState::Wrong);
    assert_eq!(state.letters[2].state, LetterState::WrongPlace);
    assert_eq!(state.letters[3].state, LetterState::Wrong);
    assert_eq!(state.letters[4].state, LetterState::Wrong);
}

#[test]
fn game_guess_with_double_letter_into_word_state() {
    let state = WordState::guess(&"smell".to_string(), &"slate".to_string());
    assert_eq!(state.letters[0].state, LetterState::Correct);
    assert_eq!(state.letters[1].state, LetterState::Wrong);
    assert_eq!(state.letters[2].state, LetterState::WrongPlace);
    assert_eq!(state.letters[3].state, LetterState::WrongPlace); // First 'l' was here
    assert_eq!(state.letters[4].state, LetterState::Wrong); // Duplicate 'l' is considered wrong
}

#[test]
fn word_guess_word_into_state() {
    let state = wordle::word::WordState::guess(&"smell".to_string(), &"state".to_string());
    assert_eq!(state.letters[0].state, wordle::word::LetterState::Correct);
    assert_eq!(state.letters[1].state, wordle::word::LetterState::Wrong);
    assert_eq!(state.letters[2].state, wordle::word::LetterState::WrongPlace);
    assert_eq!(state.letters[3].state, wordle::word::LetterState::Wrong);
    assert_eq!(state.letters[4].state, wordle::word::LetterState::Wrong);
}

#[test]
fn word_guess_with_double_letter_into_word_state() {
    let state = wordle::word::WordState::guess(&"smell".to_string(), &"slate".to_string());
    assert_eq!(state.letters[0].state, wordle::word::LetterState::Correct);
    assert_eq!(state.letters[1].state, wordle::word::LetterState::Wrong);
    assert_eq!(state.letters[2].state, wordle::word::LetterState::WrongPlace);
    assert_eq!(state.letters[3].state, wordle::word::LetterState::WrongPlace); // First 'l' was here
    assert_eq!(state.letters[4].state, wordle::word::LetterState::Wrong); // Duplicate 'l' is considered wrong
}

#[test]
fn correct_exactly_on_position_matches() {
    let guess = "crane".to_string();
    let state = WordState::guess(&guess, &"crane".to_string());
    for letter in &state.letters {
        assert_eq!(letter.state, LetterState::Correct);
    }
    let state = WordState::guess(&"nacre".to_string(), &"crane".to_string());
    // Only the final 'e' sits in its target position.
    for (i, letter) in state.letters.iter().enumerate() {
        assert_eq!(letter.state == LetterState::Correct, i == 4);
    }
}

#[test]
fn scoring_folds_case() {
    let state = WordState::guess(&"SMELL".to_string(), &"slate".to_string());
    assert_eq!(state.letters[0].id, 's');
    assert_eq!(state.letters[0].state, LetterState::Correct);
    assert_eq!(state.letters[2].state, LetterState::WrongPlace);
    assert_eq!(state.letters[3].state, LetterState::WrongPlace);
    assert_eq!(state.letters[4].state, LetterState::Wrong);
}

#[test]
fn correct_match_does_not_claim_the_letter() {
    // The 'l' at position zero is position-exact. A Correct verdict
    // never claims the letter, so the duplicate right after it may
    // still score WrongPlace against the target's second 'l'.
    let state = WordState::guess(&"llama".to_string(), &"lobby".to_string());
    assert_eq!(state.letters[0].state, LetterState::Correct);
    assert_eq!(state.letters[1].state, LetterState::WrongPlace);
    assert_eq!(state.letters[2].state, LetterState::Wrong);
    assert_eq!(state.letters[3].state, LetterState::Wrong);
    assert_eq!(state.letters[4].state, LetterState::Wrong);
}

#[test]
fn wrong_place_claims_the_letter_value_once() {
    // The first out-of-place 'l' claims the letter; the second 'l'
    // scores Wrong even though the target holds two 'l's.
    let state = WordState::guess(&"llama".to_string(), &"walls".to_string());
    assert_eq!(state.letters[0].state, LetterState::WrongPlace);
    assert_eq!(state.letters[1].state, LetterState::Wrong);
    assert_eq!(state.letters[2].state, LetterState::WrongPlace);
    assert_eq!(state.letters[3].state, LetterState::Wrong);
    assert_eq!(state.letters[4].state, LetterState::Wrong);
}

#[test]
fn empty_row_is_all_placeholders() {
    let row = WordState::empty();
    assert_eq!(row.letters.len(), 5);
    for letter in &row.letters {
        assert_eq!(letter.id, '-');
        assert_eq!(letter.state, LetterState::Empty);
    }
    let row = wordle::word::WordState::empty();
    assert_eq!(row.letters.len(), 5);
    for (i, letter) in row.letters.iter().enumerate() {
        assert_eq!(letter.position, i as u8);
        assert_eq!(letter.state, wordle::word::LetterState::Empty);
    }
}

#[test]
fn positional_row_keeps_positions() {
    let state = wordle::word::WordState::guess(&"smell".to_string(), &"slate".to_string());
    for (i, letter) in state.letters.iter().enumerate() {
        assert_eq!(letter.position, i as u8);
    }
    assert_eq!(state.letters[1].id, 'm');
}
