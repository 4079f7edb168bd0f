//! A board-row scorer that also records each letter's position, for
//! presentation layers that address cells individually. Scoring itself
//! is the same duplicate-letter rule as in `game`.
use crate::game::{lower_char, spec_lower, spec_score, spec_score_at, str_chars};
use vstd::prelude::*;

verus! {

/// The verdict for one guessed letter.
#[derive(Clone, Copy, Debug, PartialEq, Eq, Structural)]
pub enum LetterState {
    Correct,
    WrongPlace,
    Wrong,
    Empty,
}

/// The verdict of the position-free scorer, restated for this row's
/// letters.
pub open spec fn spec_same_state(a: LetterState, b: crate::game::LetterState) -> bool {
    match a {
        LetterState::Correct => b == crate::game::LetterState::Correct,
        LetterState::WrongPlace => b == crate::game::LetterState::WrongPlace,
        LetterState::Wrong => b == crate::game::LetterState::Wrong,
        LetterState::Empty => b == crate::game::LetterState::Empty,
    }
}

/// One guessed letter: its character, its position in the row, and its
/// verdict.
#[derive(Clone, Copy, Debug, PartialEq, Eq, Structural)]
pub struct Letter {
    pub id: char,
    pub position: u8,
    pub state: LetterState,
}

impl Letter {
    fn new(id: char, position: u8, state: LetterState) -> (r: Letter)
        ensures
            r.id == id,
            r.position == position,
            r.state == state,
    {
        Letter { id, position, state }
    }
}

/// A scored board row with letter positions.
pub struct WordState {
    pub letters: Vec<Letter>,
}

impl WordState {
    /// A placeholder row: five dashes at positions zero to four, none
    /// carrying a verdict.
    pub fn empty() -> (r: WordState)
        ensures
            r.letters@.len() == crate::game::WORD_LENGTH,
            forall|i: int|
                0 <= i < crate::game::WORD_LENGTH ==> #[trigger] r.letters@[i] == (Letter {
                    id: '-',
                    position: i as u8,
                    state: LetterState::Empty,
                }),
    {
        let mut letters: Vec<Letter> = Vec::new();
        let mut i: usize = 0;
        while i < crate::game::WORD_LENGTH
            invariant
                i <= crate::game::WORD_LENGTH,
                letters@.len() == i,
                forall|k: int|
                    0 <= k < i ==> #[trigger] letters@[k] == (Letter {
                        id: '-',
                        position: k as u8,
                        state: LetterState::Empty,
                    }),
            decreases crate::game::WORD_LENGTH - i,
        {
            letters.push(Letter::new('-', i as u8, LetterState::Empty));
            i = i + 1;
        }
        WordState { letters }
    }

    /// Score `guess` against `word` as the position-free scorer does,
    /// keeping each letter's position in the row.
    pub fn guess(guess: &String, word: &String) -> (r: WordState)
        requires
            guess@.len() == word@.len(),
        ensures
            r.letters@.len() == guess@.len(),
            forall|i: int|
                0 <= i < guess@.len() ==> {
                    &&& (#[trigger] r.letters@[i]).id == spec_lower(guess@[i])
                    &&& r.letters@[i].position == i as u8
                    &&& spec_same_state(r.letters@[i].state, spec_score(guess@, word@)[i])
                },
    {
        let row = crate::game::WordState::guess(guess, word);
        let n = row.letters.len();
        let mut letters: Vec<Letter> = Vec::new();
        for i in 0..n
            invariant
                n == guess@.len(),
                guess@.len() == word@.len(),
                row.letters@.len() == n,
                forall|k: int|
                    0 <= k < n ==> #[trigger] row.letters@[k] == (crate::game::Letter {
                        id: spec_lower(guess@[k]),
                        state: spec_score(guess@, word@)[k],
                    }),
                letters@.len() == i,
                forall|k: int|
                    0 <= k < i ==> {
                        &&& (#[trigger] letters@[k]).id == spec_lower(guess@[k])
                        &&& letters@[k].position == k as u8
                        &&& spec_same_state(letters@[k].state, spec_score(guess@, word@)[k])
                    },
        {
            let state = match row.letters[i].state {
                crate::game::LetterState::Correct => LetterState::Correct,
                crate::game::LetterState::WrongPlace => LetterState::WrongPlace,
                crate::game::LetterState::Wrong => LetterState::Wrong,
                crate::game::LetterState::Empty => LetterState::Empty,
            };
            letters.push(Letter::new(row.letters[i].id, i as u8, state));
            assert(spec_score_at(guess@, word@, i as int) == spec_score(guess@, word@)[i as int]);
        }
        WordState { letters }
    }
}

} // verus!
