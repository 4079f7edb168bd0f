use wordle::game::Game;
use wordle::registry::{GameError, Registry};
use wordle::storage::{load, save};
use wordle::words::WordList;

fn vocab(words: &[&str]) -> WordList {
    WordList::new(words.iter().map(|w| w.to_string()).collect())
}

#[test]
fn word_list_keeps_only_well_formed_words() {
    let words = vocab(&["crane", "toolong", "CRANE", "ab1de", "slate", "arcs"]);
    assert_eq!(words.len(), 2);
    assert!(words.contains(&"crane".to_string()));
    assert!(words.contains(&"slate".to_string()));
    assert!(!words.contains(&"CRANE".to_string()));
    assert!(!words.contains(&"toolong".to_string()));
}

#[test]
fn create_on_empty_vocabulary_fails_and_inserts_nothing() {
    let mut registry = Registry::new();
    let empty = vocab(&[]);
    assert_eq!(registry.create_game(&empty), Err(GameError::EmptyVocabulary));
    assert_eq!(registry.len(), 0);
    assert!(registry.list_games().is_empty());
}

#[test]
fn create_picks_a_vocabulary_word() {
    let mut registry = Registry::new();
    let words = vocab(&["crane"]);
    let id = registry.create_game(&words).unwrap();
    assert_eq!(registry.len(), 1);
    let game = registry.get(id).unwrap();
    assert_eq!(game.id, id);
    assert_eq!(game.word, "crane".to_string());
    assert!(game.guesses.is_empty());
}

#[test]
fn unknown_game_is_a_not_found_outcome() {
    let mut registry = Registry::new();
    let words = vocab(&["crane"]);
    assert!(registry.get(7).is_none());
    assert!(registry.get_game(7).is_none());
    let r = registry.submit_guess(7, &"crane".to_string(), &words);
    assert_eq!(r.err(), Some(GameError::NotFound));
}

#[test]
fn guess_validation_errors_leave_the_game_unchanged() {
    let mut registry = Registry::new();
    let words = vocab(&["final", "crane", "slate"]);
    registry.create_game_with(9, "final".to_string(), 100);

    let r = registry.submit_guess(9, &"abc".to_string(), &words);
    assert_eq!(r.err(), Some(GameError::InvalidGuessLength));

    let r = registry.submit_guess(9, &"zzzzz".to_string(), &words);
    assert_eq!(r.err(), Some(GameError::NotAWord));

    assert!(registry.get(9).unwrap().guesses.is_empty());
}

#[test]
fn completed_game_rejects_further_guesses() {
    let mut registry = Registry::new();
    let words = vocab(&["final", "crane"]);
    registry.create_game_with(9, "final".to_string(), 100);
    let view = registry.submit_guess(9, &"final".to_string(), &words).unwrap();
    assert!(view.victory && view.complete);
    // Completion is monotone: a further guess is refused and changes nothing.
    let r = registry.submit_guess(9, &"crane".to_string(), &words);
    assert_eq!(r.err(), Some(GameError::GameAlreadyComplete));
    let game = registry.get(9).unwrap();
    assert!(game.is_complete());
    assert_eq!(game.guesses.len(), 1);
}

#[test]
fn six_misses_lose_the_game() {
    let mut registry = Registry::new();
    let words = vocab(&["final", "crane", "pilot", "husky", "badge", "epoxy", "wrong"]);
    registry.create_game_with(3, "final".to_string(), 100);
    for guess in ["crane", "pilot", "husky", "badge", "epoxy"] {
        let view = registry.submit_guess(3, &guess.to_string(), &words).unwrap();
        assert!(!view.complete);
    }
    let view = registry.submit_guess(3, &"wrong".to_string(), &words).unwrap();
    assert!(view.loss && view.complete && !view.victory);
    assert_eq!(view.word, Some("final".to_string()));
}

#[test]
fn listing_is_most_recent_first() {
    let mut registry = Registry::new();
    registry.create_game_with(1, "crane".to_string(), 10);
    registry.create_game_with(2, "slate".to_string(), 30);
    registry.create_game_with(3, "final".to_string(), 20);
    let rows = registry.list_games();
    assert_eq!(rows.len(), 3);
    assert_eq!(rows[0].created, 30);
    assert_eq!(rows[1].created, 20);
    assert_eq!(rows[2].created, 10);
    assert_eq!(rows[0].id, 2);
    // An unfinished game shows neither its target nor a last guess.
    assert_eq!(rows[0].word, None);
    assert_eq!(rows[0].last_guess, None);
    assert_eq!(rows[0].guess_count, 0);
}

#[test]
fn reinserting_an_identity_replaces_the_game() {
    let mut registry = Registry::new();
    registry.create_game_with(5, "crane".to_string(), 10);
    registry.create_game_with(5, "slate".to_string(), 20);
    assert_eq!(registry.len(), 1);
    assert_eq!(registry.get(5).unwrap().word, "slate".to_string());
}

#[test]
fn save_writes_the_documented_record_layout() {
    let game = Game::new(1, "crane".to_string(), 2);
    let mut games = vec![game];
    games[0].add_guess("slate".to_string());
    let bytes = save(&games);
    let expected = format!(
        "{}{}{}{}{}{}",
        "0".repeat(31),
        "1crane",
        "0".repeat(15),
        "2",
        "1slate",
        "\n"
    );
    assert_eq!(bytes, expected.into_bytes());
}

#[test]
fn save_then_load_round_trips_a_snapshot() {
    let mut registry = Registry::new();
    registry.create_game_with(u128::MAX - 3, "crane".to_string(), 77);
    registry.create_game_with(12, "slate".to_string(), 1_700_000_000);
    let words = vocab(&["crane", "slate", "tabby", "walls"]);
    registry.submit_guess(12, &"tabby".to_string(), &words).unwrap();
    registry.submit_guess(12, &"slate".to_string(), &words).unwrap();

    let snapshot = registry.snapshot();
    let bytes = save(&snapshot);
    let restored = load(&bytes, 9_999).unwrap();

    assert_eq!(restored.games.len(), snapshot.len());
    for (a, b) in snapshot.iter().zip(restored.games.iter()) {
        assert_eq!(a.id, b.id);
        assert_eq!(a.word, b.word);
        assert_eq!(a.guesses, b.guesses);
        assert_eq!(a.created, b.created);
    }

    let rebuilt = Registry::from_games(restored.games);
    assert_eq!(rebuilt.len(), 2);
    assert_eq!(rebuilt.get(12).unwrap().guesses.len(), 2);
}

#[test]
fn load_backfills_a_missing_creation_time() {
    let mut doc = String::new();
    doc.push_str(&"0".repeat(32));
    doc.push_str("crane");
    doc.push('-');
    doc.push('0');
    doc.push('\n');
    let restored = load(&doc.into_bytes(), 42).unwrap();
    assert_eq!(restored.games.len(), 1);
    assert_eq!(restored.games[0].word, "crane".to_string());
    assert_eq!(restored.games[0].created, 42);
    assert!(restored.games[0].guesses.is_empty());
}

#[test]
fn load_reports_a_corrupt_document() {
    let junk = b"this is not a save file".to_vec();
    assert_eq!(load(&junk, 0).err(), Some(GameError::PersistenceFailure));
    // A truncated record is corrupt too.
    let mut doc = String::new();
    doc.push_str(&"0".repeat(32));
    doc.push_str("crane");
    assert_eq!(
        load(&doc.into_bytes(), 0).err(),
        Some(GameError::PersistenceFailure)
    );
    // The empty document is the empty snapshot, not an error.
    assert!(load(&Vec::new(), 0).unwrap().games.is_empty());
}
