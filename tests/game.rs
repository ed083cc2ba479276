use wordle_game::constraint::{word_matches, word_satisfies_contraint};
use wordle_game::game::{GuessError, WordleGame, MAX_GUESSES};
use wordle_game::types::GameCondition;
use wordle_game::types::LetterState::{CorrectLetter, CorrectPlacement, Incorrect};

const ANSWERS: [&str; 4] = ["crate", "salad", "hello", "slate"];
const GUESSES: [&str; 8] = ["would", "lymph", "bison", "fizzy", "skill", "dough", "nymph", "lllll"];

fn game_with(secret: &str) -> WordleGame {
    WordleGame::new(&ANSWERS, &GUESSES, secret)
}

#[test]
fn fresh_game_is_playing() {
    let game = game_with("crate");
    assert_eq!(game.game_condition(), GameCondition::Playing);
    assert_eq!(game.secret_word(), "crate");
    assert!(game.words_already_guessed().is_empty());
    assert!(game.game_state().guesses.is_empty());
    assert_eq!(MAX_GUESSES, 6);
}

#[test]
fn six_wrong_guesses_lose() {
    let mut game = game_with("crate");
    let words = ["would", "lymph", "bison", "fizzy", "skill", "dough"];
    for (i, w) in words.iter().enumerate() {
        assert_eq!(game.game_condition(), GameCondition::Playing);
        assert_eq!(game.make_guess(w), Ok(()));
        let state = game.game_state();
        assert!(state.guesses[i].iter().all(|(_, st)| *st == Incorrect));
    }
    assert_eq!(game.game_condition(), GameCondition::Loss);
    assert_eq!(game.game_state().condition, GameCondition::Loss);
    assert_eq!(game.make_guess("nymph"), Err(GuessError::GameOver));
    assert_eq!(game.game_state().guesses.len(), 6);
}

#[test]
fn guessing_the_secret_wins_at_once() {
    let mut game = game_with("salad");
    assert_eq!(game.make_guess("would"), Ok(()));
    assert_eq!(game.make_guess("slate"), Ok(()));
    assert_eq!(game.game_condition(), GameCondition::Playing);
    assert_eq!(game.make_guess("salad"), Ok(()));
    assert_eq!(game.game_condition(), GameCondition::Win);
    assert_eq!(game.make_guess("hello"), Err(GuessError::GameOver));
    assert_eq!(game.make_guess("salad"), Err(GuessError::GameOver));
    assert_eq!(game.game_state().guesses.len(), 3);
}

#[test]
fn win_on_the_last_guess_is_a_win() {
    let mut game = game_with("crate");
    for w in ["would", "lymph", "bison", "fizzy", "skill", "crate"] {
        assert_eq!(game.make_guess(w), Ok(()));
    }
    assert_eq!(game.game_condition(), GameCondition::Win);
}

#[test]
fn same_word_twice_is_already_guessed() {
    let mut game = game_with("crate");
    assert_eq!(game.make_guess("slate"), Ok(()));
    assert_eq!(game.make_guess("slate"), Err(GuessError::AlreadyGuessed));
    assert_eq!(game.game_state().guesses.len(), 1);
    assert_eq!(game.words_already_guessed(), vec!["slate".to_string()]);
}

#[test]
fn unknown_word_is_invalid() {
    let mut game = game_with("crate");
    assert_eq!(game.make_guess("qwert"), Err(GuessError::InvalidWord));
    assert_eq!(game.make_guess(""), Err(GuessError::InvalidWord));
    assert!(game.game_state().guesses.is_empty());
}

#[test]
fn invalid_word_is_reported_before_game_over() {
    let mut game = game_with("crate");
    assert_eq!(game.make_guess("crate"), Ok(()));
    assert_eq!(game.make_guess("qwert"), Err(GuessError::InvalidWord));
    assert_eq!(game.make_guess("would"), Err(GuessError::GameOver));
}

#[test]
fn guesses_are_lowercased() {
    let mut game = game_with("crate");
    assert_eq!(game.make_guess("SLATE"), Ok(()));
    assert_eq!(game.words_already_guessed(), vec!["slate".to_string()]);
    assert_eq!(game.make_guess("Slate"), Err(GuessError::AlreadyGuessed));
    assert_eq!(game.make_normalized_guess("SLATE"), Err(GuessError::InvalidWord));
}

#[test]
fn error_messages() {
    assert_eq!(GuessError::InvalidWord.message(), "Invalid word");
    assert_eq!(GuessError::GameOver.message(), "game is over");
    assert_eq!(GuessError::AlreadyGuessed.message(), "Already guessed");
}

#[test]
fn replaying_the_same_guesses_gives_the_same_condition() {
    let words = ["slate", "would", "qwert", "slate", "hello", "salad", "crate"];
    let mut a = game_with("salad");
    let mut b = game_with("salad");
    let mut ra = Vec::new();
    let mut rb = Vec::new();
    for w in words {
        ra.push(a.make_guess(w));
        rb.push(b.make_guess(w));
        assert_eq!(a.game_condition(), b.game_condition());
    }
    assert_eq!(ra, rb);
    assert_eq!(a.game_state().guesses, b.game_state().guesses);
    assert_eq!(a.game_condition(), GameCondition::Win);
}

#[test]
fn random_secret_is_an_answer() {
    for _ in 0..20 {
        let game = WordleGame::new_with_random_secret_word(&ANSWERS, &GUESSES);
        assert!(ANSWERS.contains(&game.secret_word()));
        assert_eq!(game.game_condition(), GameCondition::Playing);
    }
}

#[test]
fn letter_states_keep_the_best_score() {
    let mut game = game_with("hello");
    // "lllll" places the two middle l's and marks the others incorrect.
    assert_eq!(game.make_guess("lllll"), Ok(()));
    assert_eq!(game.make_guess("would"), Ok(()));
    let mut states = game.letter_states();
    states.sort_by_key(|(c, _)| *c);
    assert_eq!(
        states,
        vec![
            ('d', Incorrect),
            ('l', CorrectPlacement),
            ('o', CorrectLetter),
            ('u', Incorrect),
            ('w', Incorrect),
        ]
    );
}

#[test]
fn no_letters_known_before_guessing() {
    assert!(game_with("hello").letter_states().is_empty());
}

#[test]
fn secret_is_consistent_with_its_history() {
    for secret in ANSWERS {
        let mut game = game_with(secret);
        for w in ["lllll", "would", "slate", "bison"] {
            let _ = game.make_guess(w);
        }
        let state = game.game_state();
        assert!(word_matches(secret, &state));
        for g in state.guesses.iter() {
            assert!(word_satisfies_contraint(secret, g));
        }
    }
}

#[test]
fn inconsistent_word_could_not_be_the_secret() {
    let mut game = game_with("salad");
    assert_eq!(game.make_guess("slate"), Ok(()));
    let state = game.game_state();
    // "crate" fails the history, and scoring "slate" against it differs.
    assert!(!word_matches("crate", &state));
    assert_ne!(WordleGame::check_guess("slate", "crate"), state.guesses[0]);
    assert!(word_matches("salad", &state));
}

#[test]
fn submitting_the_secret_word_wins_then_game_over() {
    let mut game = game_with("hello");
    assert_eq!(game.make_guess("would"), Ok(()));
    let secret = game.secret_word().to_string();
    assert_eq!(game.make_guess(&secret), Ok(()));
    assert_eq!(game.game_condition(), GameCondition::Win);
    for w in ANSWERS.iter().chain(GUESSES.iter()) {
        assert_eq!(game.make_guess(w), Err(GuessError::GameOver));
    }
}
