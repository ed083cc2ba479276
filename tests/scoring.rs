use wordle_game::game::WordleGame;
use wordle_game::types::LetterState::{CorrectLetter, CorrectPlacement, Incorrect};
use wordle_game::types::{Guess, LetterState};

#[test]
fn repeated_correct_letter_picks_first() {
    let guess = "slate";
    let secret = "salad";
    let expected_result = vec![
        ('s', CorrectPlacement),
        ('l', CorrectLetter),
        ('a', CorrectLetter),
        ('t', Incorrect),
        ('e', Incorrect),
    ];
    assert_eq!(WordleGame::check_guess(guess, secret), expected_result)
}

#[test]
fn all_incorrect() {
    let guess = "would";
    let secret = "crate";
    let expected_result = vec![
        ('w', Incorrect),
        ('o', Incorrect),
        ('u', Incorrect),
        ('l', Incorrect),
        ('d', Incorrect),
    ];
    assert_eq!(WordleGame::check_guess(guess, secret), expected_result)
}

#[test]
fn all_correct_placement() {
    let guess = "slate";
    let secret = "slate";
    let expected_result = vec![
        ('s', CorrectPlacement),
        ('l', CorrectPlacement),
        ('a', CorrectPlacement),
        ('t', CorrectPlacement),
        ('e', CorrectPlacement),
    ];
    assert_eq!(WordleGame::check_guess(guess, secret), expected_result)
}

#[test]
fn all_correct_letter() {
    let guess = "tares";
    let secret = "stare";
    let expected_result = vec![
        ('t', CorrectLetter),
        ('a', CorrectLetter),
        ('r', CorrectLetter),
        ('e', CorrectLetter),
        ('s', CorrectLetter),
    ];
    assert_eq!(WordleGame::check_guess(guess, secret), expected_result)
}

#[test]
fn correct_placement_captures_letters() {
    let guess = "lllll";
    let secret = "hello";
    let expected_result = vec![
        ('l', Incorrect),
        ('l', Incorrect),
        ('l', CorrectPlacement),
        ('l', CorrectPlacement),
        ('l', Incorrect),
    ];
    assert_eq!(WordleGame::check_guess(guess, secret), expected_result)
}

#[test]
fn correct_placement_and_correct_letter() {
    let guess = "llzll";
    let secret = "hello";
    let expected_result = vec![
        ('l', CorrectLetter),
        ('l', Incorrect),
        ('z', Incorrect),
        ('l', CorrectPlacement),
        ('l', Incorrect),
    ];
    assert_eq!(WordleGame::check_guess(guess, secret), expected_result)
}

#[test]
fn earliest_misplaced_copy_takes_the_budget() {
    // The secret has one e; the first misplaced e gets it.
    let expected_result = vec![
        ('e', CorrectLetter),
        ('e', Incorrect),
        ('x', Incorrect),
        ('x', Incorrect),
        ('x', Incorrect),
    ];
    assert_eq!(WordleGame::check_guess("eexxx", "abcde"), expected_result);
}

#[test]
fn empty_words_score_empty() {
    assert_eq!(WordleGame::check_guess("", ""), Vec::<(char, LetterState)>::new());
}

fn marks_of(g: &Guess, c: char) -> usize {
    g.iter()
        .filter(|(l, st)| *l == c && (*st == CorrectLetter || *st == CorrectPlacement))
        .count()
}

#[test]
fn placed_positions_match_and_others_differ() {
    let pairs = [("slate", "salad"), ("lllll", "hello"), ("tares", "stare"), ("abbey", "babes")];
    for (guess, secret) in pairs {
        let g = WordleGame::check_guess(guess, secret);
        for (i, ((c, st), s)) in g.iter().zip(secret.chars()).enumerate() {
            assert_eq!(*c, guess.chars().nth(i).unwrap());
            assert_eq!(*st == CorrectPlacement, *c == s);
        }
    }
}

#[test]
fn marks_never_exceed_the_secret_count() {
    let pairs = [("lllll", "hello"), ("eeeee", "geese"), ("abbey", "babes"), ("llzll", "hello")];
    for (guess, secret) in pairs {
        let g = WordleGame::check_guess(guess, secret);
        for c in guess.chars() {
            assert!(marks_of(&g, c) <= secret.chars().filter(|x| *x == c).count());
        }
    }
    let g = WordleGame::check_guess("eeeee", "geese");
    assert_eq!(marks_of(&g, 'e'), 3);
}
