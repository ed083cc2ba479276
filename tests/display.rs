use wordle_game::display::{guess_colors, letter_state_class};
use wordle_game::game::WordleGame;
use wordle_game::types::LetterState;

#[test]
fn guess_row_of_tiles() {
    let g = WordleGame::check_guess("slate", "salad");
    assert_eq!(guess_colors(&g), "\u{1F7E9}\u{1F7E8}\u{1F7E8}\u{2B1B}\u{FE0F}\u{2B1B}\u{FE0F}");
    assert_eq!(guess_colors(&Vec::new()), "");
}

#[test]
fn tile_classes() {
    assert_eq!(letter_state_class(&LetterState::Incorrect), "incorrect");
    assert_eq!(letter_state_class(&LetterState::CorrectLetter), "correct-letter");
    assert_eq!(letter_state_class(&LetterState::CorrectPlacement), "correct-placement");
}
