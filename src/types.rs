use vstd::prelude::*;

verus! {

/// The score of one letter of a guess.
#[derive(Debug, PartialEq, Eq, Structural, Clone, Copy)]
pub enum LetterState {
    /// The letter does not appear here given the counts already known.
    Incorrect,
    /// The letter is in the secret word, but not at this position.
    CorrectLetter,
    /// The letter is in the secret word at exactly this position.
    CorrectPlacement,
}

/// One scored guess: a letter and its score for each position.
pub type Guess = Vec<(char, LetterState)>;

/// Every scored guess of one game, in the order they were made.
pub type Guesses = Vec<Guess>;

/// Where a game stands.
#[derive(Debug, Clone, Copy, PartialEq, Eq, Structural)]
pub enum GameCondition {
    Win,
    Loss,
    Playing,
}

/// A read-only look at a game: its scored guesses and its condition.
#[derive(Debug)]
pub struct WordleGameState<'a> {
    pub guesses: &'a Guesses,
    pub condition: GameCondition,
}

/// The letters of a scored guess, which spell the word that was guessed.
pub open spec fn word_of(g: Seq<(char, LetterState)>) -> Seq<char> {
    g.map_values(|p: (char, LetterState)| p.0)
}

/// Whether every character of `w` is a lowercase ASCII letter.
pub open spec fn is_lower_word(w: Seq<char>) -> bool {
    forall|i: int| 0 <= i < w.len() ==> 'a' <= #[trigger] w[i] <= 'z'
}

/// The view of a list of scored guesses.
pub open spec fn guesses_view(gs: Seq<Guess>) -> Seq<Seq<(char, LetterState)>> {
    gs.map_values(|g: Guess| g@)
}

} // verus!
