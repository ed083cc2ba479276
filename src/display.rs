use vstd::prelude::*;

use crate::support::push_char;
use crate::types::{Guess, LetterState};

verus! {

/// The coloured tile that shows a score: green for placed, yellow for
/// misplaced, black for incorrect.
pub open spec fn tile(st: LetterState) -> Seq<char> {
    match st {
        LetterState::CorrectPlacement => seq!['\u{1F7E9}'],
        LetterState::CorrectLetter => seq!['\u{1F7E8}'],
        LetterState::Incorrect => seq!['\u{2B1B}', '\u{FE0F}'],
    }
}

/// The tiles of a scored guess, one after another.
pub open spec fn tiles(g: Seq<(char, LetterState)>) -> Seq<char>
    decreases g.len(),
{
    if g.len() == 0 {
        Seq::empty()
    } else {
        tiles(g.drop_last()) + tile(g.last().1)
    }
}

/// A scored guess as a row of coloured tiles.
pub fn guess_colors(letter_results: &Guess) -> (r: String)
    ensures
        r@ == tiles(letter_results@),
{
    let mut r = String::new();
    let mut i: usize = 0;
    while i < letter_results.len()
        invariant
            i <= letter_results.len(),
            r@ == tiles(letter_results@.subrange(0, i as int)),
        decreases letter_results.len() - i,
    {
        let ghost before = r@;
        let st = letter_results[i].1;
        match st {
            LetterState::CorrectPlacement => push_char(&mut r, '\u{1F7E9}'),
            LetterState::CorrectLetter => push_char(&mut r, '\u{1F7E8}'),
            LetterState::Incorrect => {
                push_char(&mut r, '\u{2B1B}');
                push_char(&mut r, '\u{FE0F}');
            },
        }
        proof {
            let next = letter_results@.subrange(0, i as int + 1);
            assert(next.drop_last() =~= letter_results@.subrange(0, i as int));
            assert(r@ =~= before + tile(st));
        }
        i = i + 1;
    }
    assert(letter_results@.subrange(0, letter_results@.len() as int) =~= letter_results@);
    r
}

/// The style class of a tile with the given score.
pub open spec fn class_of(st: LetterState) -> Seq<char> {
    match st {
        LetterState::Incorrect => "incorrect"@,
        LetterState::CorrectLetter => "correct-letter"@,
        LetterState::CorrectPlacement => "correct-placement"@,
    }
}

/// The style class of a tile with the given score.
pub fn letter_state_class(state: &LetterState) -> (r: &'static str)
    ensures
        r@ == class_of(*state),
{
    match state {
        LetterState::Incorrect => "incorrect",
        LetterState::CorrectLetter => "correct-letter",
        LetterState::CorrectPlacement => "correct-placement",
    }
}

} // verus!
