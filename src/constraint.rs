use vstd::prelude::*;
use vstd::math::min;

use crate::scoring::{
    budget, chars_of, count_char, count_in, count_marked, evaluate, is_mark,
    lemma_marked_evaluate, marked_count, misplaced_upto, placed_upto,
};
use crate::types::{guesses_view, Guess, LetterState, WordleGameState};

verus! {

/// Whether `word` could be the secret given the scored guess `g`:
/// it has at least as many copies of each marked letter as `g` marks; no more
/// copies of a letter scored incorrect somewhere than `g` marks of it; the
/// letter of each placed position; and not the letter of any other position.
pub open spec fn satisfies(word: Seq<char>, g: Seq<(char, LetterState)>) -> bool {
    &&& forall|j: int|
        0 <= j < g.len() && is_mark(#[trigger] g[j].1) ==> marked_count(g, g[j].0) <= count_in(
            word,
            g[j].0,
        )
    &&& forall|j: int|
        0 <= j < g.len() && #[trigger] g[j].1 == LetterState::Incorrect ==> count_in(word, g[j].0)
            <= marked_count(g, g[j].0)
    &&& forall|j: int|
        0 <= j < word.len() && j < g.len() ==> if (#[trigger] g[j]).1
            == LetterState::CorrectPlacement {
            word[j] == g[j].0
        } else {
            word[j] != g[j].0
        }
}

/// Whether `word` satisfies every scored guess of `history`.
pub open spec fn consistent(word: Seq<char>, history: Seq<Seq<(char, LetterState)>>) -> bool {
    forall|k: int| 0 <= k < history.len() ==> satisfies(word, #[trigger] history[k])
}

/// The history that scoring each of `guesses` against `secret` produces.
pub open spec fn history_of(guesses: Seq<Seq<char>>, secret: Seq<char>) -> Seq<
    Seq<(char, LetterState)>,
> {
    guesses.map_values(|w: Seq<char>| evaluate(w, secret))
}

/// Whether `word` satisfies the scored guess `g`.
pub fn satisfies_chars(word: &Vec<char>, g: &Guess) -> (r: bool)
    ensures
        r == satisfies(word@, g@),
{
    let mut j: usize = 0;
    while j < g.len()
        invariant
            j <= g.len(),
            forall|i: int|
                0 <= i < j && is_mark(#[trigger] g@[i].1) ==> marked_count(g@, g@[i].0)
                    <= count_in(word@, g@[i].0),
        decreases g.len() - j,
    {
        let (c, st) = g[j];
        if st == LetterState::CorrectLetter || st == LetterState::CorrectPlacement {
            if count_char(word, c) < count_marked(g, c) {
                return false;
            }
        }
        j = j + 1;
    }
    let mut j: usize = 0;
    while j < g.len()
        invariant
            j <= g.len(),
            forall|i: int|
                0 <= i < j && #[trigger] g@[i].1 == LetterState::Incorrect ==> count_in(
                    word@,
                    g@[i].0,
                ) <= marked_count(g@, g@[i].0),
        decreases g.len() - j,
    {
        let (c, st) = g[j];
        if st == LetterState::Incorrect {
            if count_char(word, c) > count_marked(g, c) {
                return false;
            }
        }
        j = j + 1;
    }
    let mut j: usize = 0;
    while j < word.len() && j < g.len()
        invariant
            j <= word.len(),
            j <= g.len(),
            forall|i: int|
                0 <= i < j ==> if (#[trigger] g@[i]).1 == LetterState::CorrectPlacement {
                    word@[i] == g@[i].0
                } else {
                    word@[i] != g@[i].0
                },
        decreases g.len() - j,
    {
        let (c, st) = g[j];
        if st == LetterState::CorrectPlacement {
            if word[j] != c {
                return false;
            }
        } else {
            if word[j] == c {
                return false;
            }
        }
        j = j + 1;
    }
    true
}

/// Whether `word` satisfies the scored guess `guess_result`.
pub fn word_satisfies_contraint(word: &str, guess_result: &Guess) -> (r: bool)
    ensures
        r == satisfies(word@, guess_result@),
{
    let w = chars_of(word);
    satisfies_chars(&w, guess_result)
}

/// Whether `word` satisfies every scored guess so far.
pub fn word_matches(word: &str, game_state: &WordleGameState) -> (r: bool)
    ensures
        r == consistent(word@, guesses_view(game_state.guesses@)),
{
    let w = chars_of(word);
    let guesses = game_state.guesses;
    let mut k: usize = 0;
    while k < guesses.len()
        invariant
            k <= guesses.len(),
            w@ == word@,
            guesses@ == game_state.guesses@,
            forall|i: int| 0 <= i < k ==> satisfies(w@, #[trigger] guesses@[i]@),
        decreases guesses.len() - k,
    {
        if !satisfies_chars(&w, &guesses[k]) {
            assert(guesses_view(guesses@)[k as int] == guesses@[k as int]@);
            return false;
        }
        k = k + 1;
    }
    assert(forall|i: int|
        0 <= i < guesses.len() ==> #[trigger] guesses_view(guesses@)[i] == guesses@[i]@);
    true
}

/// Every position that scoring marks placed holds the same letter in the guess
/// and the secret; every other position holds different letters.
pub proof fn lemma_evaluate_positions(w: Seq<char>, s: Seq<char>)
    requires
        w.len() == s.len(),
    ensures
        evaluate(w, s).len() == w.len(),
        forall|i: int|
            0 <= i < w.len() ==> ((#[trigger] evaluate(w, s)[i]).1
                == LetterState::CorrectPlacement <==> w[i] == s[i]),
{
}

/// A scored guess never marks a letter more often than the secret holds it.
pub proof fn lemma_count_conservation(w: Seq<char>, s: Seq<char>, c: char)
    requires
        w.len() == s.len(),
    ensures
        marked_count(evaluate(w, s), c) <= count_in(s, c),
{
    lemma_marked_evaluate(w, s, c);
}

proof fn lemma_misplaced_monotone(w: Seq<char>, s: Seq<char>, a: int, b: int, c: char)
    requires
        a <= b,
    ensures
        misplaced_upto(w, s, a, c) <= misplaced_upto(w, s, b, c),
    decreases b - a,
{
    if a < b {
        lemma_misplaced_monotone(w, s, a, b - 1, c);
    }
}

/// The secret satisfies the scored guess of any guess of its length.
pub proof fn lemma_secret_satisfies(w: Seq<char>, s: Seq<char>)
    requires
        w.len() == s.len(),
    ensures
        satisfies(s, evaluate(w, s)),
{
    let g = evaluate(w, s);
    assert forall|j: int| 0 <= j < g.len() && is_mark(#[trigger] g[j].1) implies marked_count(
        g,
        g[j].0,
    ) <= count_in(s, g[j].0) by {
        lemma_count_conservation(w, s, g[j].0);
    }
    assert forall|j: int| 0 <= j < g.len() && #[trigger] g[j].1 == LetterState::Incorrect implies count_in(
        s,
        g[j].0,
    ) <= marked_count(g, g[j].0) by {
        let c = w[j];
        lemma_marked_evaluate(w, s, c);
        lemma_misplaced_monotone(w, s, j + 1, w.len() as int, c);
        assert(misplaced_upto(w, s, j + 1, c) == misplaced_upto(w, s, j, c) + 1);
    }
}

/// Consistency: the secret is consistent with any history made by scoring
/// guesses of its length against it.
pub proof fn lemma_secret_consistent(secret: Seq<char>, guesses: Seq<Seq<char>>)
    requires
        forall|k: int| 0 <= k < guesses.len() ==> (#[trigger] guesses[k]).len() == secret.len(),
    ensures
        consistent(secret, history_of(guesses, secret)),
{
    let h = history_of(guesses, secret);
    assert forall|k: int| 0 <= k < h.len() implies satisfies(secret, #[trigger] h[k]) by {
        lemma_secret_satisfies(guesses[k], secret);
    }
}

/// Exclusion: a word that is not consistent with a history cannot have been
/// the secret that produced it, whatever guesses of its length were scored.
pub proof fn lemma_inconsistent_excluded(
    word: Seq<char>,
    history: Seq<Seq<(char, LetterState)>>,
    guesses: Seq<Seq<char>>,
)
    requires
        !consistent(word, history),
        forall|k: int| 0 <= k < guesses.len() ==> (#[trigger] guesses[k]).len() == word.len(),
    ensures
        history != history_of(guesses, word),
{
    lemma_secret_consistent(word, guesses);
}

} // verus!
