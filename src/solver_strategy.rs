use vstd::prelude::*;

use crate::constraint::{consistent, history_of, lemma_secret_consistent, satisfies, word_matches};
use crate::game::{is_win, lemma_accepted_len, strings_view, GameView};
use crate::scoring::evaluate;
use crate::types::{guesses_view, word_of, GameCondition, LetterState, WordleGameState};

pub mod narrowing_random;

verus! {

/// A policy that proposes the next guess of a game.
pub trait SolverStrategy {
    /// Whether the strategy may still propose `w`.
    spec fn may_propose(&self, w: Seq<char>) -> bool;

    /// How many more words the strategy may propose.
    spec fn pool_size(&self) -> nat;

    /// The next word to guess. Some word that the strategy may propose must
    /// be consistent with the game so far; the word returned is such a word.
    /// Each call shrinks what is left to propose. Afterwards the strategy may
    /// propose no word it could not before, and still may propose every
    /// consistent word other than the one returned.
    fn next_guess(&mut self, game_state: &WordleGameState) -> (r: String)
        requires
            exists|w: Seq<char>|
                old(self).may_propose(w) && consistent(w, guesses_view(game_state.guesses@)),
        ensures
            final(self).pool_size() < old(self).pool_size(),
            old(self).may_propose(r@),
            consistent(r@, guesses_view(game_state.guesses@)),
            forall|w: Seq<char>| #[trigger] final(self).may_propose(w) ==> old(self).may_propose(w),
            forall|w: Seq<char>|
                old(self).may_propose(w) && consistent(w, guesses_view(game_state.guesses@)) && w
                    != r@ ==> #[trigger] final(self).may_propose(w),
    ;
}

/// The words of `words` that are consistent with `history`, in order.
pub open spec fn candidates_of(
    words: Seq<Seq<char>>,
    history: Seq<Seq<(char, LetterState)>>,
) -> Seq<Seq<char>> {
    words.filter(|w: Seq<char>| consistent(w, history))
}

/// The words of `words` that are consistent with every scored guess so far,
/// in order.
pub fn remaining_candidates(words: &Vec<String>, game_state: &WordleGameState) -> (r: Vec<
    String,
>)
    ensures
        strings_view(r@) == candidates_of(strings_view(words@), guesses_view(game_state.guesses@)),
{
    let ghost history = guesses_view(game_state.guesses@);
    let ghost pred = |w: Seq<char>| consistent(w, history);
    let mut r: Vec<String> = Vec::new();
    let mut i: usize = 0;
    while i < words.len()
        invariant
            i <= words.len(),
            history == guesses_view(game_state.guesses@),
            pred == (|w: Seq<char>| consistent(w, history)),
            strings_view(r@) == strings_view(words@.subrange(0, i as int)).filter(pred),
        decreases words.len() - i,
    {
        let keep = word_matches(words[i].as_str(), game_state);
        proof {
            let before = strings_view(words@.subrange(0, i as int));
            let after = strings_view(words@.subrange(0, i as int + 1));
            assert(after.drop_last() =~= before);
            assert(after.last() == words@[i as int]@);
            reveal(Seq::filter);
        }
        if keep {
            r.push(words[i].clone());
            assert(strings_view(r@) =~= strings_view(
                words@.subrange(0, i as int),
            ).filter(pred).push(words@[i as int]@));
        }
        i = i + 1;
    }
    assert(words@.subrange(0, words@.len() as int) =~= words@);
    r
}

/// The candidates of a pool are words of the pool, and a pool without
/// repeated words gives candidates without repeated words.
pub proof fn lemma_candidates_within(words: Seq<Seq<char>>, history: Seq<Seq<(char, LetterState)>>)
    ensures
        forall|x: Seq<char>| #[trigger]
            candidates_of(words, history).contains(x) ==> words.contains(x),
        words.no_duplicates() ==> candidates_of(words, history).no_duplicates(),
    decreases words.len(),
{
    reveal(Seq::filter);
    if words.len() > 0 {
        let rest = words.drop_last();
        lemma_candidates_within(rest, history);
        let c0 = candidates_of(rest, history);
        let c = candidates_of(words, history);
        assert forall|x: Seq<char>| #[trigger] c.contains(x) implies words.contains(x) by {
            let i = choose|i: int| 0 <= i < c.len() && c[i] == x;
            if i < c0.len() {
                assert(c0[i] == x);
                assert(c0.contains(x));
                let j = choose|j: int| 0 <= j < rest.len() && rest[j] == x;
                assert(words[j] == x);
            } else {
                assert(words[words.len() - 1] == x);
            }
        }
        if words.no_duplicates() {
            assert(rest.no_duplicates());
            assert(!c0.contains(words.last())) by {
                if c0.contains(words.last()) {
                    let j = choose|j: int| 0 <= j < rest.len() && rest[j] == words.last();
                    assert(words[j] == words[words.len() - 1]);
                }
            }
        }
    }
}

/// In a game that is still playing, a word the game accepts and that is
/// consistent with the history has not been guessed: a guessed word other
/// than the secret is excluded by its own score.
pub proof fn lemma_consistent_word_is_new(g: GameView, w: Seq<char>)
    requires
        g.wf(),
        g.condition() == GameCondition::Playing,
        g.accepts(w),
        consistent(w, g.history),
    ensures
        !g.guessed_words().contains(w),
{
    if g.guessed_words().contains(w) {
        let k = choose|k: int| 0 <= k < g.guessed_words().len() && g.guessed_words()[k] == w;
        lemma_accepted_len(g, w);
        let h = g.history[k];
        assert(word_of(h) == w);
        assert(h == evaluate(w, g.secret));
        assert(satisfies(w, h));
        assert forall|j: int| 0 <= j < h.len() implies (#[trigger] h[j]).1
            == LetterState::CorrectPlacement by {
            assert(h[j].0 == w[j]);
        }
        assert(is_win(h));
    }
}

/// In a game kept by the rules, the secret is consistent with the history.
pub proof fn lemma_secret_consistent_in_game(g: GameView)
    requires
        g.wf(),
    ensures
        consistent(g.secret, g.history),
{
    let words = g.guessed_words();
    assert forall|k: int| 0 <= k < words.len() implies (#[trigger] words[k]).len()
        == g.secret.len() by {
        lemma_accepted_len(g, word_of(g.history[k]));
    }
    assert(history_of(words, g.secret) =~= g.history);
    lemma_secret_consistent(g.secret, words);
}

/// In a game kept by the rules, the secret is always among the candidates of
/// any pool that holds it: narrowing never drops it.
pub proof fn lemma_secret_is_candidate(pool: Seq<Seq<char>>, g: GameView)
    requires
        g.wf(),
        pool.contains(g.secret),
    ensures
        candidates_of(pool, g.history).contains(g.secret),
{
    lemma_secret_consistent_in_game(g);
    let i = choose|i: int| 0 <= i < pool.len() && pool[i] == g.secret;
    pool.lemma_filter_contains(|w: Seq<char>| consistent(w, g.history), i);
}

} // verus!
