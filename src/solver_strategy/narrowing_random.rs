use vstd::prelude::*;

use crate::constraint::consistent;
use crate::game::{strings_view, strs_view, to_strings};
use crate::solver_strategy::{
    candidates_of, lemma_candidates_within, remaining_candidates, SolverStrategy,
};
use crate::support::choose_one;
use crate::types::{guesses_view, WordleGameState};

verus! {

/// The index of an entry of `words` equal to `w`, which must be there.
fn index_of(words: &Vec<String>, w: &String) -> (r: usize)
    requires
        exists|i: int| 0 <= i < words@.len() && words@[i] == *w,
    ensures
        r < words@.len(),
        words@[r as int]@ == w@,
{
    let mut i: usize = 0;
    while i < words.len()
        invariant
            i <= words.len(),
            forall|j: int| 0 <= j < i ==> (#[trigger] words@[j])@ != w@,
            exists|j: int| 0 <= j < words@.len() && words@[j] == *w,
        decreases words.len() - i,
    {
        if words[i] == *w {
            return i;
        }
        i = i + 1;
    }
    proof {
        let j = choose|j: int| 0 <= j < words@.len() && words@[j] == *w;
        assert(words@[j]@ == w@);
    }
    0
}

/// A strategy that keeps a pool of distinct words, narrows it to the words
/// consistent with the game so far, and proposes one of those at random.
pub struct NarrowingRandomWordleSolver {
    dictionary: Vec<String>,
}

impl NarrowingRandomWordleSolver {
    /// The words the strategy may still propose.
    pub closed spec fn pool(&self) -> Seq<Seq<char>> {
        strings_view(self.dictionary@)
    }

    /// The pool holds no word twice.
    #[verifier::type_invariant]
    spec fn pool_distinct(&self) -> bool {
        self.pool().no_duplicates()
    }

    /// A strategy whose pool is every word of `dictionary`, which holds no
    /// word twice.
    pub fn new(dictionary: &[&str]) -> (r: Self)
        requires
            strs_view(dictionary@).no_duplicates(),
        ensures
            r.pool() == strs_view(dictionary@),
            r.pool().no_duplicates(),
    {
        NarrowingRandomWordleSolver { dictionary: to_strings(dictionary) }
    }

    /// Narrows the pool to the words consistent with the game so far and
    /// draws one of them, which leaves the pool: it is either accepted, and
    /// then no longer consistent unless it won, or turned down for good, so
    /// proposing it again could only be turned down again. `None` when no
    /// word of the pool is consistent.
    pub fn pick_candidate(&mut self, game_state: &WordleGameState) -> (r: Option<String>)
        ensures
            ({
                let cands = candidates_of(old(self).pool(), guesses_view(game_state.guesses@));
                &&& r is None <==> cands.len() == 0
                &&& r is None ==> final(self).pool() == cands
                &&& r matches Some(w) ==> exists|i: int|
                    0 <= i < cands.len() && cands[i] == w@ && final(self).pool() == cands.remove(
                        i,
                    )
                &&& final(self).pool().no_duplicates()
            }),
    {
        proof {
            use_type_invariant(&*self);
            lemma_candidates_within(
                strings_view(self.dictionary@),
                guesses_view(game_state.guesses@),
            );
        }
        let mut candidates = remaining_candidates(&self.dictionary, game_state);
        let picked = match choose_one(candidates.as_slice()) {
            None => {
                self.dictionary = candidates;
                return None;
            },
            Some(w) => w.clone(),
        };
        let i = index_of(&candidates, &picked);
        let ghost before = strings_view(candidates@);
        let word = candidates.remove(i);
        proof {
            assert(strings_view(candidates@) =~= before.remove(i as int));
            assert(before[i as int] == word@);
            let after = strings_view(candidates@);
            assert forall|a: int, b: int|
                0 <= a < after.len() && 0 <= b < after.len() && a != b implies after[a]
                != after[b] by {
                let a0 = if a < i { a } else { a + 1 };
                let b0 = if b < i { b } else { b + 1 };
                assert(after[a] == before[a0] && after[b] == before[b0]);
            }
        }
        self.dictionary = candidates;
        Some(word)
    }
}

impl SolverStrategy for NarrowingRandomWordleSolver {
    open spec fn may_propose(&self, w: Seq<char>) -> bool {
        self.pool().contains(w)
    }

    open spec fn pool_size(&self) -> nat {
        self.pool().len()
    }

    fn next_guess(&mut self, game_state: &WordleGameState) -> (r: String) {
        let ghost before = self.pool();
        let ghost history = guesses_view(game_state.guesses@);
        let ghost cands = candidates_of(before, history);
        proof {
            let w = choose|w: Seq<char>| before.contains(w) && consistent(w, history);
            let j = choose|j: int| 0 <= j < before.len() && before[j] == w;
            before.lemma_filter_contains(|x: Seq<char>| consistent(x, history), j);
        }
        let word = self.pick_candidate(game_state).unwrap();
        proof {
            lemma_candidates_within(before, history);
            let i = choose|i: int|
                0 <= i < cands.len() && cands[i] == word@ && self.pool() == cands.remove(i);
            before.lemma_filter_pred(|x: Seq<char>| consistent(x, history), i);
            before.lemma_filter_len(|x: Seq<char>| consistent(x, history));
            assert(cands.contains(word@));
            assert forall|w: Seq<char>| #[trigger] self.may_propose(w) implies before.contains(w) by {
                let k = choose|k: int| 0 <= k < self.pool().len() && self.pool()[k] == w;
                if k < i {
                    assert(cands[k] == w);
                } else {
                    assert(cands[k + 1] == w);
                }
                assert(cands.contains(w));
            }
            assert forall|w: Seq<char>|
                before.contains(w) && #[trigger] consistent(w, history) && w != word@ implies self.may_propose(w) by {
                let j = choose|j: int| 0 <= j < before.len() && before[j] == w;
                before.lemma_filter_contains(|x: Seq<char>| consistent(x, history), j);
                let k = choose|k: int| 0 <= k < cands.len() && cands[k] == w;
                if k < i {
                    assert(self.pool()[k] == w);
                } else {
                    assert(self.pool()[k - 1] == w);
                }
            }
        }
        word
    }
}

} // verus!
