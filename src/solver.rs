use vstd::prelude::*;

use crate::game::{
    is_win, lemma_accepted_len, lemma_secret_wins, lemma_win_iff_secret, strs_view, GameView,
    WordleGame, MAX_GUESSES,
};
use crate::solver_strategy::narrowing_random::NarrowingRandomWordleSolver;
use crate::solver_strategy::{lemma_secret_consistent_in_game, SolverStrategy};
use crate::types::{is_lower_word, word_of, GameCondition};

verus! {

/// The outcome of one game played by a strategy.
#[derive(Debug)]
pub struct WordleGameScore {
    pub num_guesses: usize,
    pub result: GameCondition,
}

/// A game together with the strategy that plays it.
pub struct WordleSolver<S: SolverStrategy> {
    game: WordleGame,
    strategy: S,
}

impl<S: SolverStrategy> WordleSolver<S> {
    /// The game being played.
    pub closed spec fn game_view(&self) -> GameView {
        self.game@
    }

    /// The strategy playing it.
    pub closed spec fn strategy(&self) -> S {
        self.strategy
    }

    pub fn new(game: WordleGame, strategy: S) -> (r: Self)
        ensures
            r.game_view() == game@,
            r.strategy() == strategy,
    {
        WordleSolver { game, strategy }
    }

    /// The game being played.
    pub fn game(&self) -> (r: &WordleGame)
        ensures
            r@ == self.game_view(),
    {
        &self.game
    }

    /// Plays the game to its end: asks the strategy for a guess and submits it
    /// as it is; a guess the game turns down is passed over, not counted, and
    /// the strategy is asked again. While the game is playing the strategy
    /// must hold the secret, so it never runs out of words. Returns the number
    /// of guesses and the final condition; a game that is already over is left
    /// as it is, strategy included.
    pub fn run_game(&mut self) -> (r: WordleGameScore)
        requires
            old(self).game_view().wf(),
            old(self).game_view().condition() == GameCondition::Playing ==> old(
                self,
            ).strategy().may_propose(old(self).game_view().secret),
        ensures
            final(self).game_view().wf(),
            final(self).game_view().secret == old(self).game_view().secret,
            final(self).game_view().answers == old(self).game_view().answers,
            final(self).game_view().valid_guesses == old(self).game_view().valid_guesses,
            old(self).game_view().history.is_prefix_of(final(self).game_view().history),
            r.result == final(self).game_view().condition(),
            r.result != GameCondition::Playing,
            r.num_guesses == final(self).game_view().history.len(),
            r.num_guesses <= MAX_GUESSES,
            r.result == GameCondition::Win ==> r.num_guesses >= 1,
            r.result == GameCondition::Loss ==> r.num_guesses == MAX_GUESSES,
            forall|k: int|
                old(self).game_view().history.len() <= k < final(self).game_view().history.len()
                    ==> old(self).strategy().may_propose(
                    word_of(#[trigger] final(self).game_view().history[k]),
                ),
            old(self).game_view().condition() != GameCondition::Playing ==> final(self).game_view()
                == old(self).game_view() && final(self).strategy() == old(self).strategy(),
    {
        let ghost start = self.game@;
        let ghost first = self.strategy;
        loop
            invariant
                start == old(self).game_view(),
                first == old(self).strategy(),
                self.game@.wf(),
                self.game@.secret == start.secret,
                self.game@.answers == start.answers,
                self.game@.valid_guesses == start.valid_guesses,
                start.history.is_prefix_of(self.game@.history),
                forall|w: Seq<char>| #[trigger] self.strategy.may_propose(w) ==> first.may_propose(w),
                self.game@.condition() == GameCondition::Playing ==> self.strategy.may_propose(
                    start.secret,
                ),
                forall|k: int|
                    start.history.len() <= k < self.game@.history.len() ==> first.may_propose(
                        word_of(#[trigger] self.game@.history[k]),
                    ),
                start.condition() != GameCondition::Playing ==> self.game@ == start
                    && self.strategy == first,
            decreases self.strategy.pool_size(),
        {
            let state = self.game.game_state();
            if state.condition != GameCondition::Playing {
                proof {
                    if self.game@.condition() == GameCondition::Win {
                        let k = choose|k: int|
                            0 <= k < self.game@.history.len() && is_win(self.game@.history[k]);
                    }
                }
                return WordleGameScore { num_guesses: state.guesses.len(), result: state.condition };
            }
            proof {
                lemma_secret_consistent_in_game(self.game@);
                assert(self.strategy.may_propose(start.secret));
            }
            let guess = self.strategy.next_guess(&state);
            let ghost before = self.game@;
            proof {
                assert(first.may_propose(guess@));
                // Names the strategy's new state so that its contract speaks of
                // the secret.
                let kept = self.strategy.may_propose(start.secret);
                assert(guess@ == start.secret || kept);
                // Submitting the secret is taken and wins.
                if guess@ == start.secret {
                    lemma_secret_wins(before);
                }
            }
            match self.game.make_normalized_guess(guess.as_str()) {
                Err(_) => {
                    // Turned down: ask the strategy again.
                },
                Ok(()) => {
                    proof {
                        let after = self.game@;
                        lemma_accepted_len(before, guess@);
                        lemma_win_iff_secret(guess@, start.secret);
                        assert(word_of(after.history[after.history.len() - 1]) == guess@);
                        assert forall|k: int| 0 <= k < start.history.len() implies #[trigger]
                            after.history[k] == start.history[k] by {
                            assert(before.history[k] == start.history[k]);
                        }
                        assert forall|k: int|
                            start.history.len() <= k < after.history.len() implies first.may_propose(
                            word_of(#[trigger] after.history[k]),
                        ) by {
                            if k < after.history.len() - 1 {
                                assert(after.history[k] == before.history[k]);
                            }
                        }
                    }
                },
            }
        }
    }
}

/// What a batch of games came to.
#[derive(Debug)]
pub struct BatchSummary {
    pub games: usize,
    pub win_total: usize,
    pub total_guesses: u64,
}

/// How many of `scores` are wins.
pub open spec fn win_count(scores: Seq<WordleGameScore>) -> nat
    decreases scores.len(),
{
    if scores.len() == 0 {
        0
    } else {
        win_count(scores.drop_last()) + if scores.last().result == GameCondition::Win {
            1nat
        } else {
            0nat
        }
    }
}

/// The sum of the guesses of `scores`.
pub open spec fn guess_total(scores: Seq<WordleGameScore>) -> nat
    decreases scores.len(),
{
    if scores.len() == 0 {
        0
    } else {
        guess_total(scores.drop_last()) + scores.last().num_guesses as nat
    }
}

/// Counts the wins and adds up the guesses of `scores`, each of which took
/// at most the allowed number of guesses.
pub fn summarize(scores: &Vec<WordleGameScore>) -> (r: BatchSummary)
    requires
        forall|i: int| 0 <= i < scores@.len() ==> (#[trigger] scores@[i]).num_guesses <= MAX_GUESSES,
        scores@.len() * MAX_GUESSES <= u64::MAX,
    ensures
        r.games == scores@.len(),
        r.win_total == win_count(scores@),
        r.total_guesses == guess_total(scores@),
{
    let mut win_total: usize = 0;
    let mut total_guesses: u64 = 0;
    let mut i: usize = 0;
    while i < scores.len()
        invariant
            i <= scores.len(),
            forall|j: int| 0 <= j < scores@.len() ==> (#[trigger] scores@[j]).num_guesses <= MAX_GUESSES,
            scores@.len() * MAX_GUESSES <= u64::MAX,
            win_total == win_count(scores@.subrange(0, i as int)),
            total_guesses == guess_total(scores@.subrange(0, i as int)),
            win_total <= i,
            total_guesses <= i * MAX_GUESSES,
        decreases scores.len() - i,
    {
        proof {
            assert(scores@.subrange(0, i as int + 1).drop_last() =~= scores@.subrange(0, i as int));
        }
        if scores[i].result == GameCondition::Win {
            win_total = win_total + 1;
        }
        total_guesses = total_guesses + scores[i].num_guesses as u64;
        i = i + 1;
    }
    assert(scores@.subrange(0, scores@.len() as int) =~= scores@);
    BatchSummary { games: scores.len(), win_total, total_guesses }
}

/// Whether `s` is the score of a game played to its end: won in at least one
/// guess, or lost after using every guess.
pub open spec fn finished(s: WordleGameScore) -> bool {
    &&& s.result != GameCondition::Playing
    &&& 1 <= s.num_guesses <= MAX_GUESSES
    &&& s.result == GameCondition::Loss ==> s.num_guesses == MAX_GUESSES
}

/// Plays `games` independent games, each with a secret drawn from the
/// answers (which hold no word twice) and a fresh narrowing strategy over
/// them, and sums up their scores. Each strategy starts out holding the
/// secret, so every game is played to its end.
pub fn run_batch(dictionary: &[&str], valid_guess_words: &[&str], games: usize) -> (r:
    BatchSummary)
    requires
        dictionary@.len() > 0,
        forall|i: int|
            0 <= i < dictionary@.len() ==> (#[trigger] dictionary@[i])@.len()
                == dictionary@[0]@.len() && is_lower_word(dictionary@[i]@),
        forall|i: int|
            0 <= i < valid_guess_words@.len() ==> (#[trigger] valid_guess_words@[i])@.len()
                == dictionary@[0]@.len(),
        strs_view(dictionary@).no_duplicates(),
        games * MAX_GUESSES <= u64::MAX,
    ensures
        r.games == games,
        exists|scores: Seq<WordleGameScore>|
            {
                &&& scores.len() == games
                &&& forall|i: int| 0 <= i < games ==> finished(#[trigger] scores[i])
                &&& r.win_total == win_count(scores)
                &&& r.total_guesses == guess_total(scores)
            },
        r.win_total <= games,
        r.win_total + (games - r.win_total) * MAX_GUESSES <= r.total_guesses <= games
            * MAX_GUESSES,
{
    let mut scores: Vec<WordleGameScore> = Vec::with_capacity(games);
    let mut n: usize = 0;
    while n < games
        invariant
            n <= games,
            scores@.len() == n,
            forall|j: int| 0 <= j < scores@.len() ==> finished(#[trigger] scores@[j]),
            dictionary@.len() > 0,
            forall|i: int|
                0 <= i < dictionary@.len() ==> (#[trigger] dictionary@[i])@.len()
                    == dictionary@[0]@.len() && is_lower_word(dictionary@[i]@),
            forall|i: int|
                0 <= i < valid_guess_words@.len() ==> (#[trigger] valid_guess_words@[i])@.len()
                    == dictionary@[0]@.len(),
            strs_view(dictionary@).no_duplicates(),
        decreases games - n,
    {
        let strategy = NarrowingRandomWordleSolver::new(dictionary);
        let game = WordleGame::new_with_random_secret_word(dictionary, valid_guess_words);
        let mut solver = WordleSolver::new(game, strategy);
        let score = solver.run_game();
        scores.push(score);
        n = n + 1;
    }
    let summary = summarize(&scores);
    proof {
        lemma_summary_bounds(scores@);
    }
    summary
}

proof fn lemma_summary_bounds(scores: Seq<WordleGameScore>)
    requires
        forall|j: int| 0 <= j < scores.len() ==> finished(#[trigger] scores[j]),
    ensures
        win_count(scores) <= scores.len(),
        win_count(scores) + (scores.len() - win_count(scores)) * MAX_GUESSES <= guess_total(
            scores,
        ) <= scores.len() * MAX_GUESSES,
    decreases scores.len(),
{
    if scores.len() > 0 {
        let rest = scores.drop_last();
        assert forall|j: int| 0 <= j < rest.len() implies finished(#[trigger] rest[j]) by {
            assert(rest[j] == scores[j]);
        }
        assert(finished(scores[scores.len() - 1]));
        lemma_summary_bounds(rest);
        assert(win_count(scores) + (scores.len() - win_count(scores)) * MAX_GUESSES <= guess_total(
            scores,
        )) by (nonlinear_arith)
            requires
                win_count(rest) + (rest.len() - win_count(rest)) * MAX_GUESSES <= guess_total(rest),
                win_count(rest) <= rest.len(),
                scores.len() == rest.len() + 1,
                scores.last().result == GameCondition::Win ==> win_count(scores) == win_count(rest) + 1
                    && guess_total(scores) >= guess_total(rest) + 1,
                scores.last().result != GameCondition::Win ==> win_count(scores) == win_count(rest)
                    && guess_total(scores) == guess_total(rest) + MAX_GUESSES,
        ;
    }
}

} // verus!
