use vstd::math::max;
use vstd::prelude::*;

use crate::scoring::{chars_of, evaluate, score_guess};
use crate::support::{choose_one, lowercase, lower_of, push_char};
use crate::types::{
    guesses_view, is_lower_word, word_of, GameCondition, Guess, Guesses, LetterState, WordleGameState,
};

verus! {

/// How many guesses a game allows.
pub const MAX_GUESSES: usize = 6;

/// Why a guess was turned down.
#[derive(Debug, Clone, Copy, PartialEq, Eq, Structural)]
pub enum GuessError {
    /// The word is in neither dictionary.
    InvalidWord,
    /// The game has already been won or lost.
    GameOver,
    /// The word has been guessed before in this game.
    AlreadyGuessed,
}

impl GuessError {
    /// A short message for the player.
    pub fn message(&self) -> (r: &'static str)
        ensures
            r@ == match *self {
                GuessError::InvalidWord => "Invalid word"@,
                GuessError::GameOver => "game is over"@,
                GuessError::AlreadyGuessed => "Already guessed"@,
            },
    {
        match self {
            GuessError::InvalidWord => "Invalid word",
            GuessError::GameOver => "game is over",
            GuessError::AlreadyGuessed => "Already guessed",
        }
    }
}

/// Whether every position of a scored guess is placed.
pub open spec fn is_win(g: Seq<(char, LetterState)>) -> bool {
    forall|i: int| 0 <= i < g.len() ==> (#[trigger] g[i]).1 == LetterState::CorrectPlacement
}

/// The views of a list of words.
pub open spec fn strs_view(ws: Seq<&str>) -> Seq<Seq<char>> {
    ws.map_values(|w: &str| w@)
}

/// The views of a list of owned words.
pub open spec fn strings_view(ws: Seq<String>) -> Seq<Seq<char>> {
    ws.map_values(|w: String| w@)
}

/// The mathematical state of a game.
pub struct GameView {
    pub secret: Seq<char>,
    /// The words that may be the secret.
    pub answers: Seq<Seq<char>>,
    /// The further words that may be guessed.
    pub valid_guesses: Seq<Seq<char>>,
    /// The scored guesses, oldest first.
    pub history: Seq<Seq<(char, LetterState)>>,
    pub max_guesses: nat,
}

impl GameView {
    pub open spec fn has_won(self) -> bool {
        exists|k: int| 0 <= k < self.history.len() && #[trigger] is_win(self.history[k])
    }

    /// Won once some guess is placed everywhere; lost once the guesses are
    /// used up without that; playing otherwise.
    pub open spec fn condition(self) -> GameCondition {
        if self.has_won() {
            GameCondition::Win
        } else if self.history.len() >= self.max_guesses {
            GameCondition::Loss
        } else {
            GameCondition::Playing
        }
    }

    /// Whether `w` is in one of the two dictionaries.
    pub open spec fn accepts(self, w: Seq<char>) -> bool {
        self.answers.contains(w) || self.valid_guesses.contains(w)
    }

    /// The words guessed so far, read back from the letters of each guess.
    pub open spec fn guessed_words(self) -> Seq<Seq<char>> {
        self.history.map_values(|g: Seq<(char, LetterState)>| word_of(g))
    }

    /// What submitting `w` answers.
    pub open spec fn submit_result(self, w: Seq<char>) -> Result<(), GuessError> {
        if !self.accepts(w) {
            Err(GuessError::InvalidWord)
        } else if self.condition() != GameCondition::Playing {
            Err(GuessError::GameOver)
        } else if self.guessed_words().contains(w) {
            Err(GuessError::AlreadyGuessed)
        } else {
            Ok(())
        }
    }

    /// The state after submitting `w`: one more scored guess on success,
    /// unchanged otherwise.
    pub open spec fn submit(self, w: Seq<char>) -> GameView {
        if self.submit_result(w) is Ok {
            GameView {
                secret: self.secret,
                answers: self.answers,
                valid_guesses: self.valid_guesses,
                history: self.history.push(evaluate(w, self.secret)),
                max_guesses: self.max_guesses,
            }
        } else {
            self
        }
    }

    /// The state after submitting each of `words` in turn.
    pub open spec fn replay(self, words: Seq<Seq<char>>) -> GameView
        decreases words.len(),
    {
        if words.len() == 0 {
            self
        } else {
            self.replay(words.drop_last()).submit(words.last())
        }
    }

    /// The invariant of a game: the secret is an answer in lowercase letters;
    /// every word of both dictionaries has the secret's length; the limit is
    /// `MAX_GUESSES`; every scored guess is the score of an accepted word
    /// against the secret; no word is guessed twice; only the last guess may
    /// be a win; and there are at most `max_guesses` guesses.
    pub open spec fn wf(self) -> bool {
        &&& self.answers.contains(self.secret)
        &&& is_lower_word(self.secret)
        &&& forall|i: int|
            0 <= i < self.answers.len() ==> (#[trigger] self.answers[i]).len() == self.secret.len()
        &&& forall|i: int|
            0 <= i < self.valid_guesses.len() ==> (#[trigger] self.valid_guesses[i]).len()
                == self.secret.len()
        &&& self.max_guesses == MAX_GUESSES
        &&& self.history.len() <= self.max_guesses
        &&& forall|k: int|
            0 <= k < self.history.len() ==> #[trigger] self.history[k] == evaluate(
                word_of(self.history[k]),
                self.secret,
            ) && self.accepts(word_of(self.history[k]))
        &&& forall|k1: int, k2: int|
            0 <= k1 < k2 < self.history.len() ==> word_of(#[trigger] self.history[k1]) != word_of(
                #[trigger] self.history[k2],
            )
        &&& forall|k: int| 0 <= k < self.history.len() - 1 ==> !is_win(#[trigger] self.history[k])
    }
}

/// A guess of the secret's length is a win exactly when it is the secret.
pub proof fn lemma_win_iff_secret(w: Seq<char>, s: Seq<char>)
    requires
        w.len() == s.len(),
    ensures
        is_win(evaluate(w, s)) <==> w == s,
        word_of(evaluate(w, s)) == w,
{
    assert(word_of(evaluate(w, s)) =~= w);
    if is_win(evaluate(w, s)) {
        assert forall|i: int| 0 <= i < w.len() implies w[i] == s[i] by {
            assert(evaluate(w, s)[i].1 == LetterState::CorrectPlacement);
        }
        assert(w =~= s);
    }
}

/// The priority of a score when letters are summarised: placed over misplaced
/// over incorrect.
pub open spec fn rank(st: LetterState) -> int {
    match st {
        LetterState::Incorrect => 0,
        LetterState::CorrectLetter => 1,
        LetterState::CorrectPlacement => 2,
    }
}

/// The highest rank with which `c` is scored among the first `n` positions of
/// `g`, or -1 if it is not among them.
pub open spec fn guess_rank(g: Seq<(char, LetterState)>, n: int, c: char) -> int
    decreases n,
{
    if n <= 0 {
        -1
    } else if g[n - 1].0 == c && rank(g[n - 1].1) > guess_rank(g, n - 1, c) {
        rank(g[n - 1].1)
    } else {
        guess_rank(g, n - 1, c)
    }
}

/// The highest rank with which `c` is scored in the first `k` guesses of `h`,
/// or -1 if it appears in none of them.
pub open spec fn history_rank(h: Seq<Seq<(char, LetterState)>>, k: int, c: char) -> int
    decreases k,
{
    if k <= 0 {
        -1
    } else {
        let g = h[k - 1];
        let r = guess_rank(g, g.len() as int, c);
        let p = history_rank(h, k - 1, c);
        if r > p {
            r
        } else {
            p
        }
    }
}

/// The highest rank with which `c` is scored anywhere in `h`, or -1.
pub open spec fn best_rank(h: Seq<Seq<(char, LetterState)>>, c: char) -> int {
    history_rank(h, h.len() as int, c)
}

proof fn lemma_history_rank_floor(h: Seq<Seq<(char, LetterState)>>, k: int, c: char)
    ensures
        history_rank(h, k, c) >= -1,
    decreases k,
{
    if k > 0 {
        lemma_history_rank_floor(h, k - 1, c);
    }
}

/// Whether no two entries of a letter summary are for the same letter.
pub open spec fn letters_distinct(s: Seq<(char, LetterState)>) -> bool {
    forall|i: int, j: int| 0 <= i < j < s.len() ==> (#[trigger] s[i]).0 != (#[trigger] s[j]).0
}

/// The rank of the entry for `c` in a letter summary, or -1 if it has none.
pub open spec fn summary_rank(s: Seq<(char, LetterState)>, c: char) -> int
    decreases s.len(),
{
    if s.len() == 0 {
        -1
    } else if s.last().0 == c {
        rank(s.last().1)
    } else {
        summary_rank(s.drop_last(), c)
    }
}

proof fn lemma_summary_at(s: Seq<(char, LetterState)>, j: int)
    requires
        letters_distinct(s),
        0 <= j < s.len(),
    ensures
        summary_rank(s, s[j].0) == rank(s[j].1),
    decreases s.len(),
{
    if j < s.len() - 1 {
        assert(s.drop_last()[j] == s[j]);
        lemma_summary_at(s.drop_last(), j);
    }
}

proof fn lemma_summary_absent(s: Seq<(char, LetterState)>, c: char)
    requires
        forall|j: int| 0 <= j < s.len() ==> (#[trigger] s[j]).0 != c,
    ensures
        summary_rank(s, c) == -1,
    decreases s.len(),
{
    if s.len() > 0 {
        assert(s[s.len() - 1].0 != c);
        lemma_summary_absent(s.drop_last(), c);
    }
}

proof fn lemma_summary_update(
    s: Seq<(char, LetterState)>,
    j: int,
    e: (char, LetterState),
    d: char,
)
    requires
        letters_distinct(s),
        0 <= j < s.len(),
        e.0 == s[j].0,
    ensures
        summary_rank(s.update(j, e), d) == if d == e.0 {
            rank(e.1)
        } else {
            summary_rank(s, d)
        },
    decreases s.len(),
{
    let t = s.update(j, e);
    if j < s.len() - 1 {
        assert(t.drop_last() =~= s.drop_last().update(j, e));
        assert(t.last() == s.last());
        assert(s[j].0 != s[s.len() - 1].0);
        lemma_summary_update(s.drop_last(), j, e, d);
    } else {
        assert(t.drop_last() =~= s.drop_last());
    }
}

/// The index of the entry for `c` in a letter summary.
fn find_letter(states: &Vec<(char, LetterState)>, c: char) -> (r: Option<usize>)
    ensures
        r matches Some(j) ==> j < states@.len() && states@[j as int].0 == c,
        r is None ==> forall|j: int| 0 <= j < states@.len() ==> (#[trigger] states@[j]).0 != c,
{
    let mut j: usize = 0;
    while j < states.len()
        invariant
            j <= states.len(),
            forall|i: int| 0 <= i < j ==> (#[trigger] states@[i]).0 != c,
        decreases states.len() - j,
    {
        if states[j].0 == c {
            return Some(j);
        }
        j = j + 1;
    }
    None
}

/// Takes one more scored letter into a letter summary: a letter not yet
/// summarised gets its score; otherwise its summary is raised to the score if
/// that ranks higher.
fn record_letter(states: &mut Vec<(char, LetterState)>, c: char, st: LetterState)
    requires
        letters_distinct(old(states)@),
    ensures
        letters_distinct(final(states)@),
        forall|d: char|
            #[trigger] summary_rank(final(states)@, d) == if d == c {
                max(summary_rank(old(states)@, c), rank(st))
            } else {
                summary_rank(old(states)@, d)
            },
{
    let ghost s0 = states@;
    match find_letter(states, c) {
        Some(j) => {
            let old_st = states[j].1;
            let rank_new: u8 = match st {
                LetterState::Incorrect => 0,
                LetterState::CorrectLetter => 1,
                LetterState::CorrectPlacement => 2,
            };
            let rank_old: u8 = match old_st {
                LetterState::Incorrect => 0,
                LetterState::CorrectLetter => 1,
                LetterState::CorrectPlacement => 2,
            };
            proof {
                lemma_summary_at(s0, j as int);
            }
            if rank_new > rank_old {
                states.set(j, (c, st));
                proof {
                    assert forall|d: char| #[trigger]
                        summary_rank(states@, d) == if d == c {
                            max(summary_rank(s0, c), rank(st))
                        } else {
                            summary_rank(s0, d)
                        } by {
                        lemma_summary_update(s0, j as int, (c, st), d);
                    }
                }
            }
        },
        None => {
            proof {
                lemma_summary_absent(s0, c);
            }
            states.push((c, st));
            proof {
                assert(states@.drop_last() =~= s0);
            }
        },
    }
}

/// A word that a game accepts has the secret's length.
pub proof fn lemma_accepted_len(g: GameView, w: Seq<char>)
    requires
        g.wf(),
        g.accepts(w),
    ensures
        w.len() == g.secret.len(),
{
    if g.answers.contains(w) {
        let i = choose|i: int| 0 <= i < g.answers.len() && g.answers[i] == w;
    } else {
        let i = choose|i: int| 0 <= i < g.valid_guesses.len() && g.valid_guesses[i] == w;
    }
}

/// Submitting any word keeps the invariant of a game.
pub proof fn lemma_submit_wf(g: GameView, w: Seq<char>)
    requires
        g.wf(),
    ensures
        g.submit(w).wf(),
{
    if g.submit_result(w) is Ok {
        let n = g.submit(w);
        let h = n.history;
        lemma_accepted_len(g, w);
        lemma_win_iff_secret(w, g.secret);
        assert(h == g.history.push(evaluate(w, g.secret)));
        assert forall|k1: int, k2: int|
            0 <= k1 < k2 < h.len() implies word_of(#[trigger] h[k1]) != word_of(
            #[trigger] h[k2],
        ) by {
            if k2 == h.len() - 1 {
                assert(g.guessed_words()[k1] == word_of(h[k1]));
            }
        }
        assert forall|k: int| 0 <= k < h.len() - 1 implies !is_win(#[trigger] h[k]) by {
            assert(g.history[k] == h[k]);
        }
        assert forall|k: int| 0 <= k < h.len() implies #[trigger] h[k] == evaluate(
            word_of(h[k]),
            n.secret,
        ) && n.accepts(word_of(h[k])) by {
            if k < h.len() - 1 {
                assert(g.history[k] == h[k]);
            }
        }
    }
}

/// Replaying the same words on two fresh games with the same secret,
/// dictionaries and limit gives the same history and so the same condition;
/// the invariant holds throughout.
pub proof fn lemma_replay_deterministic(a: GameView, b: GameView, words: Seq<Seq<char>>)
    requires
        a.wf(),
        a.history.len() == 0,
        b.history.len() == 0,
        a.secret == b.secret,
        a.answers == b.answers,
        a.valid_guesses == b.valid_guesses,
        a.max_guesses == b.max_guesses,
    ensures
        a.replay(words).wf(),
        a.replay(words).history == b.replay(words).history,
        a.replay(words).condition() == b.replay(words).condition(),
{
    assert(a.history =~= b.history);
    assert(a == b);
    lemma_replay_wf(a, words);
}

proof fn lemma_replay_wf(g: GameView, words: Seq<Seq<char>>)
    requires
        g.wf(),
    ensures
        g.replay(words).wf(),
    decreases words.len(),
{
    if words.len() > 0 {
        lemma_replay_wf(g, words.drop_last());
        lemma_submit_wf(g.replay(words.drop_last()), words.last());
    }
}

/// Submitting distinct accepted words, none of them the secret, to a fresh
/// game: every one is taken, the game plays on while guesses are left, and it
/// is lost once `MAX_GUESSES` of them have been submitted.
pub proof fn lemma_misses_lose(g: GameView, words: Seq<Seq<char>>)
    requires
        g.wf(),
        g.history.len() == 0,
        words.len() <= MAX_GUESSES,
        words.no_duplicates(),
        forall|i: int| 0 <= i < words.len() ==> g.accepts(#[trigger] words[i]) && words[i] != g.secret,
    ensures
        g.replay(words).wf(),
        g.replay(words).secret == g.secret,
        g.replay(words).answers == g.answers,
        g.replay(words).valid_guesses == g.valid_guesses,
        g.replay(words).guessed_words() == words,
        !g.replay(words).has_won(),
        g.replay(words).condition() == if words.len() == MAX_GUESSES {
            GameCondition::Loss
        } else {
            GameCondition::Playing
        },
    decreases words.len(),
{
    if words.len() > 0 {
        let rest = words.drop_last();
        let w = words.last();
        assert forall|i: int| 0 <= i < rest.len() implies g.accepts(#[trigger] rest[i])
            && rest[i] != g.secret by {
            assert(rest[i] == words[i]);
        }
        assert(rest.no_duplicates()) by {
            assert forall|i: int, j: int|
                0 <= i < rest.len() && 0 <= j < rest.len() && i != j implies rest[i] != rest[j] by {
                assert(rest[i] == words[i] && rest[j] == words[j]);
            }
        }
        lemma_misses_lose(g, rest);
        let p = g.replay(rest);
        lemma_replay_wf(g, rest);
        assert(g.accepts(words[words.len() - 1]));
        assert(p.accepts(w));
        assert(p.condition() == GameCondition::Playing);
        assert(!p.guessed_words().contains(w)) by {
            if p.guessed_words().contains(w) {
                let j = choose|j: int| 0 <= j < rest.len() && rest[j] == w;
                assert(words[j] == words[words.len() - 1]);
            }
        }
        assert(p.submit_result(w) is Ok);
        lemma_submit_wf(p, w);
        lemma_accepted_len(p, w);
        lemma_win_iff_secret(w, p.secret);
        let n = p.submit(w);
        assert(n.guessed_words() =~= words) by {
            assert(n.history[n.history.len() - 1] == evaluate(w, p.secret));
            assert forall|i: int| 0 <= i < rest.len() implies n.guessed_words()[i] == words[i] by {
                assert(n.history[i] == p.history[i]);
                assert(p.guessed_words()[i] == rest[i]);
            }
        }
        assert(!n.has_won()) by {
            if n.has_won() {
                let k = choose|k: int| 0 <= k < n.history.len() && is_win(n.history[k]);
                if k < n.history.len() - 1 {
                    assert(n.history[k] == p.history[k]);
                }
            }
        }
    } else {
        assert(g.guessed_words() =~= words);
    }
}

/// Submitting an accepted word that has not been guessed, is not the secret
/// and does not use up the last guess, twice in a row: the first submission is
/// taken and the second is turned down as already guessed.
pub proof fn lemma_duplicate_rejected(g: GameView, w: Seq<char>)
    requires
        g.wf(),
        g.condition() == GameCondition::Playing,
        g.accepts(w),
        !g.guessed_words().contains(w),
        w != g.secret,
        g.history.len() + 1 < g.max_guesses,
    ensures
        g.submit_result(w) == Ok::<(), GuessError>(()),
        g.submit(w).submit_result(w) == Err::<(), GuessError>(GuessError::AlreadyGuessed),
{
    let n = g.submit(w);
    lemma_accepted_len(g, w);
    lemma_win_iff_secret(w, g.secret);
    assert(n.history.last() == evaluate(w, g.secret));
    assert(n.guessed_words()[n.history.len() - 1] == w);
    assert(!n.has_won()) by {
        if n.has_won() {
            let k = choose|k: int| 0 <= k < n.history.len() && is_win(n.history[k]);
            if k < n.history.len() - 1 {
                assert(g.history[k] == n.history[k]);
            }
        }
    }
}

/// Submitting the secret while the game is playing is taken and wins at
/// once; after that every accepted word is turned down as the game is over.
pub proof fn lemma_secret_wins(g: GameView)
    requires
        g.wf(),
        g.condition() == GameCondition::Playing,
    ensures
        g.submit_result(g.secret) == Ok::<(), GuessError>(()),
        g.submit(g.secret).condition() == GameCondition::Win,
        forall|w: Seq<char>|
            g.accepts(w) ==> #[trigger] g.submit(g.secret).submit_result(w) == Err::<(), GuessError>(
                GuessError::GameOver,
            ),
{
    lemma_win_iff_secret(g.secret, g.secret);
    assert(g.answers.contains(g.secret));
    assert(!g.guessed_words().contains(g.secret)) by {
        if g.guessed_words().contains(g.secret) {
            let k = choose|k: int|
                0 <= k < g.guessed_words().len() && g.guessed_words()[k] == g.secret;
            assert(word_of(g.history[k]) == g.secret);
            assert(is_win(g.history[k]));
        }
    }
    let n = g.submit(g.secret);
    assert(is_win(n.history[n.history.len() - 1]));
}

/// One game: a secret, the two dictionaries, and the guesses made so far.
pub struct WordleGame {
    dictionary: Vec<String>,
    guesses: Guesses,
    secret_word: String,
    max_guesses: usize,
    valid_guess_words: Vec<String>,
}

impl View for WordleGame {
    type V = GameView;

    closed spec fn view(&self) -> GameView {
        GameView {
            secret: self.secret_word@,
            answers: strings_view(self.dictionary@),
            valid_guesses: strings_view(self.valid_guess_words@),
            history: guesses_view(self.guesses@),
            max_guesses: self.max_guesses as nat,
        }
    }
}

/// Owned copies of `words`.
pub(crate) fn to_strings(words: &[&str]) -> (r: Vec<String>)
    ensures
        strings_view(r@) == strs_view(words@),
{
    let mut r: Vec<String> = Vec::with_capacity(words.len());
    let mut i: usize = 0;
    while i < words.len()
        invariant
            i <= words.len(),
            r@.len() == i,
            forall|j: int| 0 <= j < i ==> (#[trigger] r@[j])@ == words@[j]@,
        decreases words.len() - i,
    {
        r.push(words[i].to_owned());
        i = i + 1;
    }
    assert(strings_view(r@) =~= strs_view(words@));
    r
}

/// Whether `w` is one of `words`.
fn contains_word(words: &Vec<String>, w: &String) -> (r: bool)
    ensures
        r == strings_view(words@).contains(w@),
{
    let mut i: usize = 0;
    while i < words.len()
        invariant
            i <= words.len(),
            forall|j: int| 0 <= j < i ==> (#[trigger] words@[j])@ != w@,
        decreases words.len() - i,
    {
        if words[i] == *w {
            assert(strings_view(words@)[i as int] == w@);
            return true;
        }
        i = i + 1;
    }
    assert(!strings_view(words@).contains(w@)) by {
        if strings_view(words@).contains(w@) {
            let j = choose|j: int| 0 <= j < words@.len() && strings_view(words@)[j] == w@;
            assert(words@[j]@ == w@);
        }
    }
    false
}

/// The word spelled by the letters of `g`.
fn word_string(g: &Guess) -> (r: String)
    ensures
        r@ == word_of(g@),
{
    let mut r = String::new();
    let mut i: usize = 0;
    while i < g.len()
        invariant
            i <= g.len(),
            r@ == word_of(g@).subrange(0, i as int),
        decreases g.len() - i,
    {
        push_char(&mut r, g[i].0);
        i = i + 1;
        assert(r@ =~= word_of(g@).subrange(0, i as int));
    }
    assert(r@ =~= word_of(g@));
    r
}

impl WordleGame {
    /// A fresh game with the given secret. The secret must be one of the
    /// answers, and every word of both dictionaries must have its length.
    pub fn new(dictionary: &[&str], valid_guess_words: &[&str], secret_word: &str) -> (r: Self)
        requires
            strs_view(dictionary@).contains(secret_word@),
            is_lower_word(secret_word@),
            forall|i: int|
                0 <= i < dictionary@.len() ==> (#[trigger] dictionary@[i])@.len()
                    == secret_word@.len(),
            forall|i: int|
                0 <= i < valid_guess_words@.len() ==> (#[trigger] valid_guess_words@[i])@.len()
                    == secret_word@.len(),
        ensures
            r@.wf(),
            r@.secret == secret_word@,
            r@.answers == strs_view(dictionary@),
            r@.valid_guesses == strs_view(valid_guess_words@),
            r@.history.len() == 0,
            r@.max_guesses == MAX_GUESSES,
            r@.condition() == GameCondition::Playing,
    {
        let dictionary_set = to_strings(dictionary);
        let valid = to_strings(valid_guess_words);
        let r = WordleGame {
            dictionary: dictionary_set,
            guesses: Vec::new(),
            secret_word: secret_word.to_owned(),
            max_guesses: MAX_GUESSES,
            valid_guess_words: valid,
        };
        assert(r@.history =~= Seq::<Seq<(char, LetterState)>>::empty());
        assert forall|i: int| 0 <= i < r@.answers.len() implies (#[trigger] r@.answers[i]).len()
            == r@.secret.len() by {
            assert(r@.answers[i] == dictionary@[i]@);
        }
        assert forall|i: int|
            0 <= i < r@.valid_guesses.len() implies (#[trigger] r@.valid_guesses[i]).len()
            == r@.secret.len() by {
            assert(r@.valid_guesses[i] == valid_guess_words@[i]@);
        }
        r
    }

    /// A fresh game whose secret is drawn uniformly from the answers. There
    /// must be at least one answer, and every word of both dictionaries must
    /// have the length of the first.
    pub fn new_with_random_secret_word(dictionary: &[&str], valid_guess_words: &[&str]) -> (r:
        Self)
        requires
            dictionary@.len() > 0,
            forall|i: int|
                0 <= i < dictionary@.len() ==> (#[trigger] dictionary@[i])@.len()
                    == dictionary@[0]@.len() && is_lower_word(dictionary@[i]@),
            forall|i: int|
                0 <= i < valid_guess_words@.len() ==> (#[trigger] valid_guess_words@[i])@.len()
                    == dictionary@[0]@.len(),
        ensures
            r@.wf(),
            strs_view(dictionary@).contains(r@.secret),
            r@.answers == strs_view(dictionary@),
            r@.valid_guesses == strs_view(valid_guess_words@),
            r@.history.len() == 0,
            r@.max_guesses == MAX_GUESSES,
            r@.condition() == GameCondition::Playing,
    {
        let secret_word: &str = *choose_one(dictionary).unwrap();
        assert(strs_view(dictionary@).contains(secret_word@)) by {
            let i = choose|i: int| 0 <= i < dictionary@.len() && dictionary@[i] == secret_word;
            assert(strs_view(dictionary@)[i] == secret_word@);
        }
        Self::new(dictionary, valid_guess_words, secret_word)
    }

    /// Submits a guess, in any case: it is lowercased first, then handled as
    /// `make_normalized_guess` does. A word of lowercase letters is submitted
    /// as it is.
    pub fn make_guess(&mut self, guess: &str) -> (r: Result<(), GuessError>)
        requires
            old(self)@.wf(),
        ensures
            final(self)@.wf(),
            r == old(self)@.submit_result(lower_of(guess@)),
            final(self)@ == old(self)@.submit(lower_of(guess@)),
            is_lower_word(guess@) ==> r == old(self)@.submit_result(guess@) && final(self)@ == old(
                self,
            )@.submit(guess@),
    {
        let guess = lowercase(guess);
        self.make_normalized_guess(guess.as_str())
    }

    /// Submits a lowercase guess: it must be in one of the dictionaries, the
    /// game must still be playing, and the word must not have been guessed
    /// before; then its score joins the history.
    pub fn make_normalized_guess(&mut self, guess: &str) -> (r: Result<(), GuessError>)
        requires
            old(self)@.wf(),
        ensures
            final(self)@.wf(),
            r == old(self)@.submit_result(guess@),
            final(self)@ == old(self)@.submit(guess@),
    {
        let guess = guess.to_owned();
        if !(contains_word(&self.dictionary, &guess) || contains_word(
            &self.valid_guess_words,
            &guess,
        )) {
            return Err(GuessError::InvalidWord);
        }
        if self.game_condition() != GameCondition::Playing {
            return Err(GuessError::GameOver);
        }
        if self.has_guessed(&guess) {
            return Err(GuessError::AlreadyGuessed);
        }
        let ghost old_view = self@;
        let guess_result = Self::check_guess(guess.as_str(), self.secret_word.as_str());
        self.guesses.push(guess_result);
        proof {
            lemma_submit_wf(old_view, guess@);
            assert(self@.history =~= old_view.submit(guess@).history);
        }
        Ok(())
    }

    /// Whether `w` is among the words guessed so far.
    fn has_guessed(&self, w: &String) -> (r: bool)
        ensures
            r == self@.guessed_words().contains(w@),
    {
        let mut k: usize = 0;
        while k < self.guesses.len()
            invariant
                k <= self.guesses.len(),
                forall|j: int| 0 <= j < k ==> #[trigger] word_of(self.guesses@[j]@) != w@,
            decreases self.guesses.len() - k,
        {
            let word = word_string(&self.guesses[k]);
            if word == *w {
                assert(self@.guessed_words()[k as int] == w@);
                return true;
            }
            k = k + 1;
        }
        assert(!self@.guessed_words().contains(w@)) by {
            if self@.guessed_words().contains(w@) {
                let j = choose|j: int|
                    0 <= j < self@.guessed_words().len() && self@.guessed_words()[j] == w@;
                assert(word_of(self.guesses@[j]@) == w@);
            }
        }
        false
    }

    /// The scored guesses so far and the game's condition.
    pub fn game_state(&self) -> (r: WordleGameState<'_>)
        ensures
            guesses_view(r.guesses@) == self@.history,
            r.condition == self@.condition(),
    {
        WordleGameState { guesses: &self.guesses, condition: self.game_condition() }
    }

    /// The game's condition, derived from its history alone.
    pub fn game_condition(&self) -> (r: GameCondition)
        ensures
            r == self@.condition(),
    {
        let mut has_won = false;
        let mut k: usize = 0;
        while k < self.guesses.len()
            invariant
                k <= self.guesses.len(),
                has_won <==> exists|j: int| 0 <= j < k && #[trigger] is_win(self.guesses@[j]@),
            decreases self.guesses.len() - k,
        {
            let guess = &self.guesses[k];
            let mut all_placed = true;
            let mut i: usize = 0;
            while i < guess.len()
                invariant
                    i <= guess.len(),
                    all_placed <==> forall|j: int|
                        0 <= j < i ==> (#[trigger] guess@[j]).1 == LetterState::CorrectPlacement,
                decreases guess.len() - i,
            {
                if guess[i].1 != LetterState::CorrectPlacement {
                    all_placed = false;
                }
                i = i + 1;
            }
            if all_placed {
                has_won = true;
            }
            proof {
                if is_win(guess@) {
                    assert(is_win(self.guesses@[k as int]@));
                }
            }
            k = k + 1;
        }
        proof {
            assert forall|j: int| 0 <= j < self.guesses@.len() implies #[trigger] is_win(
                self@.history[j],
            ) == is_win(self.guesses@[j]@) by {
                assert(self@.history[j] == self.guesses@[j]@);
            }
            if self@.has_won() {
                let j = choose|j: int| 0 <= j < self@.history.len() && is_win(self@.history[j]);
                assert(is_win(self.guesses@[j]@));
            }
            if has_won {
                let j = choose|j: int| 0 <= j < self.guesses@.len() && is_win(self.guesses@[j]@);
                assert(self@.history[j] == self.guesses@[j]@);
                assert(is_win(self@.history[j]));
            }
        }
        if has_won {
            GameCondition::Win
        } else if self.guesses.len() >= self.max_guesses {
            GameCondition::Loss
        } else {
            GameCondition::Playing
        }
    }

    /// The secret word, for the reveal at the end of a game.
    pub fn secret_word(&self) -> (r: &str)
        ensures
            r@ == self@.secret,
    {
        self.secret_word.as_str()
    }

    /// The words guessed so far, oldest first.
    pub fn words_already_guessed(&self) -> (r: Vec<String>)
        ensures
            strings_view(r@) == self@.guessed_words(),
    {
        let mut r: Vec<String> = Vec::with_capacity(self.guesses.len());
        let mut k: usize = 0;
        while k < self.guesses.len()
            invariant
                k <= self.guesses.len(),
                r@.len() == k,
                forall|j: int| 0 <= j < k ==> (#[trigger] r@[j])@ == word_of(self.guesses@[j]@),
            decreases self.guesses.len() - k,
        {
            r.push(word_string(&self.guesses[k]));
            k = k + 1;
        }
        assert(strings_view(r@) =~= self@.guessed_words());
        r
    }

    /// The best score known for each letter guessed so far, one entry per
    /// letter: placed over misplaced over incorrect, so a letter once placed
    /// stays placed whatever later guesses say of it.
    pub fn letter_states(&self) -> (r: Vec<(char, LetterState)>)
        ensures
            letters_distinct(r@),
            forall|c: char| #[trigger] summary_rank(r@, c) == best_rank(self@.history, c),
    {
        let mut result: Vec<(char, LetterState)> = Vec::new();
        let mut k: usize = 0;
        while k < self.guesses.len()
            invariant
                k <= self.guesses.len(),
                letters_distinct(result@),
                forall|c: char| #[trigger]
                    summary_rank(result@, c) == history_rank(self@.history, k as int, c),
            decreases self.guesses.len() - k,
        {
            let guess = &self.guesses[k];
            assert(guess@ == self@.history[k as int]);
            proof {
                assert forall|c: char| #[trigger]
                    summary_rank(result@, c) == max(
                        history_rank(self@.history, k as int, c),
                        guess_rank(guess@, 0, c),
                    ) by {
                    lemma_history_rank_floor(self@.history, k as int, c);
                }
            }
            let mut i: usize = 0;
            while i < guess.len()
                invariant
                    i <= guess.len(),
                    letters_distinct(result@),
                    forall|c: char| #[trigger]
                        summary_rank(result@, c) == max(
                            history_rank(self@.history, k as int, c),
                            guess_rank(guess@, i as int, c),
                        ),
                decreases guess.len() - i,
            {
                let (c, st) = guess[i];
                record_letter(&mut result, c, st);
                i = i + 1;
            }
            k = k + 1;
        }
        result
    }

    /// Scores `guess` against `secret_word`; both must have the same length.
    pub fn check_guess(guess: &str, secret_word: &str) -> (r: Guess)
        requires
            guess@.len() == secret_word@.len(),
        ensures
            r@ == evaluate(guess@, secret_word@),
    {
        let g = chars_of(guess);
        let s = chars_of(secret_word);
        score_guess(&g, &s)
    }
}

} // verus!
