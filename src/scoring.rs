use vstd::prelude::*;
use vstd::math::min;
use vstd::string::*;

use crate::types::{Guess, LetterState};

verus! {

/// How many of the first `n` letters of `s` are `c`.
pub open spec fn count_upto(s: Seq<char>, n: int, c: char) -> nat
    decreases n,
{
    if n <= 0 {
        0
    } else {
        count_upto(s, n - 1, c) + if s[n - 1] == c {
            1nat
        } else {
            0nat
        }
    }
}

/// How many letters of `s` are `c`.
pub open spec fn count_in(s: Seq<char>, c: char) -> nat {
    count_upto(s, s.len() as int, c)
}

/// How many of the first `n` positions hold `c` in both `w` and `s`.
pub open spec fn placed_upto(w: Seq<char>, s: Seq<char>, n: int, c: char) -> nat
    decreases n,
{
    if n <= 0 {
        0
    } else {
        placed_upto(w, s, n - 1, c) + if w[n - 1] == c && s[n - 1] == c {
            1nat
        } else {
            0nat
        }
    }
}

/// How many of the first `n` positions hold `c` in `w` but not in `s`.
pub open spec fn misplaced_upto(w: Seq<char>, s: Seq<char>, n: int, c: char) -> nat
    decreases n,
{
    if n <= 0 {
        0
    } else {
        misplaced_upto(w, s, n - 1, c) + if w[n - 1] == c && s[n - 1] != c {
            1nat
        } else {
            0nat
        }
    }
}

/// How many occurrences of `c` in the secret `s` are left for misplaced
/// letters once the exact matches of guess `w` have taken theirs.
pub open spec fn budget(w: Seq<char>, s: Seq<char>, c: char) -> int {
    count_in(s, c) - placed_upto(w, s, w.len() as int, c)
}

/// The score of position `i` of guess `w` against secret `s`: an exact match
/// is placed; otherwise the letter is misplaced when fewer earlier misplaced
/// copies of it have come before than the secret has copies to spare.
pub open spec fn score_at(w: Seq<char>, s: Seq<char>, i: int) -> LetterState {
    if w[i] == s[i] {
        LetterState::CorrectPlacement
    } else if misplaced_upto(w, s, i, w[i]) < budget(w, s, w[i]) {
        LetterState::CorrectLetter
    } else {
        LetterState::Incorrect
    }
}

/// The scored guess of `w` against the secret `s`.
pub open spec fn evaluate(w: Seq<char>, s: Seq<char>) -> Seq<(char, LetterState)> {
    Seq::new(w.len(), |i: int| (w[i], score_at(w, s, i)))
}

/// The score that the first pass gives: placed on an exact match, else incorrect.
pub open spec fn first_pass_at(w: Seq<char>, s: Seq<char>, i: int) -> LetterState {
    if w[i] == s[i] {
        LetterState::CorrectPlacement
    } else {
        LetterState::Incorrect
    }
}

/// Whether a score claims one copy of its letter from the secret.
pub open spec fn is_mark(st: LetterState) -> bool {
    st == LetterState::CorrectPlacement || st == LetterState::CorrectLetter
}

/// How many of the first `n` positions of `g` hold `c` scored as placed or
/// misplaced.
pub open spec fn marked_upto(g: Seq<(char, LetterState)>, n: int, c: char) -> nat
    decreases n,
{
    if n <= 0 {
        0
    } else {
        marked_upto(g, n - 1, c) + if g[n - 1].0 == c && is_mark(g[n - 1].1) {
            1nat
        } else {
            0nat
        }
    }
}

/// How many positions of `g` hold `c` scored as placed or misplaced.
pub open spec fn marked_count(g: Seq<(char, LetterState)>, c: char) -> nat {
    marked_upto(g, g.len() as int, c)
}

pub proof fn lemma_placed_le_count(w: Seq<char>, s: Seq<char>, n: int, c: char)
    ensures
        placed_upto(w, s, n, c) <= count_upto(s, n, c),
    decreases n,
{
    if n > 0 {
        lemma_placed_le_count(w, s, n - 1, c);
    }
}

/// The marks for `c` in a scored guess whose first `i` positions are final and
/// whose other positions are still as the first pass left them.
proof fn lemma_marked_partial(
    w: Seq<char>,
    s: Seq<char>,
    g: Seq<(char, LetterState)>,
    i: int,
    k: int,
    c: char,
)
    requires
        w.len() == s.len(),
        g.len() == w.len(),
        0 <= i <= w.len(),
        0 <= k <= w.len(),
        forall|j: int| 0 <= j < i ==> g[j] == (w[j], score_at(w, s, j)),
        forall|j: int| i <= j < w.len() ==> g[j] == (w[j], first_pass_at(w, s, j)),
    ensures
        marked_upto(g, k, c) == placed_upto(w, s, k, c) + if k <= i {
            min(misplaced_upto(w, s, k, c) as int, budget(w, s, c))
        } else {
            min(misplaced_upto(w, s, i, c) as int, budget(w, s, c))
        },
    decreases k,
{
    lemma_placed_le_count(w, s, w.len() as int, c);
    if k > 0 {
        lemma_marked_partial(w, s, g, i, k - 1, c);
    }
}

/// The marks for `c` in the scored guess of `w` against `s`.
pub proof fn lemma_marked_evaluate(w: Seq<char>, s: Seq<char>, c: char)
    requires
        w.len() == s.len(),
    ensures
        marked_count(evaluate(w, s), c) == placed_upto(w, s, w.len() as int, c) + min(
            misplaced_upto(w, s, w.len() as int, c) as int,
            budget(w, s, c),
        ),
        budget(w, s, c) >= 0,
{
    lemma_placed_le_count(w, s, w.len() as int, c);
    lemma_marked_partial(w, s, evaluate(w, s), w.len() as int, w.len() as int, c);
}

/// The characters of `s`, in order.
pub fn chars_of(s: &str) -> (r: Vec<char>)
    ensures
        r@ == s@,
{
    let n = s.unicode_len();
    let mut r: Vec<char> = Vec::with_capacity(n);
    let mut i: usize = 0;
    while i < n
        invariant
            n == s@.len(),
            i <= n,
            r@ == s@.subrange(0, i as int),
        decreases n - i,
    {
        r.push(s.get_char(i));
        i = i + 1;
    }
    assert(r@ =~= s@);
    r
}

/// How many letters of `s` are `c`.
pub fn count_char(s: &Vec<char>, c: char) -> (r: usize)
    ensures
        r == count_in(s@, c),
{
    let mut r: usize = 0;
    let mut i: usize = 0;
    while i < s.len()
        invariant
            i <= s.len(),
            r == count_upto(s@, i as int, c),
            r <= i,
        decreases s.len() - i,
    {
        if s[i] == c {
            r = r + 1;
        }
        i = i + 1;
    }
    r
}

/// How many positions of `g` hold `c` scored as placed or misplaced.
pub fn count_marked(g: &Guess, c: char) -> (r: usize)
    ensures
        r == marked_count(g@, c),
{
    let mut r: usize = 0;
    let mut i: usize = 0;
    while i < g.len()
        invariant
            i <= g.len(),
            r == marked_upto(g@, i as int, c),
            r <= i,
        decreases g.len() - i,
    {
        let (l, st) = g[i];
        if l == c && (st == LetterState::CorrectPlacement || st == LetterState::CorrectLetter) {
            r = r + 1;
        }
        i = i + 1;
    }
    r
}

/// Scores `guess` against `secret` in two passes: exact matches first, each
/// taking one copy of its letter from the secret; then, left to right, each
/// other position is misplaced while copies of its letter remain.
pub fn score_guess(guess: &Vec<char>, secret: &Vec<char>) -> (r: Guess)
    requires
        guess.len() == secret.len(),
    ensures
        r@ == evaluate(guess@, secret@),
{
    let n = guess.len();
    let mut result: Guess = Vec::with_capacity(n);
    let mut i: usize = 0;
    while i < n
        invariant
            n == guess.len() == secret.len(),
            i <= n,
            result@.len() == i,
            forall|j: int|
                0 <= j < i ==> result@[j] == (guess@[j], first_pass_at(guess@, secret@, j)),
        decreases n - i,
    {
        if guess[i] == secret[i] {
            result.push((guess[i], LetterState::CorrectPlacement));
        } else {
            result.push((guess[i], LetterState::Incorrect));
        }
        i = i + 1;
    }
    let mut i: usize = 0;
    while i < n
        invariant
            n == guess.len() == secret.len(),
            i <= n,
            result@.len() == n,
            forall|j: int|
                0 <= j < i ==> result@[j] == (guess@[j], score_at(guess@, secret@, j)),
            forall|j: int|
                i <= j < n ==> result@[j] == (guess@[j], first_pass_at(guess@, secret@, j)),
        decreases n - i,
    {
        if guess[i] != secret[i] {
            let c = guess[i];
            let total = count_char(secret, c);
            let claimed = count_marked(&result, c);
            proof {
                lemma_marked_partial(guess@, secret@, result@, i as int, n as int, c);
            }
            if claimed < total {
                result.set(i, (c, LetterState::CorrectLetter));
            }
        }
        i = i + 1;
    }
    assert(result@ =~= evaluate(guess@, secret@));
    result
}

} // verus!
