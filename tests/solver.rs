use wordle_game::constraint::word_matches;
use wordle_game::game::WordleGame;
use wordle_game::solver::{run_batch, summarize, WordleGameScore, WordleSolver};
use wordle_game::solver_strategy::narrowing_random::NarrowingRandomWordleSolver;
use wordle_game::solver_strategy::{remaining_candidates, SolverStrategy};
use wordle_game::types::{GameCondition, WordleGameState};

const ANSWERS: [&str; 8] = ["crate", "salad", "hello", "slate", "would", "lymph", "bison", "stare"];

#[test]
fn candidates_are_the_consistent_words_in_order() {
    let mut game = WordleGame::new(&ANSWERS, &[], "salad");
    assert_eq!(game.make_guess("slate"), Ok(()));
    let words: Vec<String> = ANSWERS.iter().map(|w| w.to_string()).collect();
    let state = game.game_state();
    let left = remaining_candidates(&words, &state);
    let expected: Vec<String> =
        words.iter().filter(|w| word_matches(w, &state)).cloned().collect();
    assert_eq!(left, expected);
    assert_eq!(left, vec!["salad".to_string()]);
}

#[test]
fn no_history_keeps_every_word() {
    let guesses = Vec::new();
    let state = WordleGameState { guesses: &guesses, condition: GameCondition::Playing };
    let words: Vec<String> = ANSWERS.iter().map(|w| w.to_string()).collect();
    assert_eq!(remaining_candidates(&words, &state), words);
}

#[test]
fn narrowing_solver_proposes_consistent_words_once() {
    let mut game = WordleGame::new(&ANSWERS, &[], "hello");
    let mut strategy = NarrowingRandomWordleSolver::new(&ANSWERS);
    let mut seen = Vec::new();
    while game.game_condition() == GameCondition::Playing {
        let state = game.game_state();
        let w = strategy.next_guess(&state);
        assert!(word_matches(&w, &state));
        assert!(ANSWERS.contains(&w.as_str()));
        assert!(!seen.contains(&w));
        seen.push(w.clone());
        // Every proposal is taken.
        assert_eq!(game.make_guess(&w), Ok(()));
    }
    assert_ne!(game.game_condition(), GameCondition::Playing);
    assert!(seen.len() <= 6);
}

#[test]
fn empty_pool_gives_nothing() {
    let guesses = Vec::new();
    let state = WordleGameState { guesses: &guesses, condition: GameCondition::Playing };
    let mut strategy = NarrowingRandomWordleSolver::new(&[]);
    assert_eq!(strategy.pick_candidate(&state), None);
    let mut one = NarrowingRandomWordleSolver::new(&["hello"]);
    assert_eq!(one.pick_candidate(&state), Some("hello".to_string()));
    assert_eq!(one.pick_candidate(&state), None);
}

#[test]
fn solver_plays_to_the_end() {
    for secret in ANSWERS {
        let game = WordleGame::new(&ANSWERS, &[], secret);
        let strategy = NarrowingRandomWordleSolver::new(&ANSWERS);
        let mut solver = WordleSolver::new(game, strategy);
        let score = solver.run_game();
        assert_ne!(score.result, GameCondition::Playing);
        assert!(score.num_guesses >= 1 && score.num_guesses <= 6);
        if score.result == GameCondition::Loss {
            assert_eq!(score.num_guesses, 6);
        }
        assert_eq!(solver.game().game_state().guesses.len(), score.num_guesses);
        assert_eq!(solver.game().game_condition(), score.result);
    }
}

#[test]
fn summary_counts_wins_and_guesses() {
    let scores = vec![
        WordleGameScore { num_guesses: 3, result: GameCondition::Win },
        WordleGameScore { num_guesses: 6, result: GameCondition::Loss },
        WordleGameScore { num_guesses: 4, result: GameCondition::Win },
    ];
    let s = summarize(&scores);
    assert_eq!(s.games, 3);
    assert_eq!(s.win_total, 2);
    assert_eq!(s.total_guesses, 13);
    let empty = summarize(&Vec::new());
    assert_eq!((empty.games, empty.win_total, empty.total_guesses), (0, 0, 0));
}

#[test]
fn batch_of_games_is_summed() {
    let s = run_batch(&ANSWERS, &[], 25);
    assert_eq!(s.games, 25);
    assert!(s.win_total <= 25);
    assert!(s.total_guesses >= (s.win_total + (25 - s.win_total) * 6) as u64);
    assert!(s.total_guesses >= 25 && s.total_guesses <= 150);
}

#[test]
fn finished_game_is_left_alone() {
    let mut game = WordleGame::new(&ANSWERS, &[], "hello");
    assert_eq!(game.make_guess("hello"), Ok(()));
    let strategy = NarrowingRandomWordleSolver::new(&ANSWERS);
    let mut solver = WordleSolver::new(game, strategy);
    let score = solver.run_game();
    assert_eq!(score.result, GameCondition::Win);
    assert_eq!(score.num_guesses, 1);
    assert_eq!(solver.game().game_state().guesses.len(), 1);
}

#[test]
fn empty_batch_sums_to_nothing() {
    let s = run_batch(&ANSWERS, &[], 0);
    assert_eq!((s.games, s.win_total, s.total_guesses), (0, 0, 0));
}

#[test]
fn turned_down_proposals_are_retried() {
    // The strategy holds words the game does not accept; they are passed
    // over and never counted.
    let accepted = ["hello", "crate", "salad"];
    for _ in 0..10 {
        let game = WordleGame::new(&accepted, &[], "hello");
        let strategy = NarrowingRandomWordleSolver::new(&ANSWERS);
        let mut solver = WordleSolver::new(game, strategy);
        let score = solver.run_game();
        assert_eq!(score.result, GameCondition::Win);
        let words = solver.game().words_already_guessed();
        assert_eq!(words.len(), score.num_guesses);
        assert!(words.iter().all(|w| accepted.contains(&w.as_str())));
    }
}

#[test]
fn finished_game_needs_no_words() {
    let mut game = WordleGame::new(&ANSWERS, &[], "crate");
    for w in ["would", "lymph", "bison", "hello", "salad", "stare"] {
        assert_eq!(game.make_guess(w), Ok(()));
    }
    assert_eq!(game.game_condition(), GameCondition::Loss);
    let mut solver = WordleSolver::new(game, NarrowingRandomWordleSolver::new(&[]));
    let score = solver.run_game();
    assert_eq!(score.result, GameCondition::Loss);
    assert_eq!(score.num_guesses, 6);
}
