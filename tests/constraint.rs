use wordle_game::constraint::word_satisfies_contraint;
use wordle_game::types::LetterState::{CorrectLetter, CorrectPlacement, Incorrect};

#[test]
fn matches_all_correct_placements() {
    let res = word_satisfies_contraint(
        "hello",
        &vec![
            ('h', CorrectPlacement),
            ('e', CorrectPlacement),
            ('l', CorrectPlacement),
            ('l', CorrectPlacement),
            ('o', CorrectPlacement),
        ],
    );
    assert!(res);
}

#[test]
fn matches_some_correct_placements() {
    let res = word_satisfies_contraint(
        "there",
        &vec![
            ('t', CorrectPlacement),
            ('h', CorrectPlacement),
            ('i', Incorrect),
            ('r', CorrectPlacement),
            ('d', Incorrect),
        ],
    );
    assert!(res);
}

#[test]
fn matches_correct_letters() {
    let res = word_satisfies_contraint(
        "tares",
        &vec![
            ('s', CorrectLetter),
            ('t', CorrectLetter),
            ('a', CorrectLetter),
            ('r', CorrectLetter),
            ('e', CorrectLetter),
        ],
    );
    assert!(res);
}

#[test]
fn does_not_match_one_incorrect() {
    let res = word_satisfies_contraint(
        "arise",
        &vec![
            ('r', Incorrect),
            ('a', Incorrect),
            ('i', CorrectPlacement),
            ('s', CorrectPlacement),
            ('e', CorrectPlacement),
        ],
    );
    assert_eq!(res, false);
}

#[test]
fn too_few_copies_of_a_marked_letter_fail() {
    // "hello" marks two l's; "helps" holds only one.
    let g = vec![
        ('l', CorrectLetter),
        ('l', CorrectLetter),
        ('z', Incorrect),
        ('z', Incorrect),
        ('z', Incorrect),
    ];
    assert!(!word_satisfies_contraint("helps", &g));
    assert!(word_satisfies_contraint("hello", &g));
}

#[test]
fn incorrect_caps_the_count_at_the_marks() {
    // One l is marked and one is incorrect: the secret has exactly one l.
    let g = vec![
        ('l', CorrectPlacement),
        ('l', Incorrect),
        ('a', Incorrect),
        ('a', Incorrect),
        ('a', Incorrect),
    ];
    assert!(word_satisfies_contraint("lemon", &g));
    assert!(!word_satisfies_contraint("lolly", &g));
}

#[test]
fn misplaced_letter_excludes_its_own_position() {
    let g = vec![
        ('e', CorrectLetter),
        ('x', Incorrect),
        ('x', Incorrect),
        ('x', Incorrect),
        ('x', Incorrect),
    ];
    assert!(!word_satisfies_contraint("eagle", &g));
    assert!(word_satisfies_contraint("bread", &g));
}
