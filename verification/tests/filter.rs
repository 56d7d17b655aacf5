use wordle_solver::{compare, eliminate, Word};

#[test]
fn eliminate_keeps_agreeing_words_in_order() {
    let mut candidates: Vec<Word> = vec![*b"hello", *b"level", *b"world", *b"jelly"];
    eliminate(&mut candidates, b"level", 88);
    assert_eq!(candidates, vec![*b"hello", *b"jelly"]);
}

#[test]
fn eliminate_never_grows_and_keeps_only_agreeing_words() {
    let all: Vec<Word> = vec![
        *b"hello", *b"level", *b"world", *b"jelly", *b"lares", *b"cigar", *b"rebut", *b"sissy",
    ];
    for g in all.iter() {
        for code in 0..=242u8 {
            let mut candidates = all.clone();
            eliminate(&mut candidates, g, code);
            assert!(candidates.len() <= all.len());
            for x in candidates.iter() {
                assert_eq!(compare(x, g), code);
            }
            let expected: Vec<Word> =
                all.iter().copied().filter(|x| compare(x, g) == code).collect();
            assert_eq!(candidates, expected);
        }
    }
}

#[test]
fn eliminate_keeps_the_answer_under_honest_feedback() {
    let all: Vec<Word> = vec![*b"hello", *b"level", *b"world", *b"jelly", *b"lares"];
    for answer in all.iter() {
        for g in all.iter() {
            let mut candidates = all.clone();
            eliminate(&mut candidates, g, compare(answer, g));
            assert!(candidates.contains(answer));
        }
    }
}

#[test]
fn eliminate_with_all_correct_keeps_the_guess_alone() {
    let mut candidates: Vec<Word> = vec![*b"hello", *b"level", *b"hello", *b"world"];
    eliminate(&mut candidates, b"hello", 242);
    assert_eq!(candidates, vec![*b"hello", *b"hello"]);
}

#[test]
fn eliminate_drops_a_wrong_guess_that_was_a_candidate() {
    let mut candidates: Vec<Word> = vec![*b"hello", *b"level", *b"world"];
    let code = compare(b"world", b"level");
    eliminate(&mut candidates, b"level", code);
    assert!(!candidates.contains(b"level"));
    assert_eq!(candidates, vec![*b"world"]);
}

#[test]
fn eliminate_on_no_candidates() {
    let mut candidates: Vec<Word> = Vec::new();
    eliminate(&mut candidates, b"hello", 0);
    assert!(candidates.is_empty());
}

#[test]
fn eliminate_may_drop_every_candidate() {
    let mut candidates: Vec<Word> = vec![*b"hello", *b"world"];
    eliminate(&mut candidates, b"level", 242);
    assert!(candidates.is_empty());
}
