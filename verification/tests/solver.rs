use wordle_solver::{compare, guess, tally, Solver, Word};

fn sample() -> Vec<Word> {
    vec![
        *b"cigar", *b"rebut", *b"sissy", *b"humph", *b"awake", *b"blush", *b"focal", *b"evade",
        *b"naval", *b"serve", *b"heath", *b"dwarf", *b"model", *b"karma", *b"stink", *b"grade",
        *b"lares", *b"hello", *b"level", *b"world",
    ]
}

fn select(words: &Vec<Word>, candidates: &Vec<Word>) -> Word {
    let mut scores: Vec<u64> = Vec::new();
    for g in words.iter() {
        let mut score: f64 = 0.;
        for size in tally(candidates, g) {
            score += (size as f64).powf(2.5);
        }
        scores.push(score.to_bits());
    }
    guess(words, &scores)
}

fn play(words: &Vec<Word>, answer: &Word, opening: &Vec<Word>) -> Vec<Word> {
    let mut solver = Solver::new(words);
    let mut guesses: Vec<Word> = Vec::new();
    loop {
        assert!(guesses.len() <= words.len() + opening.len());
        let g = match solver.forced(opening) {
            Some(w) => w,
            None => select(words, &solver.candidates),
        };
        guesses.push(g);
        let before = solver.candidates.len();
        let solved = solver.evaluate(answer, &g);
        assert_eq!(solver.attempts as usize, guesses.len());
        assert!(solver.candidates.len() <= before);
        assert!(solver.candidates.contains(answer));
        if solved {
            return guesses;
        }
    }
}

#[test]
fn new_starts_with_the_vocabulary() {
    let words = sample();
    let solver = Solver::new(&words);
    assert_eq!(solver.candidates, words);
    assert_eq!(solver.attempts, 0);
}

#[test]
fn forced_follows_the_opening() {
    let words = sample();
    let opening: Vec<Word> = vec![*b"lares", *b"cigar"];
    let mut solver = Solver::new(&words);
    assert_eq!(solver.forced(&opening), Some(*b"lares"));
    assert_eq!(solver.forced(&Vec::new()), None);
    assert!(!solver.evaluate(b"world", b"lares"));
    assert_eq!(solver.forced(&opening), Some(*b"cigar"));
    assert!(!solver.evaluate(b"world", b"cigar"));
    assert_eq!(solver.forced(&opening), None);
}

#[test]
fn evaluate_counts_and_filters() {
    let words: Vec<Word> = vec![*b"hello", *b"level", *b"world", *b"jelly"];
    let mut solver = Solver::new(&words);
    assert!(!solver.evaluate(b"jelly", b"level"));
    assert_eq!(solver.attempts, 1);
    assert_eq!(solver.candidates, vec![*b"hello", *b"jelly"]);
    assert!(!solver.evaluate(b"jelly", b"hello"));
    assert_eq!(solver.attempts, 2);
    assert_eq!(solver.candidates, vec![*b"jelly"]);
    assert!(solver.evaluate(b"jelly", b"jelly"));
    assert_eq!(solver.attempts, 3);
    assert_eq!(solver.candidates, vec![*b"jelly"]);
}

#[test]
fn evaluate_solves_at_the_first_guess() {
    let words = sample();
    let mut solver = Solver::new(&words);
    assert!(solver.evaluate(b"cigar", b"cigar"));
    assert_eq!(solver.attempts, 1);
    assert_eq!(solver.candidates, words);
}

#[test]
fn game_ends_with_the_answer() {
    let words = sample();
    for answer in words.iter() {
        let guesses = play(&words, answer, &Vec::new());
        assert!(guesses.len() >= 1);
        assert_eq!(guesses.last(), Some(answer));
        assert!(guesses[..guesses.len() - 1].iter().all(|g| g != answer));
    }
}

#[test]
fn game_with_an_opening_plays_it_first() {
    let words = sample();
    let opening: Vec<Word> = vec![*b"lares"];
    for answer in words.iter() {
        let guesses = play(&words, answer, &opening);
        assert_eq!(guesses[0], *b"lares");
        assert_eq!(guesses.last(), Some(answer));
        if answer == b"lares" {
            assert_eq!(guesses.len(), 1);
        } else {
            assert!(guesses.len() >= 2);
        }
    }
}

#[test]
fn game_over_one_word() {
    let words: Vec<Word> = vec![*b"hello"];
    assert_eq!(play(&words, b"hello", &Vec::new()), vec![*b"hello"]);
}

#[test]
fn selection_is_repeatable() {
    let words = sample();
    let mut candidates = words.clone();
    candidates.retain(|x| compare(x, b"lares") == compare(b"world", b"lares"));
    assert_eq!(select(&words, &candidates), select(&words.clone(), &candidates.clone()));
}

#[test]
fn selection_prefers_the_sole_candidate() {
    let words = sample();
    let candidates: Vec<Word> = vec![*b"world"];
    assert_eq!(select(&words, &candidates), *b"world");
}
