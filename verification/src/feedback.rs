//! Feedback codes: what a guess scores against an answer.
//!
//! A code packs five marks, one per place, in base three: place `i` carries
//! its mark times `3^i`. A mark is 2 where guess and answer agree at that
//! place, 1 where the guessed letter stands elsewhere in the answer and has
//! not been credited yet, and 0 otherwise.
use crate::word::Word;
use vstd::prelude::*;

verus! {

/// The code of a guess that equals the answer: every mark is 2.
pub const ALL_CORRECT: u8 = 242;

/// How many codes there are: `3^5`.
pub const CODES: usize = 243;

/// Among the places below `n`, how many hold `letter` in the answer while
/// the guess holds another letter there.
pub open spec fn unmatched_in_answer(answer: Seq<u8>, guess: Seq<u8>, letter: u8, n: int) -> nat
    decreases n,
{
    if n <= 0 {
        0
    } else {
        unmatched_in_answer(answer, guess, letter, n - 1) + if answer[n - 1] == letter && answer[n
            - 1] != guess[n - 1] {
            1nat
        } else {
            0nat
        }
    }
}

/// Among the places below `n`, how many hold `letter` in the guess while
/// the answer holds another letter there.
pub open spec fn unmatched_in_guess(answer: Seq<u8>, guess: Seq<u8>, letter: u8, n: int) -> nat
    decreases n,
{
    if n <= 0 {
        0
    } else {
        unmatched_in_guess(answer, guess, letter, n - 1) + if guess[n - 1] == letter && answer[n
            - 1] != guess[n - 1] {
            1nat
        } else {
            0nat
        }
    }
}

/// The mark of place `i`. A guessed letter that misses its place is credited
/// as present only while the answer has unmatched copies of it left: the
/// copies go to the earliest such places of the guess.
pub open spec fn mark(answer: Seq<u8>, guess: Seq<u8>, i: int) -> nat {
    if answer[i] == guess[i] {
        2
    } else if unmatched_in_guess(answer, guess, guess[i], i) < unmatched_in_answer(
        answer,
        guess,
        guess[i],
        5,
    ) {
        1
    } else {
        0
    }
}

/// The weight of place `i` in a code: `3^i`.
spec fn weight(i: int) -> nat {
    if i <= 0 {
        1
    } else if i == 1 {
        3
    } else if i == 2 {
        9
    } else if i == 3 {
        27
    } else if i == 4 {
        81
    } else {
        243
    }
}

/// The feedback code of `guess` against `answer`, both of five letters.
pub open spec fn feedback(answer: Seq<u8>, guess: Seq<u8>) -> nat {
    mark(answer, guess, 0) + 3 * mark(answer, guess, 1) + 9 * mark(answer, guess, 2) + 27 * mark(
        answer,
        guess,
        3,
    ) + 81 * mark(answer, guess, 4)
}

/// The part of the code that the places below `n` carry.
spec fn code_below(answer: Seq<u8>, guess: Seq<u8>, n: int) -> nat
    decreases n,
{
    if n <= 0 {
        0
    } else {
        code_below(answer, guess, n - 1) + mark(answer, guess, n - 1) * weight(n - 1)
    }
}

/// How many unmatched copies of `letter` the answer still has to give when
/// the places below `n` of the guess have been served.
spec fn left_over(answer: Seq<u8>, guess: Seq<u8>, letter: u8, n: int) -> nat {
    let have = unmatched_in_answer(answer, guess, letter, 5);
    let used = unmatched_in_guess(answer, guess, letter, n);
    if used < have {
        (have - used) as nat
    } else {
        0
    }
}

/// The parts of a code add up to the code.
proof fn lemma_code_below_all(answer: Seq<u8>, guess: Seq<u8>)
    ensures
        code_below(answer, guess, 5) == feedback(answer, guess),
{
    reveal_with_fuel(code_below, 6);
}

/// Every code lies in `0..=242`.
pub proof fn lemma_feedback_range(answer: Seq<u8>, guess: Seq<u8>)
    ensures
        feedback(answer, guess) <= 242,
{
}

/// A word scores all-correct against itself.
pub proof fn lemma_feedback_of_self(x: Seq<u8>)
    requires
        x.len() == 5,
    ensures
        feedback(x, x) == 242,
{
}

/// Only the answer itself scores all-correct.
pub proof fn lemma_all_correct_is_equal(answer: Seq<u8>, guess: Seq<u8>)
    requires
        answer.len() == 5,
        guess.len() == 5,
    ensures
        feedback(answer, guess) == 242 <==> answer == guess,
{
    if feedback(answer, guess) == 242 {
        assert(mark(answer, guess, 4) == 2);
        assert(mark(answer, guess, 3) == 2);
        assert(mark(answer, guess, 2) == 2);
        assert(mark(answer, guess, 1) == 2);
        assert(mark(answer, guess, 0) == 2);
        assert(answer =~= guess);
    }
}

/// Among the places below `n`, how many hold `letter` in the guess and are
/// marked as present.
pub open spec fn present_marks(answer: Seq<u8>, guess: Seq<u8>, letter: u8, n: int) -> nat
    decreases n,
{
    if n <= 0 {
        0
    } else {
        present_marks(answer, guess, letter, n - 1) + if guess[n - 1] == letter && mark(
            answer,
            guess,
            n - 1,
        ) == 1 {
            1nat
        } else {
            0nat
        }
    }
}

/// A letter is credited as present as often as it misses its place in the
/// guess, but no more often than the answer holds it unmatched.
pub proof fn lemma_present_marks(answer: Seq<u8>, guess: Seq<u8>, letter: u8, n: int)
    requires
        0 <= n <= 5,
    ensures
        present_marks(answer, guess, letter, n) == if unmatched_in_guess(answer, guess, letter, n)
            < unmatched_in_answer(answer, guess, letter, 5) {
            unmatched_in_guess(answer, guess, letter, n)
        } else {
            unmatched_in_answer(answer, guess, letter, 5)
        },
    decreases n,
{
    if n > 0 {
        lemma_present_marks(answer, guess, letter, n - 1);
    }
}

/// Scores `guess` against `answer`.
///
/// The first pass counts, letter by letter, the copies that the answer holds
/// at places where the guess misses. The second pass gives each place its
/// mark and takes one copy away for every letter credited as present.
pub fn compare(answer: &Word, guess: &Word) -> (code: u8)
    ensures
        code == feedback(answer@, guess@),
        code <= ALL_CORRECT,
{
    let mut left: [u8; 256] = [0u8; 256];
    let mut i: usize = 0;
    while i < 5
        invariant
            i <= 5,
            forall|c: u8| #[trigger] left@[c as int] == unmatched_in_answer(answer@, guess@, c, i as int),
            forall|c: u8| #[trigger] left@[c as int] <= i,
        decreases 5 - i,
    {
        let a: u8 = answer[i];
        if a != guess[i] {
            let slot: usize = a as usize;
            left[slot] = left[slot] + 1;
        }
        i = i + 1;
    }
    let mut code: u8 = 0;
    let mut unit: u8 = 1;
    let mut i: usize = 0;
    while i < 5
        invariant
            i <= 5,
            unit == weight(i as int),
            code == code_below(answer@, guess@, i as int),
            code < unit,
            forall|c: u8| #[trigger] left@[c as int] == left_over(answer@, guess@, c, i as int),
        decreases 5 - i,
    {
        let g: u8 = guess[i];
        let slot: usize = g as usize;
        if answer[i] == g {
            code = code + 2 * unit;
        } else if left[slot] > 0 {
            code = code + unit;
            left[slot] = left[slot] - 1;
        }
        if i < 4 {
            unit = unit * 3;
        } else {
            unit = 243;
        }
        i = i + 1;
    }
    proof {
        lemma_code_below_all(answer@, guess@);
    }
    code
}

} // verus!
