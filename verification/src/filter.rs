//! The candidate filter: after one observation, only the words that would
//! have given the same code stay in play.
use crate::feedback::{compare, feedback, lemma_all_correct_is_equal, lemma_feedback_of_self};
use crate::word::Word;
use vstd::prelude::*;

verus! {

/// The test that a word passes when `guess` scores `code` against it.
pub open spec fn agrees(guess: Seq<u8>, code: nat) -> spec_fn(Word) -> bool {
    |x: Word| feedback(x@, guess) == code
}

/// The candidates that remain once `guess` has scored `code`: those that
/// agree with it, in their old order.
pub open spec fn remaining(candidates: Seq<Word>, guess: Seq<u8>, code: nat) -> Seq<Word> {
    candidates.filter(agrees(guess, code))
}

/// What remains is never longer than what there was, and holds only words
/// that agree with the observation.
pub proof fn lemma_remaining_shrinks(candidates: Seq<Word>, guess: Seq<u8>, code: nat)
    ensures
        remaining(candidates, guess, code).len() <= candidates.len(),
        forall|i: int|
            0 <= i < remaining(candidates, guess, code).len() ==> feedback(
                (#[trigger] remaining(candidates, guess, code)[i])@,
                guess,
            ) == code,
        forall|x: Word| #[trigger]
            remaining(candidates, guess, code).contains(x) ==> candidates.contains(x),
{
    let pred = agrees(guess, code);
    candidates.lemma_filter_len(pred);
    assert forall|i: int| 0 <= i < remaining(candidates, guess, code).len() implies feedback(
        (#[trigger] remaining(candidates, guess, code)[i])@,
        guess,
    ) == code by {
        candidates.lemma_filter_pred(pred, i);
    }
    assert forall|x: Word| #[trigger]
        remaining(candidates, guess, code).contains(x) implies candidates.contains(x) by {
        candidates.lemma_filter_contains_rev(pred, x);
    }
}

/// A candidate stays exactly when it agrees with the observation.
pub proof fn lemma_remaining_contains(candidates: Seq<Word>, guess: Seq<u8>, code: nat, x: Word)
    ensures
        remaining(candidates, guess, code).contains(x) <==> candidates.contains(x) && feedback(
            x@,
            guess,
        ) == code,
{
    let pred = agrees(guess, code);
    let rest = remaining(candidates, guess, code);
    if rest.contains(x) {
        candidates.lemma_filter_contains_rev(pred, x);
        let i = choose|i: int| 0 <= i < rest.len() && rest[i] == x;
        candidates.lemma_filter_pred(pred, i);
    }
    if candidates.contains(x) && feedback(x@, guess) == code {
        let i = choose|i: int| 0 <= i < candidates.len() && candidates[i] == x;
        candidates.lemma_filter_contains(pred, i);
    }
}

/// An honest observation never removes the answer: filtering by the code
/// that `guess` scores against `answer` keeps `answer` among the candidates.
pub proof fn lemma_answer_remains(candidates: Seq<Word>, answer: Word, guess: Seq<u8>)
    requires
        candidates.contains(answer),
    ensures
        remaining(candidates, guess, feedback(answer@, guess)).contains(answer),
{
    lemma_remaining_contains(candidates, guess, feedback(answer@, guess), answer);
}

/// A candidate that disagrees with the observation makes the set strictly
/// smaller.
pub proof fn lemma_remaining_strict(candidates: Seq<Word>, guess: Seq<u8>, code: nat, x: Word)
    requires
        candidates.contains(x),
        feedback(x@, guess) != code,
    ensures
        remaining(candidates, guess, code).len() < candidates.len(),
    decreases candidates.len(),
{
    let pred = agrees(guess, code);
    let rest = candidates.drop_last();
    let last = candidates.last();
    assert(rest.push(last) =~= candidates);
    rest.lemma_filter_push(last, pred);
    rest.lemma_filter_len(pred);
    if last != x {
        let i = choose|i: int| 0 <= i < candidates.len() && candidates[i] == x;
        assert(rest[i] == x);
        lemma_remaining_strict(rest, guess, code, x);
    }
}

/// A wrong guess that was itself a candidate is gone after its own
/// observation, so the set is strictly smaller.
pub proof fn lemma_wrong_candidate_leaves(candidates: Seq<Word>, answer: Word, guess: Word)
    requires
        candidates.contains(guess),
        answer@ != guess@,
    ensures
        !remaining(candidates, guess@, feedback(answer@, guess@)).contains(guess),
        remaining(candidates, guess@, feedback(answer@, guess@)).len() < candidates.len(),
{
    let code = feedback(answer@, guess@);
    lemma_feedback_of_self(guess@);
    lemma_all_correct_is_equal(answer@, guess@);
    lemma_remaining_contains(candidates, guess@, code, guess);
    lemma_remaining_strict(candidates, guess@, code, guess);
}

/// Keeps in `candidates` the words against which `guess` scores `c`, in
/// their old order, and drops the others.
pub fn eliminate(candidates: &mut Vec<Word>, guess: &Word, c: u8)
    ensures
        final(candidates)@ == remaining(old(candidates)@, guess@, c as nat),
        final(candidates)@.len() <= old(candidates)@.len(),
        forall|i: int|
            0 <= i < final(candidates)@.len() ==> feedback(
                (#[trigger] final(candidates)@[i])@,
                guess@,
            ) == c,
{
    let ghost before = candidates@;
    let ghost pred = agrees(guess@, c as nat);
    let n: usize = candidates.len();
    let mut kept: Vec<Word> = Vec::new();
    let mut i: usize = 0;
    while i < n
        invariant
            i <= n,
            n == before.len(),
            candidates@ == before,
            pred == agrees(guess@, c as nat),
            kept@ == before.take(i as int).filter(pred),
        decreases n - i,
    {
        let x: Word = candidates[i];
        proof {
            assert(before.take(i + 1) =~= before.take(i as int).push(x));
            before.take(i as int).lemma_filter_push(x, pred);
        }
        if compare(&x, guess) == c {
            kept.push(x);
        }
        i = i + 1;
    }
    proof {
        assert(before.take(n as int) =~= before);
        lemma_remaining_shrinks(before, guess@, c as nat);
    }
    *candidates = kept;
}

} // verus!
