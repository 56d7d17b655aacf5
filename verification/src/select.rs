//! Choosing the next guess.
//!
//! A guess splits the candidates into buckets, one per feedback code. The
//! tally of a guess gives the size of each bucket; a candidate that equals
//! the guess is left out of it. A guess is ranked by a score drawn from its
//! tally, and the word with the least score is chosen, the earliest such
//! word where several share it.
//!
//! The score is the sum, over the buckets, of the size raised to the power
//! 2.5: few large buckets cost more than many small ones. That sum is
//! floating-point work and is the caller's. The caller hands in one integer
//! key per word; any keys will do that order as the scores do.
use crate::feedback::{compare, feedback, lemma_feedback_range, CODES};
use crate::word::{same_word, Word};
use vstd::prelude::*;

verus! {

/// The test that a candidate passes when it is counted in the bucket of
/// `code`: it is another word than the guess, and the guess scores `code`
/// against it.
pub open spec fn falls_in(guess: Seq<u8>, code: int) -> spec_fn(Word) -> bool {
    |x: Word| x@ != guess && feedback(x@, guess) == code
}

/// The size of the bucket of `code`.
pub open spec fn bucket_size(candidates: Seq<Word>, guess: Seq<u8>, code: int) -> nat {
    candidates.filter(falls_in(guess, code)).len()
}

/// The sizes of the buckets of the codes below `n`, added up.
pub open spec fn buckets_sum(candidates: Seq<Word>, guess: Seq<u8>, n: nat) -> nat
    decreases n,
{
    if n == 0 {
        0
    } else {
        buckets_sum(candidates, guess, (n - 1) as nat) + bucket_size(candidates, guess, n - 1)
    }
}

/// The test that a candidate passes when it equals the guess.
pub open spec fn is_guess(guess: Seq<u8>) -> spec_fn(Word) -> bool {
    |x: Word| x@ == guess
}

/// How often the guess stands among the candidates.
pub open spec fn occurrences(candidates: Seq<Word>, guess: Seq<u8>) -> nat {
    candidates.filter(is_guess(guess)).len()
}

/// Whether `groups` is the tally of `guess` over `candidates`: one entry
/// per code, each the size of that code's bucket.
pub open spec fn is_tally(groups: Seq<u64>, candidates: Seq<Word>, guess: Seq<u8>) -> bool {
    &&& groups.len() == 243
    &&& forall|code: int|
        0 <= code < 243 ==> #[trigger] groups[code] == bucket_size(candidates, guess, code)
}

/// The candidates and the guess determine the tally.
pub proof fn lemma_tally_unique(
    a: Seq<u64>,
    b: Seq<u64>,
    candidates: Seq<Word>,
    guess: Seq<u8>,
)
    requires
        is_tally(a, candidates, guess),
        is_tally(b, candidates, guess),
    ensures
        a == b,
{
    assert(a =~= b);
}

/// Whether `i` is the place of the least score, and the earliest such place.
pub open spec fn is_first_least(scores: Seq<u64>, i: int) -> bool {
    &&& 0 <= i < scores.len()
    &&& forall|j: int| 0 <= j < scores.len() ==> scores[i] <= #[trigger] scores[j]
    &&& forall|j: int| 0 <= j < i ==> scores[i] < #[trigger] scores[j]
}

/// The earliest place of the least score.
pub open spec fn first_least(scores: Seq<u64>) -> int {
    choose|i: int| is_first_least(scores, i)
}

/// The scores determine the choice: at most one place is the earliest
/// place of the least score.
pub proof fn lemma_first_least_unique(scores: Seq<u64>, i: int, j: int)
    requires
        is_first_least(scores, i),
        is_first_least(scores, j),
    ensures
        i == j,
{
    if i < j {
        assert(scores[j] < scores[i]);
    }
    if j < i {
        assert(scores[i] < scores[j]);
    }
}

proof fn lemma_buckets_sum_push(candidates: Seq<Word>, x: Word, guess: Seq<u8>, n: nat)
    ensures
        buckets_sum(candidates.push(x), guess, n) == buckets_sum(candidates, guess, n) + if x@
            != guess && feedback(x@, guess) < n {
            1nat
        } else {
            0nat
        },
    decreases n,
{
    if n > 0 {
        let m = (n - 1) as nat;
        lemma_buckets_sum_push(candidates, x, guess, m);
        candidates.lemma_filter_push(x, falls_in(guess, m as int));
    }
}

/// The buckets and the copies of the guess together hold every candidate
/// once: the sizes of all buckets and the number of candidates that equal
/// the guess add up to the number of candidates.
pub proof fn lemma_tally_total(candidates: Seq<Word>, guess: Seq<u8>)
    ensures
        buckets_sum(candidates, guess, 243) + occurrences(candidates, guess) == candidates.len(),
    decreases candidates.len(),
{
    if candidates.len() == 0 {
        lemma_buckets_sum_empty(candidates, guess, 243);
        candidates.lemma_filter_len(is_guess(guess));
    } else {
        let rest = candidates.drop_last();
        let x = candidates.last();
        assert(rest.push(x) =~= candidates);
        lemma_tally_total(rest, guess);
        lemma_buckets_sum_push(rest, x, guess, 243);
        rest.lemma_filter_push(x, is_guess(guess));
        lemma_feedback_range(x@, guess);
    }
}

proof fn lemma_buckets_sum_empty(candidates: Seq<Word>, guess: Seq<u8>, n: nat)
    requires
        candidates.len() == 0,
    ensures
        buckets_sum(candidates, guess, n) == 0,
    decreases n,
{
    if n > 0 {
        lemma_buckets_sum_empty(candidates, guess, (n - 1) as nat);
        candidates.lemma_filter_len(falls_in(guess, n - 1));
    }
}

/// Among candidates of which no two are equal, the guess stands once if it
/// is a candidate and not at all if it is none: such candidates meet what
/// `lemma_tally_total_single` asks.
pub proof fn lemma_occurrences_distinct(candidates: Seq<Word>, guess: Word)
    requires
        candidates.no_duplicates(),
    ensures
        occurrences(candidates, guess@) == if candidates.contains(guess) {
            1nat
        } else {
            0nat
        },
    decreases candidates.len(),
{
    if candidates.len() == 0 {
        candidates.lemma_filter_len(is_guess(guess@));
    } else {
        let rest = candidates.drop_last();
        let x = candidates.last();
        assert(rest.push(x) =~= candidates);
        lemma_occurrences_distinct(rest, guess);
        rest.lemma_filter_push(x, is_guess(guess@));
        if x@ == guess@ {
            assert(x == guess);
            assert(!rest.contains(guess)) by {
                if rest.contains(guess) {
                    let i = choose|i: int| 0 <= i < rest.len() && rest[i] == guess;
                    assert(candidates[i] == candidates[candidates.len() - 1]);
                }
            }
        } else {
            if candidates.contains(guess) {
                let i = choose|i: int| 0 <= i < candidates.len() && candidates[i] == guess;
                assert(rest[i] == guess);
            }
            if rest.contains(guess) {
                let i = choose|i: int| 0 <= i < rest.len() && rest[i] == guess;
                assert(candidates[i] == guess);
            }
        }
    }
}

/// The guess stands among the candidates at least once exactly when it is
/// a candidate.
pub proof fn lemma_occurrences_positive(candidates: Seq<Word>, guess: Word)
    ensures
        occurrences(candidates, guess@) > 0 <==> candidates.contains(guess),
{
    let pred = is_guess(guess@);
    let copies = candidates.filter(pred);
    if copies.len() > 0 {
        candidates.lemma_filter_pred(pred, 0);
        assert(copies[0]@ == guess@);
        assert(copies[0] == guess);
        candidates.lemma_filter_contains_rev(pred, guess);
    }
    if candidates.contains(guess) {
        let i = choose|i: int| 0 <= i < candidates.len() && candidates[i] == guess;
        candidates.lemma_filter_contains(pred, i);
    }
}

/// Leaving the guess out of its own tally costs exactly one count: where
/// the guess stands among the candidates at most once, the buckets add up
/// to the number of candidates less one if the guess is a candidate, and to
/// the number of candidates if it is none.
pub proof fn lemma_tally_total_single(candidates: Seq<Word>, guess: Word)
    requires
        occurrences(candidates, guess@) <= 1,
    ensures
        candidates.contains(guess) ==> buckets_sum(candidates, guess@, 243) == candidates.len() - 1,
        !candidates.contains(guess) ==> buckets_sum(candidates, guess@, 243) == candidates.len(),
{
    lemma_tally_total(candidates, guess@);
    lemma_occurrences_positive(candidates, guess);
}

/// Tallies the candidates by the code that `guess` scores against each,
/// leaving out those that equal the guess: entry `code` of the result is
/// the size of the bucket of `code`.
pub fn tally(candidates: &Vec<Word>, guess: &Word) -> (groups: Vec<u64>)
    ensures
        is_tally(groups@, candidates@, guess@),
{
    let n: usize = candidates.len();
    let mut groups: Vec<u64> = Vec::new();
    let mut k: usize = 0;
    while k < CODES
        invariant
            k <= CODES,
            groups@.len() == k,
            forall|code: int| 0 <= code < k ==> #[trigger] groups@[code] == 0,
        decreases CODES - k,
    {
        groups.push(0);
        k = k + 1;
    }
    proof {
        assert forall|code: int| 0 <= code < 243 implies bucket_size(
            candidates@.take(0),
            guess@,
            code,
        ) == 0 by {
            candidates@.take(0).lemma_filter_len(falls_in(guess@, code));
        }
    }
    let mut i: usize = 0;
    while i < n
        invariant
            i <= n,
            n == candidates@.len(),
            groups@.len() == CODES,
            forall|code: int|
                0 <= code < 243 ==> #[trigger] groups@[code] == bucket_size(candidates@.take(i as int), guess@, code),
            forall|code: int| 0 <= code < 243 ==> #[trigger] groups@[code] <= i,
        decreases n - i,
    {
        let x: Word = candidates[i];
        proof {
            assert(candidates@.take(i + 1) =~= candidates@.take(i as int).push(x));
            assert forall|code: int| 0 <= code < 243 implies #[trigger] bucket_size(
                candidates@.take(i + 1),
                guess@,
                code,
            ) == bucket_size(candidates@.take(i as int), guess@, code) + if x@ != guess@
                && feedback(x@, guess@) == code {
                1nat
            } else {
                0nat
            } by {
                candidates@.take(i as int).lemma_filter_push(x, falls_in(guess@, code));
            }
        }
        if !same_word(&x, guess) {
            let code: usize = compare(&x, guess) as usize;
            let size: u64 = groups[code];
            groups.set(code, size + 1);
        }
        i = i + 1;
    }
    proof {
        assert(candidates@.take(n as int) =~= candidates@);
    }
    groups
}

/// Chooses the word with the least score, and the earliest such word where
/// several share the least score. `scores` holds, place by place, the score
/// of the word at that place.
pub fn guess(words: &Vec<Word>, scores: &Vec<u64>) -> (chosen: Word)
    requires
        words@.len() > 0,
        scores@.len() == words@.len(),
    ensures
        is_first_least(scores@, first_least(scores@)),
        chosen == words@[first_least(scores@)],
{
    let n: usize = words.len();
    let mut best: usize = 0;
    let mut i: usize = 1;
    while i < n
        invariant
            1 <= i <= n,
            n == words@.len(),
            n == scores@.len(),
            best < i,
            is_first_least(scores@.take(i as int), best as int),
        decreases n - i,
    {
        if scores[i] < scores[best] {
            best = i;
        }
        i = i + 1;
    }
    proof {
        assert(scores@.take(n as int) =~= scores@);
        lemma_first_least_unique(scores@, best as int, first_least(scores@));
    }
    words[best]
}

} // verus!
