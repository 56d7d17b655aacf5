//! One game: the rounds of guessing that lead to the answer.
//!
//! A game starts with every word of the vocabulary as a candidate and no
//! attempt made. Each round takes a guess, counts it, and either ends the
//! game, when the guess is the answer, or filters the candidates by what the
//! guess scored. The opening words, where there are any, are played first
//! and in their order, whatever the candidates are.
use crate::feedback::{compare, feedback};
use crate::filter::{eliminate, lemma_answer_remains, lemma_remaining_shrinks, remaining};
use crate::word::{same_word, Word};
use vstd::prelude::*;

verus! {

/// The candidates that are left of `candidates` when the words of
/// `guesses` have been played, in their order, against `answer`.
pub open spec fn narrowed(candidates: Seq<Word>, answer: Word, guesses: Seq<Word>) -> Seq<Word>
    decreases guesses.len(),
{
    if guesses.len() == 0 {
        candidates
    } else {
        remaining(
            narrowed(candidates, answer, guesses.drop_last()),
            guesses.last()@,
            feedback(answer@, guesses.last()@),
        )
    }
}

/// Whatever is guessed, and however often, the answer stays a candidate
/// once it is one, and the candidates never become more.
pub proof fn lemma_answer_never_leaves(candidates: Seq<Word>, answer: Word, guesses: Seq<Word>)
    requires
        candidates.contains(answer),
    ensures
        narrowed(candidates, answer, guesses).contains(answer),
        1 <= narrowed(candidates, answer, guesses).len() <= candidates.len(),
    decreases guesses.len(),
{
    if guesses.len() > 0 {
        let before = narrowed(candidates, answer, guesses.drop_last());
        let g = guesses.last()@;
        lemma_answer_never_leaves(candidates, answer, guesses.drop_last());
        lemma_answer_remains(before, answer, g);
        lemma_remaining_shrinks(before, g, feedback(answer@, g));
    }
}

/// The state of one game.
pub struct Solver {
    /// The words that every observation so far allows as the answer.
    pub candidates: Vec<Word>,
    /// The number of guesses made.
    pub attempts: u32,
}

impl Solver {
    /// Starts a game: every word of the vocabulary is a candidate, in the
    /// vocabulary's order, and no attempt has been made.
    pub fn new(words: &Vec<Word>) -> (s: Solver)
        ensures
            s.candidates@ == words@,
            s.attempts == 0,
    {
        let n: usize = words.len();
        let mut candidates: Vec<Word> = Vec::with_capacity(n);
        let mut i: usize = 0;
        while i < n
            invariant
                i <= n,
                n == words@.len(),
                candidates@ == words@.take(i as int),
            decreases n - i,
        {
            candidates.push(words[i]);
            proof {
                assert(words@.take(i + 1) =~= words@.take(i as int).push(words@[i as int]));
            }
            i = i + 1;
        }
        proof {
            assert(words@.take(n as int) =~= words@);
        }
        Solver { candidates, attempts: 0 }
    }

    /// The guess that the opening forces on the coming round: the opening's
    /// word at the place of the attempts made, if it has one there.
    pub fn forced(&self, opening: &Vec<Word>) -> (next: Option<Word>)
        ensures
            self.attempts < opening@.len() ==> next == Some(opening@[self.attempts as int]),
            self.attempts >= opening@.len() ==> next.is_none(),
    {
        let at: usize = self.attempts as usize;
        if at < opening.len() {
            Some(opening[at])
        } else {
            None
        }
    }

    /// Plays one round with `guess`. The attempt is counted. If the guess is
    /// the answer the game is solved and the candidates stay as they were;
    /// otherwise the candidates are filtered by the code that the guess
    /// scores against the answer.
    pub fn evaluate(&mut self, answer: &Word, guess: &Word) -> (solved: bool)
        requires
            old(self).attempts < u32::MAX,
        ensures
            solved == (guess@ == answer@),
            final(self).attempts == old(self).attempts + 1,
            solved ==> final(self).candidates@ == old(self).candidates@,
            !solved ==> final(self).candidates@ == remaining(
                old(self).candidates@,
                guess@,
                feedback(answer@, guess@),
            ),
            final(self).candidates@.len() <= old(self).candidates@.len(),
            old(self).candidates@.contains(*answer) ==> final(self).candidates@.contains(*answer),
    {
        self.attempts = self.attempts + 1;
        if same_word(guess, answer) {
            return true;
        }
        let code: u8 = compare(answer, guess);
        proof {
            if self.candidates@.contains(*answer) {
                lemma_answer_remains(self.candidates@, *answer, guess@);
            }
        }
        eliminate(&mut self.candidates, guess, code);
        false
    }
}

} // verus!
