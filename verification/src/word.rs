//! Words and vocabularies.
use vstd::prelude::*;

verus! {

/// A word of the puzzle: five letters, held as raw bytes.
pub type Word = [u8; 5];

/// Whether two words hold the same letters at every place.
pub fn same_word(a: &Word, b: &Word) -> (r: bool)
    ensures
        r == (a@ == b@),
{
    let r = a[0] == b[0] && a[1] == b[1] && a[2] == b[2] && a[3] == b[3] && a[4] == b[4];
    proof {
        if r {
            assert(a@ =~= b@);
        }
    }
    r
}

/// Reads a word from raw bytes: the same five bytes, or nothing where
/// there are more or fewer than five.
pub fn word_of(bytes: &[u8]) -> (r: Option<Word>)
    ensures
        match r {
            Some(w) => bytes@.len() == 5 && w@ == bytes@,
            None => bytes@.len() != 5,
        },
{
    if bytes.len() != 5 {
        return None;
    }
    let w: Word = [bytes[0], bytes[1], bytes[2], bytes[3], bytes[4]];
    proof {
        assert(w@ =~= bytes@);
    }
    Some(w)
}

/// The vocabulary that a game is played with: the past answers first, then
/// the further words, each list in its own order.
pub fn vocabulary(history: &Vec<Word>, extra: &Vec<Word>) -> (words: Vec<Word>)
    ensures
        words@ == history@ + extra@,
{
    let mut words: Vec<Word> = Vec::with_capacity(history.len());
    let mut i: usize = 0;
    while i < history.len()
        invariant
            i <= history@.len(),
            words@ == history@.take(i as int),
        decreases history@.len() - i,
    {
        words.push(history[i]);
        proof {
            assert(history@.take(i + 1) =~= history@.take(i as int).push(history@[i as int]));
        }
        i = i + 1;
    }
    proof {
        assert(history@.take(history@.len() as int) =~= history@);
    }
    let mut j: usize = 0;
    while j < extra.len()
        invariant
            j <= extra@.len(),
            words@ == history@ + extra@.take(j as int),
        decreases extra@.len() - j,
    {
        words.push(extra[j]);
        proof {
            assert(history@ + extra@.take(j + 1) =~= (history@ + extra@.take(j as int)).push(
                extra@[j as int],
            ));
        }
        j = j + 1;
    }
    proof {
        assert(extra@.take(extra@.len() as int) =~= extra@);
    }
    words
}

} // verus!
