//! Word lists: a JSON array of strings, read into words.
use crate::word::{word_of, Word};
use vstd::prelude::*;

verus! {

/// Why a text was refused as a word list.
#[derive(Debug, Clone, Copy, PartialEq, Eq)]
pub enum ListError {
    /// The text is no JSON array of strings.
    Malformed,
    /// The entry at this place, the first such, has more or fewer than five
    /// bytes.
    WrongLength(usize),
}

/// The error type of `serde_json`, carried through unread.
#[verifier::external_type_specification]
#[verifier::external_body]
pub struct ExJsonError(serde_json::Error);

/// What `serde_json::from_slice` makes of `text` when a list of strings is
/// asked of it: the strings in their order, each as its bytes, or nothing
/// where it reports an error.
pub uninterp spec fn json_strings(text: Seq<u8>) -> Option<Seq<Seq<u8>>>;

/// Calls `serde_json::from_slice` for a `Vec<String>` and hands the strings
/// out as their bytes. Nothing is proved of the parser: the contract only
/// names its result, success or failure, as `json_strings` of the text.
#[verifier::external_body]
fn parse_strings(text: &[u8]) -> (r: Result<Vec<Vec<u8>>, serde_json::Error>)
    ensures
        match r {
            Ok(list) => json_strings(text@) == Some(entries(list@)),
            Err(_) => json_strings(text@).is_none(),
        },
{
    match serde_json::from_slice::<Vec<String>>(text) {
        Ok(list) => Ok(list.into_iter().map(String::into_bytes).collect()),
        Err(e) => Err(e),
    }
}

/// The entries of a list, each as its bytes.
pub open spec fn entries(list: Seq<Vec<u8>>) -> Seq<Seq<u8>> {
    Seq::new(list.len(), |i: int| list[i]@)
}

/// Whether entry `i` is the first that is no word.
pub open spec fn is_first_misfit(list: Seq<Seq<u8>>, i: int) -> bool {
    &&& 0 <= i < list.len()
    &&& list[i].len() != 5
    &&& forall|j: int| 0 <= j < i ==> (#[trigger] list[j]).len() == 5
}

/// Whether `r` is what a list of entries reads as: the entries as words, in
/// their order, where each has five bytes, and else the place of the first
/// that has not.
pub open spec fn reads_as(list: Seq<Seq<u8>>, r: Result<Vec<Word>, ListError>) -> bool {
    match r {
        Ok(words) => {
            &&& words@.len() == list.len()
            &&& forall|i: int| 0 <= i < list.len() ==> (#[trigger] words@[i])@ == list[i]
        },
        Err(ListError::WrongLength(i)) => is_first_misfit(list, i as int),
        Err(ListError::Malformed) => false,
    }
}

/// At most one result is what a list reads as.
pub proof fn lemma_reads_as_unique(
    list: Seq<Seq<u8>>,
    a: Result<Vec<Word>, ListError>,
    b: Result<Vec<Word>, ListError>,
)
    requires
        reads_as(list, a),
        reads_as(list, b),
    ensures
        a is Ok <==> b is Ok,
        a is Ok ==> a->Ok_0@ == b->Ok_0@,
        a is Err ==> a->Err_0 == b->Err_0,
{
    match (a, b) {
        (Ok(x), Ok(y)) => {
            assert forall|i: int| 0 <= i < x@.len() implies x@[i] == y@[i] by {
                assert(x@[i]@ == list[i]);
                assert(y@[i]@ == list[i]);
                assert(x@[i]@ =~= y@[i]@);
            }
            assert(x@ =~= y@);
        },
        (Ok(x), Err(ListError::WrongLength(j))) => {
            assert(x@[j as int]@ == list[j as int]);
        },
        (Err(ListError::WrongLength(i)), Ok(y)) => {
            assert(y@[i as int]@ == list[i as int]);
        },
        (Err(ListError::WrongLength(i)), Err(ListError::WrongLength(j))) => {
            if i < j {
                assert(list[i as int].len() == 5);
            }
            if j < i {
                assert(list[j as int].len() == 5);
            }
        },
        _ => {},
    }
}

/// Reads the entries of a list as words. Succeeds exactly when every entry
/// has five bytes; otherwise reports the first entry that has not.
pub fn words_of(list: &Vec<Vec<u8>>) -> (r: Result<Vec<Word>, ListError>)
    ensures
        reads_as(entries(list@), r),
{
    let n: usize = list.len();
    let mut words: Vec<Word> = Vec::with_capacity(n);
    let mut i: usize = 0;
    while i < n
        invariant
            i <= n,
            n == list@.len(),
            words@.len() == i,
            forall|k: int| 0 <= k < i ==> (#[trigger] words@[k])@ == entries(list@)[k],
        decreases n - i,
    {
        match word_of(list[i].as_slice()) {
            Some(w) => {
                words.push(w);
            },
            None => {
                proof {
                    assert forall|j: int| 0 <= j < i implies (#[trigger] entries(
                        list@,
                    )[j]).len() == 5 by {
                        assert(words@[j]@ == entries(list@)[j]);
                    }
                }
                return Err(ListError::WrongLength(i));
            },
        }
        i = i + 1;
    }
    Ok(words)
}

/// Reads a word list from the bytes of a JSON text: an array of strings of
/// five bytes each. A text that the parser refuses is `Malformed`; a list
/// that it accepts is read as `words_of` reads it.
pub fn read_words(text: &[u8]) -> (r: Result<Vec<Word>, ListError>)
    ensures
        match json_strings(text@) {
            Some(list) => reads_as(list, r),
            None => r == Err::<Vec<Word>, ListError>(ListError::Malformed),
        },
{
    match parse_strings(text) {
        Ok(list) => words_of(&list),
        Err(_) => Err(ListError::Malformed),
    }
}

} // verus!
