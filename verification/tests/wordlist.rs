use wordle_solver::{read_words, words_of, ListError};

#[test]
fn read_words_reads_a_json_array() {
    assert_eq!(
        read_words(b"[\"hello\", \"world\",\n \"level\"]"),
        Ok(vec![*b"hello", *b"world", *b"level"])
    );
    assert_eq!(read_words(b"[]"), Ok(vec![]));
    assert_eq!(read_words(b" [\"h\\u0065llo\"] "), Ok(vec![*b"hello"]));
}

#[test]
fn read_words_refuses_what_is_no_list_of_strings() {
    assert_eq!(read_words(b""), Err(ListError::Malformed));
    assert_eq!(read_words(b"hello"), Err(ListError::Malformed));
    assert_eq!(read_words(b"[\"hello\""), Err(ListError::Malformed));
    assert_eq!(read_words(b"[\"hello\", 5]"), Err(ListError::Malformed));
    assert_eq!(read_words(b"{\"hello\": \"world\"}"), Err(ListError::Malformed));
    assert_eq!(read_words(b"[\"hello\"] x"), Err(ListError::Malformed));
}

#[test]
fn read_words_reports_the_first_entry_of_wrong_length() {
    assert_eq!(
        read_words(b"[\"hello\", \"hi\", \"world\", \"toolong\"]"),
        Err(ListError::WrongLength(1))
    );
    assert_eq!(read_words(b"[\"\"]"), Err(ListError::WrongLength(0)));
}

#[test]
fn words_of_reads_entries_of_five_bytes() {
    let list: Vec<Vec<u8>> = vec![b"hello".to_vec(), b"world".to_vec()];
    assert_eq!(words_of(&list), Ok(vec![*b"hello", *b"world"]));
    assert_eq!(words_of(&Vec::new()), Ok(vec![]));
}

#[test]
fn words_of_reports_the_first_misfit() {
    let list: Vec<Vec<u8>> =
        vec![b"hello".to_vec(), b"worlds".to_vec(), b"hi".to_vec(), b"level".to_vec()];
    assert_eq!(words_of(&list), Err(ListError::WrongLength(1)));
    let list: Vec<Vec<u8>> = vec![b"hello".to_vec(), b"world".to_vec(), Vec::new()];
    assert_eq!(words_of(&list), Err(ListError::WrongLength(2)));
}
