use acronym_search::words::{
    lowercase_words, try_find_default_words_file, try_find_unix_words_file, try_find_words_file,
    try_load_words_file, WordsFile, WordsFileError,
};

fn lines_of(lines: &[&str]) -> Vec<String> {
    lines.iter().map(|line| line.to_string()).collect()
}

#[test]
fn the_first_usual_place_with_a_file_is_taken() {
    assert_eq!(try_find_unix_words_file(&[true, true]), Ok(WordsFile::Unix(0)));
    assert_eq!(try_find_unix_words_file(&[false, true]), Ok(WordsFile::Unix(1)));
    assert_eq!(try_find_unix_words_file(&[true, false]), Ok(WordsFile::Unix(0)));
}

#[test]
fn no_usual_place_with_a_file_is_an_error() {
    assert_eq!(try_find_unix_words_file(&[false, false]), Err(WordsFileError::NoUnixWordsFile));
    assert_eq!(try_find_unix_words_file(&[]), Err(WordsFileError::NoUnixWordsFile));
}

#[test]
fn only_unix_has_a_default() {
    assert_eq!(try_find_default_words_file(true, &[false, true]), Ok(WordsFile::Unix(1)));
    assert_eq!(
        try_find_default_words_file(true, &[false, false]),
        Err(WordsFileError::NoUnixWordsFile)
    );
    assert_eq!(
        try_find_default_words_file(false, &[true, true]),
        Err(WordsFileError::NoDefaultWordsFile)
    );
}

#[test]
fn a_given_file_goes_first() {
    assert_eq!(try_find_words_file(Some(true), true, &[true, true]), Ok(WordsFile::Given));
    assert_eq!(try_find_words_file(Some(true), false, &[]), Ok(WordsFile::Given));
}

#[test]
fn a_given_path_that_is_no_file_is_an_error() {
    assert_eq!(
        try_find_words_file(Some(false), true, &[true, true]),
        Err(WordsFileError::FileDoesNotExist)
    );
}

#[test]
fn without_a_given_path_the_default_is_looked_for() {
    assert_eq!(try_find_words_file(None, true, &[false, true]), Ok(WordsFile::Unix(1)));
    assert_eq!(
        try_find_words_file(None, true, &[false, false]),
        Err(WordsFileError::NoUnixWordsFile)
    );
    assert_eq!(
        try_find_words_file(None, false, &[true, true]),
        Err(WordsFileError::NoDefaultWordsFile)
    );
}

#[test]
fn lines_are_brought_to_lowercase() {
    let lines = lines_of(&["Apple", "BANANA", "cherry"]);
    assert_eq!(lowercase_words(&lines), vec!["apple", "banana", "cherry"]);
}

#[test]
fn empty_lines_are_left_out() {
    let lines = lines_of(&["", "abc", "", ""]);
    assert_eq!(lowercase_words(&lines), vec!["abc"]);
}

#[test]
fn lines_with_other_characters_are_left_out() {
    let lines = lines_of(&[
        "it's", "two words", "x1", "Ok", " ", "tab\t", "hyphen-ated", "été", "Zebra", "a", "Z",
    ]);
    assert_eq!(lowercase_words(&lines), vec!["ok", "zebra", "a", "z"]);
}

#[test]
fn words_keep_the_order_of_their_lines() {
    let lines = lines_of(&["pear", "", "Apple", "4", "fig", "apple"]);
    assert_eq!(lowercase_words(&lines), vec!["pear", "apple", "fig", "apple"]);
}

#[test]
fn no_lines_give_no_words() {
    assert_eq!(lowercase_words(&Vec::new()), Vec::<String>::new());
}

#[test]
fn every_word_is_lowercase_letters() {
    let lines = lines_of(&["Mixed", "UPPER", "lower", "n0", "", "With Space", "CamelCase"]);
    let words = lowercase_words(&lines);
    assert_eq!(words.len(), 4);
    for word in &words {
        assert!(!word.is_empty());
        assert!(word.chars().all(|c| ('a'..='z').contains(&c)));
        assert_eq!(*word, word.to_lowercase());
    }
}

#[test]
fn a_word_list_is_loaded_from_its_lines() {
    let lines = lines_of(&["", "Abc", "d-e", "F"]);
    assert_eq!(try_load_words_file(&lines), Ok(lines_of(&["abc", "f"])));
}

#[test]
fn a_word_list_without_a_word_is_refused() {
    assert_eq!(try_load_words_file(&Vec::new()), Err(WordsFileError::NoWords));
    assert_eq!(try_load_words_file(&lines_of(&["", "1", "a b"])), Err(WordsFileError::NoWords));
}
