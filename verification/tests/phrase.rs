use acronym_search::phrase::{classify, LetterKind, Phrase, PhraseError};

fn strings(words: &[&str]) -> Vec<String> {
    words.iter().map(|w| w.to_string()).collect()
}

#[test]
fn capitals_make_the_pattern() {
    let phrase = Phrase::new("Hello World".to_string()).unwrap();
    assert_eq!(phrase.pattern, "hw");
    assert_eq!(phrase.words, strings(&["Hello", "World"]));
}

#[test]
fn capitals_inside_words_count_too() {
    let phrase = Phrase::new("eXtensible MarkUp".to_string()).unwrap();
    assert_eq!(phrase.pattern, "xmu");
    assert_eq!(phrase.words, strings(&["eXtensible", "MarkUp"]));
}

#[test]
fn a_single_capital_is_a_phrase() {
    let phrase = Phrase::new("A".to_string()).unwrap();
    assert_eq!(phrase, Phrase { words: strings(&["A"]), pattern: "a".to_string() });
}

#[test]
fn spaces_split_literally() {
    let phrase = Phrase::new(" Ab  c ".to_string()).unwrap();
    assert_eq!(phrase.words, strings(&["", "Ab", "", "c", ""]));
    assert_eq!(phrase.pattern, "a");
}

#[test]
fn a_digit_is_an_invalid_character() {
    let outcome = Phrase::new("Hello W0rld".to_string());
    assert_eq!(outcome, Err(PhraseError::InvalidCharacter("Hello W0rld".to_string())));
}

#[test]
fn punctuation_is_an_invalid_character() {
    let outcome = Phrase::new("Hello, World".to_string());
    assert_eq!(outcome, Err(PhraseError::InvalidCharacter("Hello, World".to_string())));
}

#[test]
fn a_tab_is_an_invalid_character() {
    let outcome = Phrase::new("Hello\tWorld".to_string());
    assert_eq!(outcome, Err(PhraseError::InvalidCharacter("Hello\tWorld".to_string())));
}

#[test]
fn a_phrase_needs_a_capital_letter() {
    let outcome = Phrase::new("hello world".to_string());
    assert_eq!(outcome, Err(PhraseError::NoCapitalLetter("hello world".to_string())));
}

#[test]
fn the_empty_text_has_no_capital_letter() {
    assert_eq!(Phrase::new(String::new()), Err(PhraseError::NoCapitalLetter(String::new())));
}

#[test]
fn an_invalid_character_is_reported_before_a_missing_capital() {
    let outcome = Phrase::new("hello!".to_string());
    assert_eq!(outcome, Err(PhraseError::InvalidCharacter("hello!".to_string())));
}

#[test]
fn an_invalid_character_is_reported_even_after_a_capital() {
    let outcome = Phrase::new("Hello!".to_string());
    assert_eq!(outcome, Err(PhraseError::InvalidCharacter("Hello!".to_string())));
}

#[test]
fn error_messages_name_the_phrase() {
    assert_eq!(
        PhraseError::InvalidCharacter("a1".to_string()).message(),
        "phrase characters can only be a-zA-Z or space: a1"
    );
    assert_eq!(
        PhraseError::NoCapitalLetter("abc".to_string()).message(),
        "phrase must have at least one capital letter: abc"
    );
}

#[test]
fn characters_are_classified() {
    assert_eq!(classify('H'), LetterKind::Capital('h'));
    assert_eq!(classify('h'), LetterKind::Plain);
    assert_eq!(classify(' '), LetterKind::Plain);
    assert_eq!(classify('7'), LetterKind::Invalid);
    assert_eq!(classify('-'), LetterKind::Invalid);
    assert_eq!(classify('É'), LetterKind::Capital('é'));
}

#[test]
fn letters_beyond_ascii_are_letters() {
    let phrase = Phrase::new("École Normale".to_string()).unwrap();
    assert_eq!(phrase.pattern, "én");
}

#[test]
fn a_phrase_from_given_kinds() {
    let kinds = vec![LetterKind::Capital('x'), LetterKind::Plain, LetterKind::Capital('y')];
    let phrase = Phrase::from_kinds("A B".to_string(), &kinds).unwrap();
    assert_eq!(phrase.pattern, "xy");
    assert_eq!(phrase.words, strings(&["A", "B"]));
}

#[test]
fn given_kinds_decide_the_errors() {
    let invalid = vec![LetterKind::Capital('a'), LetterKind::Invalid];
    assert_eq!(
        Phrase::from_kinds("Ab".to_string(), &invalid),
        Err(PhraseError::InvalidCharacter("Ab".to_string()))
    );
    let plain = vec![LetterKind::Plain, LetterKind::Plain];
    assert_eq!(
        Phrase::from_kinds("Ab".to_string(), &plain),
        Err(PhraseError::NoCapitalLetter("Ab".to_string()))
    );
}

#[test]
fn a_clone_is_equal() {
    let phrase = Phrase::new("Hello World".to_string()).unwrap();
    assert_eq!(phrase.clone(), phrase);
    assert_ne!(phrase, Phrase::new("Hello Wide".to_string()).unwrap());
    assert_ne!(phrase, Phrase::new("Hello World Wide".to_string()).unwrap());
}
