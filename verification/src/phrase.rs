//! Phrases and the literal patterns derived from their capital letters.

use vstd::prelude::*;
use vstd::string::*;
use crate::text::{
    char_is_alphabetic,
    char_is_uppercase,
    char_lowercase_head,
    chars_of,
    is_alphabetic,
    is_uppercase,
    lowercase_head,
};

verus! {

/// Phrase that makes up part of the acronym.
#[derive(Debug, Eq)]
pub struct Phrase {
    /// The words of the phrase, kept for display.
    pub words: Vec<String>,
    /// The letters searched for: the capital letters of the phrase, lowercased.
    pub pattern: String,
}

/// Mathematical value of a [`Phrase`].
pub ghost struct PhraseView {
    pub words: Seq<Seq<char>>,
    pub pattern: Seq<char>,
}

/// The character sequences of a list of strings.
pub open spec fn texts_of(strings: Seq<String>) -> Seq<Seq<char>> {
    strings.map_values(|s: String| s@)
}

impl View for Phrase {
    type V = PhraseView;

    open spec fn view(&self) -> PhraseView {
        PhraseView { words: texts_of(self.words@), pattern: self.pattern@ }
    }
}

/// The values of a list of phrases, in order.
pub open spec fn views_of(phrases: Seq<Phrase>) -> Seq<PhraseView> {
    phrases.map_values(|p: Phrase| p@)
}

/// The patterns of a list of phrase values, in order.
pub open spec fn pattern_texts(phrases: Seq<PhraseView>) -> Seq<Seq<char>> {
    phrases.map_values(|p: PhraseView| p.pattern)
}

/// The patterns of a list of phrases, in order.
pub open spec fn patterns_of(phrases: Seq<Phrase>) -> Seq<Seq<char>> {
    pattern_texts(views_of(phrases))
}

/// Every phrase of the list has a non-empty pattern.
pub open spec fn all_patterns_nonempty(phrases: Seq<Phrase>) -> bool {
    forall|i: int| 0 <= i < phrases.len() ==> (#[trigger] phrases[i]).pattern@.len() > 0
}

impl Clone for Phrase {
    fn clone(&self) -> (copy: Self)
        ensures
            copy@ == self@,
    {
        let mut words: Vec<String> = Vec::new();
        let mut i: usize = 0;
        while i < self.words.len()
            invariant
                i <= self.words.len(),
                texts_of(words@) == texts_of(self.words@).subrange(0, i as int),
            decreases self.words.len() - i,
        {
            let word = self.words[i].clone();
            let ghost before = words@;
            words.push(word);
            assert(texts_of(words@) =~= texts_of(before).push(word@));
            i += 1;
            assert(texts_of(words@) =~= texts_of(self.words@).subrange(0, i as int));
        }
        assert(texts_of(self.words@).subrange(0, i as int) =~= texts_of(self.words@));
        Phrase { words, pattern: self.pattern.clone() }
    }
}

fn same_texts(a: &Vec<String>, b: &Vec<String>) -> (same: bool)
    ensures
        same == (texts_of(a@) == texts_of(b@)),
{
    if a.len() != b.len() {
        assert(texts_of(a@).len() != texts_of(b@).len());
        return false;
    }
    let mut i: usize = 0;
    while i < a.len()
        invariant
            i <= a.len(),
            a.len() == b.len(),
            forall|k: int| 0 <= k < i ==> a@[k]@ == b@[k]@,
        decreases a.len() - i,
    {
        if a[i] != b[i] {
            assert(texts_of(a@)[i as int] != texts_of(b@)[i as int]);
            return false;
        }
        i += 1;
    }
    assert(texts_of(a@) =~= texts_of(b@));
    true
}

impl PartialEq for Phrase {
    fn eq(&self, other: &Self) -> (same: bool) {
        self.pattern == other.pattern && same_texts(&self.words, &other.words)
    }
}

impl vstd::std_specs::cmp::PartialEqSpecImpl for Phrase {
    open spec fn obeys_eq_spec() -> bool {
        true
    }

    open spec fn eq_spec(&self, other: &Self) -> bool {
        self@ == other@
    }
}

/// Why a text makes no phrase. Each kind holds the text.
#[derive(Debug, PartialEq, Eq)]
pub enum PhraseError {
    /// The text holds a character that is neither a letter nor a space.
    InvalidCharacter(String),
    /// The text holds no capital letter, so it has no pattern.
    NoCapitalLetter(String),
}

/// Mathematical value of a [`PhraseError`].
pub ghost enum PhraseErrorView {
    InvalidCharacter(Seq<char>),
    NoCapitalLetter(Seq<char>),
}

impl View for PhraseError {
    type V = PhraseErrorView;

    open spec fn view(&self) -> PhraseErrorView {
        match self {
            PhraseError::InvalidCharacter(text) => PhraseErrorView::InvalidCharacter(text@),
            PhraseError::NoCapitalLetter(text) => PhraseErrorView::NoCapitalLetter(text@),
        }
    }
}

impl PhraseError {
    /// The error in words, followed by the text that was refused.
    pub fn message(&self) -> (text: String)
        ensures
            text@ == match self@ {
                PhraseErrorView::InvalidCharacter(phrase) =>
                    "phrase characters can only be a-zA-Z or space: "@ + phrase,
                PhraseErrorView::NoCapitalLetter(phrase) =>
                    "phrase must have at least one capital letter: "@ + phrase,
            },
    {
        match self {
            PhraseError::InvalidCharacter(phrase) => {
                let mut text = String::from_str("phrase characters can only be a-zA-Z or space: ");
                text.append(phrase.as_str());
                text
            },
            PhraseError::NoCapitalLetter(phrase) => {
                let mut text = String::from_str("phrase must have at least one capital letter: ");
                text.append(phrase.as_str());
                text
            },
        }
    }
}

/// What a character of a phrase text counts as.
#[derive(Debug, Clone, Copy, PartialEq, Eq)]
pub enum LetterKind {
    /// A capital letter, with its lowercase form: it joins the pattern.
    Capital(char),
    /// Another letter, or a space: it is displayed only.
    Plain,
    /// Neither a letter nor a space.
    Invalid,
}

/// What `c` counts as in a phrase text.
pub open spec fn letter_kind(c: char) -> LetterKind {
    if !(is_alphabetic(c) || c == ' ') {
        LetterKind::Invalid
    } else if is_uppercase(c) {
        LetterKind::Capital(lowercase_head(c))
    } else {
        LetterKind::Plain
    }
}

/// What each character of `text` counts as.
pub open spec fn letter_kinds(text: Seq<char>) -> Seq<LetterKind> {
    text.map_values(|c: char| letter_kind(c))
}

/// The lowercase forms of the capital letters, in order.
pub open spec fn capitals(kinds: Seq<LetterKind>) -> Seq<char>
    decreases kinds.len(),
{
    if kinds.len() == 0 {
        Seq::empty()
    } else {
        match kinds.last() {
            LetterKind::Capital(lower) => capitals(kinds.drop_last()).push(lower),
            _ => capitals(kinds.drop_last()),
        }
    }
}

/// The pieces of `text` between its spaces. A text without a space is one
/// piece; two spaces side by side have an empty piece between them.
pub open spec fn split_words(text: Seq<char>) -> Seq<Seq<char>>
    decreases text.len(),
{
    if text.len() == 0 {
        seq![Seq::empty()]
    } else {
        let front = split_words(text.drop_last());
        if text.last() == ' ' {
            front.push(Seq::empty())
        } else {
            front.drop_last().push(front.last().push(text.last()))
        }
    }
}

/// The phrase that `text` makes when its characters count as `kinds`, or
/// why it makes none.
pub open spec fn build_phrase(text: Seq<char>, kinds: Seq<LetterKind>) -> Result<
    PhraseView,
    PhraseErrorView,
> {
    if kinds.contains(LetterKind::Invalid) {
        Err(PhraseErrorView::InvalidCharacter(text))
    } else if capitals(kinds).len() == 0 {
        Err(PhraseErrorView::NoCapitalLetter(text))
    } else {
        Ok(PhraseView { words: split_words(text), pattern: capitals(kinds) })
    }
}

/// The phrase that `text` makes, or why it makes none.
pub open spec fn parse_phrase(text: Seq<char>) -> Result<PhraseView, PhraseErrorView> {
    build_phrase(text, letter_kinds(text))
}

/// The value of the outcome of building a phrase.
pub open spec fn outcome_view(outcome: Result<Phrase, PhraseError>) -> Result<
    PhraseView,
    PhraseErrorView,
> {
    match outcome {
        Ok(phrase) => Ok(phrase@),
        Err(error) => Err(error@),
    }
}

/// Says what `c` counts as in a phrase text.
pub fn classify(c: char) -> (kind: LetterKind)
    ensures
        kind == letter_kind(c),
{
    if !(char_is_alphabetic(c) || c == ' ') {
        LetterKind::Invalid
    } else if char_is_uppercase(c) {
        match char_lowercase_head(c) {
            Some(lower) => LetterKind::Capital(lower),
            // Not taken: a lowercase mapping holds at least one character.
            None => LetterKind::Plain,
        }
    } else {
        LetterKind::Plain
    }
}

fn split_on_spaces(text: &Vec<char>) -> (words: Vec<String>)
    ensures
        texts_of(words@) == split_words(text@),
{
    let mut words: Vec<String> = Vec::new();
    let mut current = String::new();
    let mut i: usize = 0;
    assert(text@.take(0) =~= Seq::empty());
    assert(texts_of(words@).push(current@) =~= seq![Seq::empty()]);
    while i < text.len()
        invariant
            i <= text.len(),
            texts_of(words@).push(current@) == split_words(text@.take(i as int)),
        decreases text.len() - i,
    {
        let ghost before = texts_of(words@);
        let ghost piece = current@;
        proof {
            let upto = text@.take(i + 1);
            assert(upto.drop_last() =~= text@.take(i as int));
            assert(before.push(piece).drop_last() =~= before);
        }
        if text[i] == ' ' {
            words.push(current);
            current = String::new();
            assert(texts_of(words@) =~= before.push(piece));
        } else {
            current.push(text[i]);
        }
        i += 1;
        assert(texts_of(words@).push(current@) =~= split_words(text@.take(i as int)));
    }
    assert(text@.take(i as int) =~= text@);
    let ghost before = texts_of(words@);
    words.push(current);
    assert(texts_of(words@) =~= before.push(current@));
    words
}

impl Phrase {
    /// Builds the phrase of a text whose characters have been classified:
    /// `kinds` says what each character counts as. The text is split at its
    /// spaces into the words; the lowercase forms of the capital letters
    /// make the pattern. A text with an invalid character, or without a
    /// capital letter, is refused.
    pub fn from_kinds(phrase: String, kinds: &Vec<LetterKind>) -> (outcome: Result<
        Phrase,
        PhraseError,
    >)
        ensures
            outcome_view(outcome) == build_phrase(phrase@, kinds@),
    {
        let mut search: Vec<char> = Vec::new();
        let mut i: usize = 0;
        assert(kinds@.take(0) =~= Seq::empty());
        while i < kinds.len()
            invariant
                i <= kinds.len(),
                !kinds@.take(i as int).contains(LetterKind::Invalid),
                search@ == capitals(kinds@.take(i as int)),
            decreases kinds.len() - i,
        {
            proof {
                let upto = kinds@.take(i + 1);
                assert(upto.drop_last() =~= kinds@.take(i as int));
                assert(upto.last() == kinds@[i as int]);
            }
            match kinds[i] {
                LetterKind::Invalid => {
                    assert(kinds@[i as int] == LetterKind::Invalid);
                    return Err(PhraseError::InvalidCharacter(phrase));
                },
                LetterKind::Capital(lower) => {
                    search.push(lower);
                },
                LetterKind::Plain => {},
            }
            proof {
                let upto = kinds@.take(i + 1);
                if upto.contains(LetterKind::Invalid) {
                    let j = choose|j: int| 0 <= j < upto.len() && upto[j] == LetterKind::Invalid;
                    if j < i {
                        assert(kinds@.take(i as int)[j] == LetterKind::Invalid);
                    }
                }
            }
            i += 1;
        }
        assert(kinds@.take(i as int) =~= kinds@);
        if search.len() == 0 {
            return Err(PhraseError::NoCapitalLetter(phrase));
        }
        let letters = chars_of(phrase.as_str());
        Ok(Phrase { words: split_on_spaces(&letters), pattern: crate::text::string_of(&search) })
    }

    /// Builds the phrase of a text: its words for display, and as pattern
    /// its capital letters in lowercase. A text with a character that is
    /// neither a letter nor a space, or without a capital letter, is refused.
    pub fn new(phrase: String) -> (outcome: Result<Phrase, PhraseError>)
        ensures
            outcome_view(outcome) == parse_phrase(phrase@),
            outcome matches Ok(made) ==> made.pattern@.len() > 0,
    {
        let letters = chars_of(phrase.as_str());
        let mut kinds: Vec<LetterKind> = Vec::new();
        let mut i: usize = 0;
        while i < letters.len()
            invariant
                i <= letters.len(),
                letters@ == phrase@,
                kinds@ == letter_kinds(phrase@).take(i as int),
            decreases letters.len() - i,
        {
            kinds.push(classify(letters[i]));
            i += 1;
        }
        assert(letter_kinds(phrase@).take(i as int) =~= letter_kinds(phrase@));
        Phrase::from_kinds(phrase, &kinds)
    }
}

} // verus!
