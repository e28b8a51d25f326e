//! Choosing the word list to search in, and taking the words from its
//! lines.
//!
//! Whether a path names a file, and what lines a file holds, is for the
//! caller to find out; the functions here decide from what was found.

use vstd::prelude::*;
use crate::phrase::texts_of;
use crate::seqs::lemma_filter_members;
use crate::text::chars_of;

verus! {

/// Why no word list was chosen.
#[derive(Debug, Clone, Copy, PartialEq, Eq)]
pub enum WordsFileError {
    /// The path that was given names no file.
    FileDoesNotExist,
    /// None of the usual places of the UNIX words file holds a file.
    NoUnixWordsFile,
    /// The platform has no default words file.
    NoDefaultWordsFile,
    /// The words file holds no word.
    NoWords,
}

/// The word list to load.
#[derive(Debug, Clone, Copy, PartialEq, Eq)]
pub enum WordsFile {
    /// The file that was given.
    Given,
    /// The UNIX words file, at the usual place of this index.
    Unix(usize),
}

/// The first of the usual places that holds a file, if any does.
pub open spec fn first_file(is_file: Seq<bool>) -> Option<int> {
    if exists|i: int| 0 <= i < is_file.len() && is_file[i] {
        Some(choose|i: int| 0 <= i < is_file.len() && is_file[i] && forall|j: int| 0 <= j < i ==> !is_file[j])
    } else {
        None
    }
}

/// The first place is the only index that holds a file and has none
/// before it.
pub proof fn lemma_first_file(is_file: Seq<bool>, i: int)
    requires
        0 <= i < is_file.len(),
        is_file[i],
        forall|j: int| 0 <= j < i ==> !is_file[j],
    ensures
        first_file(is_file) == Some(i),
{
    let k = choose|k: int|
        0 <= k < is_file.len() && is_file[k] && forall|j: int| 0 <= j < k ==> !is_file[j];
    if k < i {
        assert(!is_file[k]);
    } else if i < k {
        assert(!is_file[i]);
    }
}

/// The default word list of the platform: on UNIX the first usual place
/// that holds a file; elsewhere none.
pub open spec fn default_words_file(unix: bool, is_file: Seq<bool>) -> Result<
    WordsFile,
    WordsFileError,
> {
    if !unix {
        Err(WordsFileError::NoDefaultWordsFile)
    } else {
        match first_file(is_file) {
            Some(i) => Ok(WordsFile::Unix(i as usize)),
            None => Err(WordsFileError::NoUnixWordsFile),
        }
    }
}

/// Attempt to locate the UNIX words file: `is_file` says of each usual
/// place, in order, whether it holds a file.
pub fn try_find_unix_words_file(is_file: &[bool]) -> (found: Result<WordsFile, WordsFileError>)
    ensures
        found == default_words_file(true, is_file@),
{
    let mut i: usize = 0;
    while i < is_file.len()
        invariant
            i <= is_file.len(),
            forall|j: int| 0 <= j < i ==> !is_file@[j],
        decreases is_file.len() - i,
    {
        if is_file[i] {
            proof {
                lemma_first_file(is_file@, i as int);
            }
            return Ok(WordsFile::Unix(i));
        }
        i += 1;
    }
    Err(WordsFileError::NoUnixWordsFile)
}

/// Try and find the default system words file. `unix` says whether the
/// platform is a UNIX.
pub fn try_find_default_words_file(unix: bool, is_file: &[bool]) -> (found: Result<
    WordsFile,
    WordsFileError,
>)
    ensures
        found == default_words_file(unix, is_file@),
{
    if unix {
        try_find_unix_words_file(is_file)
    } else {
        Err(WordsFileError::NoDefaultWordsFile)
    }
}

/// Verify the existence of the given words file or attempt to find a system
/// default. `given` is `None` where no path was given, and else says
/// whether the path names a file.
pub fn try_find_words_file(given: Option<bool>, unix: bool, is_file: &[bool]) -> (found: Result<
    WordsFile,
    WordsFileError,
>)
    ensures
        found == match given {
            Some(true) => Ok(WordsFile::Given),
            Some(false) => Err(WordsFileError::FileDoesNotExist),
            None => default_words_file(unix, is_file@),
        },
{
    match given {
        Some(true) => Ok(WordsFile::Given),
        Some(false) => Err(WordsFileError::FileDoesNotExist),
        None => try_find_default_words_file(unix, is_file),
    }
}

/// The lowercase form of a text.
pub uninterp spec fn lowercased(text: Seq<char>) -> Seq<char>;

/// Calls `str::to_lowercase`. The result is the lowercase form of the text,
/// which depends on the text alone; the contract names it without
/// describing Unicode's case mappings.
#[verifier::external_body]
fn str_to_lowercase(text: &str) -> (lower: String)
    ensures
        lower@ == lowercased(text@),
{
    text.to_lowercase()
}

/// `c` is one of the letters `a` to `z` or `A` to `Z`.
pub open spec fn is_letter(c: char) -> bool {
    ('a' <= c && c <= 'z') || ('A' <= c && c <= 'Z')
}

/// `line` is a word: it is not empty and holds letters only.
pub open spec fn is_word(line: Seq<char>) -> bool {
    line.len() > 0 && forall|i: int| 0 <= i < line.len() ==> is_letter(#[trigger] line[i])
}

/// The words of a word list: of its lines those that are words, in order,
/// each in its lowercase form.
pub open spec fn words_of(lines: Seq<Seq<char>>) -> Seq<Seq<char>> {
    lines.filter(|line: Seq<char>| is_word(line)).map_values(|line: Seq<char>| lowercased(line))
}

/// Every word of a word list is the lowercase form of one of its lines, and
/// that line is not empty and holds letters only; the lemma returns the
/// position of the line. No empty line and no line with another character
/// gives a word.
pub proof fn lemma_words_come_from_word_lines(lines: Seq<Seq<char>>, k: int) -> (i: int)
    requires
        0 <= k < words_of(lines).len(),
    ensures
        0 <= i < lines.len(),
        is_word(lines[i]),
        words_of(lines)[k] == lowercased(lines[i]),
        words_of(lines).len() <= lines.len(),
{
    let keep = |line: Seq<char>| is_word(line);
    let kept = lines.filter(keep);
    assert(kept.contains(kept[k]));
    lemma_filter_members(lines, keep, kept[k]);
    lines.lemma_filter_len(keep);
    choose|i: int| 0 <= i < lines.len() && lines[i] == kept[k]
}

fn line_is_word(line: &str) -> (word: bool)
    ensures
        word == is_word(line@),
{
    let letters = chars_of(line);
    if letters.len() == 0 {
        return false;
    }
    let mut i: usize = 0;
    while i < letters.len()
        invariant
            i <= letters.len(),
            letters@ == line@,
            forall|k: int| 0 <= k < i ==> is_letter(#[trigger] letters@[k]),
        decreases letters.len() - i,
    {
        let c = letters[i];
        if !((c >= 'a' && c <= 'z') || (c >= 'A' && c <= 'Z')) {
            assert(!is_letter(letters@[i as int]));
            return false;
        }
        i += 1;
    }
    true
}

/// The words of a word list: the lines that are not empty and hold letters
/// only, in their order, each brought to lowercase. Every other line is
/// left out.
pub fn lowercase_words(lines: &Vec<String>) -> (words: Vec<String>)
    ensures
        texts_of(words@) == words_of(texts_of(lines@)),
{
    let ghost keep = |line: Seq<char>| is_word(line);
    let ghost lower = |line: Seq<char>| lowercased(line);
    let mut words: Vec<String> = Vec::new();
    let mut i: usize = 0;
    proof {
        reveal(Seq::filter);
        assert(texts_of(lines@).take(0) =~= Seq::empty());
        assert(texts_of(words@) =~= texts_of(lines@).take(0).filter(keep).map_values(lower));
    }
    while i < lines.len()
        invariant
            i <= lines.len(),
            keep == |line: Seq<char>| is_word(line),
            lower == |line: Seq<char>| lowercased(line),
            texts_of(words@) == texts_of(lines@).take(i as int).filter(keep).map_values(lower),
        decreases lines.len() - i,
    {
        let ghost before = texts_of(words@);
        let ghost kept = texts_of(lines@).take(i as int).filter(keep);
        proof {
            reveal(Seq::filter);
            let upto = texts_of(lines@).take(i + 1);
            assert(upto.drop_last() =~= texts_of(lines@).take(i as int));
            assert(upto.last() == lines@[i as int]@);
        }
        if line_is_word(lines[i].as_str()) {
            let word = str_to_lowercase(lines[i].as_str());
            words.push(word);
            proof {
                assert(texts_of(words@) =~= before.push(word@));
                let next = texts_of(lines@).take(i + 1).filter(keep);
                assert(next =~= kept.push(lines@[i as int]@));
                assert(next.map_values(lower) =~= kept.map_values(lower).push(word@));
            }
        }
        i += 1;
    }
    assert(texts_of(lines@).take(i as int) =~= texts_of(lines@));
    words
}

/// Takes the words of a word list from its lines, as [`lowercase_words`]
/// does; a word list without a word is refused.
pub fn try_load_words_file(lines: &Vec<String>) -> (loaded: Result<Vec<String>, WordsFileError>)
    ensures
        match loaded {
            Ok(words) => words@.len() > 0 && texts_of(words@) == words_of(texts_of(lines@)),
            Err(error) => error == WordsFileError::NoWords && words_of(texts_of(lines@)).len()
                == 0,
        },
{
    let words = lowercase_words(lines);
    if words.len() == 0 {
        Err(WordsFileError::NoWords)
    } else {
        Ok(words)
    }
}

} // verus!
