//! Conversions between strings and character vectors, and the Unicode
//! character queries the library relies on.

use vstd::prelude::*;

verus! {

/// Whether `c` has the Unicode `Alphabetic` property.
pub uninterp spec fn is_alphabetic(c: char) -> bool;

/// Whether `c` has the Unicode `Uppercase` property.
pub uninterp spec fn is_uppercase(c: char) -> bool;

/// The first character of the Unicode lowercase mapping of `c`.
pub uninterp spec fn lowercase_head(c: char) -> char;

/// The first character of the Unicode uppercase mapping of `c`.
pub uninterp spec fn uppercase_head(c: char) -> char;

/// Calls `char::is_alphabetic`. The answer is a fixed property of the
/// character, which the contract names without describing the Unicode tables.
#[verifier::external_body]
pub(crate) fn char_is_alphabetic(c: char) -> (b: bool)
    ensures
        b == is_alphabetic(c),
{
    c.is_alphabetic()
}

/// Calls `char::is_uppercase`. The answer is a fixed property of the
/// character, which the contract names without describing the Unicode tables.
#[verifier::external_body]
pub(crate) fn char_is_uppercase(c: char) -> (b: bool)
    ensures
        b == is_uppercase(c),
{
    c.is_uppercase()
}

/// Takes the first item of `char::to_lowercase`. The mapping always holds at
/// least one character, so the item is present; which character it is depends
/// on `c` alone.
#[verifier::external_body]
pub(crate) fn char_lowercase_head(c: char) -> (r: Option<char>)
    ensures
        r == Some(lowercase_head(c)),
{
    c.to_lowercase().next()
}

/// Takes the first item of `char::to_uppercase`. The mapping always holds at
/// least one character, so the item is present; which character it is depends
/// on `c` alone.
#[verifier::external_body]
pub(crate) fn char_uppercase_head(c: char) -> (r: Option<char>)
    ensures
        r == Some(uppercase_head(c)),
{
    c.to_uppercase().next()
}

/// `String::push` appends one character to the end of the string.
pub assume_specification[ String::push ](s: &mut String, c: char)
    ensures
        final(s)@ == old(s)@.push(c),
;

/// The characters of `s`, in order.
pub fn chars_of(s: &str) -> (out: Vec<char>)
    ensures
        out@ == s@,
{
    let mut out: Vec<char> = Vec::new();
    let n: usize = s.unicode_len();
    let mut i: usize = 0;
    while i < n
        invariant
            n == s@.len(),
            i <= n,
            out@ == s@.subrange(0, i as int),
        decreases n - i,
    {
        out.push(s.get_char(i));
        i += 1;
    }
    out
}

/// The string made of the characters of `chars`, in order.
pub fn string_of(chars: &Vec<char>) -> (out: String)
    ensures
        out@ == chars@,
{
    let mut out = String::new();
    let mut i: usize = 0;
    while i < chars.len()
        invariant
            i <= chars.len(),
            out@ == chars@.subrange(0, i as int),
        decreases chars.len() - i,
    {
        out.push(chars[i]);
        i += 1;
    }
    out
}

/// The first character of the uppercase form of each character of `word`.
pub open spec fn capitalized(word: Seq<char>) -> Seq<char> {
    word.map_values(|c: char| uppercase_head(c))
}

/// Replaces each character of `word` by the first character of its
/// uppercase form.
pub fn capitalize(word: &str) -> (capitals: Vec<char>)
    ensures
        capitals@ == capitalized(word@),
{
    let letters = chars_of(word);
    let mut capitals: Vec<char> = Vec::new();
    let mut i: usize = 0;
    while i < letters.len()
        invariant
            i <= letters.len(),
            letters@ == word@,
            capitals@ == capitalized(word@).take(i as int),
        decreases letters.len() - i,
    {
        let capital = match char_uppercase_head(letters[i]) {
            Some(upper) => upper,
            // Not taken: an uppercase mapping holds at least one character.
            None => letters[i],
        };
        capitals.push(capital);
        i += 1;
    }
    capitals
}

} // verus!
