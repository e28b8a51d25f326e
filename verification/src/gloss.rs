//! Rendering the spans of a result as a line of text aligned with the
//! characters of its word.

use vstd::prelude::*;
use vstd::string::*;
use crate::phrase::{Phrase, PhraseView};
use crate::result::spans_of;

verus! {

/// The words of a phrase, each followed by a space.
pub open spec fn spaced_words(words: Seq<Seq<char>>) -> Seq<char>
    decreases words.len(),
{
    if words.len() == 0 {
        Seq::empty()
    } else {
        spaced_words(words.drop_last()) + words.last() + seq![' ']
    }
}

/// The number of characters of the word that a span stands for: the length
/// of the pattern, or one for a wildcard.
pub open spec fn span_width(span: Option<PhraseView>) -> nat {
    match span {
        Some(phrase) => phrase.pattern.len(),
        None => 1,
    }
}

/// Where in the word the cursor stands in front of span `k`: the widths of
/// the spans before it, added up.
pub open spec fn cursor_at(spans: Seq<Option<PhraseView>>, k: int) -> nat
    decreases k,
{
    if k <= 0 {
        0
    } else {
        cursor_at(spans, k - 1) + span_width(spans[k - 1])
    }
}

/// At every wildcard the cursor stands on one of `len` characters.
pub open spec fn aligned(spans: Seq<Option<PhraseView>>, len: nat) -> bool {
    forall|k: int| 0 <= k < spans.len() && #[trigger] spans[k] is None ==> cursor_at(spans, k) < len
}

/// The text of one span: the spaced words of a phrase, or for a wildcard
/// the letter under the cursor, followed by two dots and a space.
pub open spec fn span_text(spans: Seq<Option<PhraseView>>, letters: Seq<char>, k: int) -> Seq<
    char,
> {
    match spans[k] {
        Some(phrase) => spaced_words(phrase.words),
        None => seq![letters[cursor_at(spans, k) as int], '.', '.', ' '],
    }
}

/// The texts of the first `count` spans, one after the other.
pub open spec fn gloss(spans: Seq<Option<PhraseView>>, letters: Seq<char>, count: int) -> Seq<char>
    decreases count,
{
    if count <= 0 {
        Seq::empty()
    } else {
        gloss(spans, letters, count - 1) + span_text(spans, letters, count - 1)
    }
}

fn push_spaced_words(text: &mut String, phrase: &Phrase)
    ensures
        final(text)@ == old(text)@ + spaced_words(phrase@.words),
{
    let mut i: usize = 0;
    assert(phrase@.words.take(0) =~= Seq::empty());
    while i < phrase.words.len()
        invariant
            i <= phrase.words.len(),
            text@ == old(text)@ + spaced_words(phrase@.words.take(i as int)),
        decreases phrase.words.len() - i,
    {
        proof {
            let upto = phrase@.words.take(i + 1);
            assert(upto.drop_last() =~= phrase@.words.take(i as int));
            assert(upto.last() == phrase.words@[i as int]@);
        }
        let ghost before = text@;
        text.append(phrase.words[i].as_str());
        text.push(' ');
        assert(text@ =~= before + phrase.words@[i as int]@ + seq![' ']);
        i += 1;
        assert(text@ =~= old(text)@ + spaced_words(phrase@.words.take(i as int)));
    }
    assert(phrase@.words.take(i as int) =~= phrase@.words);
}

/// Whether, walking the spans, the cursor stands on one of `len`
/// characters at every wildcard.
pub fn is_aligned(spans: &Vec<Option<Phrase>>, len: usize) -> (fits: bool)
    ensures
        fits == aligned(spans_of(spans@), len as nat),
{
    let mut cursor: usize = 0;
    let mut k: usize = 0;
    while k < spans.len()
        invariant
            k <= spans.len(),
            cursor == if cursor_at(spans_of(spans@), k as int) < usize::MAX {
                cursor_at(spans_of(spans@), k as int)
            } else {
                usize::MAX as nat
            },
            forall|j: int|
                0 <= j < k && #[trigger] spans_of(spans@)[j] is None ==> cursor_at(
                    spans_of(spans@),
                    j,
                ) < len,
        decreases spans.len() - k,
    {
        assert(spans_of(spans@)[k as int] is None <==> spans@[k as int] is None);
        let width: usize = match &spans[k] {
            Some(phrase) => phrase.pattern.as_str().unicode_len(),
            None => {
                if cursor >= len {
                    return false;
                }
                1
            },
        };
        assert(width == span_width(spans_of(spans@)[k as int]));
        cursor = if width > usize::MAX - cursor {
            usize::MAX
        } else {
            cursor + width
        };
        k += 1;
    }
    true
}

/// Renders the spans against the letters of a word: for a phrase its words,
/// each followed by a space; for a wildcard the letter under the cursor,
/// followed by `".. "`. The cursor starts at the first letter and moves on
/// by the width of each span.
pub fn render_gloss(spans: &Vec<Option<Phrase>>, letters: &Vec<char>) -> (text: String)
    requires
        aligned(spans_of(spans@), letters@.len()),
    ensures
        text@ == gloss(spans_of(spans@), letters@, spans@.len() as int),
{
    let mut text = String::new();
    let mut cursor: usize = 0;
    let mut k: usize = 0;
    assert(letters@.len() == letters.len());
    while k < spans.len()
        invariant
            k <= spans.len(),
            letters@.len() <= usize::MAX,
            aligned(spans_of(spans@), letters@.len()),
            cursor == if cursor_at(spans_of(spans@), k as int) < usize::MAX {
                cursor_at(spans_of(spans@), k as int)
            } else {
                usize::MAX as nat
            },
            text@ == gloss(spans_of(spans@), letters@, k as int),
        decreases spans.len() - k,
    {
        assert(spans_of(spans@)[k as int] is None <==> spans@[k as int] is None);
        let ghost before = text@;
        let width: usize = match &spans[k] {
            Some(phrase) => {
                assert(spans_of(spans@)[k as int] == Some(phrase@));
                push_spaced_words(&mut text, phrase);
                phrase.pattern.as_str().unicode_len()
            },
            None => {
                assert(cursor == cursor_at(spans_of(spans@), k as int));
                text.push(letters[cursor]);
                text.push('.');
                text.push('.');
                text.push(' ');
                assert(text@ =~= before + seq![letters@[cursor as int], '.', '.', ' ']);
                1
            },
        };
        assert(text@ =~= before + span_text(spans_of(spans@), letters@, k as int));
        assert(width == span_width(spans_of(spans@)[k as int]));
        cursor = if width > usize::MAX - cursor {
            usize::MAX
        } else {
            cursor + width
        };
        k += 1;
    }
    text
}

} // verus!
