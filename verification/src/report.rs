//! The report of a search as text: the results grouped under a heading per
//! word length, one line per result.

use vstd::prelude::*;
use vstd::string::*;
use crate::result::{results_of, SearchResult, SearchResultView};

verus! {

/// The character of a decimal digit.
pub open spec fn digit(d: int) -> char {
    if d == 0 {
        '0'
    } else if d == 1 {
        '1'
    } else if d == 2 {
        '2'
    } else if d == 3 {
        '3'
    } else if d == 4 {
        '4'
    } else if d == 5 {
        '5'
    } else if d == 6 {
        '6'
    } else if d == 7 {
        '7'
    } else if d == 8 {
        '8'
    } else {
        '9'
    }
}

/// The decimal numeral of `n`, without leading zeros.
pub open spec fn decimal(n: nat) -> Seq<char>
    decreases n,
{
    if n < 10 {
        seq![digit(n as int)]
    } else {
        decimal(n / 10).push(digit((n % 10) as int))
    }
}

/// The heading of the results whose words have `len` characters.
pub open spec fn heading(len: nat) -> Seq<char> {
    decimal(len) + " LETTERS\n"@
}

/// The line of one result: its word, and how the word spells the phrases.
pub open spec fn entry(result: SearchResultView) -> Seq<char> {
    result.word + " : "@ + result.phrase_info() + "\n"@
}

/// The length of the longest word among the first `count` results.
pub open spec fn longest(results: Seq<SearchResultView>, count: int) -> nat
    decreases count,
{
    if count <= 0 {
        0
    } else if results[count - 1].word.len() > longest(results, count - 1) {
        results[count - 1].word.len()
    } else {
        longest(results, count - 1)
    }
}

/// What stands in front of the line of result `k`: the heading of its
/// length for the first result; for a later result whose word is longer
/// than every word before it an empty line and the heading; else nothing.
pub open spec fn lead(results: Seq<SearchResultView>, k: int) -> Seq<char> {
    if k == 0 {
        heading(results[k].word.len())
    } else if results[k].word.len() > longest(results, k) {
        "\n"@ + heading(results[k].word.len())
    } else {
        Seq::empty()
    }
}

/// The lines of the first `count` results, with their headings.
pub open spec fn listed_lines(results: Seq<SearchResultView>, count: int) -> Seq<char>
    decreases count,
{
    if count <= 0 {
        Seq::empty()
    } else {
        listed_lines(results, count - 1) + lead(results, count - 1) + entry(results[count - 1])
    }
}

/// The report of `results`.
pub open spec fn report(results: Seq<SearchResultView>) -> Seq<char> {
    if results.len() == 0 {
        "No results found.\n"@
    } else {
        listed_lines(results, results.len() as int)
    }
}

fn digit_char(d: usize) -> (c: char)
    requires
        d < 10,
    ensures
        c == digit(d as int),
{
    if d == 0 {
        '0'
    } else if d == 1 {
        '1'
    } else if d == 2 {
        '2'
    } else if d == 3 {
        '3'
    } else if d == 4 {
        '4'
    } else if d == 5 {
        '5'
    } else if d == 6 {
        '6'
    } else if d == 7 {
        '7'
    } else if d == 8 {
        '8'
    } else {
        '9'
    }
}

fn push_decimal(text: &mut String, n: usize)
    ensures
        final(text)@ == old(text)@ + decimal(n as nat),
{
    let mut digits: Vec<char> = Vec::new();
    digits.push(digit_char(n % 10));
    let mut rest: usize = n / 10;
    assert(decimal(n as nat) =~= if rest == 0 {
        Seq::empty()
    } else {
        decimal(rest as nat)
    } + digits@);
    while rest > 0
        invariant
            decimal(n as nat) == if rest == 0 {
                Seq::empty()
            } else {
                decimal(rest as nat)
            } + digits@,
        decreases rest,
    {
        let ghost before = digits@;
        digits.insert(0, digit_char(rest % 10));
        assert(digits@ =~= seq![digit((rest % 10) as int)] + before);
        assert(decimal(rest as nat) =~= if rest / 10 == 0 {
            Seq::empty()
        } else {
            decimal((rest / 10) as nat)
        } + seq![digit((rest % 10) as int)]);
        rest = rest / 10;
    }
    let mut i: usize = 0;
    while i < digits.len()
        invariant
            i <= digits.len(),
            text@ == old(text)@ + digits@.take(i as int),
        decreases digits.len() - i,
    {
        text.push(digits[i]);
        i += 1;
        assert(text@ =~= old(text)@ + digits@.take(i as int));
    }
    assert(digits@.take(i as int) =~= digits@);
}

/// Writes what stands in front of the line of result `k`; `longest_before`
/// is the length of the longest word before it.
fn push_lead(text: &mut String, results: &[SearchResult], k: usize, longest_before: usize)
    requires
        k < results@.len(),
        longest_before == longest(results_of(results@), k as int),
    ensures
        final(text)@ == old(text)@ + lead(results_of(results@), k as int),
{
    assert(results_of(results@)[k as int] == results@[k as int]@);
    let len = results[k].word.as_str().unicode_len();
    if k == 0 || len > longest_before {
        if k > 0 {
            text.append("\n");
        }
        push_decimal(text, len);
        text.append(" LETTERS\n");
    }
    assert(text@ =~= old(text)@ + lead(results_of(results@), k as int));
}

/// Writes the lines of the first `count` results, with their headings, and
/// returns the length of the longest word among them.
fn push_lines(text: &mut String, results: &[SearchResult], count: usize) -> (longest_word: usize)
    requires
        count <= results@.len(),
        forall|k: int| 0 <= k < count ==> (#[trigger] results@[k])@.aligned(),
    ensures
        final(text)@ == old(text)@ + listed_lines(results_of(results@), count as int),
        longest_word == longest(results_of(results@), count as int),
{
    let ghost all = results_of(results@);
    let mut longest_word: usize = 0;
    let mut k: usize = 0;
    assert(text@ =~= old(text)@ + listed_lines(all, 0));
    while k < count
        invariant
            k <= count <= results@.len(),
            all == results_of(results@),
            forall|j: int| 0 <= j < count ==> (#[trigger] results@[j])@.aligned(),
            longest_word == longest(all, k as int),
            text@ == old(text)@ + listed_lines(all, k as int),
        decreases count - k,
    {
        let result = &results[k];
        assert(all[k as int] == result@);
        let ghost before = text@;
        push_lead(text, results, k, longest_word);
        text.append(result.word.as_str());
        text.append(" : ");
        text.append(result.phrase_info().as_str());
        text.append("\n");
        assert(text@ =~= before + lead(all, k as int) + entry(all[k as int]));
        let len = result.word.as_str().unicode_len();
        if len > longest_word {
            longest_word = len;
        }
        k += 1;
        assert(text@ =~= old(text)@ + listed_lines(all, k as int));
    }
    longest_word
}

/// Writes the report of a search: `"No results found."` where there is
/// none; else a line per result with its word and its phrases, and in front
/// of the first result of each word length a heading with that length.
pub fn format_results(results: &[SearchResult]) -> (text: String)
    requires
        forall|k: int| 0 <= k < results@.len() ==> (#[trigger] results@[k])@.aligned(),
    ensures
        text@ == report(results_of(results@)),
{
    if results.len() == 0 {
        return String::from_str("No results found.\n");
    }
    let mut text = String::new();
    push_lines(&mut text, results, results.len());
    text
}

/// Writes the report as far as it goes when result `stop` is the first that
/// is not aligned, so that its phrases cannot be shown: the lines of the
/// results before it, what stands in front of its own line, and its word.
pub fn format_results_before(results: &[SearchResult], stop: usize) -> (text: String)
    requires
        stop < results@.len(),
        forall|k: int| 0 <= k < stop ==> (#[trigger] results@[k])@.aligned(),
    ensures
        text@ == listed_lines(results_of(results@), stop as int) + lead(
            results_of(results@),
            stop as int,
        ) + results@[stop as int]@.word,
{
    let mut text = String::new();
    let longest_word = push_lines(&mut text, results, stop);
    push_lead(&mut text, results, stop, longest_word);
    text.append(results[stop].word.as_str());
    text
}

} // verus!
