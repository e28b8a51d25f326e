//! The searcher: strips the boundaries from the words of a list, tiles
//! what is left, and lists the results that are within the limits.

use vstd::prelude::*;
use crate::listing::{in_rank_order, lemma_listing, list_result, listing};
use crate::phrase::{
    all_patterns_nonempty,
    parse_phrase,
    texts_of,
    views_of,
    Phrase,
    PhraseError,
    PhraseErrorView,
    PhraseView,
};
use crate::result::{
    lemma_boundaries_add_no_wildcard,
    results_for,
    results_of,
    search_unchecked,
    SearchResult,
    SearchResultView,
};
use crate::seqs::{lemma_filter_map_members, lemma_filter_members, lemma_flatten_members};
use crate::spans::wildcards;
use crate::text::{chars_of, string_of};

verus! {

/// Searches a word list for the words that spell a list of phrases.
#[derive(Debug)]
pub struct AcroynmSearcher {
    /// Acronym must begin with this phrase.
    pub start: Option<Phrase>,
    /// Acronym must end with this phrase.
    pub end: Option<Phrase>,
    /// Phrases contained in the acronym.
    pub phrases: Vec<Phrase>,
    /// Maximum number of wildcards allowed.
    pub max_wildcards: usize,
    /// Maximum number of unmatched phrases allowed.
    pub max_unmatched_phrases: usize,
    /// List of words to search in.
    pub words: Vec<String>,
}

/// Mathematical value of an [`AcroynmSearcher`].
pub ghost struct AcroynmSearcherView {
    pub start: Option<PhraseView>,
    pub end: Option<PhraseView>,
    pub phrases: Seq<PhraseView>,
    pub max_wildcards: nat,
    pub max_unmatched_phrases: nat,
    pub words: Seq<Seq<char>>,
}

/// The value of an optional phrase.
pub open spec fn optional_view(phrase: Option<Phrase>) -> Option<PhraseView> {
    match phrase {
        Some(p) => Some(p@),
        None => None,
    }
}

impl View for AcroynmSearcher {
    type V = AcroynmSearcherView;

    open spec fn view(&self) -> AcroynmSearcherView {
        AcroynmSearcherView {
            start: optional_view(self.start),
            end: optional_view(self.end),
            phrases: views_of(self.phrases@),
            max_wildcards: self.max_wildcards as nat,
            max_unmatched_phrases: self.max_unmatched_phrases as nat,
            words: texts_of(self.words@),
        }
    }
}

/// `word` without the leading `pattern`, or `None` where it does not begin
/// with it.
pub open spec fn strip_prefix(word: Seq<char>, pattern: Seq<char>) -> Option<Seq<char>> {
    if pattern.len() <= word.len() && word.take(pattern.len() as int) == pattern {
        Some(word.skip(pattern.len() as int))
    } else {
        None
    }
}

/// `word` without the trailing `pattern`, or `None` where it does not end
/// with it.
pub open spec fn strip_suffix(word: Seq<char>, pattern: Seq<char>) -> Option<Seq<char>> {
    if pattern.len() <= word.len() && word.skip(word.len() - pattern.len()) == pattern {
        Some(word.take(word.len() - pattern.len()))
    } else {
        None
    }
}

impl AcroynmSearcherView {
    /// `word` without the start pattern in front and, of what is left,
    /// without the end pattern behind; `None` where one that is configured
    /// is not there.
    pub open spec fn strip(self, word: Seq<char>) -> Option<Seq<char>> {
        let rest = match self.start {
            Some(start) => strip_prefix(word, start.pattern),
            None => Some(word),
        };
        match (rest, self.end) {
            (Some(rest), Some(end)) => strip_suffix(rest, end.pattern),
            _ => rest,
        }
    }

    /// The words that carry the configured boundaries, stripped of them.
    pub open spec fn stripped_words(self) -> Seq<Seq<char>> {
        self.words.filter_map(|word: Seq<char>| self.strip(word))
    }

    /// `result` is within the limits on wildcards and unused phrases.
    pub open spec fn permits(self, result: SearchResultView) -> bool {
        &&& wildcards(result.phrases) <= self.max_wildcards
        &&& result.num_unused_phrases <= self.max_unmatched_phrases
    }

    /// `result` with the configured boundaries put back.
    pub open spec fn with_boundaries(self, result: SearchResultView) -> SearchResultView {
        let started = match self.start {
            Some(start) => result.with_start(start),
            None => result,
        };
        match self.end {
            Some(end) => started.with_end(end),
            None => started,
        }
    }

    /// The results that one stripped word contributes: those of its tilings
    /// that are within the limits, with the boundaries put back.
    pub open spec fn candidates_for(self, stripped: Seq<char>) -> Seq<SearchResultView> {
        results_for(self.phrases, stripped).filter(
            |result: SearchResultView| self.permits(result),
        ).map_values(|result: SearchResultView| self.with_boundaries(result))
    }

    /// The results of all words, word after word.
    pub open spec fn candidates(self) -> Seq<SearchResultView> {
        self.stripped_words().map_values(|stripped: Seq<char>| self.candidates_for(stripped)).flatten()
    }

    /// What a search returns.
    pub open spec fn search(self) -> Seq<SearchResultView> {
        listing(self.candidates())
    }

    /// Word `w` of the list, tiled in the way `t`, gives `result`: the word
    /// carries the boundaries, the tiling of what is left is within the
    /// limits, and `result` is its result with the boundaries put back.
    pub open spec fn yields(self, w: int, t: int, result: SearchResultView) -> bool {
        &&& 0 <= w < self.words.len()
        &&& self.strip(self.words[w]) matches Some(stripped)
        &&& 0 <= t < results_for(self.phrases, stripped).len()
        &&& self.permits(results_for(self.phrases, stripped)[t])
        &&& result == self.with_boundaries(results_for(self.phrases, stripped)[t])
    }
}

/// The characters of an optional text.
pub open spec fn optional_text(text: Option<String>) -> Option<Seq<char>> {
    match text {
        Some(t) => Some(t@),
        None => None,
    }
}

/// The phrase of an optional text, where there is one.
pub open spec fn parse_optional(text: Option<Seq<char>>) -> Result<
    Option<PhraseView>,
    PhraseErrorView,
> {
    match text {
        None => Ok(None),
        Some(t) => match parse_phrase(t) {
            Ok(phrase) => Ok(Some(phrase)),
            Err(error) => Err(error),
        },
    }
}

/// The phrases of a list of texts, or the error of the first text that
/// makes no phrase.
pub open spec fn parse_all(texts: Seq<Seq<char>>) -> Result<Seq<PhraseView>, PhraseErrorView>
    decreases texts.len(),
{
    if texts.len() == 0 {
        Ok(Seq::empty())
    } else {
        match parse_all(texts.drop_last()) {
            Err(error) => Err(error),
            Ok(phrases) => match parse_phrase(texts.last()) {
                Ok(phrase) => Ok(phrases.push(phrase)),
                Err(error) => Err(error),
            },
        }
    }
}

/// The searcher that the texts and limits make, or the error of the first
/// text that makes no phrase: the start is looked at first, then the end,
/// then the phrases in order.
pub open spec fn construct(
    start: Option<Seq<char>>,
    end: Option<Seq<char>>,
    phrases: Seq<Seq<char>>,
    max_wildcards: nat,
    max_unmatched_phrases: nat,
    words: Seq<Seq<char>>,
) -> Result<AcroynmSearcherView, PhraseErrorView> {
    match parse_optional(start) {
        Err(error) => Err(error),
        Ok(start) => match parse_optional(end) {
            Err(error) => Err(error),
            Ok(end) => match parse_all(phrases) {
                Err(error) => Err(error),
                Ok(phrases) => Ok(
                    AcroynmSearcherView {
                        start,
                        end,
                        phrases,
                        max_wildcards,
                        max_unmatched_phrases,
                        words,
                    },
                ),
            },
        },
    }
}

fn parse_boundary(text: Option<String>) -> (outcome: Result<Option<Phrase>, PhraseError>)
    ensures
        match (outcome, parse_optional(optional_text(text))) {
            (Ok(phrase), Ok(value)) => optional_view(phrase) == value,
            (Err(error), Err(value)) => error@ == value,
            _ => false,
        },
{
    match text {
        None => Ok(None),
        Some(t) => match Phrase::new(t) {
            Ok(phrase) => Ok(Some(phrase)),
            Err(error) => Err(error),
        },
    }
}

fn parse_phrases(texts: &Vec<String>) -> (outcome: Result<Vec<Phrase>, PhraseError>)
    ensures
        match (outcome, parse_all(texts_of(texts@))) {
            (Ok(phrases), Ok(values)) => views_of(phrases@) == values && all_patterns_nonempty(
                phrases@,
            ),
            (Err(error), Err(value)) => error@ == value,
            _ => false,
        },
{
    let mut phrases: Vec<Phrase> = Vec::new();
    let mut i: usize = 0;
    assert(texts_of(texts@).take(0) =~= Seq::empty());
    assert(views_of(phrases@) =~= Seq::empty());
    while i < texts.len()
        invariant
            i <= texts.len(),
            parse_all(texts_of(texts@).take(i as int)) == Ok::<
                Seq<PhraseView>,
                PhraseErrorView,
            >(views_of(phrases@)),
            all_patterns_nonempty(phrases@),
        decreases texts.len() - i,
    {
        proof {
            let upto = texts_of(texts@).take(i + 1);
            assert(upto.drop_last() =~= texts_of(texts@).take(i as int));
            assert(upto.last() == texts@[i as int]@);
        }
        let ghost before = phrases@;
        match Phrase::new(texts[i].clone()) {
            Ok(phrase) => {
                phrases.push(phrase);
                assert(views_of(phrases@) =~= views_of(before).push(phrase@));
            },
            Err(error) => {
                proof {
                    lemma_parse_all_fails(texts_of(texts@), i + 1);
                }
                return Err(error);
            },
        }
        i += 1;
    }
    assert(texts_of(texts@).take(i as int) =~= texts_of(texts@));
    Ok(phrases)
}

proof fn lemma_parse_all_fails(texts: Seq<Seq<char>>, upto: int)
    requires
        0 <= upto <= texts.len(),
        parse_all(texts.take(upto)) is Err,
    ensures
        parse_all(texts) == parse_all(texts.take(upto)),
    decreases texts.len() - upto,
{
    if upto < texts.len() {
        assert(texts.take(upto + 1).drop_last() =~= texts.take(upto));
        lemma_parse_all_fails(texts, upto + 1);
    } else {
        assert(texts.take(upto) =~= texts);
    }
}

fn begins_with(word: &Vec<char>, pattern: &Vec<char>) -> (begins: bool)
    ensures
        begins == (strip_prefix(word@, pattern@) is Some),
{
    if pattern.len() > word.len() {
        return false;
    }
    let mut i: usize = 0;
    while i < pattern.len()
        invariant
            i <= pattern.len() <= word.len(),
            forall|k: int| 0 <= k < i ==> word@[k] == pattern@[k],
        decreases pattern.len() - i,
    {
        if word[i] != pattern[i] {
            assert(word@.take(pattern.len() as int)[i as int] != pattern@[i as int]);
            return false;
        }
        i += 1;
    }
    assert(word@.take(pattern.len() as int) =~= pattern@);
    true
}

fn ends_with(word: &Vec<char>, pattern: &Vec<char>) -> (ends: bool)
    ensures
        ends == (strip_suffix(word@, pattern@) is Some),
{
    if pattern.len() > word.len() {
        return false;
    }
    let offset: usize = word.len() - pattern.len();
    let mut i: usize = 0;
    while i < pattern.len()
        invariant
            i <= pattern.len() <= word.len(),
            offset == word.len() - pattern.len(),
            forall|k: int| 0 <= k < i ==> word@[offset + k] == pattern@[k],
        decreases pattern.len() - i,
    {
        if word[offset + i] != pattern[i] {
            assert(word@.skip(offset as int)[i as int] != pattern@[i as int]);
            return false;
        }
        i += 1;
    }
    assert(word@.skip(offset as int) =~= pattern@);
    true
}

fn slice_of(word: &Vec<char>, from: usize, to: usize) -> (part: Vec<char>)
    requires
        from <= to <= word.len(),
    ensures
        part@ == word@.subrange(from as int, to as int),
{
    let mut part: Vec<char> = Vec::new();
    let mut i: usize = from;
    while i < to
        invariant
            from <= i <= to <= word.len(),
            part@ == word@.subrange(from as int, i as int),
        decreases to - i,
    {
        part.push(word[i]);
        i += 1;
    }
    part
}

impl AcroynmSearcher {
    /// Makes a searcher from the phrase texts, the limits and the word
    /// list. Every text must make a phrase; the first that does not gives
    /// the error, looking at the start, then the end, then the phrases in
    /// order.
    pub fn try_from(
        start: Option<String>,
        end: Option<String>,
        phrases: Vec<String>,
        max_wildcards: usize,
        max_unmatched_phrases: usize,
        words: Vec<String>,
    ) -> (outcome: Result<AcroynmSearcher, PhraseError>)
        ensures
            match (
                outcome,
                construct(
                    optional_text(start),
                    optional_text(end),
                    texts_of(phrases@),
                    max_wildcards as nat,
                    max_unmatched_phrases as nat,
                    texts_of(words@),
                ),
            ) {
                (Ok(searcher), Ok(value)) => searcher@ == value && all_patterns_nonempty(
                    searcher.phrases@,
                ),
                (Err(error), Err(value)) => error@ == value,
                _ => false,
            },
    {
        let start = match parse_boundary(start) {
            Ok(phrase) => phrase,
            Err(error) => {
                return Err(error);
            },
        };
        let end = match parse_boundary(end) {
            Ok(phrase) => phrase,
            Err(error) => {
                return Err(error);
            },
        };
        let phrases = match parse_phrases(&phrases) {
            Ok(phrases) => phrases,
            Err(error) => {
                return Err(error);
            },
        };
        Ok(AcroynmSearcher { start, end, phrases, max_wildcards, max_unmatched_phrases, words })
    }

    fn strip_word(&self, word: &str) -> (stripped: Option<String>)
        ensures
            match stripped {
                Some(rest) => self@.strip(word@) == Some(rest@),
                None => self@.strip(word@) is None,
            },
    {
        let letters = chars_of(word);
        let mut from: usize = 0;
        let mut to: usize = letters.len();
        if let Some(start) = &self.start {
            let pattern = chars_of(start.pattern.as_str());
            if !begins_with(&letters, &pattern) {
                return None;
            }
            from = pattern.len();
        }
        let ghost rest = letters@.skip(from as int);
        assert(rest =~= letters@.subrange(from as int, to as int));
        assert(match self@.start {
            Some(start) => strip_prefix(word@, start.pattern) == Some(rest),
            None => rest =~= word@,
        });
        if let Some(end) = &self.end {
            let pattern = chars_of(end.pattern.as_str());
            let tail = slice_of(&letters, from, to);
            if !ends_with(&tail, &pattern) {
                return None;
            }
            to = to - pattern.len();
            assert(letters@.subrange(from as int, to as int) =~= rest.take(
                rest.len() - pattern@.len(),
            ));
        }
        Some(string_of(&slice_of(&letters, from, to)))
    }

    /// Strip words of the start and end phrases, if any are given; a word
    /// that lacks one of them is left out.
    pub fn stripped_words(&self) -> (stripped: Vec<String>)
        ensures
            texts_of(stripped@) == self@.stripped_words(),
    {
        let mut stripped: Vec<String> = Vec::new();
        let mut i: usize = 0;
        let ghost strip = |word: Seq<char>| self@.strip(word);
        while i < self.words.len()
            invariant
                i <= self.words.len(),
                strip == |word: Seq<char>| self@.strip(word),
                texts_of(stripped@) == texts_of(self.words@).take(i as int).filter_map(strip),
            decreases self.words.len() - i,
        {
            let ghost before = stripped@;
            let ghost upto = texts_of(self.words@).take(i + 1);
            assert(upto.drop_last() =~= texts_of(self.words@).take(i as int));
            assert(upto.last() == self.words@[i as int]@);
            if let Some(rest) = self.strip_word(self.words[i].as_str()) {
                stripped.push(rest);
                assert(texts_of(stripped@) =~= texts_of(before) + seq![rest@]);
            }
            i += 1;
        }
        assert(texts_of(self.words@).take(i as int) =~= texts_of(self.words@));
        stripped
    }

    /// Add the start and end phrases to a result, if any are given.
    pub fn add_start_and_end_to_result(&self, result: SearchResult) -> (bounded: SearchResult)
        ensures
            bounded@ == self@.with_boundaries(result@),
    {
        let mut result = result;
        if let Some(phrase) = &self.start {
            result.add_start_phrase(phrase.clone());
        }
        if let Some(phrase) = &self.end {
            result.add_end_phrase(phrase.clone());
        }
        result
    }

    fn permits(&self, result: &SearchResult) -> (within: bool)
        ensures
            within == self@.permits(result@),
    {
        result.num_wildcards() <= self.max_wildcards && result.num_unused_phrases
            <= self.max_unmatched_phrases
    }

    /// Lists the results of one stripped word behind those listed so far.
    fn list_word(&self, stripped: &str, listed: &mut Vec<SearchResult>, Ghost(earlier): Ghost<
        Seq<SearchResultView>,
    >)
        requires
            all_patterns_nonempty(self.phrases@),
            results_of(old(listed)@) == listing(earlier),
        ensures
            results_of(final(listed)@) == listing(earlier + self@.candidates_for(stripped@)),
    {
        let mut found = search_unchecked(self.phrases.as_slice(), stripped);
        let ghost all = results_of(found@);
        let ghost permits = |result: SearchResultView| self@.permits(result);
        let ghost bound = |result: SearchResultView| self@.with_boundaries(result);
        let mut pending: Vec<SearchResult> = Vec::new();
        while found.len() > 0
            invariant
                results_of(found@) + results_of(pending@).reverse() == all,
            decreases found.len(),
        {
            let ghost found_before = results_of(found@);
            let ghost pending_before = results_of(pending@);
            let result = found.pop().unwrap();
            pending.push(result);
            assert(results_of(found@) =~= found_before.drop_last());
            assert(results_of(pending@) =~= pending_before.push(result@));
            assert(results_of(found@) + results_of(pending@).reverse() =~= found_before
                + pending_before.reverse());
        }
        let ghost mut done: int = 0;
        assert(all.take(0) =~= Seq::empty());
        assert(earlier + all.take(0).filter(permits).map_values(bound) =~= earlier) by {
            reveal(Seq::filter);
        }
        assert(results_of(pending@).reverse() =~= all);
        while pending.len() > 0
            invariant
                0 <= done <= all.len(),
                pending.len() + done == all.len(),
                permits == |result: SearchResultView| self@.permits(result),
                bound == |result: SearchResultView| self@.with_boundaries(result),
                results_of(pending@).reverse() == all.skip(done),
                results_of(listed@) == listing(
                    earlier + all.take(done).filter(permits).map_values(bound),
                ),
            decreases pending.len(),
        {
            let ghost pending_before = results_of(pending@);
            let ghost chosen = all.take(done).filter(permits).map_values(bound);
            let result = pending.pop().unwrap();
            proof {
                assert(results_of(pending@) =~= pending_before.drop_last());
                assert(pending_before.reverse()[0] == result@);
                assert(all[done] == result@);
                assert forall|k: int| 0 <= k < results_of(pending@).len() implies results_of(
                    pending@,
                ).reverse()[k] == all.skip(done + 1)[k] by {
                    assert(pending_before.reverse()[k + 1] == all.skip(done)[k + 1]);
                }
                assert(results_of(pending@).reverse() =~= all.skip(done + 1));
                assert(all.take(done + 1).drop_last() =~= all.take(done));
                reveal(Seq::filter);
            }
            if self.permits(&result) {
                let bounded = self.add_start_and_end_to_result(result);
                list_result(listed, bounded);
                proof {
                    let next = all.take(done + 1).filter(permits).map_values(bound);
                    assert(next =~= chosen.push(bounded@));
                    assert((earlier + next).drop_last() =~= earlier + chosen);
                }
            }
            proof {
                done = done + 1;
            }
        }
        assert(all.take(done) =~= all);
    }

    /// Searches the word list. Each word that carries the boundaries is
    /// stripped of them and tiled by the phrases; the tilings within the
    /// limits become results, with the boundaries put back. The results come
    /// without repeats, shorter words first, words of one length in
    /// lexicographic order.
    pub fn search(&self) -> (results: Vec<SearchResult>)
        requires
            all_patterns_nonempty(self.phrases@),
        ensures
            results_of(results@) == self@.search(),
            in_rank_order(results_of(results@)),
            results_of(results@).no_duplicates(),
            forall|r: SearchResultView|
                #[trigger] results_of(results@).contains(r) <==> self@.candidates().contains(r),
    {
        let stripped = self.stripped_words();
        let ghost per_word = |word: Seq<char>| self@.candidates_for(word);
        let mut listed: Vec<SearchResult> = Vec::new();
        let mut i: usize = 0;
        assert(texts_of(stripped@).take(0).map_values(per_word) =~= Seq::empty());
        while i < stripped.len()
            invariant
                i <= stripped.len(),
                all_patterns_nonempty(self.phrases@),
                per_word == |word: Seq<char>| self@.candidates_for(word),
                texts_of(stripped@) == self@.stripped_words(),
                results_of(listed@) == listing(
                    texts_of(stripped@).take(i as int).map_values(per_word).flatten(),
                ),
            decreases stripped.len() - i,
        {
            let ghost earlier = texts_of(stripped@).take(i as int).map_values(per_word);
            self.list_word(stripped[i].as_str(), &mut listed, Ghost(earlier.flatten()));
            proof {
                let next = texts_of(stripped@).take(i + 1).map_values(per_word);
                assert(next =~= earlier.push(self@.candidates_for(stripped@[i as int]@)));
                earlier.lemma_flatten_push(self@.candidates_for(stripped@[i as int]@));
            }
            i += 1;
        }
        proof {
            assert(texts_of(stripped@).take(i as int) =~= texts_of(stripped@));
            lemma_listing(self@.candidates());
        }
        listed
    }
}

/// A search returns exactly the results that the words of the list give:
/// one for every tiling within the limits of every word that carries the
/// boundaries, and no other.
pub proof fn lemma_search_members(searcher: AcroynmSearcherView, result: SearchResultView)
    ensures
        searcher.search().contains(result) <==> exists|w: int, t: int| #[trigger]
            searcher.yields(w, t, result),
{
    let strip = |word: Seq<char>| searcher.strip(word);
    let per_word = |stripped: Seq<char>| searcher.candidates_for(stripped);
    let permits = |r: SearchResultView| searcher.permits(r);
    let bound = |r: SearchResultView| searcher.with_boundaries(r);
    let stripped_words = searcher.stripped_words();
    let parts = stripped_words.map_values(per_word);
    lemma_listing(searcher.candidates());
    lemma_flatten_members(parts, result);
    if searcher.search().contains(result) {
        let i = choose|i: int| 0 <= i < parts.len() && (#[trigger] parts[i]).contains(result);
        let stripped = stripped_words[i];
        assert(stripped_words.contains(stripped));
        lemma_filter_map_members(searcher.words, strip, stripped);
        let w = choose|w: int|
            0 <= w < searcher.words.len() && strip(#[trigger] searcher.words[w]) == Some(stripped);
        let all = results_for(searcher.phrases, stripped);
        let kept = all.filter(permits);
        let j = choose|j: int| 0 <= j < parts[i].len() && parts[i][j] == result;
        assert(parts[i][j] == bound(kept[j]));
        assert(kept.contains(kept[j]));
        lemma_filter_members(all, permits, kept[j]);
        let t = choose|t: int| 0 <= t < all.len() && all[t] == kept[j];
        assert(searcher.yields(w, t, result));
    }
    if exists|w: int, t: int| #[trigger] searcher.yields(w, t, result) {
        let (w, t) = choose|w: int, t: int| #[trigger] searcher.yields(w, t, result);
        let stripped = searcher.strip(searcher.words[w])->0;
        assert(strip(searcher.words[w]) == Some(stripped));
        lemma_filter_map_members(searcher.words, strip, stripped);
        let i = choose|i: int| 0 <= i < stripped_words.len() && stripped_words[i] == stripped;
        let all = results_for(searcher.phrases, stripped);
        let kept = all.filter(permits);
        assert(all.contains(all[t]));
        lemma_filter_members(all, permits, all[t]);
        let j = choose|j: int| 0 <= j < kept.len() && kept[j] == all[t];
        assert(parts[i][j] == result);
        assert(parts[i].contains(result));
    }
}

/// What a word of the list gives is within the limits on wildcards and
/// unused phrases, and its word is the word of the list: a result is never
/// made of a word that lacks a boundary.
pub proof fn lemma_yielded_result(
    searcher: AcroynmSearcherView,
    w: int,
    t: int,
    result: SearchResultView,
)
    requires
        searcher.yields(w, t, result),
    ensures
        result.word == searcher.words[w],
        searcher.strip(result.word) is Some,
        wildcards(result.phrases) <= searcher.max_wildcards,
        result.num_unused_phrases <= searcher.max_unmatched_phrases,
{
    let word = searcher.words[w];
    let stripped = searcher.strip(word)->0;
    let body = results_for(searcher.phrases, stripped)[t];
    assert(body.word == stripped);
    let rest = match searcher.start {
        Some(start) => strip_prefix(word, start.pattern)->0,
        None => word,
    };
    let started = match searcher.start {
        Some(start) => body.with_start(start),
        None => body,
    };
    if let Some(start) = searcher.start {
        lemma_boundaries_add_no_wildcard(body, start);
        assert(word =~= word.take(start.pattern.len() as int) + word.skip(
            start.pattern.len() as int,
        ));
    }
    if let Some(end) = searcher.end {
        lemma_boundaries_add_no_wildcard(started, end);
        assert(rest =~= rest.take(rest.len() - end.pattern.len()) + rest.skip(
            rest.len() - end.pattern.len(),
        ));
    }
    assert(result.word =~= word);
}

/// Searching twice with the same configuration gives the same results in
/// the same order.
pub proof fn lemma_search_repeatable(
    first: AcroynmSearcher,
    second: AcroynmSearcher,
    first_results: Seq<SearchResult>,
    second_results: Seq<SearchResult>,
)
    requires
        first@ == second@,
        results_of(first_results) == first@.search(),
        results_of(second_results) == second@.search(),
    ensures
        results_of(first_results) == results_of(second_results),
{
}

} // verus!
