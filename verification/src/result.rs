//! Search results: what one tiling of a word says about the phrases.

use std::cmp::Ordering;
use vstd::prelude::*;
use vstd::string::*;
use crate::gloss::{aligned, gloss, is_aligned, render_gloss};
use crate::phrase::{
    all_patterns_nonempty,
    pattern_texts,
    patterns_of,
    views_of,
    Phrase,
    PhraseView,
};
use crate::rank::{compare_words, word_order};
use crate::spans::{
    claimed,
    collapse,
    deduplicate_word_match,
    indices_used,
    lemma_claimed_spans,
    lemma_collapse_well_formed,
    lemma_span_from_slot,
    lemma_span_holds_slot,
    span_of,
    wildcards,
};
use crate::text::{capitalize, capitalized};
use crate::tiling::{
    assignments_of,
    find_word_matches,
    lemma_tilings_contiguous,
    lemma_tilings_well_formed,
    tilings,
    well_formed,
};

verus! {

/// One way in which a word spells the phrases.
#[derive(Debug, Eq)]
pub struct SearchResult {
    /// Phrases in order of matching, or `None` for a character left as
    /// wildcard.
    pub phrases: Vec<Option<Phrase>>,
    /// Number of unused phrases.
    pub num_unused_phrases: usize,
    /// Word that matched the search.
    pub word: String,
}

/// Mathematical value of a [`SearchResult`].
pub ghost struct SearchResultView {
    pub phrases: Seq<Option<PhraseView>>,
    pub num_unused_phrases: nat,
    pub word: Seq<char>,
}

/// The values of a list of spans.
pub open spec fn spans_of(phrases: Seq<Option<Phrase>>) -> Seq<Option<PhraseView>> {
    phrases.map_values(
        |p: Option<Phrase>|
            match p {
                Some(phrase) => Some(phrase@),
                None => None,
            },
    )
}

impl View for SearchResult {
    type V = SearchResultView;

    open spec fn view(&self) -> SearchResultView {
        SearchResultView {
            phrases: spans_of(self.phrases@),
            num_unused_phrases: self.num_unused_phrases as nat,
            word: self.word@,
        }
    }
}

/// The values of a list of results.
pub open spec fn results_of(results: Seq<SearchResult>) -> Seq<SearchResultView> {
    results.map_values(|r: SearchResult| r@)
}

impl SearchResultView {
    /// The result with `phrase` put in front: one more span, and the
    /// pattern before the word.
    pub open spec fn with_start(self, phrase: PhraseView) -> SearchResultView {
        SearchResultView {
            phrases: seq![Some(phrase)] + self.phrases,
            num_unused_phrases: self.num_unused_phrases,
            word: phrase.pattern + self.word,
        }
    }

    /// At every wildcard the cursor stands on a character of the word.
    pub open spec fn aligned(self) -> bool {
        aligned(self.phrases, self.word.len())
    }

    /// The phrases with wildcard hints filled in from the word, in capitals.
    pub open spec fn phrase_info(self) -> Seq<char> {
        gloss(self.phrases, capitalized(self.word), self.phrases.len() as int)
    }

    /// The result with `phrase` put behind: one more span, and the pattern
    /// after the word.
    pub open spec fn with_end(self, phrase: PhraseView) -> SearchResultView {
        SearchResultView {
            phrases: self.phrases.push(Some(phrase)),
            num_unused_phrases: self.num_unused_phrases,
            word: self.word + phrase.pattern,
        }
    }
}

fn same_span(a: &Option<Phrase>, b: &Option<Phrase>) -> (same: bool)
    ensures
        same == (spans_of(seq![*a]) == spans_of(seq![*b])),
{
    let same = match (a, b) {
        (Some(p), Some(q)) => p == q,
        (None, None) => true,
        _ => false,
    };
    proof {
        assert(spans_of(seq![*a])[0] == spans_of(seq![*b])[0] <==> same);
        if same {
            assert(spans_of(seq![*a]) =~= spans_of(seq![*b]));
        }
    }
    same
}

fn same_spans(a: &Vec<Option<Phrase>>, b: &Vec<Option<Phrase>>) -> (same: bool)
    ensures
        same == (spans_of(a@) == spans_of(b@)),
{
    if a.len() != b.len() {
        assert(spans_of(a@).len() != spans_of(b@).len());
        return false;
    }
    let mut i: usize = 0;
    while i < a.len()
        invariant
            i <= a.len(),
            a.len() == b.len(),
            forall|k: int| 0 <= k < i ==> spans_of(a@)[k] == spans_of(b@)[k],
        decreases a.len() - i,
    {
        let same = same_span(&a[i], &b[i]);
        proof {
            assert(spans_of(seq![a@[i as int]])[0] == spans_of(a@)[i as int]);
            assert(spans_of(seq![b@[i as int]])[0] == spans_of(b@)[i as int]);
            if spans_of(a@)[i as int] == spans_of(b@)[i as int] {
                assert(spans_of(seq![a@[i as int]]) =~= spans_of(seq![b@[i as int]]));
            }
        }
        if !same {
            return false;
        }
        i += 1;
    }
    assert(spans_of(a@) =~= spans_of(b@));
    true
}

impl PartialEq for SearchResult {
    fn eq(&self, other: &Self) -> (same: bool) {
        self.num_unused_phrases == other.num_unused_phrases && self.word == other.word
            && same_spans(&self.phrases, &other.phrases)
    }
}

impl vstd::std_specs::cmp::PartialEqSpecImpl for SearchResult {
    open spec fn obeys_eq_spec() -> bool {
        true
    }

    open spec fn eq_spec(&self, other: &Self) -> bool {
        self@ == other@
    }
}

impl PartialOrd for SearchResult {
    fn partial_cmp(&self, other: &Self) -> (order: Option<Ordering>) {
        Some(compare_words(self.word.as_str(), other.word.as_str()))
    }
}

impl vstd::std_specs::cmp::PartialOrdSpecImpl for SearchResult {
    open spec fn obeys_partial_cmp_spec() -> bool {
        true
    }

    open spec fn partial_cmp_spec(&self, other: &Self) -> Option<Ordering> {
        Some(word_order(self@.word, other@.word))
    }
}

impl SearchResult {
    /// How this result stands to `other` in the listing order, which goes
    /// by the words alone: the shorter word first, of two words of one
    /// length the lexicographically smaller.
    pub fn cmp(&self, other: &Self) -> (order: Ordering)
        ensures
            order == word_order(self@.word, other@.word),
    {
        compare_words(self.word.as_str(), other.word.as_str())
    }

    /// Add a phrase to the start of the search result.
    pub fn add_start_phrase(&mut self, phrase: Phrase)
        ensures
            final(self)@ == old(self)@.with_start(phrase@),
    {
        let mut word = phrase.pattern.clone();
        word.append(self.word.as_str());
        self.word = word;
        self.phrases.insert(0, Some(phrase));
        assert(spans_of(self.phrases@) =~= seq![Some(phrase@)] + spans_of(old(self).phrases@));
    }

    /// Add a phrase to the end of the search result.
    pub fn add_end_phrase(&mut self, phrase: Phrase)
        ensures
            final(self)@ == old(self)@.with_end(phrase@),
    {
        self.word.append(phrase.pattern.as_str());
        self.phrases.push(Some(phrase));
        assert(spans_of(self.phrases@) =~= spans_of(old(self).phrases@).push(Some(phrase@)));
    }

    /// Whether the wildcards of the result fall on characters of its word,
    /// so that each has a letter to show.
    pub fn is_aligned(&self) -> (fits: bool)
        ensures
            fits == self@.aligned(),
    {
        is_aligned(&self.phrases, self.word.as_str().unicode_len())
    }

    /// Returns the phrase with wildcard hints filled in from the matching
    /// word: the words of each matched phrase, and for each wildcard the
    /// capital of the letter it stands for.
    pub fn phrase_info(&self) -> (info: String)
        requires
            self@.aligned(),
        ensures
            info@ == self@.phrase_info(),
    {
        let capitals = capitalize(self.word.as_str());
        render_gloss(&self.phrases, &capitals)
    }

    /// The number of characters left as wildcards.
    pub fn num_wildcards(&self) -> (count: usize)
        ensures
            count == wildcards(self@.phrases),
    {
        let mut count: usize = 0;
        let mut i: usize = 0;
        while i < self.phrases.len()
            invariant
                i <= self.phrases.len(),
                count <= i,
                count == wildcards(spans_of(self.phrases@).take(i as int)),
            decreases self.phrases.len() - i,
        {
            proof {
                let upto = spans_of(self.phrases@).take(i + 1);
                assert(upto.drop_last() =~= spans_of(self.phrases@).take(i as int));
                assert(upto.last() is None <==> self.phrases@[i as int] is None);
            }
            if self.phrases[i].is_none() {
                count += 1;
            }
            i += 1;
        }
        assert(spans_of(self.phrases@).take(i as int) =~= spans_of(self.phrases@));
        count
    }
}

/// The phrase of each claimed span, by its index in `phrases`.
pub open spec fn span_phrases(phrases: Seq<PhraseView>, spans: Seq<Option<usize>>) -> Seq<
    Option<PhraseView>,
> {
    spans.map_values(
        |s: Option<usize>|
            match s {
                Some(i) => Some(phrases[i as int]),
                None => None,
            },
    )
}

/// The result that one tiling of `word` gives: its spans, the number of
/// phrases that claim no span, and the word.
pub open spec fn result_of(phrases: Seq<PhraseView>, word: Seq<char>, slots: Seq<Option<usize>>) -> SearchResultView {
    SearchResultView {
        phrases: span_phrases(phrases, collapse(slots)),
        num_unused_phrases: (phrases.len() - claimed(collapse(slots))) as nat,
        word,
    }
}

/// The results for `word`, one per tiling, in the order of the tilings.
pub open spec fn results_for(phrases: Seq<PhraseView>, word: Seq<char>) -> Seq<SearchResultView> {
    tilings(word, pattern_texts(phrases), phrases.len() as int).map_values(
        |slots: Seq<Option<usize>>| result_of(phrases, word, slots),
    )
}

fn count_claimed(spans: &Vec<Option<usize>>) -> (count: usize)
    ensures
        count == claimed(spans@),
{
    let mut count: usize = 0;
    let mut i: usize = 0;
    while i < spans.len()
        invariant
            i <= spans.len(),
            count <= i,
            count == claimed(spans@.take(i as int)),
        decreases spans.len() - i,
    {
        assert(spans@.take(i + 1).drop_last() =~= spans@.take(i as int));
        if spans[i].is_some() {
            count += 1;
        }
        i += 1;
    }
    assert(spans@.take(i as int) =~= spans@);
    count
}

fn phrases_of_spans(phrases: &[Phrase], spans: &Vec<Option<usize>>) -> (out: Vec<Option<Phrase>>)
    requires
        well_formed(spans@, spans@.len(), phrases@.len() as int),
    ensures
        spans_of(out@) == span_phrases(views_of(phrases@), spans@),
{
    let mut out: Vec<Option<Phrase>> = Vec::new();
    let mut i: usize = 0;
    while i < spans.len()
        invariant
            i <= spans.len(),
            well_formed(spans@, spans@.len(), phrases@.len() as int),
            spans_of(out@) == span_phrases(views_of(phrases@), spans@).take(i as int),
        decreases spans.len() - i,
    {
        let ghost before = out@;
        match spans[i] {
            Some(index) => {
                out.push(Some(phrases[index].clone()));
            },
            None => {
                out.push(None);
            },
        }
        i += 1;
        assert(spans_of(out@) =~= span_phrases(views_of(phrases@), spans@).take(i as int)) by {
            assert(spans_of(out@).drop_last() =~= spans_of(before));
        }
    }
    assert(span_phrases(views_of(phrases@), spans@).take(i as int) =~= span_phrases(
        views_of(phrases@),
        spans@,
    ));
    out
}

fn copy_slots(slots: &Vec<Option<usize>>) -> (copy: Vec<Option<usize>>)
    ensures
        copy@ == slots@,
{
    let mut copy: Vec<Option<usize>> = Vec::new();
    let mut i: usize = 0;
    while i < slots.len()
        invariant
            i <= slots.len(),
            copy@ == slots@.take(i as int),
        decreases slots.len() - i,
    {
        copy.push(slots[i]);
        i += 1;
    }
    copy
}

/// Attempts to match a sequence of phrases with a word: one result per
/// tiling of the word.
pub fn search_unchecked(phrases: &[Phrase], word: &str) -> (results: Vec<SearchResult>)
    requires
        all_patterns_nonempty(phrases@),
    ensures
        results_of(results@) == results_for(views_of(phrases@), word@),
{
    let matches = find_word_matches(phrases, word);
    let ghost all = tilings(word@, patterns_of(phrases@), phrases@.len() as int);
    let mut results: Vec<SearchResult> = Vec::new();
    let mut t: usize = 0;
    assert(phrases@.len() == phrases.len());
    while t < matches.len()
        invariant
            t <= matches.len(),
            phrases@.len() <= usize::MAX,
            assignments_of(matches@) == all,
            all == tilings(word@, patterns_of(phrases@), phrases@.len() as int),
            results_of(results@) == results_for(views_of(phrases@), word@).take(t as int),
        decreases matches.len() - t,
    {
        let mut word_match = copy_slots(&matches[t]);
        proof {
            assert(all[t as int] == matches@[t as int]@);
            lemma_tilings_well_formed(word@, patterns_of(phrases@), phrases@.len() as int, t as int);
            lemma_tilings_contiguous(word@, patterns_of(phrases@), phrases@.len() as int, t as int);
            lemma_claimed_spans(all[t as int], phrases@.len() as int);
            lemma_collapse_well_formed(all[t as int], phrases@.len() as int);
        }
        deduplicate_word_match(&mut word_match);
        let used = count_claimed(&word_match);
        let result = SearchResult {
            num_unused_phrases: phrases.len() - used,
            phrases: phrases_of_spans(phrases, &word_match),
            word: word.to_owned(),
        };
        let ghost before = results@;
        results.push(result);
        t += 1;
        proof {
            assert(result@ == result_of(views_of(phrases@), word@, all[t - 1]));
            assert(results_of(results@).drop_last() =~= results_of(before));
            assert(results_of(results@) =~= results_for(views_of(phrases@), word@).take(t as int));
        }
    }
    assert(results_for(views_of(phrases@), word@).take(t as int) =~= results_for(
        views_of(phrases@),
        word@,
    ));
    results
}

/// For every result of a word, the unused phrases and the phrases that
/// claim a span add up to the list of phrases: each phrase in use claims
/// exactly one span.
pub proof fn lemma_unused_count(phrases: Seq<PhraseView>, word: Seq<char>, t: int)
    requires
        phrases.len() <= usize::MAX,
        0 <= t < results_for(phrases, word).len(),
    ensures
        claimed(results_for(phrases, word)[t].phrases) == indices_used(
            tilings(word, pattern_texts(phrases), phrases.len() as int)[t],
            phrases.len() as int,
        ),
        results_for(phrases, word)[t].num_unused_phrases + claimed(
            results_for(phrases, word)[t].phrases,
        ) == phrases.len(),
{
    let count = phrases.len() as int;
    let slots = tilings(word, pattern_texts(phrases), count)[t];
    lemma_tilings_well_formed(word, pattern_texts(phrases), count, t);
    lemma_tilings_contiguous(word, pattern_texts(phrases), count, t);
    lemma_claimed_spans(slots, count);
    lemma_span_phrases_counts(phrases, collapse(slots));
}

/// The phrases that claim a span.
pub open spec fn phrases_in_spans(spans: Seq<Option<PhraseView>>) -> Set<PhraseView> {
    Set::new(|p: PhraseView| spans.contains(Some(p)))
}

/// Phrase `i` of the list is `p`, and some slot holds its index.
pub open spec fn in_use(
    phrases: Seq<PhraseView>,
    slots: Seq<Option<usize>>,
    i: int,
    p: PhraseView,
) -> bool {
    slots.contains(Some(i as usize)) && phrases[i] == p
}

/// The phrases among the first `count` of the list whose index some slot
/// holds.
pub open spec fn phrases_in_use(
    phrases: Seq<PhraseView>,
    slots: Seq<Option<usize>>,
    count: int,
) -> Set<PhraseView> {
    Set::new(|p: PhraseView| exists|i: int| 0 <= i < count && #[trigger] in_use(phrases, slots, i, p))
}

/// No phrase stands twice in the list.
pub open spec fn all_different(phrases: Seq<PhraseView>) -> bool {
    forall|i: int, j: int|
        0 <= i < j < phrases.len() ==> #[trigger] phrases[i] != #[trigger] phrases[j]
}

proof fn lemma_phrases_in_use(phrases: Seq<PhraseView>, slots: Seq<Option<usize>>, count: int)
    requires
        0 <= count <= phrases.len() <= usize::MAX,
        all_different(phrases),
    ensures
        phrases_in_use(phrases, slots, count).finite(),
        phrases_in_use(phrases, slots, count).len() == indices_used(slots, count),
    decreases count,
{
    let now = phrases_in_use(phrases, slots, count);
    if count == 0 {
        assert(now =~= Set::empty());
    } else {
        let before = phrases_in_use(phrases, slots, count - 1);
        lemma_phrases_in_use(phrases, slots, count - 1);
        let last = phrases[count - 1];
        if slots.contains(Some((count - 1) as usize)) {
            assert(in_use(phrases, slots, count - 1, last));
            assert forall|p: PhraseView| now.contains(p) <==> before.insert(last).contains(p) by {
                if before.contains(p) {
                    let i = choose|i: int| 0 <= i < count - 1 && #[trigger] in_use(phrases, slots, i, p);
                    assert(in_use(phrases, slots, i, p));
                }
                if now.contains(p) {
                    let i = choose|i: int| 0 <= i < count && #[trigger] in_use(phrases, slots, i, p);
                    if i < count - 1 {
                        assert(in_use(phrases, slots, i, p));
                    }
                }
            }
            assert(now =~= before.insert(last));
            if before.contains(last) {
                let i = choose|i: int| 0 <= i < count - 1 && #[trigger] in_use(phrases, slots, i, last);
                assert(phrases[i] != phrases[count - 1]);
            }
        } else {
            assert forall|p: PhraseView| now.contains(p) <==> before.contains(p) by {
                if before.contains(p) {
                    let i = choose|i: int| 0 <= i < count - 1 && #[trigger] in_use(phrases, slots, i, p);
                    assert(in_use(phrases, slots, i, p));
                }
                if now.contains(p) {
                    let i = choose|i: int| 0 <= i < count && #[trigger] in_use(phrases, slots, i, p);
                    assert(i < count - 1);
                    assert(in_use(phrases, slots, i, p));
                }
            }
            assert(now =~= before);
        }
    }
}

/// Where no phrase stands twice in the list, the unused phrases and the
/// different phrases that claim a span add up to the list of phrases.
pub proof fn lemma_unused_and_distinct_phrases(
    phrases: Seq<PhraseView>,
    word: Seq<char>,
    t: int,
)
    requires
        phrases.len() <= usize::MAX,
        all_different(phrases),
        0 <= t < results_for(phrases, word).len(),
    ensures
        phrases_in_spans(results_for(phrases, word)[t].phrases).finite(),
        results_for(phrases, word)[t].num_unused_phrases + phrases_in_spans(
            results_for(phrases, word)[t].phrases,
        ).len() == phrases.len(),
{
    let count = phrases.len() as int;
    let slots = tilings(word, pattern_texts(phrases), count)[t];
    let spans = collapse(slots);
    let named = span_phrases(phrases, spans);
    lemma_unused_count(phrases, word, t);
    lemma_span_phrases_counts(phrases, spans);
    lemma_tilings_well_formed(word, pattern_texts(phrases), count, t);
    lemma_phrases_in_use(phrases, slots, count);
    let in_spans = phrases_in_spans(named);
    let used = phrases_in_use(phrases, slots, count);
    assert forall|p: PhraseView| in_spans.contains(p) <==> used.contains(p) by {
        if in_spans.contains(p) {
            let k = choose|k: int| 0 <= k < named.len() && named[k] == Some(p);
            let q = lemma_span_from_slot(slots, k);
            let i = spans[k]->0;
            assert(slots[q] == Some(i));
            assert(in_use(phrases, slots, i as int, p));
        }
        if used.contains(p) {
            let i = choose|i: int| 0 <= i < count && #[trigger] in_use(phrases, slots, i, p);
            let q = choose|q: int| 0 <= q < slots.len() && slots[q] == Some(i as usize);
            lemma_span_holds_slot(slots, q);
            assert(named[span_of(slots, q)] == Some(p));
        }
    }
    assert(in_spans =~= used);
}

/// Naming the phrases of the spans changes neither the number of claimed
/// spans nor the number of wildcards.
pub proof fn lemma_span_phrases_counts(phrases: Seq<PhraseView>, spans: Seq<Option<usize>>)
    ensures
        claimed(span_phrases(phrases, spans)) == claimed(spans),
        wildcards(span_phrases(phrases, spans)) == wildcards(spans),
    decreases spans.len(),
{
    if spans.len() > 0 {
        lemma_span_phrases_counts(phrases, spans.drop_last());
        assert(span_phrases(phrases, spans).drop_last() =~= span_phrases(
            phrases,
            spans.drop_last(),
        ));
    }
}

/// Putting a start phrase in front, or an end phrase behind, adds no
/// wildcard.
pub proof fn lemma_boundaries_add_no_wildcard(result: SearchResultView, phrase: PhraseView)
    ensures
        wildcards(result.with_start(phrase).phrases) == wildcards(result.phrases),
        wildcards(result.with_end(phrase).phrases) == wildcards(result.phrases),
    decreases result.phrases.len(),
{
    let spans = result.phrases;
    assert(result.with_end(phrase).phrases.drop_last() =~= spans);
    if spans.len() > 0 {
        let shorter = SearchResultView {
            phrases: spans.drop_last(),
            num_unused_phrases: result.num_unused_phrases,
            word: result.word,
        };
        lemma_boundaries_add_no_wildcard(shorter, phrase);
        assert(result.with_start(phrase).phrases.drop_last() =~= shorter.with_start(phrase).phrases);
    } else {
        assert(result.with_start(phrase).phrases.drop_last() =~= spans);
    }
}

} // verus!
