//! The list of results that a search returns: every result once, the
//! results ordered by their words.

use vstd::prelude::*;
use crate::rank::{
    lemma_rank_asymmetric,
    lemma_rank_cotransitive,
    lemma_rank_irreflexive,
    lex_lt,
    ranks_before,
    word_ranks_before,
};
use crate::result::{results_of, SearchResult, SearchResultView};

verus! {

/// No result is listed after one whose word ranks behind its own.
pub open spec fn in_rank_order(listed: Seq<SearchResultView>) -> bool {
    forall|a: int, b: int|
        0 <= a < b < listed.len() ==> !ranks_before(
            (#[trigger] listed[b]).word,
            (#[trigger] listed[a]).word,
        )
}

/// Where `result` goes into `listed`: behind every result whose word does
/// not rank behind its own.
pub open spec fn listing_slot(listed: Seq<SearchResultView>, result: SearchResultView) -> int
    decreases listed.len(),
{
    if listed.len() > 0 && ranks_before(result.word, listed.last().word) {
        listing_slot(listed.drop_last(), result)
    } else {
        listed.len() as int
    }
}

/// `listed` with `result` put in its place, unless it is listed already.
pub open spec fn list_one(listed: Seq<SearchResultView>, result: SearchResultView) -> Seq<
    SearchResultView,
> {
    if listed.contains(result) {
        listed
    } else {
        listed.insert(listing_slot(listed, result), result)
    }
}

/// The distinct results among `candidates` in rank order; results whose
/// words are equal stand in the order in which they first came.
pub open spec fn listing(candidates: Seq<SearchResultView>) -> Seq<SearchResultView>
    decreases candidates.len(),
{
    if candidates.len() == 0 {
        Seq::empty()
    } else {
        list_one(listing(candidates.drop_last()), candidates.last())
    }
}

/// The slot of a result lies behind every listed result that ranks at or
/// before it, and in front of every one that ranks behind it.
pub proof fn lemma_listing_slot(listed: Seq<SearchResultView>, result: SearchResultView)
    ensures
        0 <= listing_slot(listed, result) <= listed.len(),
        forall|j: int|
            listing_slot(listed, result) <= j < listed.len() ==> ranks_before(
                result.word,
                (#[trigger] listed[j]).word,
            ),
        listing_slot(listed, result) > 0 ==> !ranks_before(
            result.word,
            listed[listing_slot(listed, result) - 1].word,
        ),
    decreases listed.len(),
{
    if listed.len() > 0 && ranks_before(result.word, listed.last().word) {
        lemma_listing_slot(listed.drop_last(), result);
        let slot = listing_slot(listed, result);
        assert forall|j: int| slot <= j < listed.len() implies ranks_before(
            result.word,
            (#[trigger] listed[j]).word,
        ) by {
            if j < listed.len() - 1 {
                assert(listed.drop_last()[j] == listed[j]);
            }
        }
        if slot > 0 {
            assert(listed.drop_last()[slot - 1] == listed[slot - 1]);
        }
    }
}

/// Listing one more result keeps the rank order.
pub proof fn lemma_list_one_in_rank_order(listed: Seq<SearchResultView>, result: SearchResultView)
    requires
        in_rank_order(listed),
    ensures
        in_rank_order(list_one(listed, result)),
{
    if !listed.contains(result) {
        let slot = listing_slot(listed, result);
        let longer = listed.insert(slot, result);
        lemma_listing_slot(listed, result);
        assert forall|a: int, b: int| 0 <= a < b < longer.len() implies !ranks_before(
            (#[trigger] longer[b]).word,
            (#[trigger] longer[a]).word,
        ) by {
            if b == slot {
                assert(longer[a] == listed[a]);
                if ranks_before(result.word, listed[a].word) {
                    lemma_rank_cotransitive(
                        result.word,
                        listed[a].word,
                        listed[slot - 1].word,
                    );
                }
            } else if a == slot {
                assert(longer[b] == listed[b - 1]);
                lemma_rank_asymmetric(result.word, listed[b - 1].word);
            } else {
                let a0 = if a < slot {
                    a
                } else {
                    a - 1
                };
                let b0 = if b < slot {
                    b
                } else {
                    b - 1
                };
                assert(longer[a] == listed[a0] && longer[b] == listed[b0]);
            }
        }
    }
}

/// Listing one more result adds that result to those listed, and nothing
/// else; and it lists nothing twice.
pub proof fn lemma_list_one_members(listed: Seq<SearchResultView>, result: SearchResultView)
    ensures
        forall|r: SearchResultView|
            #[trigger] list_one(listed, result).contains(r) <==> listed.contains(r) || r == result,
        listed.no_duplicates() ==> list_one(listed, result).no_duplicates(),
{
    if !listed.contains(result) {
        let slot = listing_slot(listed, result);
        let longer = listed.insert(slot, result);
        lemma_listing_slot(listed, result);
        assert forall|r: SearchResultView| #[trigger]
            longer.contains(r) <==> listed.contains(r) || r == result by {
            if longer.contains(r) {
                let i = choose|i: int| 0 <= i < longer.len() && longer[i] == r;
                if i < slot {
                    assert(listed[i] == r);
                } else if i > slot {
                    assert(listed[i - 1] == r);
                }
            }
            if listed.contains(r) {
                let i = choose|i: int| 0 <= i < listed.len() && listed[i] == r;
                if i < slot {
                    assert(longer[i] == r);
                } else {
                    assert(longer[i + 1] == r);
                }
            }
            if r == result {
                assert(longer[slot] == r);
            }
        }
        if listed.no_duplicates() {
            assert forall|i: int, j: int|
                0 <= i < longer.len() && 0 <= j < longer.len() && i != j implies longer[i]
                != longer[j] by {
                let i0 = if i < slot {
                    i
                } else {
                    i - 1
                };
                let j0 = if j < slot {
                    j
                } else {
                    j - 1
                };
                if i != slot && j != slot {
                    assert(longer[i] == listed[i0] && longer[j] == listed[j0]);
                } else if i == slot {
                    assert(longer[j] == listed[j0]);
                } else {
                    assert(longer[i] == listed[i0]);
                }
            }
        }
    } else {
        assert forall|r: SearchResultView| #[trigger]
            listed.contains(r) <==> listed.contains(r) || r == result by {}
    }
}

/// A listing holds each candidate once and nothing else, in rank order.
pub proof fn lemma_listing(candidates: Seq<SearchResultView>)
    ensures
        in_rank_order(listing(candidates)),
        listing(candidates).no_duplicates(),
        forall|r: SearchResultView|
            #[trigger] listing(candidates).contains(r) <==> candidates.contains(r),
    decreases candidates.len(),
{
    if candidates.len() > 0 {
        let front = candidates.drop_last();
        let last = candidates.last();
        lemma_listing(front);
        lemma_list_one_in_rank_order(listing(front), last);
        lemma_list_one_members(listing(front), last);
        assert forall|r: SearchResultView| #[trigger]
            listing(candidates).contains(r) <==> candidates.contains(r) by {
            assert(list_one(listing(front), last).contains(r) <==> listing(front).contains(r) || r
                == last);
            assert(listing(front).contains(r) <==> front.contains(r));
            if front.contains(r) {
                let i = choose|i: int| 0 <= i < front.len() && front[i] == r;
                assert(candidates[i] == r);
            }
            if candidates.contains(r) {
                let i = choose|i: int| 0 <= i < candidates.len() && candidates[i] == r;
                if i < front.len() {
                    assert(front[i] == r);
                }
            }
            if r == last {
                assert(candidates[candidates.len() - 1] == r);
            }
        }
    }
}

/// In a listing a result stands before every result whose word ranks
/// behind its own: before every longer word, and before every word of the
/// same length that is lexicographically greater. No result stands at two
/// positions.
pub proof fn lemma_listing_order(candidates: Seq<SearchResultView>, a: int, b: int)
    requires
        0 <= a < listing(candidates).len(),
        0 <= b < listing(candidates).len(),
    ensures
        ranks_before(listing(candidates)[a].word, listing(candidates)[b].word) ==> a < b,
        listing(candidates)[a].word.len() < listing(candidates)[b].word.len() ==> a < b,
        listing(candidates)[a].word.len() == listing(candidates)[b].word.len() && lex_lt(
            listing(candidates)[a].word,
            listing(candidates)[b].word,
        ) ==> a < b,
        listing(candidates)[a] == listing(candidates)[b] ==> a == b,
{
    lemma_listing(candidates);
    lemma_rank_irreflexive(listing(candidates)[a].word);
}

fn is_listed(listed: &Vec<SearchResult>, result: &SearchResult) -> (found: bool)
    ensures
        found == results_of(listed@).contains(result@),
{
    let mut i: usize = 0;
    while i < listed.len()
        invariant
            i <= listed.len(),
            forall|k: int| 0 <= k < i ==> results_of(listed@)[k] != result@,
        decreases listed.len() - i,
    {
        if listed[i] == *result {
            assert(results_of(listed@)[i as int] == result@);
            return true;
        }
        i += 1;
    }
    false
}

fn find_listing_slot(listed: &Vec<SearchResult>, result: &SearchResult) -> (slot: usize)
    ensures
        slot == listing_slot(results_of(listed@), result@),
        slot <= listed.len(),
{
    let mut slot: usize = listed.len();
    assert(results_of(listed@).take(slot as int) =~= results_of(listed@));
    while slot > 0 && word_ranks_before(result.word.as_str(), listed[slot - 1].word.as_str())
        invariant
            slot <= listed.len(),
            listing_slot(results_of(listed@), result@) == listing_slot(
                results_of(listed@).take(slot as int),
                result@,
            ),
        decreases slot,
    {
        proof {
            let upto = results_of(listed@).take(slot as int);
            assert(upto.last() == listed@[slot - 1]@);
            assert(upto.drop_last() =~= results_of(listed@).take(slot - 1));
        }
        slot -= 1;
    }
    proof {
        let upto = results_of(listed@).take(slot as int);
        if slot > 0 {
            assert(upto.last() == listed@[slot - 1]@);
        }
    }
    slot
}

/// Puts `result` in its place in the listing, unless it is listed already.
pub(crate) fn list_result(listed: &mut Vec<SearchResult>, result: SearchResult)
    ensures
        results_of(final(listed)@) == list_one(results_of(old(listed)@), result@),
{
    if !is_listed(listed, &result) {
        let slot = find_listing_slot(listed, &result);
        listed.insert(slot, result);
        assert(results_of(listed@) =~= results_of(old(listed)@).insert(slot as int, result@));
    }
}

} // verus!
