//! Collapsing an assignment, slot by slot, into its spans: one entry per
//! run of slots claimed by the same pattern, one entry per wildcard.

use vstd::prelude::*;
use crate::tiling::{contiguous, well_formed};

verus! {

/// Slot `p` opens a span: it is the first slot, a wildcard, or differs
/// from the slot before it.
pub open spec fn opens_span(slots: Seq<Option<usize>>, p: int) -> bool {
    p == 0 || slots[p] is None || slots[p] != slots[p - 1]
}

/// The spans of `slots`: the slots that open a span, in order.
pub open spec fn collapse(slots: Seq<Option<usize>>) -> Seq<Option<usize>>
    decreases slots.len(),
{
    if slots.len() == 0 {
        Seq::empty()
    } else if opens_span(slots, slots.len() - 1) {
        collapse(slots.drop_last()).push(slots.last())
    } else {
        collapse(slots.drop_last())
    }
}

/// The number of `None` entries.
pub open spec fn wildcards<T>(spans: Seq<Option<T>>) -> nat
    decreases spans.len(),
{
    if spans.len() == 0 {
        0
    } else if spans.last() is None {
        wildcards(spans.drop_last()) + 1
    } else {
        wildcards(spans.drop_last())
    }
}

/// The number of `Some` entries.
pub open spec fn claimed<T>(spans: Seq<Option<T>>) -> nat
    decreases spans.len(),
{
    if spans.len() == 0 {
        0
    } else if spans.last() is Some {
        claimed(spans.drop_last()) + 1
    } else {
        claimed(spans.drop_last())
    }
}

/// The span of `collapse(slots)` that slot `p` belongs to.
pub open spec fn span_of(slots: Seq<Option<usize>>, p: int) -> int {
    collapse(slots.take(p + 1)).len() - 1
}

/// The number of indices below `count` that some slot holds.
pub open spec fn indices_used(slots: Seq<Option<usize>>, count: int) -> nat
    decreases count,
{
    if count <= 0 {
        0
    } else if slots.contains(Some((count - 1) as usize)) {
        indices_used(slots, count - 1) + 1
    } else {
        indices_used(slots, count - 1)
    }
}

/// The spans of a prefix of the slots are a prefix of the spans.
pub proof fn lemma_collapse_prefix(slots: Seq<Option<usize>>, upto: int)
    requires
        0 <= upto <= slots.len(),
    ensures
        collapse(slots.take(upto)).len() <= collapse(slots).len(),
        collapse(slots.take(upto)) == collapse(slots).take(
            collapse(slots.take(upto)).len() as int,
        ),
    decreases slots.len() - upto,
{
    if upto == slots.len() {
        assert(slots.take(upto) =~= slots);
        assert(collapse(slots).take(collapse(slots).len() as int) =~= collapse(slots));
    } else {
        lemma_collapse_prefix(slots, upto + 1);
        let longer = slots.take(upto + 1);
        assert(longer.drop_last() =~= slots.take(upto));
        assert(opens_span(longer, upto) == opens_span(slots, upto));
        let short = collapse(slots.take(upto));
        assert(short =~= collapse(slots).take(short.len() as int));
    }
}

/// Collapsing keeps what each slot holds: the span a slot belongs to holds
/// the same index, or is a wildcard as the slot is.
pub proof fn lemma_span_holds_slot(slots: Seq<Option<usize>>, p: int)
    requires
        0 <= p < slots.len(),
    ensures
        0 <= span_of(slots, p) < collapse(slots).len(),
        collapse(slots)[span_of(slots, p)] == slots[p],
    decreases p,
{
    lemma_collapse_prefix(slots, p + 1);
    let upto = slots.take(p + 1);
    assert(upto.drop_last() =~= slots.take(p));
    assert(upto.last() == slots[p]);
    if opens_span(upto, p) {
        assert(collapse(upto).last() == slots[p]);
    } else {
        lemma_span_holds_slot(slots, p - 1);
        assert(span_of(slots, p) == span_of(slots, p - 1));
    }
}

/// Every span holds what one of the slots holds; the lemma returns such a
/// slot.
pub proof fn lemma_span_from_slot(slots: Seq<Option<usize>>, k: int) -> (p: int)
    requires
        0 <= k < collapse(slots).len(),
    ensures
        0 <= p < slots.len(),
        slots[p] == collapse(slots)[k],
    decreases slots.len(),
{
    let front = slots.drop_last();
    if k < collapse(front).len() {
        let p = lemma_span_from_slot(front, k);
        assert(front[p] == slots[p]);
        p
    } else {
        slots.len() - 1
    }
}

/// Two neighbouring slots share a span exactly when both are claimed by the
/// same pattern; otherwise the later slot opens the next span. So slots of
/// different patterns are never merged, nor a claimed slot with a wildcard,
/// nor two wildcards.
pub proof fn lemma_spans_merge_equal_claims(slots: Seq<Option<usize>>, p: int)
    requires
        0 < p < slots.len(),
    ensures
        span_of(slots, p) == span_of(slots, p - 1) <==> slots[p] is Some && slots[p] == slots[p
            - 1],
        span_of(slots, p) != span_of(slots, p - 1) ==> span_of(slots, p) == span_of(slots, p - 1)
            + 1,
{
    let upto = slots.take(p + 1);
    assert(upto.drop_last() =~= slots.take(p));
    assert(opens_span(upto, p) == opens_span(slots, p));
}

/// Collapsing brings in no index: the spans are as well formed as the slots.
pub proof fn lemma_collapse_well_formed(slots: Seq<Option<usize>>, count: int)
    requires
        well_formed(slots, slots.len(), count),
    ensures
        well_formed(collapse(slots), collapse(slots).len(), count),
    decreases slots.len(),
{
    if slots.len() > 0 {
        let front = slots.drop_last();
        assert forall|p: int| 0 <= p < front.len() implies (#[trigger] front[p] matches Some(i)
            ==> i < count) by {
            assert(slots[p] == front[p]);
        }
        lemma_collapse_well_formed(front, count);
        assert(slots[slots.len() - 1] == slots.last());
    }
}

/// Collapsing removes no wildcard.
pub proof fn lemma_collapse_keeps_wildcards(slots: Seq<Option<usize>>)
    ensures
        wildcards(collapse(slots)) == wildcards(slots),
    decreases slots.len(),
{
    if slots.len() > 0 {
        lemma_collapse_keeps_wildcards(slots.drop_last());
        if opens_span(slots, slots.len() - 1) {
            assert(collapse(slots).drop_last() =~= collapse(slots.drop_last()));
        }
    }
}

proof fn lemma_indices_used_bound(slots: Seq<Option<usize>>, count: int)
    ensures
        indices_used(slots, count) <= if count < 0 {
            0
        } else {
            count
        },
    decreases count,
{
    if count > 0 {
        lemma_indices_used_bound(slots, count - 1);
    }
}

proof fn lemma_indices_used_empty(count: int)
    ensures
        indices_used(Seq::empty(), count) == 0,
    decreases count,
{
    if count > 0 {
        lemma_indices_used_empty(count - 1);
    }
}

proof fn lemma_indices_used_push(slots: Seq<Option<usize>>, last: Option<usize>, count: int)
    requires
        0 <= count <= usize::MAX + 1,
    ensures
        indices_used(slots.push(last), count) == indices_used(slots, count) + if last matches Some(
            i,
        ) && i < count && !slots.contains(last) {
            1nat
        } else {
            0nat
        },
    decreases count,
{
    if count > 0 {
        lemma_indices_used_push(slots, last, count - 1);
        let longer = slots.push(last);
        let index = Some((count - 1) as usize);
        if slots.contains(index) {
            let p = choose|p: int| 0 <= p < slots.len() && slots[p] == index;
            assert(longer[p] == index);
        }
        if longer.contains(index) {
            let p = choose|p: int| 0 <= p < longer.len() && longer[p] == index;
            if p < slots.len() {
                assert(slots[p] == index);
            }
        } else {
            assert(longer[slots.len() as int] == last);
        }
    }
}

/// Where the slots of each index lie side by side, there is one claimed span
/// per index in use.
pub proof fn lemma_claimed_spans(slots: Seq<Option<usize>>, count: int)
    requires
        0 <= count <= usize::MAX + 1,
        contiguous(slots),
        well_formed(slots, slots.len(), count),
    ensures
        claimed(collapse(slots)) == indices_used(slots, count),
        claimed(collapse(slots)) <= count,
    decreases slots.len(),
{
    lemma_indices_used_bound(slots, count);
    if slots.len() > 0 {
        let front = slots.drop_last();
        let last = slots.last();
        let n = slots.len() - 1;
        assert(slots =~= front.push(last));
        assert forall|p: int, q: int, r: int|
            #![trigger front[p], front[q], front[r]]
            0 <= p < q < r < front.len() && front[p] is Some && front[p] == front[r] implies front[q]
                == front[p] by {
            assert(slots[p] == front[p] && slots[q] == front[q] && slots[r] == front[r]);
        }
        assert forall|p: int| 0 <= p < front.len() implies (#[trigger] front[p] matches Some(i)
            ==> i < count) by {
            assert(slots[p] == front[p]);
        }
        lemma_claimed_spans(front, count);
        lemma_indices_used_push(front, last, count);
        if last is Some {
            assert(slots[n] == last);
            if front.contains(last) {
                let p = choose|p: int| 0 <= p < front.len() && front[p] == last;
                assert(slots[p] == last);
                if p < n - 1 {
                    assert(slots[p] is Some && slots[p] == slots[n] ==> slots[n - 1] == slots[p]);
                }
                assert(!opens_span(slots, n));
            } else {
                if n > 0 {
                    assert(front[n - 1] != last);
                }
                assert(opens_span(slots, n));
                assert(collapse(slots).drop_last() =~= collapse(front));
            }
        } else {
            assert(collapse(slots).drop_last() =~= collapse(front));
        }
    } else {
        assert(slots =~= Seq::empty());
        lemma_indices_used_empty(count);
    }
}

/// Deduplicates the word match: of neighbouring slots claimed by the same
/// pattern only the first stays, and every wildcard stays in place.
pub fn deduplicate_word_match(word_match: &mut Vec<Option<usize>>)
    ensures
        final(word_match)@ == collapse(old(word_match)@),
{
    let mut spans: Vec<Option<usize>> = Vec::new();
    let mut p: usize = 0;
    while p < word_match.len()
        invariant
            p <= word_match.len(),
            word_match@ == old(word_match)@,
            spans@ == collapse(word_match@.take(p as int)),
        decreases word_match.len() - p,
    {
        let opens = if p == 0 {
            true
        } else {
            match (word_match[p], word_match[p - 1]) {
                (Some(index), Some(before)) => index != before,
                _ => true,
            }
        };
        proof {
            let upto = word_match@.take(p + 1);
            assert(upto.drop_last() =~= word_match@.take(p as int));
            assert(opens == opens_span(upto, p as int));
        }
        if opens {
            spans.push(word_match[p]);
        }
        p += 1;
    }
    assert(word_match@.take(p as int) =~= word_match@);
    *word_match = spans;
}

} // verus!
