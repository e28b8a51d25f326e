//! Facts about filtered, mapped and flattened sequences.

use vstd::prelude::*;

verus! {

/// A filtered sequence holds the items of the sequence that meet the
/// predicate.
pub proof fn lemma_filter_members<A>(s: Seq<A>, pred: spec_fn(A) -> bool, x: A)
    ensures
        s.filter(pred).contains(x) <==> s.contains(x) && pred(x),
    decreases s.len(),
{
    reveal(Seq::filter);
    if s.len() > 0 {
        let front = s.drop_last();
        lemma_filter_members(front, pred, x);
        let kept = s.filter(pred);
        if s.contains(x) && pred(x) {
            let i = choose|i: int| 0 <= i < s.len() && s[i] == x;
            if i < front.len() {
                assert(front[i] == x);
                let j = choose|j: int| 0 <= j < front.filter(pred).len() && front.filter(pred)[j] == x;
                assert(kept[j] == x);
            } else {
                assert(kept[kept.len() - 1] == x);
            }
        }
        if kept.contains(x) {
            let j = choose|j: int| 0 <= j < kept.len() && kept[j] == x;
            if j < front.filter(pred).len() {
                assert(front.filter(pred)[j] == x);
                let i = choose|i: int| 0 <= i < front.len() && front[i] == x;
                assert(s[i] == x);
            } else {
                assert(s[s.len() - 1] == x);
            }
        }
    }
}

/// A filter-mapped sequence holds what the function makes of the items of
/// the sequence that it keeps.
pub proof fn lemma_filter_map_members<A, B>(s: Seq<A>, f: spec_fn(A) -> Option<B>, y: B)
    ensures
        s.filter_map(f).contains(y) <==> exists|i: int| 0 <= i < s.len() && f(#[trigger] s[i]) == Some(y),
    decreases s.len(),
{
    if s.len() > 0 {
        let front = s.drop_last();
        lemma_filter_map_members(front, f, y);
        let made = s.filter_map(f);
        if exists|i: int| 0 <= i < s.len() && f(#[trigger] s[i]) == Some(y) {
            let i = choose|i: int| 0 <= i < s.len() && f(#[trigger] s[i]) == Some(y);
            if i < front.len() {
                assert(f(front[i]) == Some(y));
                let j = choose|j: int|
                    0 <= j < front.filter_map(f).len() && front.filter_map(f)[j] == y;
                assert(made[j] == y);
            } else {
                assert(made[made.len() - 1] == y);
            }
        }
        if made.contains(y) {
            let j = choose|j: int| 0 <= j < made.len() && made[j] == y;
            if j < front.filter_map(f).len() {
                assert(front.filter_map(f)[j] == y);
                let i = choose|i: int| 0 <= i < front.len() && f(#[trigger] front[i]) == Some(y);
                assert(f(s[i]) == Some(y));
            } else {
                assert(f(s[s.len() - 1]) == Some(y));
            }
        }
    }
}

/// A flattened sequence holds the items of its parts.
pub proof fn lemma_flatten_members<A>(parts: Seq<Seq<A>>, x: A)
    ensures
        parts.flatten().contains(x) <==> exists|i: int|
            0 <= i < parts.len() && (#[trigger] parts[i]).contains(x),
    decreases parts.len(),
{
    if parts.len() > 0 {
        let front = parts.drop_last();
        let last = parts.last();
        lemma_flatten_members(front, x);
        assert(parts =~= front.push(last));
        front.lemma_flatten_push(last);
        let flat = parts.flatten();
        assert(flat =~= front.flatten() + last);
        if exists|i: int| 0 <= i < parts.len() && (#[trigger] parts[i]).contains(x) {
            let i = choose|i: int| 0 <= i < parts.len() && (#[trigger] parts[i]).contains(x);
            if i < front.len() {
                assert(front[i].contains(x));
                let j = choose|j: int| 0 <= j < front.flatten().len() && front.flatten()[j] == x;
                assert(flat[j] == x);
            } else {
                let j = choose|j: int| 0 <= j < last.len() && last[j] == x;
                assert(flat[front.flatten().len() + j] == x);
            }
        }
        if flat.contains(x) {
            let j = choose|j: int| 0 <= j < flat.len() && flat[j] == x;
            if j < front.flatten().len() {
                assert(front.flatten()[j] == x);
                let i = choose|i: int| 0 <= i < front.len() && (#[trigger] front[i]).contains(x);
                assert(parts[i].contains(x));
            } else {
                assert(last[j - front.flatten().len()] == x);
                assert(parts[parts.len() - 1].contains(x));
            }
        }
    }
}

} // verus!
