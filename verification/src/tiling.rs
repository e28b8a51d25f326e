//! Enumeration of the ways a word can be tiled by a list of patterns.
//!
//! An assignment has one slot per character of the word. A slot is either
//! free (`None`, a wildcard) or holds the list index of the pattern that
//! claims the character.

use vstd::prelude::*;
use crate::phrase::{all_patterns_nonempty, patterns_of, Phrase};
use crate::text::chars_of;

verus! {

/// `pattern` occurs in `word` starting at character `at`.
pub open spec fn occurs_at(word: Seq<char>, pattern: Seq<char>, at: int) -> bool {
    &&& 0 <= at
    &&& at + pattern.len() <= word.len()
    &&& word.subrange(at, at + pattern.len()) == pattern
}

/// `pattern` may be placed at `at`: it occurs there and the slot at `at`
/// is free. The slots after `at` are not consulted.
pub open spec fn can_place(
    word: Seq<char>,
    pattern: Seq<char>,
    slots: Seq<Option<usize>>,
    at: int,
) -> bool {
    &&& occurs_at(word, pattern, at)
    &&& at < slots.len()
    &&& slots[at] is None
}

/// `slots` after the `len` slots from `at` on have been given to `index`,
/// whatever they held before.
pub open spec fn place(slots: Seq<Option<usize>>, at: int, len: int, index: usize) -> Seq<
    Option<usize>,
> {
    Seq::new(
        slots.len(),
        |p: int|
            if at <= p < at + len {
                Some(index)
            } else {
                slots[p]
            },
    )
}

/// The assignment of `len` free slots.
pub open spec fn blank(len: nat) -> Seq<Option<usize>> {
    Seq::new(len, |p: int| None::<usize>)
}

/// The assignments obtained from `slots` by placing `pattern` at one of the
/// positions below `upto`, by ascending position.
pub open spec fn extensions(
    word: Seq<char>,
    pattern: Seq<char>,
    index: usize,
    slots: Seq<Option<usize>>,
    upto: int,
) -> Seq<Seq<Option<usize>>>
    decreases upto,
{
    if upto <= 0 {
        Seq::empty()
    } else {
        let before = extensions(word, pattern, index, slots, upto - 1);
        if can_place(word, pattern, slots, upto - 1) {
            before.push(place(slots, upto - 1, pattern.len() as int, index))
        } else {
            before
        }
    }
}

/// The extensions of the first `count` assignments of `work`, one
/// assignment after the other.
pub open spec fn extend_all(
    word: Seq<char>,
    pattern: Seq<char>,
    index: usize,
    work: Seq<Seq<Option<usize>>>,
    count: int,
) -> Seq<Seq<Option<usize>>>
    decreases count,
{
    if count <= 0 {
        Seq::empty()
    } else {
        extend_all(word, pattern, index, work, count - 1) + extensions(
            word,
            pattern,
            index,
            work[count - 1],
            word.len() as int,
        )
    }
}

/// Every tiling of `word` by the first `count` patterns, placed in list
/// order. With no pattern placed there is one tiling, all wildcards.
pub open spec fn tilings(word: Seq<char>, patterns: Seq<Seq<char>>, count: int) -> Seq<
    Seq<Option<usize>>,
>
    decreases count,
{
    if count <= 0 {
        seq![blank(word.len())]
    } else {
        let earlier = tilings(word, patterns, count - 1);
        extend_all(word, patterns[count - 1], (count - 1) as usize, earlier, earlier.len() as int)
    }
}

/// `slots` has `len` slots, and every claimed slot holds an index below
/// `count`.
pub open spec fn well_formed(slots: Seq<Option<usize>>, len: nat, count: int) -> bool {
    &&& slots.len() == len
    &&& forall|p: int|
        0 <= p < slots.len() ==> (#[trigger] slots[p] matches Some(i) ==> i < count)
}

/// The slots that hold one index lie side by side: between two slots of the
/// same index every slot holds that index.
pub open spec fn contiguous(slots: Seq<Option<usize>>) -> bool {
    forall|p: int, q: int, r: int|
        #![trigger slots[p], slots[q], slots[r]]
        0 <= p < q < r < slots.len() && slots[p] is Some && slots[p] == slots[r] ==> slots[q]
            == slots[p]
}

/// Each assignment in `extensions` is `slots` with the pattern placed at a
/// position where it may be placed; the lemma returns that position.
pub proof fn lemma_extension_origin(
    word: Seq<char>,
    pattern: Seq<char>,
    index: usize,
    slots: Seq<Option<usize>>,
    upto: int,
    e: int,
) -> (at: int)
    requires
        0 <= e < extensions(word, pattern, index, slots, upto).len(),
    ensures
        0 <= at < upto,
        can_place(word, pattern, slots, at),
        extensions(word, pattern, index, slots, upto)[e] == place(
            slots,
            at,
            pattern.len() as int,
            index,
        ),
    decreases upto,
{
    let before = extensions(word, pattern, index, slots, upto - 1);
    if e < before.len() {
        lemma_extension_origin(word, pattern, index, slots, upto - 1, e)
    } else {
        upto - 1
    }
}

/// Each placement that is allowed below `upto` gives an assignment of
/// `extensions`; the lemma returns its position in that list.
pub proof fn lemma_extension_member(
    word: Seq<char>,
    pattern: Seq<char>,
    index: usize,
    slots: Seq<Option<usize>>,
    upto: int,
    at: int,
) -> (e: int)
    requires
        0 <= at < upto,
        can_place(word, pattern, slots, at),
    ensures
        0 <= e < extensions(word, pattern, index, slots, upto).len(),
        extensions(word, pattern, index, slots, upto)[e] == place(
            slots,
            at,
            pattern.len() as int,
            index,
        ),
    decreases upto,
{
    let before = extensions(word, pattern, index, slots, upto - 1);
    if at == upto - 1 {
        before.len() as int
    } else {
        lemma_extension_member(word, pattern, index, slots, upto - 1, at)
    }
}

/// Each assignment in `extend_all` extends one of the first `count`
/// assignments of `work` by one allowed placement; the lemma returns the
/// position of that assignment in `work` and the position of the placement.
pub proof fn lemma_extend_all_origin(
    word: Seq<char>,
    pattern: Seq<char>,
    index: usize,
    work: Seq<Seq<Option<usize>>>,
    count: int,
    e: int,
) -> (from: (int, int))
    requires
        0 <= e < extend_all(word, pattern, index, work, count).len(),
    ensures
        0 <= from.0 < count,
        0 <= from.1 < word.len(),
        can_place(word, pattern, work[from.0], from.1),
        extend_all(word, pattern, index, work, count)[e] == place(
            work[from.0],
            from.1,
            pattern.len() as int,
            index,
        ),
    decreases count,
{
    let before = extend_all(word, pattern, index, work, count - 1);
    if e < before.len() {
        lemma_extend_all_origin(word, pattern, index, work, count - 1, e)
    } else {
        let at = lemma_extension_origin(
            word,
            pattern,
            index,
            work[count - 1],
            word.len() as int,
            e - before.len(),
        );
        (count - 1, at)
    }
}

/// Each allowed placement on one of the first `count` assignments of `work`
/// gives an assignment of `extend_all`; the lemma returns its position.
pub proof fn lemma_extend_all_member(
    word: Seq<char>,
    pattern: Seq<char>,
    index: usize,
    work: Seq<Seq<Option<usize>>>,
    count: int,
    m: int,
    at: int,
) -> (e: int)
    requires
        0 <= m < count,
        at < word.len(),
        can_place(word, pattern, work[m], at),
    ensures
        0 <= e < extend_all(word, pattern, index, work, count).len(),
        extend_all(word, pattern, index, work, count)[e] == place(
            work[m],
            at,
            pattern.len() as int,
            index,
        ),
    decreases count,
{
    let before = extend_all(word, pattern, index, work, count - 1);
    if m == count - 1 {
        let e = lemma_extension_member(word, pattern, index, work[m], word.len() as int, at);
        before.len() + e
    } else {
        lemma_extend_all_member(word, pattern, index, work, count - 1, m, at)
    }
}

/// Every tiling has one slot per character of the word, and each slot is
/// free or holds the index of one of the patterns placed so far.
pub proof fn lemma_tilings_well_formed(
    word: Seq<char>,
    patterns: Seq<Seq<char>>,
    count: int,
    t: int,
)
    requires
        0 <= count <= usize::MAX,
        0 <= t < tilings(word, patterns, count).len(),
    ensures
        well_formed(tilings(word, patterns, count)[t], word.len(), count),
    decreases count,
{
    if count > 0 {
        let earlier = tilings(word, patterns, count - 1);
        let from = lemma_extend_all_origin(
            word,
            patterns[count - 1],
            (count - 1) as usize,
            earlier,
            earlier.len() as int,
            t,
        );
        lemma_tilings_well_formed(word, patterns, count - 1, from.0);
    }
}

/// Placing a pattern on a free slot keeps the slots of each index side by
/// side, provided the new index is not yet in use.
pub proof fn lemma_place_contiguous(slots: Seq<Option<usize>>, at: int, len: int, index: usize)
    requires
        contiguous(slots),
        0 <= at < slots.len(),
        slots[at] is None,
        forall|p: int| 0 <= p < slots.len() ==> #[trigger] slots[p] != Some(index),
    ensures
        contiguous(place(slots, at, len, index)),
{
    let placed = place(slots, at, len, index);
    assert forall|p: int, q: int, r: int|
        #![trigger placed[p], placed[q], placed[r]]
        0 <= p < q < r < placed.len() && placed[p] is Some && placed[p] == placed[r] implies placed[q]
            == placed[p] by {
        if placed[p] == Some(index) {
            assert(slots[p] != Some(index));
            assert(slots[r] != Some(index));
        } else {
            assert(slots[p] == placed[p]);
            assert(slots[r] == placed[r]);
            if at <= q < at + len {
                assert(slots[p] == slots[at]);
            } else {
                assert(slots[q] == slots[p]);
            }
        }
    }
}

/// In every tiling the slots that hold one index lie side by side.
pub proof fn lemma_tilings_contiguous(
    word: Seq<char>,
    patterns: Seq<Seq<char>>,
    count: int,
    t: int,
)
    requires
        0 <= count <= usize::MAX,
        0 <= t < tilings(word, patterns, count).len(),
    ensures
        contiguous(tilings(word, patterns, count)[t]),
    decreases count,
{
    if count > 0 {
        let earlier = tilings(word, patterns, count - 1);
        let index = (count - 1) as usize;
        let from = lemma_extend_all_origin(
            word,
            patterns[count - 1],
            index,
            earlier,
            earlier.len() as int,
            t,
        );
        lemma_tilings_contiguous(word, patterns, count - 1, from.0);
        lemma_tilings_well_formed(word, patterns, count - 1, from.0);
        lemma_place_contiguous(earlier[from.0], from.1, patterns[count - 1].len() as int, index);
    }
}

/// The assignment reached from all wildcards by placing the first `count`
/// patterns, pattern `k` at `starts[k]`.
pub open spec fn painted(len: nat, patterns: Seq<Seq<char>>, starts: Seq<int>, count: int) -> Seq<
    Option<usize>,
>
    decreases count,
{
    if count <= 0 {
        blank(len)
    } else {
        place(
            painted(len, patterns, starts, count - 1),
            starts[count - 1],
            patterns[count - 1].len() as int,
            (count - 1) as usize,
        )
    }
}

/// Pattern `k` may be placed at `starts[k]`, on the assignment that the
/// patterns before it have left.
pub open spec fn placement_allowed(
    word: Seq<char>,
    patterns: Seq<Seq<char>>,
    starts: Seq<int>,
    k: int,
) -> bool {
    can_place(word, patterns[k], painted(word.len(), patterns, starts, k), starts[k])
}

/// Each of the first `count` patterns may be placed at its start.
pub open spec fn placements_allowed(
    word: Seq<char>,
    patterns: Seq<Seq<char>>,
    starts: Seq<int>,
    count: int,
) -> bool {
    forall|k: int| 0 <= k < count ==> #[trigger] placement_allowed(word, patterns, starts, k)
}

/// The characters that pattern `k` covers when placed at `starts[k]` are
/// apart from those of pattern `i`.
pub open spec fn apart(patterns: Seq<Seq<char>>, starts: Seq<int>, i: int, k: int) -> bool {
    starts[k] + patterns[k].len() <= starts[i] || starts[i] + patterns[i].len() <= starts[k]
}

proof fn lemma_painted_prefix(
    len: nat,
    patterns: Seq<Seq<char>>,
    starts: Seq<int>,
    longer: Seq<int>,
    count: int,
)
    requires
        count <= starts.len() <= longer.len(),
        forall|k: int| 0 <= k < starts.len() ==> starts[k] == longer[k],
    ensures
        painted(len, patterns, starts, count) == painted(len, patterns, longer, count),
    decreases count,
{
    if count > 0 {
        lemma_painted_prefix(len, patterns, starts, longer, count - 1);
    }
}

/// A painted assignment has `len` slots, and its claimed slots hold indices
/// below `count`.
pub proof fn lemma_painted_well_formed(
    len: nat,
    patterns: Seq<Seq<char>>,
    starts: Seq<int>,
    count: int,
)
    requires
        0 <= count <= usize::MAX,
    ensures
        well_formed(painted(len, patterns, starts, count), len, count),
    decreases count,
{
    if count > 0 {
        lemma_painted_well_formed(len, patterns, starts, count - 1);
    }
}

/// Every tiling is reached by a list of allowed placements, one per
/// pattern; the lemma returns their starts.
pub proof fn lemma_tiling_placements(
    word: Seq<char>,
    patterns: Seq<Seq<char>>,
    count: int,
    t: int,
) -> (starts: Seq<int>)
    requires
        0 <= count <= usize::MAX,
        0 <= t < tilings(word, patterns, count).len(),
    ensures
        starts.len() == count,
        placements_allowed(word, patterns, starts, count),
        painted(word.len(), patterns, starts, count) == tilings(word, patterns, count)[t],
    decreases count,
{
    if count == 0 {
        Seq::empty()
    } else {
        let earlier = tilings(word, patterns, count - 1);
        let from = lemma_extend_all_origin(
            word,
            patterns[count - 1],
            (count - 1) as usize,
            earlier,
            earlier.len() as int,
            t,
        );
        let before = lemma_tiling_placements(word, patterns, count - 1, from.0);
        let starts = before.push(from.1);
        assert forall|k: int| 0 <= k < count implies #[trigger] placement_allowed(
            word,
            patterns,
            starts,
            k,
        ) by {
            lemma_painted_prefix(word.len(), patterns, before, starts, k);
            if k < count - 1 {
                assert(placement_allowed(word, patterns, before, k));
            }
        }
        lemma_painted_prefix(word.len(), patterns, before, starts, count - 1);
        starts
    }
}

/// Every list of allowed placements, one per pattern, reaches a tiling; the
/// lemma returns its position among the tilings.
pub proof fn lemma_placements_tiling(
    word: Seq<char>,
    patterns: Seq<Seq<char>>,
    starts: Seq<int>,
    count: int,
) -> (t: int)
    requires
        0 <= count <= usize::MAX,
        placements_allowed(word, patterns, starts, count),
    ensures
        0 <= t < tilings(word, patterns, count).len(),
        tilings(word, patterns, count)[t] == painted(word.len(), patterns, starts, count),
    decreases count,
{
    if count == 0 {
        0
    } else {
        let earlier = tilings(word, patterns, count - 1);
        let m = lemma_placements_tiling(word, patterns, starts, count - 1);
        lemma_painted_well_formed(word.len(), patterns, starts, count - 1);
        assert(placement_allowed(word, patterns, starts, count - 1));
        lemma_extend_all_member(
            word,
            patterns[count - 1],
            (count - 1) as usize,
            earlier,
            earlier.len() as int,
            m,
            starts[count - 1],
        )
    }
}

/// Where no later pattern is placed over the characters of pattern `i`, the
/// slots that hold `i` are exactly the characters of its occurrence: as many
/// as its pattern is long, from its start on.
pub proof fn lemma_unclobbered_run(
    word: Seq<char>,
    patterns: Seq<Seq<char>>,
    starts: Seq<int>,
    count: int,
    i: int,
)
    requires
        0 <= i < count <= usize::MAX,
        placements_allowed(word, patterns, starts, count),
        forall|k: int| i < k < count ==> apart(patterns, starts, i, k),
    ensures
        forall|p: int|
            0 <= p < word.len() ==> (#[trigger] painted(word.len(), patterns, starts, count)[p]
                == Some(i as usize) <==> starts[i] <= p < starts[i] + patterns[i].len()),
    decreases count,
{
    let before = painted(word.len(), patterns, starts, count - 1);
    let now = painted(word.len(), patterns, starts, count);
    let at = starts[count - 1];
    let len = patterns[count - 1].len() as int;
    lemma_painted_well_formed(word.len(), patterns, starts, count - 1);
    assert(now == place(before, at, len, (count - 1) as usize));
    if count > i + 1 {
        assert(apart(patterns, starts, i, count - 1));
        lemma_unclobbered_run(word, patterns, starts, count - 1, i);
        assert forall|p: int| 0 <= p < word.len() implies (#[trigger] now[p] == Some(i as usize)
            <==> starts[i] <= p < starts[i] + patterns[i].len()) by {
            assert(before[p] == Some(i as usize) <==> starts[i] <= p < starts[i]
                + patterns[i].len());
            assert(now[p] == if at <= p < at + len {
                Some((count - 1) as usize)
            } else {
                before[p]
            });
        }
    } else {
        assert(placement_allowed(word, patterns, starts, i));
        assert forall|p: int| 0 <= p < word.len() implies (#[trigger] now[p] == Some(i as usize)
            <==> starts[i] <= p < starts[i] + patterns[i].len()) by {
            assert(before[p] matches Some(j) ==> j < i);
            assert(now[p] == if at <= p < at + len {
                Some(i as usize)
            } else {
                before[p]
            });
        }
    }
}

/// The slot sequences of a list of assignments.
pub open spec fn assignments_of(list: Seq<Vec<Option<usize>>>) -> Seq<Seq<Option<usize>>> {
    list.map_values(|a: Vec<Option<usize>>| a@)
}

fn blank_assignment(len: usize) -> (slots: Vec<Option<usize>>)
    ensures
        slots@ == blank(len as nat),
{
    let mut slots: Vec<Option<usize>> = Vec::new();
    let mut p: usize = 0;
    while p < len
        invariant
            p <= len,
            slots@ == blank(p as nat),
        decreases len - p,
    {
        slots.push(None);
        p += 1;
    }
    slots
}

fn pattern_occurs_at(word: &Vec<char>, pattern: &Vec<char>, at: usize) -> (found: bool)
    ensures
        found == occurs_at(word@, pattern@, at as int),
{
    if pattern.len() > word.len() || at > word.len() - pattern.len() {
        return false;
    }
    let mut d: usize = 0;
    while d < pattern.len()
        invariant
            d <= pattern.len(),
            at + pattern.len() <= word.len(),
            forall|e: int| 0 <= e < d ==> word@[at + e] == pattern@[e],
        decreases pattern.len() - d,
    {
        if word[at + d] != pattern[d] {
            assert(word@.subrange(at as int, at + pattern.len())[d as int] != pattern@[d as int]);
            return false;
        }
        d += 1;
    }
    assert(word@.subrange(at as int, at + pattern.len()) =~= pattern@);
    true
}

fn place_pattern(slots: &Vec<Option<usize>>, at: usize, len: usize, index: usize) -> (placed: Vec<
    Option<usize>,
>)
    requires
        at + len <= slots.len(),
    ensures
        placed@ == place(slots@, at as int, len as int, index),
{
    let mut placed: Vec<Option<usize>> = Vec::new();
    let mut p: usize = 0;
    while p < slots.len()
        invariant
            p <= slots.len(),
            at + len <= slots.len(),
            placed@ == place(slots@, at as int, len as int, index).subrange(0, p as int),
        decreases slots.len() - p,
    {
        if at <= p && p - at < len {
            placed.push(Some(index));
        } else {
            placed.push(slots[p]);
        }
        p += 1;
    }
    placed
}

/// Finds every tiling of `word` by the patterns of `phrases`, in list order.
///
/// The result holds one assignment per tiling. Each has one slot per
/// character of `word`; a slot holds the index of the phrase whose pattern
/// claims the character, or `None` where the character is left as a wildcard.
/// A pattern is placed wherever it occurs and its first character is still
/// free; the characters after the first are taken over from whichever
/// earlier pattern held them.
pub fn find_word_matches(phrases: &[Phrase], word: &str) -> (matches: Vec<Vec<Option<usize>>>)
    requires
        all_patterns_nonempty(phrases@),
    ensures
        assignments_of(matches@) == tilings(word@, patterns_of(phrases@), phrases@.len() as int),
        forall|t: int|
            0 <= t < matches@.len() ==> well_formed(
                (#[trigger] matches@[t])@,
                word@.len(),
                phrases@.len() as int,
            ),
{
    let letters = chars_of(word);
    let n: usize = letters.len();
    let mut work: Vec<Vec<Option<usize>>> = Vec::new();
    work.push(blank_assignment(n));
    assert(assignments_of(work@) =~= tilings(word@, patterns_of(phrases@), 0));
    let mut k: usize = 0;
    while k < phrases.len()
        invariant
            k <= phrases.len(),
            letters@ == word@,
            n == letters.len(),
            assignments_of(work@) == tilings(word@, patterns_of(phrases@), k as int),
            forall|m: int| 0 <= m < work.len() ==> (#[trigger] work@[m])@.len() == n,
        decreases phrases.len() - k,
    {
        let pattern = chars_of(phrases[k].pattern.as_str());
        let ghost earlier = assignments_of(work@);
        let mut next: Vec<Vec<Option<usize>>> = Vec::new();
        let mut a: usize = 0;
        assert(assignments_of(next@) =~= extend_all(word@, pattern@, k, earlier, 0));
        while a < work.len()
            invariant
                a <= work.len(),
                letters@ == word@,
                n == letters.len(),
                earlier == assignments_of(work@),
                assignments_of(next@) == extend_all(word@, pattern@, k, earlier, a as int),
                forall|m: int| 0 <= m < work.len() ==> (#[trigger] work@[m])@.len() == n,
                forall|m: int| 0 <= m < next.len() ==> (#[trigger] next@[m])@.len() == n,
            decreases work.len() - a,
        {
            let ghost done = assignments_of(next@);
            let mut j: usize = 0;
            assert(assignments_of(next@) =~= done + extensions(word@, pattern@, k, earlier[a as int], 0));
            while j < n
                invariant
                    j <= n,
                    a < work.len(),
                    letters@ == word@,
                    n == letters.len(),
                    earlier == assignments_of(work@),
                    assignments_of(next@) == done + extensions(
                        word@,
                        pattern@,
                        k,
                        earlier[a as int],
                        j as int,
                    ),
                    forall|m: int| 0 <= m < work.len() ==> (#[trigger] work@[m])@.len() == n,
                    forall|m: int| 0 <= m < next.len() ==> (#[trigger] next@[m])@.len() == n,
                decreases n - j,
            {
                assert(work@[a as int]@.len() == n);
                if work[a][j].is_none() && pattern_occurs_at(&letters, &pattern, j) {
                    let placed = place_pattern(&work[a], j, pattern.len(), k);
                    let ghost before = next@;
                    next.push(placed);
                    assert(assignments_of(next@) =~= assignments_of(before).push(placed@));
                    assert(assignments_of(next@) =~= done + extensions(
                        word@,
                        pattern@,
                        k,
                        earlier[a as int],
                        j + 1,
                    ));
                }
                j += 1;
            }
            a += 1;
        }
        assert(patterns_of(phrases@)[k as int] == pattern@);
        work = next;
        k += 1;
    }
    proof {
        let all = tilings(word@, patterns_of(phrases@), phrases@.len() as int);
        assert forall|t: int| 0 <= t < work@.len() implies well_formed(
            (#[trigger] work@[t])@,
            word@.len(),
            phrases@.len() as int,
        ) by {
            assert(assignments_of(work@)[t] == work@[t]@);
            lemma_tilings_well_formed(word@, patterns_of(phrases@), phrases@.len() as int, t);
        }
    }
    work
}

} // verus!
