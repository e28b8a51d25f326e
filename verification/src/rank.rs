//! The order in which matched words are listed: shorter words first, words
//! of one length in lexicographic order.

use std::cmp::Ordering;
use vstd::prelude::*;
use crate::text::chars_of;

verus! {

/// Strict lexicographic order on character sequences, by code point.
pub open spec fn lex_lt(a: Seq<char>, b: Seq<char>) -> bool
    decreases a.len(),
{
    if b.len() == 0 {
        false
    } else if a.len() == 0 {
        true
    } else if a[0] != b[0] {
        a[0] < b[0]
    } else {
        lex_lt(a.drop_first(), b.drop_first())
    }
}

/// `a` is listed strictly before `b`.
pub open spec fn ranks_before(a: Seq<char>, b: Seq<char>) -> bool {
    a.len() < b.len() || (a.len() == b.len() && lex_lt(a, b))
}

/// No sequence is lexicographically below itself.
pub proof fn lemma_lex_irreflexive(a: Seq<char>)
    ensures
        !lex_lt(a, a),
    decreases a.len(),
{
    if a.len() > 0 {
        lemma_lex_irreflexive(a.drop_first());
    }
}

/// Two sequences are never lexicographically below each other.
pub proof fn lemma_lex_asymmetric(a: Seq<char>, b: Seq<char>)
    requires
        lex_lt(a, b),
    ensures
        !lex_lt(b, a),
    decreases a.len(),
{
    if a.len() > 0 && b.len() > 0 && a[0] == b[0] {
        lemma_lex_asymmetric(a.drop_first(), b.drop_first());
    }
}

/// Of two different sequences one is lexicographically below the other.
pub proof fn lemma_lex_total(a: Seq<char>, b: Seq<char>)
    requires
        a != b,
    ensures
        lex_lt(a, b) || lex_lt(b, a),
    decreases a.len(),
{
    if a.len() == 0 || b.len() == 0 {
        if a.len() == 0 && b.len() == 0 {
            assert(a =~= b);
        }
    } else if a[0] == b[0] {
        if a.drop_first() == b.drop_first() {
            assert(a =~= seq![a[0]] + a.drop_first());
            assert(b =~= seq![b[0]] + b.drop_first());
        }
        lemma_lex_total(a.drop_first(), b.drop_first());
    }
}

/// If `c` is lexicographically below `a`, then any `b` is above `c` or
/// below `a`.
pub proof fn lemma_lex_cotransitive(c: Seq<char>, a: Seq<char>, b: Seq<char>)
    requires
        lex_lt(c, a),
    ensures
        lex_lt(c, b) || lex_lt(b, a),
    decreases c.len(),
{
    if b.len() == 0 {
    } else if c.len() == 0 {
    } else if c[0] == a[0] && b[0] == c[0] {
        lemma_lex_cotransitive(c.drop_first(), a.drop_first(), b.drop_first());
    }
}

/// No word is listed before itself.
pub proof fn lemma_rank_irreflexive(a: Seq<char>)
    ensures
        !ranks_before(a, a),
{
    lemma_lex_irreflexive(a);
}

/// Two words are never listed before each other.
pub proof fn lemma_rank_asymmetric(a: Seq<char>, b: Seq<char>)
    requires
        ranks_before(a, b),
    ensures
        !ranks_before(b, a),
{
    if a.len() == b.len() {
        lemma_lex_asymmetric(a, b);
    }
}

/// Of two different words one is listed before the other.
pub proof fn lemma_rank_total(a: Seq<char>, b: Seq<char>)
    requires
        a != b,
    ensures
        ranks_before(a, b) || ranks_before(b, a),
{
    lemma_lex_total(a, b);
}

/// If `c` is listed before `a`, then any `b` is listed after `c` or before
/// `a`.
pub proof fn lemma_rank_cotransitive(c: Seq<char>, a: Seq<char>, b: Seq<char>)
    requires
        ranks_before(c, a),
    ensures
        ranks_before(c, b) || ranks_before(b, a),
{
    if c.len() == a.len() && b.len() == c.len() {
        lemma_lex_cotransitive(c, a, b);
    }
}

/// The listing order is transitive.
pub proof fn lemma_rank_transitive(a: Seq<char>, b: Seq<char>, c: Seq<char>)
    requires
        ranks_before(a, b),
        ranks_before(b, c),
    ensures
        ranks_before(a, c),
{
    lemma_rank_cotransitive(a, b, c);
    lemma_rank_asymmetric(b, c);
}

fn lex_before(a: &Vec<char>, b: &Vec<char>) -> (before: bool)
    ensures
        before == lex_lt(a@, b@),
{
    let mut i: usize = 0;
    assert(a@.skip(0) =~= a@ && b@.skip(0) =~= b@);
    while i < a.len() && i < b.len()
        invariant
            i <= a.len(),
            i <= b.len(),
            lex_lt(a@, b@) == lex_lt(a@.skip(i as int), b@.skip(i as int)),
        decreases a.len() - i,
    {
        proof {
            assert(a@.skip(i as int).drop_first() =~= a@.skip(i + 1));
            assert(b@.skip(i as int).drop_first() =~= b@.skip(i + 1));
            assert(a@.skip(i as int)[0] == a@[i as int]);
            assert(b@.skip(i as int)[0] == b@[i as int]);
        }
        if a[i] != b[i] {
            assert(lex_lt(a@.skip(i as int), b@.skip(i as int)) == (a@[i as int] < b@[i as int]));
            return a[i] < b[i];
        }
        i += 1;
    }
    i < b.len()
}

/// Whether the word `a` is listed strictly before the word `b`.
pub fn word_ranks_before(a: &str, b: &str) -> (before: bool)
    ensures
        before == ranks_before(a@, b@),
{
    let a_chars = chars_of(a);
    let b_chars = chars_of(b);
    if a_chars.len() != b_chars.len() {
        a_chars.len() < b_chars.len()
    } else {
        lex_before(&a_chars, &b_chars)
    }
}

/// How the word `a` stands to the word `b` in the listing order.
pub open spec fn word_order(a: Seq<char>, b: Seq<char>) -> Ordering {
    if ranks_before(a, b) {
        Ordering::Less
    } else if ranks_before(b, a) {
        Ordering::Greater
    } else {
        Ordering::Equal
    }
}

/// Two words rank as equal only if they are the same word.
pub proof fn lemma_word_order_equal(a: Seq<char>, b: Seq<char>)
    ensures
        word_order(a, b) == Ordering::Equal <==> a == b,
{
    if a == b {
        lemma_rank_irreflexive(a);
    } else {
        lemma_rank_total(a, b);
    }
}

/// How the word `a` stands to the word `b` in the listing order.
pub fn compare_words(a: &str, b: &str) -> (order: Ordering)
    ensures
        order == word_order(a@, b@),
{
    if word_ranks_before(a, b) {
        Ordering::Less
    } else if word_ranks_before(b, a) {
        Ordering::Greater
    } else {
        Ordering::Equal
    }
}

} // verus!
