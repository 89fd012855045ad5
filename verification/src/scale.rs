//! What the measures of a search are in exact arithmetic.
//!
//! Scores that are whole multiples of one fraction, up to a limit, are added and
//! subtracted without rounding, and multiplied and divided so where the result is such a
//! multiple too: in single precision, the multiples of a negative power of two. The laws
//! here say what the measures are on such scores, as sums, differences and products of
//! whole numbers.
use crate::cosine::{vector_distance, MatchedWords, VectorReadings};
use crate::distances::Measuring;
use crate::hooks::{Hooks, ParsedQuery};
use crate::matching::{keyword_distance, total};
use crate::measure::{lemma_shared_ahead, lemma_shared_has_words};
use crate::outcomes::{law_distance_says_what_was_measured, law_tables_find_words_and_synonyms};
use crate::qpick::Qpick;
use crate::results::DistanceResult;
use crate::score::{computes, score, zero, Arithmetic, FloatOp, Score, ONE};
use crate::search::{lowered, shared};
use crate::shard::weight;
use crate::tables::by_text;
use fnv::{FnvHashMap, FnvHashSet};
use vstd::prelude::*;
use vstd::seq_lib::lemma_fold_left_permutation;

verus! {

/// Scores that are multiples of one fraction.
pub struct Scale {
    /// Whether a score is such a multiple.
    pub has: spec_fn(Score) -> bool,
    /// How many times the fraction a score is.
    pub value: spec_fn(Score) -> int,
    /// How many times the fraction the number one is.
    pub one: int,
    /// The largest multiple on the scale.
    pub limit: int,
}

impl Scale {
    /// The score is a multiple, and not below zero.
    pub open spec fn counts(self, a: Score) -> bool {
        (self.has)(a) && 0 <= (self.value)(a)
    }

    /// All scores of a list are multiples, and not below zero.
    pub open spec fn counts_all(self, list: Seq<Score>) -> bool {
        forall|i: int| 0 <= i < list.len() ==> self.counts(#[trigger] list[i])
    }

    /// How many times the fraction the scores of a list are.
    pub open spec fn values(self, list: Seq<Score>) -> Seq<int> {
        list.map_values(self.value)
    }
}

/// The scores on the scale are in order, and the arithmetic is exact on them.
pub open spec fn is_exact(g: Arithmetic, s: Scale) -> bool {
    &&& 0 < s.one <= s.limit
    &&& (s.has)(zero()) && (s.value)(zero()) == 0
    &&& (s.has)(score(0x3f80_0000)) && (s.value)(score(0x3f80_0000)) == s.one
    &&& forall|a: Score, b: Score|
        (s.has)(a) && (s.has)(b) ==> (#[trigger] a.below(b) <==> (s.value)(a) < (s.value)(b))
    &&& forall|a: Score, b: Score|
        #![trigger g(FloatOp::Plus(a, b))]
        (s.has)(a) && (s.has)(b) && -s.limit <= (s.value)(a) + (s.value)(b) <= s.limit ==> (s.has)(
            g(FloatOp::Plus(a, b)),
        ) && (s.value)(g(FloatOp::Plus(a, b))) == (s.value)(a) + (s.value)(b)
    &&& forall|a: Score, b: Score|
        #![trigger g(FloatOp::Minus(a, b))]
        (s.has)(a) && (s.has)(b) && -s.limit <= (s.value)(a) - (s.value)(b) <= s.limit ==> (s.has)(
            g(FloatOp::Minus(a, b)),
        ) && (s.value)(g(FloatOp::Minus(a, b))) == (s.value)(a) - (s.value)(b)
    &&& forall|a: Score, b: Score, q: int|
        #![trigger g(FloatOp::Times(a, b)), is_multiple(q)]
        (s.has)(a) && (s.has)(b) && is_multiple(q) && q * s.one == (s.value)(a) * (s.value)(b)
            && -s.limit <= q <= s.limit ==> (s.has)(g(FloatOp::Times(a, b))) && (s.value)(
            g(FloatOp::Times(a, b)),
        ) == q
    &&& forall|a: Score, b: Score, q: int|
        #![trigger g(FloatOp::Over(a, b)), is_multiple(q)]
        (s.has)(a) && (s.has)(b) && (s.value)(b) != 0 && is_multiple(q) && q * (s.value)(b)
            == (s.value)(a) * s.one && -s.limit <= q <= s.limit ==> (s.has)(g(FloatOp::Over(a, b)))
            && (s.value)(g(FloatOp::Over(a, b))) == q
}

/// A whole number, as a multiple.
pub open spec fn is_multiple(q: int) -> bool {
    true
}

/// The score whose place among all numbers is `n`.
pub open spec fn score_at(n: int) -> Score {
    if n >= 0 {
        Score { bits: n as u32 }
    } else {
        Score { bits: (0x8000_0000 - n) as u32 }
    }
}

/// The scale of all numbers, by their places.
pub open spec fn places() -> Scale {
    Scale {
        has: |a: Score| !a.is_nan(),
        value: |a: Score| a.place(),
        one: 0x3f80_0000,
        limit: 0x7f80_0000,
    }
}

/// The arithmetic of places.
pub open spec fn by_places() -> Arithmetic {
    |op: FloatOp|
        match op {
            FloatOp::Plus(a, b) => score_at(a.place() + b.place()),
            FloatOp::Minus(a, b) => score_at(a.place() - b.place()),
            FloatOp::Times(a, b) => score_at(a.place() * b.place() / 0x3f80_0000),
            FloatOp::Over(a, b) => score_at(a.place() * 0x3f80_0000 / b.place()),
            _ => zero(),
        }
}

/// Some arithmetic is exact on some scale: that of places is.
pub proof fn law_exact_arithmetic_exists()
    ensures
        is_exact(by_places(), places()),
{
    let (g, s) = (by_places(), places());
    assert forall|n: int| -0x7f80_0000 <= n <= 0x7f80_0000 implies (#[trigger] score_at(n)).place()
        == n && !score_at(n).is_nan() by {}
    assert forall|a: Score, b: Score, q: int|
        #![trigger g(FloatOp::Times(a, b)), is_multiple(q)]
        (s.has)(a) && (s.has)(b) && is_multiple(q) && q * s.one == (s.value)(a) * (s.value)(b)
            && -s.limit <= q <= s.limit implies (s.has)(g(FloatOp::Times(a, b))) && (s.value)(
        g(FloatOp::Times(a, b)),
    ) == q by {
        let p = a.place() * b.place();
        assert(p / 0x3f80_0000 == q) by (nonlinear_arith)
            requires
                q * 0x3f80_0000 == p,
        ;
        assert(g(FloatOp::Times(a, b)) == score_at(q));
    }
    assert forall|a: Score, b: Score, q: int|
        #![trigger g(FloatOp::Over(a, b)), is_multiple(q)]
        (s.has)(a) && (s.has)(b) && (s.value)(b) != 0 && is_multiple(q) && q * (s.value)(b)
            == (s.value)(a) * s.one && -s.limit <= q <= s.limit implies (s.has)(
        g(FloatOp::Over(a, b)),
    ) && (s.value)(g(FloatOp::Over(a, b))) == q by {
        let (p, d) = (a.place() * 0x3f80_0000, b.place());
        assert(p / d == q) by (nonlinear_arith)
            requires
                q * d == p,
                d != 0,
        ;
        assert(g(FloatOp::Over(a, b)) == score_at(q));
    }
}

/// The sum of all numbers of a list.
pub open spec fn sum_of(list: Seq<int>) -> int {
    list.fold_left(0, |sum: int, x: int| sum + x)
}

/// The smaller of two numbers.
pub open spec fn least(a: int, b: int) -> int {
    if a < b {
        a
    } else {
        b
    }
}

/// A number, but not less than zero.
pub open spec fn positive(a: int) -> int {
    if a > 0 {
        a
    } else {
        0
    }
}

/// A sum does not depend on the order.
proof fn lemma_sum_of_any_order(a: Seq<int>, b: Seq<int>)
    requires
        a.to_multiset() == b.to_multiset(),
    ensures
        sum_of(a) == sum_of(b),
{
    lemma_fold_left_permutation(a, b, |sum: int, x: int| sum + x, 0int);
}

/// A sum of one more number is larger by it.
proof fn lemma_sum_of_push(a: Seq<int>, x: int)
    ensures
        sum_of(a.push(x)) == sum_of(a) + x,
{
    assert(a.push(x).drop_last() =~= a);
}

/// The sum of the first numbers that are not below zero is neither, and is not above
/// the sum of all.
proof fn lemma_sum_of_part(a: Seq<int>, n: int)
    requires
        0 <= n <= a.len(),
        forall|i: int| 0 <= i < a.len() ==> 0 <= #[trigger] a[i],
    ensures
        0 <= sum_of(a.take(n)) <= sum_of(a),
    decreases a.len(),
{
    if a.len() > 0 {
        let init = a.drop_last();
        lemma_sum_of_push(init, a.last());
        assert(init.push(a.last()) =~= a);
        assert(forall|i: int| 0 <= i < init.len() ==> init[i] == a[i]);
        if n < a.len() {
            lemma_sum_of_part(init, n);
            assert(init.take(n) =~= a.take(n));
        } else {
            lemma_sum_of_part(init, n - 1);
            assert(init.take(n - 1) =~= init);
            assert(a.take(n) =~= a);
        }
    } else {
        assert(a.take(n) =~= a);
    }
}

/// A sum is larger by what one number is larger.
proof fn lemma_sum_of_update(a: Seq<int>, i: int, x: int)
    requires
        0 <= i < a.len(),
    ensures
        sum_of(a.update(i, x)) == sum_of(a) + x - a[i],
    decreases a.len(),
{
    let (init, last) = (a.drop_last(), a.last());
    let b = a.update(i, x);
    lemma_sum_of_push(init, last);
    assert(init.push(last) =~= a);
    lemma_sum_of_push(b.drop_last(), b.last());
    assert(b.drop_last().push(b.last()) =~= b);
    if i < init.len() {
        lemma_sum_of_update(init, i, x);
        assert(b.drop_last() =~= init.update(i, x));
    } else {
        assert(b.drop_last() =~= init);
    }
}

/// The sum of the first scores of a list, in exact arithmetic.
proof fn lemma_total_is_exact(g: Arithmetic, s: Scale, rels: Seq<Score>, n: nat)
    requires
        is_exact(g, s),
        s.counts_all(rels),
        sum_of(s.values(rels)) <= s.limit,
        n <= rels.len(),
    ensures
        (s.has)(total(g, rels, n)),
        (s.value)(total(g, rels, n)) == sum_of(s.values(rels).take(n as int)),
    decreases n,
{
    let all = s.values(rels);
    if n > 0 {
        let m = (n - 1) as nat;
        lemma_total_is_exact(g, s, rels, m);
        assert(s.counts(rels[m as int]));
        assert(all[m as int] == (s.value)(rels[m as int]));
        assert(all.take(n as int) =~= all.take(m as int).push(all[m as int]));
        lemma_sum_of_push(all.take(m as int), all[m as int]);
        assert forall|i: int| 0 <= i < all.len() implies 0 <= #[trigger] all[i] by {
            assert(s.counts(rels[i]));
        }
        lemma_sum_of_part(all, n as int);
        lemma_sum_of_part(all, m as int);
    }
}

/// In exact arithmetic the keyword distance is one less the sum of all entries, but not
/// less than zero.
pub proof fn law_keyword_distance_is_what_is_left_of_one(g: Arithmetic, s: Scale, rels: Seq<Score>)
    requires
        is_exact(g, s),
        s.counts_all(rels),
        sum_of(s.values(rels)) <= s.limit,
    ensures
        (s.has)(keyword_distance(g, rels)),
        (s.value)(keyword_distance(g, rels)) == positive(s.one - sum_of(s.values(rels))),
{
    let all = s.values(rels);
    lemma_total_is_exact(g, s, rels, rels.len());
    assert(all.take(rels.len() as int) =~= all);
    assert forall|i: int| 0 <= i < all.len() implies 0 <= #[trigger] all[i] by {
        assert(s.counts(rels[i]));
    }
    lemma_sum_of_part(all, 0);
}

/// In exact arithmetic the keyword distance does not depend on the order of the words.
pub proof fn law_order_of_words_does_not_count(
    g: Arithmetic,
    s: Scale,
    a: Seq<Score>,
    b: Seq<Score>,
)
    requires
        is_exact(g, s),
        s.counts_all(a),
        s.counts_all(b),
        s.values(a).to_multiset() == s.values(b).to_multiset(),
        sum_of(s.values(a)) <= s.limit,
    ensures
        (s.value)(keyword_distance(g, a)) == (s.value)(keyword_distance(g, b)),
{
    lemma_sum_of_any_order(s.values(a), s.values(b));
    law_keyword_distance_is_what_is_left_of_one(g, s, a);
    law_keyword_distance_is_what_is_left_of_one(g, s, b);
}

/// In exact arithmetic, raising an entry by some amount, whichever it is, lowers the
/// keyword distance by that amount, but not below zero.
pub proof fn law_raising_an_entry_lowers_the_distance(
    g: Arithmetic,
    s: Scale,
    rels: Seq<Score>,
    i: int,
    x: Score,
)
    requires
        is_exact(g, s),
        s.counts_all(rels),
        0 <= i < rels.len(),
        s.counts(x),
        (s.value)(rels[i]) <= (s.value)(x),
        sum_of(s.values(rels)) + (s.value)(x) - (s.value)(rels[i]) <= s.limit,
    ensures
        (s.value)(keyword_distance(g, rels.update(i, x))) == positive(
            (s.value)(keyword_distance(g, rels)) - ((s.value)(x) - (s.value)(rels[i])),
        ),
{
    let new = rels.update(i, x);
    assert(s.values(new) =~= s.values(rels).update(i, (s.value)(x)));
    lemma_sum_of_update(s.values(rels), i, (s.value)(x));
    assert(s.counts_all(new));
    law_keyword_distance_is_what_is_left_of_one(g, s, rels);
    law_keyword_distance_is_what_is_left_of_one(g, s, new);
}

/// In exact arithmetic, relevances that make up one, all of which count in full, leave
/// no keyword distance, however many words there are; without any word it is one.
pub proof fn law_full_match_is_at_distance_zero(g: Arithmetic, s: Scale, rels: Seq<Score>)
    requires
        is_exact(g, s),
        s.counts_all(rels),
        sum_of(s.values(rels)) <= s.limit,
    ensures
        sum_of(s.values(rels)) == s.one ==> (s.value)(keyword_distance(g, rels)) == 0,
        rels.len() == 0 ==> (s.value)(keyword_distance(g, rels)) == s.one,
        // And only such relevances, or more, leave none.
        (s.value)(keyword_distance(g, rels)) == 0 ==> sum_of(s.values(rels)) >= s.one,
{
    law_keyword_distance_is_what_is_left_of_one(g, s, rels);
}

/// In exact arithmetic, with tf-idf, the weight of an ngram times its relevance in the
/// query that was asked for gives back the smaller of its two relevances.
pub proof fn law_weight_gives_back_the_smaller_relevance(
    g: Arithmetic,
    s: Scale,
    found: Score,
    asked: Score,
    w: int,
)
    requires
        is_exact(g, s),
        s.counts(found),
        s.counts(asked),
        (s.value)(asked) > 0,
        (s.value)(asked) <= s.limit,
        // The quotient is on the scale.
        w * (s.value)(asked) == least((s.value)(found), (s.value)(asked)) * s.one,
    ensures
        (s.has)(weight(g, true, found, asked)),
        (s.value)(weight(g, true, found, asked)) == w,
        (s.value)(g(FloatOp::Times(weight(g, true, found, asked), asked))) == least(
            (s.value)(found),
            (s.value)(asked),
        ),
        (s.value)(weight(g, true, found, asked)) > 0 <==> (s.value)(found) > 0,
{
    let (f, a) = ((s.value)(found), (s.value)(asked));
    let m = least(f, a);
    let one = s.one;
    assert(is_multiple(w));
    assert(0 <= w <= one) by (nonlinear_arith)
        requires
            w * a == m * one,
            0 <= m <= a,
            0 < a,
            0 < one,
    ;
    assert(w > 0 <==> m > 0) by (nonlinear_arith)
        requires
            w * a == m * one,
            0 <= m,
            0 < a,
            0 < one,
    ;
    let r = weight(g, true, found, asked);
    assert(r == g(FloatOp::Over(found, asked)) || r == g(FloatOp::Over(asked, asked)));
    assert((s.value)(r) == w);
    assert(is_multiple(m));
    assert(m * one == w * a);
}

/// What the words of a candidate that the index finds as one word of the query add to
/// it: each the smaller of its relevance and that of the query's word, any other nothing.
pub open spec fn additions(
    s: Scale,
    index: Map<Seq<char>, usize>,
    wrs: Seq<Score>,
    cand_words: Seq<String>,
    cand_wrs: Seq<Score>,
    w: int,
) -> Seq<int> {
    Seq::new(
        cand_words.len(),
        |j: int|
            if index.contains_key(cand_words[j]@) && index[cand_words[j]@] == w {
                least((s.value)(wrs[w]), (s.value)(cand_wrs[j]))
            } else {
                0
            },
    )
}

/// The first words of a candidate, in exact arithmetic.
proof fn lemma_shared_is_exact(
    g: Arithmetic,
    s: Scale,
    index: Map<Seq<char>, usize>,
    words: nat,
    wrs: Seq<Score>,
    cand_words: Seq<String>,
    cand_wrs: Seq<Score>,
    w: int,
    n: nat,
)
    requires
        is_exact(g, s),
        s.counts_all(wrs),
        s.counts_all(cand_wrs),
        wrs.len() == words,
        cand_wrs.len() == cand_words.len(),
        forall|text: Seq<char>| #[trigger] index.contains_key(text) ==> index[text] < words,
        0 <= w < words,
        n <= cand_words.len(),
        sum_of(additions(s, index, wrs, cand_words, cand_wrs, w)) <= s.limit,
    ensures
        ({
            let part = additions(s, index, wrs, cand_words, cand_wrs, w).take(n as int);
            let r = shared(g, index, words, wrs, cand_words, cand_wrs, n)[w];
            (s.has)(r) && (s.value)(r) == sum_of(part)
        }),
    decreases n,
{
    let all = additions(s, index, wrs, cand_words, cand_wrs, w);
    assert forall|i: int| 0 <= i < all.len() implies 0 <= #[trigger] all[i] by {
        assert(s.counts(cand_wrs[i]));
        assert(s.counts(wrs[w]));
    }
    if n > 0 {
        let m = (n - 1) as nat;
        lemma_shared_is_exact(g, s, index, words, wrs, cand_words, cand_wrs, w, m);
        lemma_shared_has_words(g, index, words, wrs, cand_words, cand_wrs, m);
        assert(all.take(n as int) =~= all.take(m as int).push(all[m as int]));
        lemma_sum_of_push(all.take(m as int), all[m as int]);
        lemma_sum_of_part(all, n as int);
        lemma_sum_of_part(all, m as int);
        assert(s.counts(cand_wrs[m as int]));
        assert(s.counts(wrs[w]));
    }
}

/// In exact arithmetic each word of the query counts for the sum, over all words of the
/// candidate that the index finds as it, of the smaller of the two relevances.
pub proof fn law_word_counts_for_all_that_are_found_as_it(
    g: Arithmetic,
    s: Scale,
    index: Map<Seq<char>, usize>,
    words: nat,
    wrs: Seq<Score>,
    cand_words: Seq<String>,
    cand_wrs: Seq<Score>,
    w: int,
)
    requires
        is_exact(g, s),
        s.counts_all(wrs),
        s.counts_all(cand_wrs),
        wrs.len() == words,
        cand_wrs.len() == cand_words.len(),
        forall|text: Seq<char>| #[trigger] index.contains_key(text) ==> index[text] < words,
        0 <= w < words,
        sum_of(additions(s, index, wrs, cand_words, cand_wrs, w)) <= s.limit,
    ensures
        ({
            let r = shared(g, index, words, wrs, cand_words, cand_wrs, cand_words.len())[w];
            (s.has)(r) && (s.value)(r) == sum_of(
                additions(s, index, wrs, cand_words, cand_wrs, w),
            )
        }),
{
    lemma_shared_is_exact(
        g,
        s,
        index,
        words,
        wrs,
        cand_words,
        cand_wrs,
        w,
        cand_words.len(),
    );
    let all = additions(s, index, wrs, cand_words, cand_wrs, w);
    assert(all.take(cand_words.len() as int) =~= all);
}

/// A word of the query that one word of the candidate is found as, and no other, counts
/// for zero plus the smaller of their relevances, in every arithmetic; one that none is
/// found as counts for zero.
pub proof fn law_word_found_once(
    g: Arithmetic,
    index: Map<Seq<char>, usize>,
    words: nat,
    wrs: Seq<Score>,
    cand_words: Seq<String>,
    cand_wrs: Seq<Score>,
    j: int,
    w: int,
    n: nat,
)
    requires
        cand_wrs.len() == cand_words.len(),
        forall|text: Seq<char>| #[trigger] index.contains_key(text) ==> index[text] < words,
        0 <= w < words,
        n <= cand_words.len(),
        forall|i: int|
            #![trigger cand_words[i]]
            0 <= i < n && i != j ==> !(index.contains_key(cand_words[i]@)
                && index[cand_words[i]@] == w),
        0 <= j < n ==> index.contains_key(cand_words[j]@) && index[cand_words[j]@] == w,
    ensures
        ({
            let r = shared(g, index, words, wrs, cand_words, cand_wrs, n)[w];
            &&& !(0 <= j < n) ==> r == Score { bits: 0 }
            &&& 0 <= j < n && wrs[w].below(cand_wrs[j]) ==> r == g(FloatOp::Plus(zero(), wrs[w]))
            &&& 0 <= j < n && !wrs[w].below(cand_wrs[j]) ==> r == g(
                FloatOp::Plus(zero(), cand_wrs[j]),
            )
        }),
    decreases n,
{
    if n > 0 {
        let m = (n - 1) as nat;
        law_word_found_once(g, index, words, wrs, cand_words, cand_wrs, j, w, m);
        lemma_shared_has_words(g, index, words, wrs, cand_words, cand_wrs, m);
        assert(m != j ==> !(index.contains_key(cand_words[m as int]@) && index[cand_words[m
            as int]@] == w));
    }
}

/// A candidate that has the words and relevances of the query itself, none twice and none
/// by a synonym, is in exact arithmetic at the keyword distance that is left of one after
/// all relevances.
pub proof fn law_query_itself_as_candidate(
    g: Arithmetic,
    s: Scale,
    index: Map<Seq<char>, usize>,
    query_words: Seq<String>,
    wrs: Seq<Score>,
)
    requires
        is_exact(g, s),
        s.counts_all(wrs),
        wrs.len() == query_words.len(),
        sum_of(s.values(wrs)) <= s.limit,
        forall|text: Seq<char>| #[trigger]
            index.contains_key(text) ==> index[text] < query_words.len(),
        forall|i: int|
            0 <= i < query_words.len() ==> index.contains_key((#[trigger] query_words[i])@)
                && index[query_words[i]@] == i,
    ensures
        ({
            let n = query_words.len();
            let rels = shared(g, index, n, wrs, query_words, wrs, n);
            &&& rels.len() == n
            &&& s.values(rels) == s.values(wrs)
            &&& (s.value)(keyword_distance(g, rels)) == positive(
                s.one - sum_of(s.values(wrs)),
            )
        }),
{
    let n = query_words.len();
    let rels = shared(g, index, n, wrs, query_words, wrs, n);
    lemma_shared_has_words(g, index, n, wrs, query_words, wrs, n);
    let all = s.values(wrs);
    assert forall|i: int| 0 <= i < all.len() implies 0 <= #[trigger] all[i] by {
        assert(s.counts(wrs[i]));
    }
    assert forall|w: int| 0 <= w < n implies s.counts(#[trigger] rels[w]) && (s.value)(rels[w])
        == (s.value)(wrs[w]) by {
        assert(s.counts(wrs[w]));
        law_word_found_once(g, index, n, wrs, query_words, wrs, w, w, n);
        lemma_sum_of_part(all, w);
        lemma_sum_of_part(all, w + 1);
        assert(all.take(w + 1) =~= all.take(w).push(all[w]));
        lemma_sum_of_push(all.take(w), all[w]);
    }
    assert(s.values(rels) =~= s.values(wrs));
    assert(s.counts_all(rels));
    law_keyword_distance_is_what_is_left_of_one(g, s, rels);
}

/// The distance of a candidate that has the words and relevances of the query itself, none
/// twice and none with a synonym: by its keywords it is what is left of one after all
/// relevances, and none if they make up one.
pub proof fn law_query_is_no_distance_from_itself<'a, P, S, F, U, Q, E, V>(
    index: Qpick<'a>,
    m: Measuring,
    hooks: Hooks<P, S, F, U, Q, E, V>,
    parsed: ParsedQuery,
    candidates: Seq<String>,
    r: Seq<DistanceResult>,
    g: Arithmetic,
    s: Scale,
    i: int,
) where
    P: Fn(&str) -> ParsedQuery,
    S: Fn(&String, u32) -> u32,
    F: Fn(FloatOp) -> Score,
    U: Fn(u64) -> (u64, u64),
    Q: Fn(u64, u8, usize) -> u64,
    E: Fn(&String, &FnvHashSet<String>, &FnvHashMap<String, String>) -> MatchedWords,
    V: Fn(&Vec<String>, &MatchedWords) -> Option<VectorReadings>,

    requires
        index.measures(m, hooks, parsed, candidates, r),
        computes(hooks.float, g),
        is_exact(g, s),
        0 <= i < r.len(),
        s.counts_all(parsed.wrs@),
        sum_of(s.values(parsed.wrs@)) <= s.limit,
        parsed.wrs@.len() == parsed.words@.len(),
        parsed.synonyms@ == Map::<usize, String>::empty(),
        forall|a: int, b: int|
            #![trigger parsed.words@[a], parsed.words@[b]]
            0 <= a < b < parsed.words@.len() ==> parsed.words@[a]@ != parsed.words@[b]@,
        m.parsed[i].words@.len() == parsed.words@.len(),
        forall|j: int|
            0 <= j < parsed.words@.len() ==> (#[trigger] m.parsed[i].words@[j])@
                == parsed.words@[j]@,
        m.parsed[i].wrs@ == parsed.wrs@,
    ensures
        (s.value)(r[i].dist.keyword) == positive(s.one - sum_of(s.values(parsed.wrs@))),
        sum_of(s.values(parsed.wrs@)) == s.one ==> (s.value)(r[i].dist.keyword) == 0,
{
    law_distance_says_what_was_measured(index, m, hooks, parsed, candidates, r, g, i);
    let words = by_text(m.tables.index@);
    let n = parsed.words@.len();
    assert forall|text: Seq<char>| #[trigger] words.contains_key(text) implies words[text] < n by {
        law_tables_find_words_and_synonyms(m.tables, parsed.words@, parsed.synonyms@, text);
    }
    assert forall|j: int| 0 <= j < n implies words.contains_key((#[trigger] parsed.words@[j])@)
        && words[parsed.words@[j]@] == j by {
        let text = parsed.words@[j]@;
        law_tables_find_words_and_synonyms(m.tables, parsed.words@, parsed.synonyms@, text);
        let k = words[text] as int;
        assert(parsed.words@[k]@ == text);
    }
    law_query_itself_as_candidate(g, s, words, parsed.words@, parsed.wrs@);
    lemma_shared_ahead(
        g,
        words,
        n,
        parsed.wrs@,
        m.parsed[i].words@,
        parsed.words@,
        m.parsed[i].wrs@,
        parsed.wrs@,
        n,
    );
}

/// In exact arithmetic, a word in excess that the index finds lowers the distance by the
/// first distance times the relevance of the word that it is found as, whichever number
/// that has, but not below zero.
pub proof fn law_excess_word_lowers_by_its_share(
    g: Arithmetic,
    s: Scale,
    dist: Score,
    excess: Seq<String>,
    index: Map<Seq<char>, usize>,
    wrs: Seq<Score>,
    n: nat,
    part: int,
)
    requires
        is_exact(g, s),
        n < excess.len(),
        s.counts(dist),
        s.counts(lowered(g, dist, excess, index, wrs, n)),
        (s.value)(lowered(g, dist, excess, index, wrs, n)) <= s.limit,
        index.contains_key(excess[n as int]@),
        s.counts(wrs[index[excess[n as int]@] as int]),
        // The product is on the scale.
        part * s.one == (s.value)(dist) * (s.value)(wrs[index[excess[n as int]@] as int]),
        part <= s.limit,
    ensures
        ({
            let before = lowered(g, dist, excess, index, wrs, n);
            let after = lowered(g, dist, excess, index, wrs, n + 1);
            s.counts(after) && (s.value)(after) == positive((s.value)(before) - part)
        }),
{
    let w = wrs[index[excess[n as int]@] as int];
    let (d, r, one) = ((s.value)(dist), (s.value)(w), s.one);
    assert(0 <= part) by (nonlinear_arith)
        requires
            part * one == d * r,
            0 <= d,
            0 <= r,
            0 < one,
    ;
    assert(is_multiple(part));
    assert((s.value)(g(FloatOp::Times(dist, w))) == part);
}

/// The whole queries count: a word of the one kind only, missing or in excess, has a
/// vector, and some matching word and both queries have. They are close by their
/// keywords, and not near. The share of the keyword distance in the sum of both
/// distances, and the cosine distance times it, are the multiples `share` and `d`.
pub open spec fn counts_as_shared(
    g: Arithmetic,
    s: Scale,
    v: VectorReadings,
    query_len: nat,
    cand_len: nat,
    match_len: nat,
    missing_len: nat,
    excess_len: nat,
    k: Score,
    share: int,
    d: int,
) -> bool {
    let nf = g(
        FloatOp::Whole((v.counts.nf_excs + v.counts.nf_match + v.counts.nf_miss) as u128),
    );
    &&& v.counts.nf_match < match_len
    &&& v.counts.nf_miss <= missing_len
    &&& v.counts.nf_excs <= excess_len
    &&& (v.counts.nf_miss == missing_len) != (v.counts.nf_excs == excess_len)
    &&& v.nf_query != query_len
    &&& v.nf_cand != cand_len
    &&& s.counts(v.query_cand)
    &&& s.counts(k)
    &&& 0 < (s.value)(k) + (s.value)(v.query_cand) <= s.limit
    &&& match_len >= 2
    &&& match_len > missing_len
    &&& match_len > excess_len
    &&& missing_len + excess_len > 1 || !k.below(score(0x3e99_999a))
    &&& k.below(score(0x3ee6_6666))
    &&& nf.below(score(ONE)) || nf.same(score(ONE))
    &&& share * ((s.value)(k) + (s.value)(v.query_cand)) == (s.value)(k) * s.one
    &&& d * s.one == (s.value)(v.query_cand) * share
}

/// In exact arithmetic, where the whole queries count and are close by their keywords,
/// the distance is the product of the cosine distance and the keyword distance by their
/// sum, and is not above either of them.
pub proof fn law_close_queries_share_their_distances(
    g: Arithmetic,
    s: Scale,
    v: VectorReadings,
    query_len: nat,
    cand_len: nat,
    match_len: nat,
    missing_len: nat,
    excess_len: nat,
    k: Score,
    share: int,
    d: int,
)
    requires
        is_exact(g, s),
        counts_as_shared(
            g,
            s,
            v,
            query_len,
            cand_len,
            match_len,
            missing_len,
            excess_len,
            k,
            share,
            d,
        ),
    ensures
        ({
            let (c, kv) = ((s.value)(v.query_cand), (s.value)(k));
            let r = vector_distance(
                g,
                Some(v),
                query_len,
                cand_len,
                match_len,
                missing_len,
                excess_len,
                k,
            );
            &&& r is Some && (s.has)(r->0)
            &&& (s.value)(r->0) == d
            &&& d * (kv + c) == c * kv
            &&& 0 <= d <= c && d <= kv
        }),
{
    let (c, kv, one) = ((s.value)(v.query_cand), (s.value)(k), s.one);
    let t = kv + c;
    assert(0 <= share <= one) by (nonlinear_arith)
        requires
            share * t == kv * one,
            0 <= kv <= t,
            0 < t,
            0 < one,
    ;
    assert(d * t == c * kv) by (nonlinear_arith)
        requires
            share * t == kv * one,
            d * one == c * share,
            0 < one,
    {
        assert((d * t) * one == (c * kv) * one);
    }
    assert(0 <= d <= c && d <= kv) by (nonlinear_arith)
        requires
            d * t == c * kv,
            t == kv + c,
            0 <= c,
            0 <= kv,
            0 < t,
    {
        assert(c * kv <= c * t);
        assert(c * kv <= t * kv);
    }
    assert(is_multiple(share) && is_multiple(d));
}

/// A product by a sum never falls when the one factor grows.
proof fn lemma_share_grows(k: int, c1: int, c2: int, d1: int, d2: int)
    requires
        0 <= k,
        0 <= c1 <= c2,
        0 < k + c1,
        d1 * (k + c1) == c1 * k,
        d2 * (k + c2) == c2 * k,
    ensures
        d1 <= d2,
{
    assert(d1 <= d2) by (nonlinear_arith)
        requires
            0 <= k,
            0 <= c1 <= c2,
            0 < k + c1,
            d1 * (k + c1) == c1 * k,
            d2 * (k + c2) == c2 * k,
    {
        // The quotients compare as the cross products do.
        assert((c2 * k) * (k + c1) - (c1 * k) * (k + c2) == k * k * (c2 - c1));
        assert(k * k * (c2 - c1) >= 0);
        assert((d2 * (k + c2)) * (k + c1) >= (d1 * (k + c1)) * (k + c2));
        assert((d2 - d1) * ((k + c1) * (k + c2)) >= 0);
        assert((k + c1) * (k + c2) > 0);
    }
}

/// In exact arithmetic, the distance of close queries never falls when the cosine
/// distance of the whole queries grows.
pub proof fn law_close_distance_grows_with_the_cosine(
    g: Arithmetic,
    s: Scale,
    v: VectorReadings,
    w: VectorReadings,
    query_len: nat,
    cand_len: nat,
    match_len: nat,
    missing_len: nat,
    excess_len: nat,
    k: Score,
    shares: (int, int),
    d: (int, int),
)
    requires
        is_exact(g, s),
        w.counts == v.counts,
        w.nf_query == v.nf_query,
        w.nf_cand == v.nf_cand,
        (s.value)(v.query_cand) <= (s.value)(w.query_cand),
        counts_as_shared(
            g,
            s,
            v,
            query_len,
            cand_len,
            match_len,
            missing_len,
            excess_len,
            k,
            shares.0,
            d.0,
        ),
        counts_as_shared(
            g,
            s,
            w,
            query_len,
            cand_len,
            match_len,
            missing_len,
            excess_len,
            k,
            shares.1,
            d.1,
        ),
    ensures
        ({
            let r1 = vector_distance(
                g,
                Some(v),
                query_len,
                cand_len,
                match_len,
                missing_len,
                excess_len,
                k,
            );
            let r2 = vector_distance(
                g,
                Some(w),
                query_len,
                cand_len,
                match_len,
                missing_len,
                excess_len,
                k,
            );
            r1 is Some && r2 is Some && (s.value)(r1->0) <= (s.value)(r2->0)
        }),
{
    law_close_queries_share_their_distances(
        g,
        s,
        v,
        query_len,
        cand_len,
        match_len,
        missing_len,
        excess_len,
        k,
        shares.0,
        d.0,
    );
    law_close_queries_share_their_distances(
        g,
        s,
        w,
        query_len,
        cand_len,
        match_len,
        missing_len,
        excess_len,
        k,
        shares.1,
        d.1,
    );
    lemma_share_grows(
        (s.value)(k),
        (s.value)(v.query_cand),
        (s.value)(w.query_cand),
        d.0,
        d.1,
    );
}

} // verus!
