//! What holds of scores if the arithmetic keeps them in order.
//!
//! The operations of IEEE 754 round monotonically: a larger exact result is never
//! rounded to a smaller number. The laws here follow from that, and are stated of
//! every arithmetic that does so.
use crate::agreement::{
    are_walks, lemma_covered_has_twin, lemma_query_has_twin, lemma_row_is_of_a_visit,
    lemma_tally_has_words, same_texts, walk_can_tally, walk_tally,
};
use crate::cosine::{
    tolerance, vector_distance, MatchedWords, VectorReadings, DISCOUNT, PENALTY,
};
use crate::find::{are_row_matches, rows_fit, wanted, Trace};
use crate::hooks::{assigns, Functions, Hooks, ParsedQuery, Placing};
use crate::index::{splits, Unpairing};
use crate::matching::{
    can_look, covers_word, has_all, has_first, is_match, keyword_distance,
    law_keyword_distance_is_not_negative, law_word_counts_for_a_row_that_covers_it,
    law_word_counts_in_full_exactly_if_covered, total,
};
use crate::qpick::{Qpick, Walk};
use crate::results::{KeywordMatchResult, SearchResult};
use crate::score::{computes, score, zero, Arithmetic, FloatOp, Score, DIST_THRESH, INFINITY, ONE};
use crate::search::{excess_fits, lowered};
use crate::shard::{law_rows_are_of_the_ngrams, numbers, relevance, weight, Numbering};
use crate::tables::by_text;
use crate::unweighted::lemma_walk_rows_weigh_one;
use fnv::{FnvHashMap, FnvHashSet};
use vstd::prelude::*;

verus! {

/// Both are numbers, and the first is not above the second.
pub open spec fn at_most(a: Score, b: Score) -> bool {
    !a.is_nan() && !b.is_nan() && a.place() <= b.place()
}

/// The score is a number, not infinite and not below zero.
pub open spec fn is_amount(a: Score) -> bool {
    a.magnitude() < INFINITY && at_most(zero(), a)
}

/// The score is an infinite number.
pub open spec fn is_infinite(a: Score) -> bool {
    a.magnitude() == INFINITY
}

/// The one is zero and the other infinite, so that their product is not a number.
pub open spec fn is_indefinite(a: Score, b: Score) -> bool {
    (a.same(zero()) && is_infinite(b)) || (is_infinite(a) && b.same(zero()))
}

/// Sums of numbers that are not below zero are in order, and are not below zero;
/// one and such a number are not below one.
pub open spec fn sums_in_order(g: Arithmetic) -> bool {
    &&& forall|a: Score, b: Score, c: Score|
        #![trigger g(FloatOp::Plus(a, c)), g(FloatOp::Plus(b, c))]
        at_most(zero(), a) && at_most(a, b) && at_most(zero(), c) ==> at_most(
            g(FloatOp::Plus(a, c)),
            g(FloatOp::Plus(b, c)),
        )
    &&& forall|a: Score, b: Score, c: Score|
        #![trigger g(FloatOp::Plus(c, a)), g(FloatOp::Plus(c, b))]
        at_most(zero(), a) && at_most(a, b) && at_most(zero(), c) ==> at_most(
            g(FloatOp::Plus(c, a)),
            g(FloatOp::Plus(c, b)),
        )
    &&& forall|a: Score, b: Score|
        at_most(zero(), a) && at_most(zero(), b) ==> at_most(
            zero(),
            #[trigger] g(FloatOp::Plus(a, b)),
        )
    &&& forall|a: Score|
        at_most(zero(), a) ==> at_most(score(ONE), #[trigger] g(FloatOp::Plus(score(ONE), a)))
}

/// What is left of one is in order: the more is taken, the less is left. A number
/// that is not below zero less an amount is a number, and what is left of an amount
/// is not above it.
pub open spec fn differences_in_order(g: Arithmetic) -> bool {
    &&& forall|a: Score, b: Score|
        #![trigger g(FloatOp::Minus(score(ONE), a)), g(FloatOp::Minus(score(ONE), b))]
        at_most(a, b) ==> at_most(
            g(FloatOp::Minus(score(ONE), b)),
            g(FloatOp::Minus(score(ONE), a)),
        )
    &&& forall|a: Score, b: Score|
        at_most(zero(), a) && is_amount(b) ==> !(#[trigger] g(FloatOp::Minus(a, b))).is_nan()
    &&& forall|a: Score, b: Score|
        is_amount(a) && at_most(zero(), b) ==> at_most(#[trigger] g(FloatOp::Minus(a, b)), a)
}

/// Products of numbers that are not below zero are in order, and are not below zero,
/// unless they are indefinite, and then they are not numbers; one times such a number
/// is the number.
pub open spec fn products_in_order(g: Arithmetic) -> bool {
    &&& forall|a: Score, b: Score, c: Score|
        #![trigger g(FloatOp::Times(a, c)), g(FloatOp::Times(b, c))]
        at_most(zero(), a) && at_most(a, b) && at_most(zero(), c) && !is_indefinite(a, c)
            && !is_indefinite(b, c) ==> at_most(g(FloatOp::Times(a, c)), g(FloatOp::Times(b, c)))
    &&& forall|a: Score, b: Score, c: Score|
        #![trigger g(FloatOp::Times(c, a)), g(FloatOp::Times(c, b))]
        at_most(zero(), a) && at_most(a, b) && at_most(zero(), c) && !is_indefinite(a, c)
            && !is_indefinite(b, c) ==> at_most(g(FloatOp::Times(c, a)), g(FloatOp::Times(c, b)))
    &&& forall|a: Score, b: Score|
        at_most(zero(), a) && at_most(zero(), b) && !is_indefinite(a, b) ==> at_most(
            zero(),
            #[trigger] g(FloatOp::Times(a, b)),
        )
    &&& forall|a: Score, b: Score|
        is_indefinite(a, b) ==> (#[trigger] g(FloatOp::Times(a, b))).is_nan()
    &&& forall|a: Score|
        at_most(zero(), a) ==> (#[trigger] g(FloatOp::Times(score(ONE), a))).same(a)
}

/// Quotients of amounts are in order, and are not below zero; an amount by itself
/// is one, and by one or more it is an amount.
pub open spec fn quotients_in_order(g: Arithmetic) -> bool {
    &&& forall|a: Score, b: Score, c: Score|
        #![trigger g(FloatOp::Over(a, c)), g(FloatOp::Over(b, c))]
        is_amount(a) && is_amount(b) && is_amount(c) && zero().below(c) && at_most(a, b)
            ==> at_most(g(FloatOp::Over(a, c)), g(FloatOp::Over(b, c)))
    &&& forall|a: Score, c: Score, d: Score|
        #![trigger g(FloatOp::Over(a, c)), g(FloatOp::Over(a, d))]
        is_amount(a) && is_amount(c) && is_amount(d) && zero().below(c) && at_most(c, d)
            ==> at_most(g(FloatOp::Over(a, d)), g(FloatOp::Over(a, c)))
    &&& forall|a: Score, c: Score|
        is_amount(a) && is_amount(c) && zero().below(c) ==> at_most(
            zero(),
            #[trigger] g(FloatOp::Over(a, c)),
        )
    &&& forall|a: Score|
        is_amount(a) && zero().below(a) ==> #[trigger] g(FloatOp::Over(a, a)) == score(ONE)
    &&& forall|a: Score, c: Score|
        is_amount(a) && is_amount(c) && at_most(score(ONE), c) ==> is_amount(
            #[trigger] g(FloatOp::Over(a, c)),
        )
}

/// Whole numbers of up to eight bytes are amounts, and are in order.
pub open spec fn wholes_in_order(g: Arithmetic) -> bool {
    &&& forall|n: u128| n <= u64::MAX ==> is_amount(#[trigger] g(FloatOp::Whole(n)))
    &&& forall|n: u128, m: u128|
        #![trigger g(FloatOp::Whole(n)), g(FloatOp::Whole(m))]
        n <= m <= u64::MAX ==> at_most(g(FloatOp::Whole(n)), g(FloatOp::Whole(m)))
}

/// The arithmetic keeps numbers in order, as rounding monotonically does.
pub open spec fn keeps_order(g: Arithmetic) -> bool {
    &&& sums_in_order(g)
    &&& differences_in_order(g)
    &&& products_in_order(g)
    &&& quotients_in_order(g)
    &&& wholes_in_order(g)
}

/// A relevance that is given as a percentage is an amount, and grows with it.
proof fn lemma_relevance_grows(g: Arithmetic, n: u8, m: u8)
    requires
        keeps_order(g),
        n <= m,
    ensures
        is_amount(relevance(g, n)),
        is_amount(relevance(g, m)),
        at_most(relevance(g, n), relevance(g, m)),
{
}

/// With tf-idf, the weight of an ngram never falls with its relevance in the query
/// that was found, and never rises with that in the query that was asked for.
pub proof fn law_weight_is_monotone(g: Arithmetic, n1: u8, n2: u8, q1: Score, q2: Score)
    requires
        keeps_order(g),
        n1 <= n2,
        is_amount(q1),
        is_amount(q2),
        zero().below(q2),
        at_most(q2, q1),
    ensures
        at_most(weight(g, true, relevance(g, n1), q1), weight(g, true, relevance(g, n2), q2)),
{
    lemma_relevance_grows(g, n1, n2);
    let r1 = relevance(g, n1);
    let r2 = relevance(g, n2);
    let top = g(FloatOp::Over(q1, q1));
    let one = g(FloatOp::Over(q2, q2));
    assert(top == score(ONE) && one == score(ONE));
    if r1.below(q1) {
        let x = g(FloatOp::Over(r1, q1));
        assert(at_most(x, top));
        if r2.below(q2) {
            let y = g(FloatOp::Over(r1, q2));
            let z = g(FloatOp::Over(r2, q2));
            assert(at_most(x, y));
            assert(at_most(y, z));
        }
    }
}

/// The distance by word vectors never falls when the keyword distance grows, if
/// both the missing and the excess words have one with a vector.
pub proof fn law_distance_grows_with_keyword_distance(
    g: Arithmetic,
    v: VectorReadings,
    query_len: nat,
    cand_len: nat,
    match_len: nat,
    missing_len: nat,
    excess_len: nat,
    k1: Score,
    k2: Score,
)
    requires
        keeps_order(g),
        v.counts.nf_miss < missing_len,
        v.counts.nf_excs < excess_len,
        at_most(zero(), v.excess_missing),
        at_most(zero(), v.missing_excess),
        at_most(zero(), v.shifted),
        at_most(zero(), k1),
        at_most(k1, k2),
    ensures
        ({
            let r1 = vector_distance(
                g,
                Some(v),
                query_len,
                cand_len,
                match_len,
                missing_len,
                excess_len,
                k1,
            );
            let r2 = vector_distance(
                g,
                Some(v),
                query_len,
                cand_len,
                match_len,
                missing_len,
                excess_len,
                k2,
            );
            r1 is Some && r2 is Some && at_most(r1->0, r2->0)
        }),
{
    if v.counts.nf_match == match_len {
        let f1 = g(FloatOp::Plus(score(ONE), k1));
        let f2 = g(FloatOp::Plus(score(ONE), k2));
        assert(at_most(f1, f2));
        assert(at_most(score(ONE), f1) && at_most(score(ONE), f2));
        let x = g(FloatOp::Times(v.excess_missing, f1));
        let y = g(FloatOp::Times(v.excess_missing, f2));
        if is_indefinite(v.excess_missing, f2) {
            assert(y.is_nan());
            assert(is_indefinite(v.excess_missing, f1) || at_most(zero(), x));
        } else {
            assert(!is_indefinite(v.excess_missing, f1));
            assert(at_most(x, y));
        }
    } else {
        let s = v.shifted;
        let thresh = score(tolerance(missing_len, excess_len));
        assert(is_amount(thresh));
        let beyond = g(FloatOp::Minus(v.missing_excess, thresh));
        assert(!beyond.is_nan());
        let apart = zero().larger(beyond);
        assert(at_most(zero(), apart));
        let less = g(FloatOp::Times(score(DISCOUNT), s));
        let same = g(FloatOp::Times(score(ONE), s));
        let more = g(FloatOp::Times(score(PENALTY), s));
        assert(at_most(zero(), less));
        assert(at_most(less, same) && at_most(same, more));
        assert(at_most(less, s) && at_most(s, more) && at_most(less, more));
        let x = g(FloatOp::Plus(less, apart));
        let y = g(FloatOp::Plus(s, apart));
        let z = g(FloatOp::Plus(more, apart));
        assert(at_most(x, y) && at_most(y, z) && at_most(x, z));
    }
}

/// All relevances are amounts.
pub open spec fn are_amounts(rels: Seq<Score>) -> bool {
    forall|i: int| 0 <= i < rels.len() ==> is_amount(#[trigger] rels[i])
}

/// All relevances are above zero.
pub open spec fn are_above_zero(rels: Seq<Score>) -> bool {
    forall|i: int| 0 <= i < rels.len() ==> zero().below(#[trigger] rels[i])
}

/// A weight by tf-idf is not below zero and not above one.
proof fn lemma_weight_is_a_share(g: Arithmetic, percent: u8, asked: Score)
    requires
        keeps_order(g),
        is_amount(asked),
        zero().below(asked),
    ensures
        at_most(zero(), weight(g, true, relevance(g, percent), asked)),
        at_most(weight(g, true, relevance(g, percent), asked), score(ONE)),
{
    lemma_relevance_grows(g, percent, percent);
    let found = relevance(g, percent);
    assert(g(FloatOp::Over(asked, asked)) == score(ONE));
    let share = g(FloatOp::Over(found.smaller(asked), asked));
    assert(at_most(found.smaller(asked), asked));
    assert(at_most(share, g(FloatOp::Over(asked, asked))));
}

/// With tf-idf, the weight of every row of a walk is not below zero and not above one.
proof fn lemma_row_weighs_a_share<'a, U: Fn(u64) -> (u64, u64)>(
    index: Qpick<'a>,
    g: Arithmetic,
    q: Numbering,
    walk: Walk,
    parsed: ParsedQuery,
    unpair: U,
    j: int,
)
    requires
        keeps_order(g),
        are_amounts(parsed.trs@),
        are_above_zero(parsed.trs@),
        walk.order.len() == walk.buckets.len(),
        forall|k: int|
            0 <= k < walk.order.len() ==> index.visit_fits(
                walk.order[k],
                #[trigger] walk.buckets[k],
                parsed,
                walk.shard_ids,
                unpair,
            ),
        0 <= j < index.all_rows(g, q, walk, parsed, true).len(),
    ensures
        at_most(zero(), index.all_rows(g, q, walk, parsed, true)[j].weight_rel),
        at_most(index.all_rows(g, q, walk, parsed, true)[j].weight_rel, score(ONE)),
{
    let (k, at) = lemma_row_is_of_a_visit(index, g, q, walk, parsed, true, walk.order.len(), j);
    let shard = walk.order[k];
    assert(index.visit_fits(shard, walk.buckets[k], parsed, walk.shard_ids, unpair));
    let asked = index.asked_of(parsed.ngrams@, walk.shard_ids, shard);
    law_rows_are_of_the_ngrams(
        g,
        q,
        asked,
        walk.buckets[k],
        parsed.trs@,
        index.shards@[shard as int].shard@,
        index.id_size,
        index.shard_num,
        true,
        asked.len(),
        at,
    );
    let row = index.all_rows(g, q, walk, parsed, true)[j];
    let percent = choose|percent: u8| row.ngram_rel == #[trigger] relevance(g, percent);
    lemma_weight_is_a_share(g, percent, parsed.trs@[row.ngram_idx as int]);
}

/// No word counts for more in the first list than in the second, where it counts
/// for nothing or for its full relevance.
pub open spec fn counts_for_less(
    g: Arithmetic,
    part: Seq<Score>,
    full: Seq<Score>,
    wrs: Seq<Score>,
) -> bool {
    &&& part.len() == full.len()
    &&& forall|w: int|
        #![trigger part[w]]
        #![trigger full[w]]
        0 <= w < part.len() ==> {
            &&& at_most(zero(), part[w])
            &&& at_most(part[w], full[w])
            &&& full[w].same(zero()) || (w < wrs.len() && full[w] == g(
                FloatOp::Times(wrs[w], score(ONE)),
            ))
        }
}

/// Tallied with their weights on one walk, the words of no query count for more than
/// in full on another.
proof fn lemma_tally_counts_for_less<'a, S: Fn(&String, u32) -> u32, U: Fn(u64) -> (u64, u64)>(
    index: Qpick<'a>,
    g: Arithmetic,
    q: Numbering,
    wa: Walk,
    wb: Walk,
    pa: ParsedQuery,
    pb: ParsedQuery,
    shard_of: S,
    unpair: U,
    p: Placing,
    u: Unpairing,
    id: u64,
)
    requires
        keeps_order(g),
        are_amounts(pa.wrs@),
        are_amounts(pa.trs@),
        are_above_zero(pa.trs@),
        are_walks(index, index, wa, wb, pa, pb, shard_of, unpair),
        assigns(shard_of, p),
        splits(unpair, u),
        walk_can_tally(index, g, q, wa, pa, true),
        walk_can_tally(index, g, q, wb, pb, false),
        walk_tally(index, g, q, wa, pa, true).contains_key(id),
    ensures
        walk_tally(index, g, q, wb, pb, false).contains_key(id),
        counts_for_less(
            g,
            walk_tally(index, g, q, wa, pa, true)[id],
            walk_tally(index, g, q, wb, pb, false)[id],
            pa.wrs@,
        ),
{
    let both = (true, false);
    lemma_query_has_twin(
        index,
        index,
        g,
        q,
        wa,
        wb,
        pa,
        pb,
        both,
        shard_of,
        unpair,
        p,
        u,
        id,
    );
    lemma_walk_rows_weigh_one(index, g, q, wb, pb, wb.order.len());
    let x = index.all_rows(g, q, wa, pa, true);
    let y = index.all_rows(g, q, wb, pb, false);
    let ids_a = by_text(pa.ngrams_ids@);
    let ids_b = by_text(pb.ngrams_ids@);
    let part = walk_tally(index, g, q, wa, pa, true)[id];
    let full = walk_tally(index, g, q, wb, pb, false)[id];
    let words = pa.words@.len();
    let wrs = pa.wrs@;
    assert(pa@.words.len() == pa.words@.len() && pb@.words.len() == pb.words@.len());
    lemma_tally_has_words(g, x, ids_a, wrs, words, x.len(), id);
    lemma_tally_has_words(g, y, ids_b, wrs, words, y.len(), id);
    assert forall|w: int|
        #![trigger part[w]]
        #![trigger full[w]]
        0 <= w < part.len() implies at_most(zero(), part[w]) && at_most(part[w], full[w]) && (
    full[w].same(zero()) || (w < wrs.len() && full[w] == g(
        FloatOp::Times(wrs[w], score(ONE)),
    ))) by {
        law_word_counts_for_a_row_that_covers_it(g, x, ids_a, wrs, words, x.len(), id, w);
        law_word_counts_in_full_exactly_if_covered(g, y, ids_b, wrs, words, y.len(), id, w);
        let top = g(FloatOp::Times(wrs[w], score(ONE)));
        if w < wrs.len() {
            assert(is_amount(wrs[w]) && is_amount(score(ONE)));
            assert(at_most(zero(), top));
        }
        if part[w] != zero() {
            let j = choose|j: int|
                {
                    &&& 0 <= j < x.len()
                    &&& #[trigger] covers_word(x, ids_a, id, w, j)
                    &&& w < wrs.len()
                    &&& part[w] == g(FloatOp::Times(wrs[w], x[j].weight_rel))
                };
            lemma_row_weighs_a_share(index, g, q, wa, pa, unpair, j);
            lemma_covered_has_twin(
                index,
                index,
                g,
                q,
                wa,
                wb,
                pa,
                pb,
                both,
                shard_of,
                unpair,
                p,
                u,
                id,
                w,
                j,
            );
            assert(is_amount(x[j].weight_rel));
            assert(at_most(part[w], top));
        }
    }
}

/// What counts for less adds up to less.
proof fn lemma_total_is_less(
    g: Arithmetic,
    part: Seq<Score>,
    full: Seq<Score>,
    wrs: Seq<Score>,
    n: nat,
)
    requires
        keeps_order(g),
        counts_for_less(g, part, full, wrs),
        n <= part.len(),
    ensures
        at_most(zero(), total(g, part, n)),
        at_most(total(g, part, n), total(g, full, n)),
    decreases n,
{
    if n > 0 {
        let m = (n - 1) as nat;
        lemma_total_is_less(g, part, full, wrs, m);
        let (p, f) = (part[m as int], full[m as int]);
        assert(at_most(p, f));
        let x = g(FloatOp::Plus(total(g, part, m), p));
        let y = g(FloatOp::Plus(total(g, part, m), f));
        let z = g(FloatOp::Plus(total(g, full, m), f));
        assert(at_most(x, y) && at_most(y, z));
    }
}

/// Weighing by tf-idf only drops matches, and never adds one: of two searches for the
/// same, the second of which gives all its matches, every query that the one with
/// tf-idf finds is found by the one without.
pub proof fn law_tfidf_only_drops_matches<'a, P, S, F, U, Q, E, V>(
    index: Qpick<'a>,
    with: Trace,
    without: Trace,
    hooks: Hooks<P, S, F, U, Q, E, V>,
    f: Functions,
    pa: ParsedQuery,
    pb: ParsedQuery,
    count: Option<usize>,
    r1: Seq<SearchResult>,
    r0: Seq<SearchResult>,
    i: int,
) where
    P: Fn(&str) -> ParsedQuery,
    S: Fn(&String, u32) -> u32,
    F: Fn(FloatOp) -> Score,
    U: Fn(u64) -> (u64, u64),
    Q: Fn(u64, u8, usize) -> u64,
    E: Fn(&String, &FnvHashSet<String>, &FnvHashMap<String, String>) -> MatchedWords,
    V: Fn(&Vec<String>, &MatchedWords) -> Option<VectorReadings>,

    requires
        hooks.compute(f),
        keeps_order(f.float),
        same_texts(pa, pb),
        are_amounts(pa.wrs@),
        are_amounts(pa.trs@),
        are_above_zero(pa.trs@),
        index.explains(with, hooks, pa, count, true, r1),
        index.explains(without, hooks, pb, count, false, r0),
        without.matches.len() <= wanted(count),
        0 <= i < r1.len(),
    ensures
        finds_query(r0, r1[i].query_id),
{
    broadcast use vstd::seq_lib::group_to_multiset_ensures;

    let (g, q) = (f.float, f.number);
    assert(computes(hooks.float, g) && numbers(hooks.number, q));
    let rows1 = index.all_rows(g, q, with.walk, pa, true);
    let rows0 = index.all_rows(g, q, without.walk, pb, false);
    let must = pa.must_have@;
    assert(rows_fit(g, rows1, pa) && are_row_matches(g, rows1, with.matches, pa));
    assert(rows_fit(g, rows0, pb) && are_row_matches(g, rows0, without.matches, pb));
    let table1 = walk_tally(index, g, q, with.walk, pa, true);
    let table0 = walk_tally(index, g, q, without.walk, pb, false);
    let one = r1[i];
    assert(with.ranked[i] == one);
    assert(with.ranked.contains(one));
    assert(with.ranked.to_multiset().count(one) > 0);
    assert(with.results.contains(one));
    let k = choose|k: int| 0 <= k < with.results.len() && with.results[k] == one;
    assert(with.results[k] == one);
    let m1 = with.matches[k];
    assert(with.matches.contains(m1));
    let id = m1.query_id;
    assert(is_match(g, m1, table1, must));
    assert(are_walks(
        index,
        index,
        with.walk,
        without.walk,
        pa,
        pb,
        hooks.shard_of,
        hooks.unpair,
    ));
    lemma_tally_counts_for_less(
        index,
        g,
        q,
        with.walk,
        without.walk,
        pa,
        pb,
        hooks.shard_of,
        hooks.unpair,
        f.shard_of,
        f.unpair,
        id,
    );
    let part = table1[id];
    let full = table0[id];
    lemma_total_is_less(g, part, full, pa.wrs@, part.len());
    let left1 = g(FloatOp::Minus(score(ONE), total(g, part, part.len())));
    let left0 = g(FloatOp::Minus(score(ONE), total(g, full, full.len())));
    assert(at_most(left0, left1));
    let m0 = KeywordMatchResult { query_id: id, dist: keyword_distance(g, full) };
    assert(at_most(m0.dist, m1.dist));
    assert(m0.dist.below(score(DIST_THRESH)));
    assert(has_all(full, must)) by {
        assert forall|j: int| 0 <= j < must.len() implies zero().below(
            full[(#[trigger] must[j]) as int],
        ) by {
            assert(has_first(part, must, j));
            assert(can_look(part, must));
            assert(must[j] < part.len());
            assert(at_most(part[must[j] as int], full[must[j] as int]));
        }
    }
    assert(is_match(g, m0, table0, must));
    assert(without.matches.contains(m0));
    let j = choose|j: int| 0 <= j < without.matches.len() && without.matches[j] == m0;
    assert(without.results[j].query_id == id);
    let found = without.results[j];
    assert(without.results.contains(found));
    assert(without.results.to_multiset().count(found) > 0);
    assert(without.ranked.contains(found));
    let l = choose|l: int| 0 <= l < without.ranked.len() && without.ranked[l] == found;
    assert(without.ranked.len() == without.results.len()) by {
        assert(without.ranked.len() == without.ranked.to_multiset().len());
        assert(without.results.len() == without.results.to_multiset().len());
    }
    assert(r0[l] == found);
}

/// One of the results is of the query.
pub open spec fn finds_query(r: Seq<SearchResult>, id: u64) -> bool {
    exists|j: int| 0 <= j < r.len() && (#[trigger] r[j]).query_id == id
}

/// Of two calls of `get_matches` for the same, one with tf-idf and one without, every
/// query that the first finds is found by the second, if that one gives all its
/// matches.
pub proof fn law_tfidf_only_drops_results<'a, P, S, F, U, Q, E, V>(
    index: Qpick<'a>,
    hooks: Hooks<P, S, F, U, Q, E, V>,
    f: Functions,
    pa: ParsedQuery,
    pb: ParsedQuery,
    count: Option<usize>,
    r1: Seq<SearchResult>,
    r0: Seq<SearchResult>,
    i: int,
) where
    P: Fn(&str) -> ParsedQuery,
    S: Fn(&String, u32) -> u32,
    F: Fn(FloatOp) -> Score,
    U: Fn(u64) -> (u64, u64),
    Q: Fn(u64, u8, usize) -> u64,
    E: Fn(&String, &FnvHashSet<String>, &FnvHashMap<String, String>) -> MatchedWords,
    V: Fn(&Vec<String>, &MatchedWords) -> Option<VectorReadings>,

    requires
        hooks.compute(f),
        keeps_order(f.float),
        same_texts(pa, pb),
        are_amounts(pa.wrs@),
        are_amounts(pa.trs@),
        are_above_zero(pa.trs@),
        index.finds(hooks, pa, count, true, r1),
        index.finds(hooks, pb, count, false, r0),
        forall|trace: Trace| #[trigger]
            index.explains(trace, hooks, pb, count, false, r0) ==> trace.matches.len() <= wanted(
                count,
            ),
        0 <= i < r1.len(),
    ensures
        finds_query(r0, r1[i].query_id),
{
    let with = choose|t: Trace| #[trigger] index.explains(t, hooks, pa, count, true, r1);
    let without = choose|t: Trace| #[trigger] index.explains(t, hooks, pb, count, false, r0);
    law_tfidf_only_drops_matches(index, with, without, hooks, f, pa, pb, count, r1, r0, i);
}

/// Words in excess never raise a keyword distance: it stays an amount that is not
/// above the one that it was.
pub proof fn law_lowered_distance_is_not_above(
    g: Arithmetic,
    dist: Score,
    excess: Seq<String>,
    index: Map<Seq<char>, usize>,
    wrs: Seq<Score>,
    n: nat,
)
    requires
        keeps_order(g),
        is_amount(dist),
        are_amounts(wrs),
        excess_fits(excess, index, wrs.len()),
        n <= excess.len(),
    ensures
        is_amount(lowered(g, dist, excess, index, wrs, n)),
        at_most(lowered(g, dist, excess, index, wrs, n), dist),
    decreases n,
{
    if n > 0 {
        law_lowered_distance_is_not_above(g, dist, excess, index, wrs, (n - 1) as nat);
        let ahead = lowered(g, dist, excess, index, wrs, (n - 1) as nat);
        let text = excess[n - 1]@;
        if index.contains_key(text) {
            let w = wrs[index[text] as int];
            assert(is_amount(w));
            let part = g(FloatOp::Times(dist, w));
            assert(at_most(zero(), part));
            assert(at_most(g(FloatOp::Minus(ahead, part)), ahead));
        }
    }
}

/// The keyword distance of every result is below the threshold, as that of its match
/// was, and not below zero.
pub proof fn law_keyword_distances_stay_below_the_threshold<'a, P, S, F, U, Q, E, V>(
    index: Qpick<'a>,
    trace: Trace,
    hooks: Hooks<P, S, F, U, Q, E, V>,
    parsed: ParsedQuery,
    count: Option<usize>,
    with_tfidf: bool,
    r: Seq<SearchResult>,
    g: Arithmetic,
    q: Numbering,
    i: int,
) where
    P: Fn(&str) -> ParsedQuery,
    S: Fn(&String, u32) -> u32,
    F: Fn(FloatOp) -> Score,
    U: Fn(u64) -> (u64, u64),
    Q: Fn(u64, u8, usize) -> u64,
    E: Fn(&String, &FnvHashSet<String>, &FnvHashMap<String, String>) -> MatchedWords,
    V: Fn(&Vec<String>, &MatchedWords) -> Option<VectorReadings>,

    requires
        keeps_order(g),
        computes(hooks.float, g),
        numbers(hooks.number, q),
        are_amounts(parsed.wrs@),
        index.explains(trace, hooks, parsed, count, with_tfidf, r),
        0 <= i < r.len(),
    ensures
        r[i].dist.keyword.below(score(DIST_THRESH)),
        at_most(zero(), r[i].dist.keyword),
{
    broadcast use vstd::seq_lib::group_to_multiset_ensures;

    let rows = index.all_rows(g, q, trace.walk, parsed, with_tfidf);
    assert(are_row_matches(g, rows, trace.matches, parsed));
    assert(index.are_results(g, rows, trace, parsed));
    let one = r[i];
    assert(trace.ranked[i] == one);
    assert(trace.ranked.contains(one));
    assert(trace.ranked.to_multiset().count(one) > 0);
    assert(trace.results.contains(one));
    let k = choose|k: int| 0 <= k < trace.results.len() && trace.results[k] == one;
    assert(trace.results[k] == one);
    let m = trace.matches[k];
    assert(trace.matches.contains(m));
    let table = walk_tally(index, g, q, trace.walk, parsed, with_tfidf);
    assert(is_match(g, m, table, parsed.must_have@));
    law_keyword_distance_is_not_negative(g, table[m.query_id]);
    let found = trace.found[k];
    law_lowered_distance_is_not_above(
        g,
        m.dist,
        found.excess_words@,
        by_text(trace.tables.index@),
        parsed.wrs@,
        found.excess_words@.len(),
    );
}

} // verus!
