//! What bounds the measures of a search.
//!
//! The laws here hold of every arithmetic that keeps numbers in order and leaves them
//! as they are with zero and one, as that of IEEE 754 does.
use crate::cosine::{vector_distance, VectorReadings};
use crate::matching::{keyword_distance, total};
use crate::monotone::{at_most, is_amount, keeps_order};
use crate::score::{score, zero, Arithmetic, FloatOp, Score, ONE, TWO};
use crate::search::lowered;
use crate::shard::weight;
use vstd::prelude::*;

verus! {

/// With zero and one the arithmetic is exact: an amount plus zero, times one or by one
/// is the amount; an amount times zero, and zero by a number above zero, is zero; and no,
/// one and two wholes are the numbers zero, one, and one plus one.
pub open spec fn keeps_units(g: Arithmetic) -> bool {
    &&& forall|a: Score, z: Score|
        is_amount(a) && z.same(zero()) ==> (#[trigger] g(FloatOp::Plus(a, z))).same(a)
    &&& forall|a: Score, z: Score|
        is_amount(a) && z.same(zero()) ==> (#[trigger] g(FloatOp::Plus(z, a))).same(a)
    &&& forall|a: Score| is_amount(a) ==> (#[trigger] g(FloatOp::Times(a, score(ONE)))).same(a)
    &&& forall|a: Score| is_amount(a) ==> (#[trigger] g(FloatOp::Over(a, score(ONE)))).same(a)
    &&& forall|a: Score, z: Score|
        is_amount(a) && z.same(zero()) ==> (#[trigger] g(FloatOp::Times(a, z))).same(zero())
    &&& forall|a: Score, z: Score|
        is_amount(a) && z.same(zero()) ==> (#[trigger] g(FloatOp::Times(z, a))).same(zero())
    &&& forall|a: Score, z: Score|
        is_amount(a) && zero().below(a) && z.same(zero()) ==> (#[trigger] g(
            FloatOp::Over(z, a),
        )).same(zero())
    &&& g(FloatOp::Whole(0)).same(zero())
    &&& g(FloatOp::Whole(1)) == score(ONE)
    &&& g(FloatOp::Plus(score(ONE), score(ONE))) == score(TWO)
}

/// With tf-idf, an ngram that is at least as relevant in the query that was found as in
/// the one that was asked for weighs one, for every relevance above zero.
pub proof fn law_relevant_ngram_weighs_one(g: Arithmetic, found: Score, asked: Score)
    requires
        keeps_order(g),
        is_amount(asked),
        zero().below(asked),
        at_most(asked, found),
    ensures
        weight(g, true, found, asked) == score(0x3f80_0000),
{
    assert(g(FloatOp::Over(asked, asked)) == score(ONE));
}

/// With tf-idf, a weight is not above one, and it is above zero whenever the relevance
/// that was found is; without relevance there is no weight.
pub proof fn law_weight_is_above_zero_with_the_relevance(
    g: Arithmetic,
    found: Score,
    asked: Score,
)
    requires
        keeps_order(g),
        keeps_units(g),
        is_amount(found),
        is_amount(asked),
        zero().below(asked),
        at_most(asked, score(ONE)),
    ensures
        at_most(weight(g, true, found, asked), score(0x3f80_0000)),
        zero().below(weight(g, true, found, asked)) <==> zero().below(found),
        // An ngram never weighs less than it is relevant, or than it was asked for.
        at_most(found, weight(g, true, found, asked)) || at_most(
            asked,
            weight(g, true, found, asked),
        ),
{
    let least = g(FloatOp::Over(found, score(ONE)));
    let w = g(FloatOp::Over(found, asked));
    let top = g(FloatOp::Over(asked, asked));
    assert(least.same(found));
    assert(at_most(least, w));
    assert(top == score(ONE));
    if found.below(asked) {
        assert(at_most(w, top));
        if found.same(zero()) {
            assert(w.same(zero()));
        }
    }
}

/// Every entry counts: a keyword distance never rises when an entry does, whichever it
/// is, and how many there are.
pub proof fn law_every_entry_lowers_the_keyword_distance(
    g: Arithmetic,
    a: Seq<Score>,
    b: Seq<Score>,
)
    requires
        keeps_order(g),
        a.len() == b.len(),
        forall|i: int|
            #![trigger a[i]]
            0 <= i < a.len() ==> at_most(zero(), a[i]) && at_most(a[i], b[i]),
    ensures
        at_most(keyword_distance(g, b), keyword_distance(g, a)),
{
    lemma_sums_in_order(g, a, b, a.len());
    let x = g(FloatOp::Minus(score(ONE), total(g, a, a.len())));
    let y = g(FloatOp::Minus(score(ONE), total(g, b, b.len())));
    assert(at_most(y, x));
}

/// Sums of scores that are not below zero are in order.
proof fn lemma_sums_in_order(g: Arithmetic, a: Seq<Score>, b: Seq<Score>, n: nat)
    requires
        keeps_order(g),
        n <= a.len(),
        a.len() == b.len(),
        forall|i: int|
            #![trigger a[i]]
            0 <= i < a.len() ==> at_most(zero(), a[i]) && at_most(a[i], b[i]),
    ensures
        at_most(zero(), total(g, a, n)),
        at_most(total(g, a, n), total(g, b, n)),
    decreases n,
{
    if n > 0 {
        let m = (n - 1) as nat;
        lemma_sums_in_order(g, a, b, m);
        let (s, t) = (total(g, a, m), total(g, b, m));
        assert(at_most(a[n - 1], b[n - 1]));
        let mixed = g(FloatOp::Plus(t, a[n - 1]));
        assert(at_most(g(FloatOp::Plus(s, a[n - 1])), mixed));
        assert(at_most(mixed, g(FloatOp::Plus(t, b[n - 1]))));
    }
}

/// Where a word of the one kind only, missing or in excess, has a vector, every word has
/// that is not of the other kind, and none is of the other kind, the distance is never
/// above the cosine distance of the whole queries.
pub proof fn law_whole_distance_is_not_above_the_cosine(
    g: Arithmetic,
    v: VectorReadings,
    query_len: nat,
    cand_len: nat,
    match_len: nat,
    missing_len: nat,
    excess_len: nat,
    k: Score,
)
    requires
        keeps_order(g),
        keeps_units(g),
        v.counts.nf_match == 0,
        v.counts.nf_miss == 0,
        v.counts.nf_excs == 0,
        match_len > 0,
        (missing_len == 0) != (excess_len == 0),
        missing_len + excess_len <= u64::MAX,
        v.nf_query != query_len,
        v.nf_cand != cand_len,
        is_amount(v.query_cand),
        at_most(v.query_cand, score(ONE)),
        is_amount(k),
        at_most(k, score(ONE)),
        zero().below(k) || zero().below(v.query_cand),
    ensures
        ({
            let r = vector_distance(
                g,
                Some(v),
                query_len,
                cand_len,
                match_len,
                missing_len,
                excess_len,
                k,
            );
            r is Some && at_most(zero(), r->0) && at_most(r->0, v.query_cand)
        }),
{
    let c = v.query_cand;
    let one = score(ONE);
    let nf = g(FloatOp::Whole(0));
    let nr = g(FloatOp::Whole((missing_len + excess_len) as u128));
    // Times a number of at most one.
    let unit = g(FloatOp::Times(c, one));
    assert(unit.same(c));
    assert(at_most(g(FloatOp::Times(c, k)), unit));
    assert(at_most(zero(), g(FloatOp::Times(c, k))));
    // Times the share of the keyword distance.
    let both = g(FloatOp::Plus(k, c));
    assert(at_most(both, score(TWO))) by {
        let x = g(FloatOp::Plus(one, c));
        let y = g(FloatOp::Plus(one, one));
        assert(at_most(both, x));
        assert(at_most(x, y));
    }
    assert(at_most(k, both)) by {
        let x = g(FloatOp::Plus(k, zero()));
        assert(x.same(k));
        assert(at_most(x, both));
    }
    assert(at_most(c, both)) by {
        let x = g(FloatOp::Plus(zero(), c));
        assert(x.same(c));
        assert(at_most(x, both));
    }
    assert(is_amount(both) && zero().below(both));
    let share = g(FloatOp::Over(k, both));
    assert(at_most(zero(), share));
    assert(at_most(share, one)) by {
        if zero().below(k) {
            let x = g(FloatOp::Over(k, k));
            assert(x == one);
            assert(at_most(share, x));
        } else {
            assert(k.same(zero()));
            assert(share.same(zero()));
        }
    }
    assert(at_most(g(FloatOp::Times(c, share)), unit));
    assert(at_most(zero(), g(FloatOp::Times(c, share))));
    // Nothing is added.
    assert(v.counts.nf_excs + v.counts.nf_match + v.counts.nf_miss == 0);
    assert(nf.same(zero()));
    assert(at_most(one, nr)) by {
        let x = g(FloatOp::Whole(1));
        assert(x == one);
        assert(at_most(x, nr));
    }
    let lost = g(FloatOp::Times(nf, k));
    assert(lost.same(zero()));
    let added = g(FloatOp::Over(lost, nr));
    assert(added.same(zero()));
    assert(g(FloatOp::Plus(c, added)).same(c));
}

/// Where the whole queries count, and are near by their keywords or else not close by
/// them, the distance never falls when their cosine distance grows.
pub proof fn law_whole_distance_grows_with_the_cosine(
    g: Arithmetic,
    v: VectorReadings,
    w: VectorReadings,
    query_len: nat,
    cand_len: nat,
    match_len: nat,
    missing_len: nat,
    excess_len: nat,
    k: Score,
)
    requires
        keeps_order(g),
        keeps_units(g),
        w.counts == v.counts,
        w.nf_query == v.nf_query,
        w.nf_cand == v.nf_cand,
        v.counts.nf_match < match_len,
        v.counts.nf_miss <= missing_len,
        v.counts.nf_excs <= excess_len,
        (v.counts.nf_miss == missing_len) != (v.counts.nf_excs == excess_len),
        match_len + missing_len + excess_len <= u64::MAX,
        v.nf_query != query_len,
        v.nf_cand != cand_len,
        is_amount(v.query_cand),
        is_amount(w.query_cand),
        at_most(v.query_cand, w.query_cand),
        is_amount(k),
        at_most(k, score(ONE)),
        // Near by their keywords, or not close by them.
        (missing_len + excess_len == 1 && k.below(score(0x3e99_999a))) || match_len < 2
            || match_len <= missing_len || match_len <= excess_len || !k.below(score(0x3ee6_6666)),
    ensures
        ({
            let r = vector_distance(
                g,
                Some(v),
                query_len,
                cand_len,
                match_len,
                missing_len,
                excess_len,
                k,
            );
            let s = vector_distance(
                g,
                Some(w),
                query_len,
                cand_len,
                match_len,
                missing_len,
                excess_len,
                k,
            );
            r is Some && s is Some && at_most(r->0, s->0)
        }),
{
    let (c, d) = (v.query_cand, w.query_cand);
    let one = score(ONE);
    assert(at_most(g(FloatOp::Times(c, k)), g(FloatOp::Times(d, k))));
    let n = v.counts.nf_excs + v.counts.nf_match + v.counts.nf_miss;
    let nf = g(FloatOp::Whole(n as u128));
    let nr = g(FloatOp::Whole((missing_len + excess_len) as u128));
    assert(is_amount(nf) && is_amount(nr));
    assert(at_most(one, nr)) by {
        let x = g(FloatOp::Whole(1));
        assert(x == one);
        assert(at_most(x, nr));
    }
    let lost = g(FloatOp::Times(nf, k));
    assert(is_amount(lost)) by {
        let x = g(FloatOp::Times(nf, one));
        assert(x.same(nf));
        assert(at_most(lost, x));
        assert(at_most(zero(), lost));
    }
    let added = g(FloatOp::Over(lost, nr));
    assert(at_most(zero(), added));
    assert(at_most(g(FloatOp::Plus(c, added)), g(FloatOp::Plus(d, added))));
}

/// A word in excess that the index finds never raises the distance, and never lowers it
/// below zero.
pub proof fn law_found_excess_word_never_raises(
    g: Arithmetic,
    dist: Score,
    excess: Seq<String>,
    index: Map<Seq<char>, usize>,
    wrs: Seq<Score>,
    n: nat,
)
    requires
        keeps_order(g),
        keeps_units(g),
        n < excess.len(),
        is_amount(dist),
        index.contains_key(excess[n as int]@),
        is_amount(wrs[index[excess[n as int]@] as int]),
        is_amount(lowered(g, dist, excess, index, wrs, n)),
    ensures
        at_most(
            lowered(g, dist, excess, index, wrs, n + 1),
            lowered(g, dist, excess, index, wrs, n),
        ),
        at_most(zero(), lowered(g, dist, excess, index, wrs, n + 1)),
{
    let before = lowered(g, dist, excess, index, wrs, n);
    let w = wrs[index[excess[n as int]@] as int];
    let part = g(FloatOp::Times(dist, w));
    assert(at_most(zero(), part));
    assert(at_most(g(FloatOp::Minus(before, part)), before));
}

} // verus!
