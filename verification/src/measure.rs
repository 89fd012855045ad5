//! What the measures of a search are, for every arithmetic.
//!
//! The laws here say of each measure what it is in terms of its own inputs, and how
//! two of its values relate.
use crate::cosine::{route, vector_distance, VectorCounts, VectorReadings};
use crate::index::{frequencies, inverse_frequency, weighs};
use crate::matching::{keyword_distance, total};
use crate::score::{computes, score, zero, Arithmetic, FloatOp, Score};
use crate::search::{lowered, shared};
use crate::shard::{relevance, weight};
use vstd::prelude::*;

verus! {

/// With tf-idf, an ngram weighs its relevance in the query that was found by that in
/// the query that was asked for; if it is at least as relevant there, it weighs the
/// latter by itself. Without tf-idf it weighs one.
pub proof fn law_weight_is_a_quotient(g: Arithmetic, found: Score, asked: Score)
    ensures
        found.below(asked) ==> weight(g, true, found, asked) == g(FloatOp::Over(found, asked)),
        !found.below(asked) ==> weight(g, true, found, asked) == g(FloatOp::Over(asked, asked)),
        weight(g, false, found, asked) == score(0x3f80_0000),
{
}

/// Beyond the relevance that was asked for, more relevance changes no weight.
pub proof fn law_weight_has_a_top(g: Arithmetic, a: Score, b: Score, asked: Score)
    requires
        !a.below(asked),
        !b.below(asked),
    ensures
        weight(g, true, a, asked) == weight(g, true, b, asked),
{
}

/// A relevance is the percentage by a hundred.
pub proof fn law_relevance_is_a_hundredth(g: Arithmetic, percent: u8)
    ensures
        relevance(g, percent) == g(
            FloatOp::Over(g(FloatOp::Whole(percent as u128)), score(0x42c8_0000)),
        ),
{
}

/// The sum of the first scores of a list is the fold of addition over them.
proof fn lemma_total_folds(g: Arithmetic, rels: Seq<Score>, n: nat)
    requires
        n <= rels.len(),
    ensures
        total(g, rels, n) == rels.take(n as int).fold_left(
            zero(),
            |sum: Score, x: Score| g(FloatOp::Plus(sum, x)),
        ),
    decreases n,
{
    let part = rels.take(n as int);
    if n > 0 {
        lemma_total_folds(g, rels, (n - 1) as nat);
        assert(part.drop_last() =~= rels.take(n - 1));
        assert(part.last() == rels[n - 1]);
    }
}

/// Every word counts: the keyword distance is one less the sum of all entries, from
/// the first to the last, but not less than zero.
pub proof fn law_every_word_counts(g: Arithmetic, rels: Seq<Score>)
    ensures
        ({
            let sum = rels.fold_left(
                Score { bits: 0 },
                |sum: Score, x: Score| g(FloatOp::Plus(sum, x)),
            );
            let left = g(FloatOp::Minus(score(0x3f80_0000), sum));
            keyword_distance(g, rels) == (if zero().below(left) {
                left
            } else {
                Score { bits: 0 }
            })
        }),
{
    lemma_total_folds(g, rels, rels.len());
    assert(rels.take(rels.len() as int) =~= rels);
}

/// How a distance is lowered depends on the words in excess one by one.
proof fn lemma_lowered_ahead(
    g: Arithmetic,
    dist: Score,
    x: Seq<String>,
    y: Seq<String>,
    index: Map<Seq<char>, usize>,
    wrs: Seq<Score>,
    n: nat,
)
    requires
        n <= x.len(),
        n <= y.len(),
        forall|i: int| 0 <= i < n ==> (#[trigger] x[i])@ == y[i]@,
    ensures
        lowered(g, dist, x, index, wrs, n) == lowered(g, dist, y, index, wrs, n),
    decreases n,
{
    if n > 0 {
        lemma_lowered_ahead(g, dist, x, y, index, wrs, (n - 1) as nat);
        assert(x[n - 1]@ == y[n - 1]@);
    }
}

/// Without words in excess the distance stays. One more word in excess lowers it by the
/// first distance times the relevance of the word that the index finds it as, whichever
/// that is, but not below zero; a word that the index does not find changes nothing.
pub proof fn law_one_more_excess_word(
    g: Arithmetic,
    dist: Score,
    excess: Seq<String>,
    word: String,
    index: Map<Seq<char>, usize>,
    wrs: Seq<Score>,
)
    ensures
        lowered(g, dist, Seq::empty(), index, wrs, 0) == dist,
        ({
            let before = lowered(g, dist, excess, index, wrs, excess.len());
            let after = lowered(g, dist, excess.push(word), index, wrs, excess.len() + 1);
            &&& !index.contains_key(word@) ==> after == before
            &&& index.contains_key(word@) ==> {
                let less = g(
                    FloatOp::Minus(before, g(FloatOp::Times(dist, wrs[index[word@] as int]))),
                );
                after == (if zero().below(less) {
                    less
                } else {
                    Score { bits: 0 }
                })
            }
        }),
{
    lemma_lowered_ahead(g, dist, excess, excess.push(word), index, wrs, excess.len());
    assert(excess.push(word)[excess.len() as int] == word);
}

/// With one word in excess the distance is what is left of it after its share by the
/// relevance of the word that the index finds, but not less than zero.
pub proof fn law_single_excess_word(
    g: Arithmetic,
    dist: Score,
    word: String,
    index: Map<Seq<char>, usize>,
    wrs: Seq<Score>,
)
    requires
        index.contains_key(word@),
    ensures
        ({
            let less = g(FloatOp::Minus(dist, g(FloatOp::Times(dist, wrs[index[word@] as int]))));
            lowered(g, dist, seq![word], index, wrs, 1) == (if zero().below(less) {
                less
            } else {
                Score { bits: 0 }
            })
        }),
{
    assert(seq![word][0] == word);
    reveal_with_fuel(lowered, 2);
}

/// The second index and relevances are the first ones with the words numbered anew.
pub open spec fn are_renumbered(
    index: Map<Seq<char>, usize>,
    wrs: Seq<Score>,
    index2: Map<Seq<char>, usize>,
    wrs2: Seq<Score>,
) -> bool {
    &&& index.dom() == index2.dom()
    &&& forall|text: Seq<char>| #[trigger]
        index.contains_key(text) ==> wrs[index[text] as int] == wrs2[index2[text] as int]
}

/// Numbering the words of the query anew, together with their relevances, changes no
/// lowered distance.
pub proof fn law_numbers_of_words_do_not_lower(
    g: Arithmetic,
    dist: Score,
    excess: Seq<String>,
    index: Map<Seq<char>, usize>,
    wrs: Seq<Score>,
    index2: Map<Seq<char>, usize>,
    wrs2: Seq<Score>,
    n: nat,
)
    requires
        n <= excess.len(),
        are_renumbered(index, wrs, index2, wrs2),
    ensures
        lowered(g, dist, excess, index, wrs, n) == lowered(g, dist, excess, index2, wrs2, n),
    decreases n,
{
    if n > 0 {
        law_numbers_of_words_do_not_lower(
            g,
            dist,
            excess,
            index,
            wrs,
            index2,
            wrs2,
            (n - 1) as nat,
        );
        let text = excess[n - 1]@;
        assert(index.dom().contains(text) == index2.dom().contains(text));
    }
}

/// What words are shared depends on the words of the candidate one by one.
pub proof fn lemma_shared_ahead(
    g: Arithmetic,
    index: Map<Seq<char>, usize>,
    words: nat,
    wrs: Seq<Score>,
    x: Seq<String>,
    y: Seq<String>,
    a: Seq<Score>,
    b: Seq<Score>,
    n: nat,
)
    requires
        n <= x.len(),
        n <= y.len(),
        forall|i: int| 0 <= i < n ==> (#[trigger] x[i])@ == y[i]@,
        forall|i: int| 0 <= i < n ==> a[i] == b[i],
    ensures
        shared(g, index, words, wrs, x, a, n) == shared(g, index, words, wrs, y, b, n),
    decreases n,
{
    if n > 0 {
        lemma_shared_ahead(g, index, words, wrs, x, y, a, b, (n - 1) as nat);
        assert(x[n - 1]@ == y[n - 1]@);
    }
}

/// A candidate without words shares nothing. One more word of a candidate adds the
/// smaller of its own relevance and that of the word that the index finds it as to what
/// that word counts for, whatever these are, and changes no other word; a word that the
/// index does not find changes nothing.
pub proof fn law_one_more_candidate_word(
    g: Arithmetic,
    index: Map<Seq<char>, usize>,
    words: nat,
    wrs: Seq<Score>,
    cand_words: Seq<String>,
    cand_wrs: Seq<Score>,
    word: String,
    rel: Score,
    w: int,
)
    requires
        cand_wrs.len() == cand_words.len(),
        forall|text: Seq<char>| #[trigger] index.contains_key(text) ==> index[text] < words,
        0 <= w < words,
    ensures
        shared(g, index, words, wrs, Seq::empty(), Seq::empty(), 0) == Seq::new(
            words,
            |i: int| Score { bits: 0 },
        ),
        ({
            let before = shared(g, index, words, wrs, cand_words, cand_wrs, cand_words.len());
            let after = shared(
                g,
                index,
                words,
                wrs,
                cand_words.push(word),
                cand_wrs.push(rel),
                cand_words.len() + 1,
            );
            &&& after.len() == words
            &&& before.len() == words
            &&& !index.contains_key(word@) || index[word@] != w ==> after[w] == before[w]
            &&& index.contains_key(word@) && index[word@] == w ==> after[w] == g(
                FloatOp::Plus(
                    before[w],
                    if wrs[w].below(rel) {
                        wrs[w]
                    } else {
                        rel
                    },
                ),
            )
        }),
{
    let n = cand_words.len();
    let (x, a) = (cand_words.push(word), cand_wrs.push(rel));
    assert(shared(g, index, words, wrs, Seq::empty(), Seq::empty(), 0) =~= Seq::new(
        words,
        |i: int| Score { bits: 0 },
    ));
    lemma_shared_ahead(g, index, words, wrs, cand_words, x, cand_wrs, a, n);
    lemma_shared_has_words(g, index, words, wrs, x, a, n);
    assert(x[n as int] == word && a[n as int] == rel);
}

/// Every word of the query is counted.
pub proof fn lemma_shared_has_words(
    g: Arithmetic,
    index: Map<Seq<char>, usize>,
    words: nat,
    wrs: Seq<Score>,
    cand_words: Seq<String>,
    cand_wrs: Seq<Score>,
    n: nat,
)
    requires
        forall|text: Seq<char>| #[trigger] index.contains_key(text) ==> index[text] < words,
    ensures
        shared(g, index, words, wrs, cand_words, cand_wrs, n).len() == words,
    decreases n,
{
    if n > 0 {
        lemma_shared_has_words(g, index, words, wrs, cand_words, cand_wrs, (n - 1) as nat);
    }
}

/// Numbering the words of the query anew, together with their relevances, numbers anew
/// what they count for in a candidate, and changes nothing else: `to` gives the new
/// number of each word, and no two words the same.
pub proof fn law_numbers_of_words_do_not_count(
    g: Arithmetic,
    words: nat,
    index: Map<Seq<char>, usize>,
    wrs: Seq<Score>,
    index2: Map<Seq<char>, usize>,
    wrs2: Seq<Score>,
    to: spec_fn(int) -> int,
    cand_words: Seq<String>,
    cand_wrs: Seq<Score>,
    n: nat,
    w: int,
)
    requires
        index.dom() == index2.dom(),
        forall|text: Seq<char>| #[trigger]
            index.contains_key(text) ==> index[text] < words && index2[text] == to(
                index[text] as int,
            ),
        forall|i: int| 0 <= i < words ==> 0 <= #[trigger] to(i) < words && wrs2[to(i)] == wrs[i],
        forall|i: int, j: int|
            #![trigger to(i), to(j)]
            0 <= i < words && 0 <= j < words && to(i) == to(j) ==> i == j,
        n <= cand_words.len(),
        0 <= w < words,
    ensures
        shared(g, index2, words, wrs2, cand_words, cand_wrs, n)[to(w)] == shared(
            g,
            index,
            words,
            wrs,
            cand_words,
            cand_wrs,
            n,
        )[w],
    decreases n,
{
    assert(0 <= to(w) < words);
    if n > 0 {
        let m = (n - 1) as nat;
        assert forall|text: Seq<char>| #[trigger] index2.contains_key(text) implies index2[text]
            < words by {
            assert(index2.dom().contains(text));
            assert(index.contains_key(text));
        }
        lemma_shared_has_words(g, index, words, wrs, cand_words, cand_wrs, m);
        lemma_shared_has_words(g, index2, words, wrs2, cand_words, cand_wrs, m);
        law_numbers_of_words_do_not_count(
            g,
            words,
            index,
            wrs,
            index2,
            wrs2,
            to,
            cand_words,
            cand_wrs,
            m,
            w,
        );
        let text = cand_words[n - 1]@;
        assert(index.dom().contains(text) == index2.dom().contains(text));
        if index.contains_key(text) {
            let i = index[text] as int;
            assert(index2[text] == to(i));
            law_numbers_of_words_do_not_count(
                g,
                words,
                index,
                wrs,
                index2,
                wrs2,
                to,
                cand_words,
                cand_wrs,
                m,
                i,
            );
        }
    }
}

/// The inverse frequency of an ngram is the binary logarithm of the number of queries by
/// the number of records of its bucket, or of the number of queries if it has none. It
/// does not depend on where the bucket is.
pub proof fn law_inverse_frequency_is_a_logarithm(
    g: Arithmetic,
    n: usize,
    addr: u64,
    len: u64,
)
    ensures
        inverse_frequency(g, n, Some((addr, len))) == g(
            FloatOp::Log(
                g(FloatOp::Over(g(FloatOp::Whole(n as u128)), g(FloatOp::Whole(len as u128)))),
                score(0x4000_0000),
            ),
        ),
        inverse_frequency(g, n, None) == g(
            FloatOp::Log(g(FloatOp::Whole(n as u128)), score(0x4000_0000)),
        ),
{
}

/// Every ngram has a frequency, and nothing else has one; it is that of its last place.
pub proof fn law_every_ngram_has_its_frequency(
    g: Arithmetic,
    ngrams: Seq<(Seq<char>, usize)>,
    buckets: Seq<Option<(u64, u64)>>,
    shard_size: usize,
    n: nat,
    text: Seq<char>,
)
    requires
        n <= ngrams.len(),
    ensures
        ({
            let table = frequencies(g, ngrams, buckets, shard_size, n);
            &&& table.contains_key(text) <==> exists|i: int|
                0 <= i < n && (#[trigger] ngrams[i]).0 == text
            &&& forall|i: int|
                0 <= i < n && (#[trigger] ngrams[i]).0 == text && (forall|j: int|
                    i < j < n ==> (#[trigger] ngrams[j]).0 != text) ==> table[text] == (
                    ngrams[i].1,
                    inverse_frequency(g, shard_size, buckets[i]),
                )
        }),
    decreases n,
{
    if n > 0 {
        let m = (n - 1) as nat;
        law_every_ngram_has_its_frequency(g, ngrams, buckets, shard_size, m, text);
        let table = frequencies(g, ngrams, buckets, shard_size, n);
        if ngrams[m as int].0 == text {
            assert(table.contains_key(text));
            assert forall|i: int|
                0 <= i < n && (#[trigger] ngrams[i]).0 == text && (forall|j: int|
                    i < j < n ==> (#[trigger] ngrams[j]).0 != text) implies i == m by {
                if i < m {
                    assert(ngrams[m as int].0 != text);
                }
            }
        } else {
            assert forall|i: int|
                0 <= i < n && (#[trigger] ngrams[i]).0 == text && (forall|j: int|
                    i < j < n ==> (#[trigger] ngrams[j]).0 != text) implies table[text] == (
                ngrams[i].1,
                inverse_frequency(g, shard_size, buckets[i]),
            ) by {
                assert(i < m);
                assert(forall|j: int| i < j < m ==> (#[trigger] ngrams[j]).0 != text);
            }
        }
    }
}

/// A table that weighs ngrams gives each the number and the inverse frequency of its last
/// place: the binary logarithm of the number of queries by the length of the bucket.
pub proof fn law_rare_ngrams_weigh_more<F: Fn(FloatOp) -> Score>(
    table: Map<Seq<char>, (usize, Score)>,
    float: F,
    ngrams: Seq<(Seq<char>, usize)>,
    buckets: Seq<Option<(u64, u64)>>,
    shard_size: usize,
    g: Arithmetic,
    i: int,
)
    requires
        weighs(table, float, ngrams, buckets, shard_size),
        computes(float, g),
        0 <= i < ngrams.len(),
        forall|j: int| i < j < ngrams.len() ==> (#[trigger] ngrams[j]).0 != ngrams[i].0,
    ensures
        table.contains_key(ngrams[i].0),
        table[ngrams[i].0].0 == ngrams[i].1,
        ({
            let size = g(FloatOp::Whole(shard_size as u128));
            table[ngrams[i].0].1 == match buckets[i] {
                Some((_, len)) => g(
                    FloatOp::Log(
                        g(FloatOp::Over(size, g(FloatOp::Whole(len as u128)))),
                        score(0x4000_0000),
                    ),
                ),
                None => g(FloatOp::Log(size, score(0x4000_0000))),
            }
        }),
{
    law_every_ngram_has_its_frequency(
        g,
        ngrams,
        buckets,
        shard_size,
        ngrams.len(),
        ngrams[i].0,
    );
}

/// There is no distance by word vectors exactly if there are no vectors, or words differ
/// and too few have one: no matching word has one, and no missing or no excess word has;
/// or neither a missing nor an excess word has one; or only one of these kinds has, some
/// matching word too, but one of the whole queries has none.
pub proof fn law_no_vectors_no_distance(
    g: Arithmetic,
    v: VectorReadings,
    query_len: nat,
    cand_len: nat,
    match_len: nat,
    missing_len: nat,
    excess_len: nat,
    k: Score,
)
    ensures
        vector_distance(
            g,
            None,
            query_len,
            cand_len,
            match_len,
            missing_len,
            excess_len,
            k,
        ) is None,
        ({
            let no_match = v.counts.nf_match == match_len;
            let no_missing = v.counts.nf_miss == missing_len;
            let no_excess = v.counts.nf_excs == excess_len;
            vector_distance(
                g,
                Some(v),
                query_len,
                cand_len,
                match_len,
                missing_len,
                excess_len,
                k,
            ) is None <==> missing_len + excess_len > 0 && {
                ||| no_match && (no_missing || no_excess)
                ||| no_missing && no_excess
                ||| (no_missing || no_excess) && (v.nf_query == query_len || v.nf_cand == cand_len)
            }
        }),
{
}

/// The route is told from the lists alone. Queries that differ in no word need no
/// vector. If no matching word has one, the excess words count against the missing
/// ones where both kinds have one; otherwise the matching words less the missing ones
/// count against those less the excess ones where both kinds have one, and the whole
/// queries where one kind has. In every other case there is no distance.
pub proof fn law_route_is_told_from_the_lists(
    match_len: nat,
    missing_len: nat,
    excess_len: nat,
    counts: VectorCounts,
)
    ensures
        ({
            let r = route(match_len, missing_len, excess_len, counts);
            let differ = missing_len + excess_len > 0;
            let matching = counts.nf_match != match_len;
            let missing = counts.nf_miss != missing_len;
            let excess = counts.nf_excs != excess_len;
            &&& r is Exact <==> !differ
            &&& r is ExcessFromMissing <==> differ && !matching && missing && excess
            &&& r is Shifted <==> differ && matching && missing && excess
            &&& r is WholeWithoutMissing <==> differ && matching && !missing && excess
            &&& r is WholeWithoutExcess <==> differ && matching && missing && !excess
            &&& r is Unavailable <==> differ && !excess && !missing || (differ && !matching && !(
            missing && excess))
        }),
{
}

/// Where no missing word has a vector but some excess and some matching word have, and
/// both whole queries have, the distance is the cosine distance of these: times the
/// keyword distance, if at least two words match, none is missing and one is in excess,
/// and the keyword distance is below 0.3; else times the share of the keyword distance
/// in the sum of both, if at least two words match and more than are missing and more
/// than are in excess, the keyword distance is below 0.45, and at most one word has no
/// vector; else with the keyword distance added by the words without a vector for each
/// word that differs, but one at most.
pub proof fn law_whole_queries_without_missing_vectors(
    g: Arithmetic,
    v: VectorReadings,
    query_len: nat,
    cand_len: nat,
    match_len: nat,
    missing_len: nat,
    excess_len: nat,
    k: Score,
)
    requires
        missing_len + excess_len > 0,
        v.counts.nf_match != match_len,
        v.counts.nf_miss == missing_len,
        v.counts.nf_excs != excess_len,
        v.nf_query != query_len,
        v.nf_cand != cand_len,
    ensures
        ({
            let c = v.query_cand;
            let nf = g(
                FloatOp::Whole((v.counts.nf_excs + v.counts.nf_match + v.counts.nf_miss) as u128),
            );
            let nr = g(FloatOp::Whole((missing_len + excess_len) as u128));
            let r = vector_distance(
                g,
                Some(v),
                query_len,
                cand_len,
                match_len,
                missing_len,
                excess_len,
                k,
            );
            let raised = g(FloatOp::Plus(c, g(FloatOp::Over(g(FloatOp::Times(nf, k)), nr))));
            let near = match_len >= 2 && missing_len == 0 && excess_len <= 1 && k.below(
                Score { bits: 0x3e99_999a },
            );
            let close = match_len >= 2 && match_len > missing_len && match_len > excess_len
                && k.below(Score { bits: 0x3ee6_6666 }) && (nf.below(Score { bits: 0x3f80_0000 })
                || nf.same(Score { bits: 0x3f80_0000 }));
            &&& near ==> r == Some(g(FloatOp::Times(c, k)))
            &&& !near && close ==> r == Some(
                g(FloatOp::Times(c, g(FloatOp::Over(k, g(FloatOp::Plus(k, c)))))),
            )
            &&& !near && !close && raised.below(Score { bits: 0x3f80_0000 }) ==> r == Some(raised)
            &&& !near && !close && !raised.below(Score { bits: 0x3f80_0000 }) ==> r == Some(
                Score { bits: 0x3f80_0000 },
            )
        }),
{
}

/// The readings with missing and excess words in each other's place.
pub open spec fn turned(v: VectorReadings) -> VectorReadings {
    VectorReadings {
        counts: VectorCounts {
            nf_match: v.counts.nf_match,
            nf_miss: v.counts.nf_excs,
            nf_excs: v.counts.nf_miss,
        },
        ..v
    }
}

/// Missing and excess words play the same part, unless both kinds have vectors next to
/// those of the matching words: with the two kinds in each other's place the distance
/// is the same.
pub proof fn law_missing_and_excess_words_play_the_same_part(
    g: Arithmetic,
    v: VectorReadings,
    query_len: nat,
    cand_len: nat,
    match_len: nat,
    missing_len: nat,
    excess_len: nat,
    k: Score,
)
    requires
        v.counts.nf_match == match_len || v.counts.nf_miss == missing_len || v.counts.nf_excs
            == excess_len,
    ensures
        vector_distance(
            g,
            Some(v),
            query_len,
            cand_len,
            match_len,
            missing_len,
            excess_len,
            k,
        ) == vector_distance(
            g,
            Some(turned(v)),
            query_len,
            cand_len,
            match_len,
            excess_len,
            missing_len,
            k,
        ),
{
    let w = turned(v);
    assert(v.counts.nf_excs + v.counts.nf_match + v.counts.nf_miss == w.counts.nf_excs
        + w.counts.nf_match + w.counts.nf_miss);
    assert(missing_len + excess_len == excess_len + missing_len);
}

/// Where a word of the one kind only, missing or in excess, has a vector, and some
/// matching word and both whole queries have, the distance is the cosine distance of the
/// whole queries: times the keyword distance where all but one word match and this is
/// below 0.3, and so on as [`law_whole_queries_without_missing_vectors`] says.
pub proof fn law_whole_queries_with_one_kind_of_vectors(
    g: Arithmetic,
    v: VectorReadings,
    query_len: nat,
    cand_len: nat,
    match_len: nat,
    missing_len: nat,
    excess_len: nat,
    k: Score,
)
    requires
        v.counts.nf_match < match_len,
        v.counts.nf_miss <= missing_len,
        v.counts.nf_excs <= excess_len,
        (v.counts.nf_miss == missing_len) != (v.counts.nf_excs == excess_len),
        v.nf_query != query_len,
        v.nf_cand != cand_len,
    ensures
        ({
            let c = v.query_cand;
            let one = score(0x3f80_0000);
            let nf = g(
                FloatOp::Whole((v.counts.nf_excs + v.counts.nf_match + v.counts.nf_miss) as u128),
            );
            let nr = g(FloatOp::Whole((missing_len + excess_len) as u128));
            let r = vector_distance(
                g,
                Some(v),
                query_len,
                cand_len,
                match_len,
                missing_len,
                excess_len,
                k,
            );
            let raised = g(FloatOp::Plus(c, g(FloatOp::Over(g(FloatOp::Times(nf, k)), nr))));
            let near = match_len >= 2 && missing_len + excess_len == 1 && k.below(
                score(0x3e99_999a),
            );
            let close = match_len >= 2 && match_len > missing_len && match_len > excess_len
                && k.below(score(0x3ee6_6666)) && (nf.below(one) || nf.same(one));
            r == Some(
                if near {
                    g(FloatOp::Times(c, k))
                } else if close {
                    g(FloatOp::Times(c, g(FloatOp::Over(k, g(FloatOp::Plus(k, c))))))
                } else if raised.below(one) {
                    raised
                } else {
                    one
                },
            )
        }),
{
}

/// Where no matching word has a vector but some missing and some excess word have, the
/// distance is that of the excess words from the missing ones: times one and the keyword
/// distance, but one at most, if more words are missing than match, or more are in
/// excess than match; else as it is.
pub proof fn law_excess_words_against_missing_ones(
    g: Arithmetic,
    v: VectorReadings,
    query_len: nat,
    cand_len: nat,
    match_len: nat,
    missing_len: nat,
    excess_len: nat,
    k: Score,
)
    requires
        missing_len + excess_len > 0,
        v.counts.nf_match == match_len,
        v.counts.nf_miss != missing_len,
        v.counts.nf_excs != excess_len,
    ensures
        ({
            let c = v.excess_missing;
            let one = score(0x3f80_0000);
            let raised = g(FloatOp::Times(c, g(FloatOp::Plus(one, k))));
            let r = vector_distance(
                g,
                Some(v),
                query_len,
                cand_len,
                match_len,
                missing_len,
                excess_len,
                k,
            );
            &&& match_len < missing_len || match_len < excess_len ==> r == Some(
                if raised.below(one) {
                    raised
                } else {
                    one
                },
            )
            &&& missing_len <= match_len && excess_len <= match_len ==> r == Some(c)
        }),
{
}

/// Where some matching, some missing and some excess word have a vector, the distance is
/// that of the matching words less the missing ones from those less the excess ones:
/// times 1.3, if words are missing and in excess, at most two match and the keyword
/// distance is above 0.45; times 0.75, if at most two words are missing and at most two
/// in excess, more match than are in excess, and the keyword distance is not above 0.45;
/// else as it is. What the missing and the excess words are apart beyond a tolerance is
/// added: 0.55 if at most one word is missing and at most one in excess, 0.65 if only
/// at most one is missing, 0.5 if only at most one is in excess, and else 0.45.
pub proof fn law_shifted_words_against_each_other(
    g: Arithmetic,
    v: VectorReadings,
    query_len: nat,
    cand_len: nat,
    match_len: nat,
    missing_len: nat,
    excess_len: nat,
    k: Score,
    free: Score,
)
    requires
        missing_len + excess_len > 0,
        v.counts.nf_match != match_len,
        v.counts.nf_miss != missing_len,
        v.counts.nf_excs != excess_len,
        missing_len <= 1 && excess_len <= 1 ==> free == score(0x3f0c_cccd),
        missing_len <= 1 && excess_len >= 2 ==> free == score(0x3f26_6666),
        missing_len >= 2 && excess_len <= 1 ==> free == score(0x3f00_0000),
        missing_len >= 2 && excess_len >= 2 ==> free == score(0x3ee6_6666),
    ensures
        ({
            let c = v.shifted;
            let mark = score(0x3ee6_6666);
            let beyond = g(FloatOp::Minus(v.missing_excess, free));
            let r = vector_distance(
                g,
                Some(v),
                query_len,
                cand_len,
                match_len,
                missing_len,
                excess_len,
                k,
            );
            let raises = missing_len > 0 && excess_len > 0 && match_len < 3 && mark.below(k);
            let lowers = missing_len < 3 && excess_len < 3 && excess_len < match_len && (k.below(
                mark,
            ) || k.same(mark));
            let moved = if raises {
                g(FloatOp::Times(score(0x3fa6_6666), c))
            } else if lowers {
                g(FloatOp::Times(score(0x3f40_0000), c))
            } else {
                c
            };
            // Below zero, what is beyond counts as zero.
            &&& beyond.below(zero()) ==> r == Some(g(FloatOp::Plus(moved, zero())))
            &&& !beyond.below(zero()) ==> r == Some(g(FloatOp::Plus(moved, beyond)))
        }),
{
}

} // verus!
