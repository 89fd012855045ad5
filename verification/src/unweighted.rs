//! Searching without tf-idf, where the relevances of ngrams do not count.
use crate::cosine::{MatchedWords, VectorReadings};
use crate::find::{are_row_matches, rows_fit, Trace};
use crate::hooks::{Hooks, ParsedQuery};
use crate::index::{records, RECORD};
use crate::matching::{can_tally, homes, tally};
use crate::qpick::{query_text, Qpick, Walk};
use crate::results::SearchResult;
use crate::score::{computes, score, Arithmetic, FloatOp, Score, ONE};
use crate::shard::{
    bucket_rows, buckets_fit, law_rows_are_of_the_ngrams, numbers, shard_rows, text_of, Numbering,
    ShardRow,
};
use crate::tables::by_text;
use fnv::{FnvHashMap, FnvHashSet};
use vstd::prelude::*;

verus! {

/// Place of the relevance in a record.
pub const RELEVANCE: usize = 5;

/// The bytes hold the same records but for the relevances.
pub open spec fn same_but_relevances(a: Seq<u8>, b: Seq<u8>, id_size: usize) -> bool {
    &&& a.len() == b.len()
    &&& forall|i: int|
        0 <= i < a.len() && id_size > 0 && i % (id_size as int) != RELEVANCE ==> #[trigger] a[i]
            == b[i]
}

/// The indexes are the same but for the relevances in the records of their shards.
pub open spec fn same_index(a: Qpick, b: Qpick) -> bool {
    &&& a.shard_range == b.shard_range
    &&& a.id_size == b.id_size
    &&& a.shard_num == b.shard_num
    &&& a.shards@.len() == b.shards@.len()
    &&& forall|i: int|
        #![trigger a.shards@[i]]
        #![trigger b.shards@[i]]
        0 <= i < a.shards@.len() ==> {
            &&& a.shards@[i].map == b.shards@[i].map
            &&& a.shards@[i].i2q == b.shards@[i].i2q
            &&& same_but_relevances(a.shards@[i].shard@, b.shards@[i].shard@, a.id_size)
        }
}

/// The queries are the same but for the relevances of their ngrams.
pub open spec fn same_query(a: ParsedQuery, b: ParsedQuery) -> bool {
    &&& a.ngrams == b.ngrams
    &&& a.trs@.len() == b.trs@.len()
    &&& a.ngrams_ids == b.ngrams_ids
    &&& a.words == b.words
    &&& a.wrs == b.wrs
    &&& a.must_have == b.must_have
    &&& a.synonyms == b.synonyms
}

/// The rows say the same but for relevances and weights.
pub open spec fn alike(a: ShardRow, b: ShardRow) -> bool {
    &&& a.query_id == b.query_id
    &&& a.shard_id == b.shard_id
    &&& a.shard_query_id == b.shard_query_id
    &&& a.ngram_idx == b.ngram_idx
    &&& a.ngram == b.ngram
    &&& a.query == b.query
}

/// The rows of two lists say the same but for relevances and weights, one by one.
pub open spec fn all_alike(a: Seq<ShardRow>, b: Seq<ShardRow>) -> bool {
    a.len() == b.len() && forall|i: int| 0 <= i < a.len() ==> alike(#[trigger] a[i], b[i])
}

/// All rows weigh one.
pub open spec fn all_weigh_one(rows: Seq<ShardRow>) -> bool {
    forall|i: int| 0 <= i < rows.len() ==> (#[trigger] rows[i]).weight_rel == score(ONE)
}

/// The records of a bucket are the same but for the relevances.
proof fn lemma_records_alike(a: Seq<u8>, b: Seq<u8>, bucket: (u64, u64), id_size: usize, i: int)
    requires
        same_but_relevances(a, b, id_size),
        id_size >= RECORD,
        bucket.0 * id_size + bucket.1 * id_size <= a.len(),
        0 <= i < bucket.1,
    ensures
        ({
            let x = records(a, bucket.0 * id_size, bucket.1 as nat, id_size as int)[i];
            let y = records(b, bucket.0 * id_size, bucket.1 as nat, id_size as int)[i];
            x.0 == y.0 && x.1 == y.1
        }),
{
    let k = bucket.0 + i;
    let size = id_size as int;
    let at = bucket.0 * id_size + i * id_size;
    assert(at == k * size && 0 <= at && at + size <= bucket.0 * id_size + bucket.1 * id_size)
        by (nonlinear_arith)
        requires
            at == bucket.0 * id_size + i * id_size,
            k == bucket.0 + i,
            size == id_size,
            0 <= i < bucket.1,
            size >= 0,
            bucket.0 >= 0,
    ;
    assert forall|c: int| 0 <= c < 5 implies #[trigger] a[at + c] == b[at + c] by {
        vstd::arithmetic::div_mod::lemma_mod_multiples_vanish(k, c, size);
        assert((size * k + c) % size == c % size);
        assert(size * k == k * size) by (nonlinear_arith);
        vstd::arithmetic::div_mod::lemma_small_mod(c as nat, size as nat);
        assert((at + c) % size == c);
    }
    assert(a[at + 0] == b[at + 0] && a[at + 1] == b[at + 1] && a[at + 2] == b[at + 2] && a[at + 3]
        == b[at + 3] && a[at + 4] == b[at + 4]);
}

/// The rows that ngrams find in two shards are alike, with tf-idf or without.
pub proof fn lemma_shard_rows_alike(
    g: Arithmetic,
    q: Numbering,
    ngrams: Seq<(Seq<char>, usize)>,
    buckets: Seq<Option<(u64, u64)>>,
    trs: (Seq<Score>, Seq<Score>),
    bytes: (Seq<u8>, Seq<u8>),
    id_size: usize,
    shard_num: usize,
    with_tfidf: (bool, bool),
    n: nat,
)
    requires
        n <= buckets.len(),
        same_but_relevances(bytes.0, bytes.1, id_size),
        buckets_fit(ngrams, buckets, trs.0.len(), bytes.0.len(), id_size),
    ensures
        all_alike(
            shard_rows(g, q, ngrams, buckets, trs.0, bytes.0, id_size, shard_num, with_tfidf.0, n),
            shard_rows(g, q, ngrams, buckets, trs.1, bytes.1, id_size, shard_num, with_tfidf.1, n),
        ),
    decreases n,
{
    if n > 0 {
        let m = (n - 1) as nat;
        lemma_shard_rows_alike(
            g,
            q,
            ngrams,
            buckets,
            trs,
            bytes,
            id_size,
            shard_num,
            with_tfidf,
            m,
        );
        if let Some(bucket) = buckets[m as int] {
            let (text, idx) = ngrams[m as int];
            let first = records(bytes.0, bucket.0 * id_size, bucket.1 as nat, id_size as int);
            let second = records(bytes.1, bucket.0 * id_size, bucket.1 as nat, id_size as int);
            let x = bucket_rows(
                g,
                q,
                first,
                shard_num,
                trs.0[idx as int],
                idx,
                text,
                with_tfidf.0,
            );
            let y = bucket_rows(
                g,
                q,
                second,
                shard_num,
                trs.1[idx as int],
                idx,
                text,
                with_tfidf.1,
            );
            assert(buckets[m as int] is Some);
            assert forall|i: int| 0 <= i < x.len() implies alike(#[trigger] x[i], y[i]) by {
                lemma_records_alike(bytes.0, bytes.1, bucket, id_size, i);
            }
        }
    }
}

/// The rows that two indexes give on a walk are alike.
proof fn lemma_walk_rows_alike<'a, 'b, U: Fn(u64) -> (u64, u64)>(
    a: Qpick<'a>,
    b: Qpick<'b>,
    g: Arithmetic,
    q: Numbering,
    walk: Walk,
    p: (ParsedQuery, ParsedQuery),
    unpair: U,
    n: nat,
)
    requires
        same_index(a, b),
        same_query(p.0, p.1),
        n <= walk.order.len() == walk.buckets.len(),
        forall|k: int|
            0 <= k < walk.order.len() ==> a.visit_fits(
                walk.order[k],
                #[trigger] walk.buckets[k],
                p.0,
                walk.shard_ids,
                unpair,
            ),
    ensures
        all_alike(
            a.walk_rows(g, q, walk, p.0, false, n),
            b.walk_rows(g, q, walk, p.1, false, n),
        ),
    decreases n,
{
    if n > 0 {
        let m = (n - 1) as nat;
        lemma_walk_rows_alike(a, b, g, q, walk, p, unpair, m);
        let shard = walk.order[m as int];
        let buckets = walk.buckets[m as int];
        assert(a.visit_fits(shard, buckets, p.0, walk.shard_ids, unpair));
        let asked = a.asked_of(p.0.ngrams@, walk.shard_ids, shard);
        lemma_shard_rows_alike(
            g,
            q,
            asked,
            buckets,
            (p.0.trs@, p.1.trs@),
            (a.shards@[shard as int].shard@, b.shards@[shard as int].shard@),
            a.id_size,
            a.shard_num,
            (false, false),
            asked.len(),
        );
    }
}

/// Without tf-idf, all rows that a walk gives weigh one.
pub proof fn lemma_walk_rows_weigh_one<'a>(
    index: Qpick<'a>,
    g: Arithmetic,
    q: Numbering,
    walk: Walk,
    parsed: ParsedQuery,
    n: nat,
)
    ensures
        all_weigh_one(index.walk_rows(g, q, walk, parsed, false, n)),
    decreases n,
{
    if n > 0 {
        lemma_walk_rows_weigh_one(index, g, q, walk, parsed, (n - 1) as nat);
        let shard = walk.order[n - 1];
        let asked = index.asked_of(parsed.ngrams@, walk.shard_ids, shard);
        let rows = index.visit_rows(g, q, walk, parsed, false, n - 1);
        assert forall|i: int| 0 <= i < rows.len() implies (#[trigger] rows[i]).weight_rel == score(
            ONE,
        ) by {
            law_rows_are_of_the_ngrams(
                g,
                q,
                asked,
                walk.buckets[n - 1],
                parsed.trs@,
                index.shards@[shard as int].shard@,
                index.id_size,
                index.shard_num,
                false,
                asked.len(),
                i,
            );
        }
    }
}

/// Rows that are alike and weigh one are tallied alike, and lead to the same texts.
proof fn lemma_tallied_alike(
    g: Arithmetic,
    a: Seq<ShardRow>,
    b: Seq<ShardRow>,
    ngrams_ids: Map<Seq<char>, Vec<usize>>,
    wrs: Seq<Score>,
    words: nat,
    n: nat,
)
    requires
        n <= a.len(),
        all_alike(a, b),
        all_weigh_one(a),
        all_weigh_one(b),
    ensures
        tally(g, a, ngrams_ids, wrs, words, n) == tally(g, b, ngrams_ids, wrs, words, n),
        can_tally(g, a, ngrams_ids, wrs, words, n) == can_tally(g, b, ngrams_ids, wrs, words, n),
        homes(a, n) == homes(b, n),
    decreases n,
{
    if n > 0 {
        lemma_tallied_alike(g, a, b, ngrams_ids, wrs, words, (n - 1) as nat);
        assert(alike(a[n - 1], b[n - 1]));
    }
}

/// Without tf-idf every hit counts in full: a search does not depend on the
/// relevances of the ngrams, neither on those in the query nor on those in the
/// records of the index. What accounts for its results with some relevances
/// accounts for the same results with others.
pub proof fn law_relevances_do_not_count_without_tfidf<'a, 'b, P, S, F, U, Q, E, V>(
    a: Qpick<'a>,
    b: Qpick<'b>,
    trace: Trace,
    hooks: Hooks<P, S, F, U, Q, E, V>,
    parsed_a: ParsedQuery,
    parsed_b: ParsedQuery,
    count: Option<usize>,
    r: Seq<SearchResult>,
) where
    P: Fn(&str) -> ParsedQuery,
    S: Fn(&String, u32) -> u32,
    F: Fn(FloatOp) -> Score,
    U: Fn(u64) -> (u64, u64),
    Q: Fn(u64, u8, usize) -> u64,
    E: Fn(&String, &FnvHashSet<String>, &FnvHashMap<String, String>) -> MatchedWords,
    V: Fn(&Vec<String>, &MatchedWords) -> Option<VectorReadings>,

    requires
        same_index(a, b),
        same_query(parsed_a, parsed_b),
        a.explains(trace, hooks, parsed_a, count, false, r),
    ensures
        b.explains(trace, hooks, parsed_b, count, false, r),
{
    let walk = trace.walk;
    assert(b.is_walk(walk, parsed_b, hooks.shard_of, hooks.unpair)) by {
        assert forall|shard: usize| #[trigger]
            walk.order.contains(shard) <==> b.asks(parsed_b.ngrams@, walk.shard_ids, shard) by {
            assert(a.asks(parsed_a.ngrams@, walk.shard_ids, shard) == b.asks(
                parsed_b.ngrams@,
                walk.shard_ids,
                shard,
            ));
        }
        assert forall|k: int| 0 <= k < walk.order.len() implies b.visit_fits(
            walk.order[k],
            #[trigger] walk.buckets[k],
            parsed_b,
            walk.shard_ids,
            hooks.unpair,
        ) by {
            assert(a.visit_fits(
                walk.order[k],
                walk.buckets[k],
                parsed_a,
                walk.shard_ids,
                hooks.unpair,
            ));
            let shard = walk.order[k] as int;
            assert(a.shards@[shard].map == b.shards@[shard].map);
        }
    }
    assert forall|g: Arithmetic, q: Numbering|
        #![trigger computes(hooks.float, g), numbers(hooks.number, q)]
        computes(hooks.float, g) && numbers(hooks.number, q) implies ({
        let rows = b.all_rows(g, q, walk, parsed_b, false);
        &&& rows_fit(g, rows, parsed_b)
        &&& are_row_matches(g, rows, trace.matches, parsed_b)
        &&& b.are_results(g, rows, trace, parsed_b)
    }) by {
        let x = a.all_rows(g, q, walk, parsed_a, false);
        let y = b.all_rows(g, q, walk, parsed_b, false);
        lemma_walk_rows_alike(
            a,
            b,
            g,
            q,
            walk,
            (parsed_a, parsed_b),
            hooks.unpair,
            walk.order.len(),
        );
        lemma_walk_rows_weigh_one(a, g, q, walk, parsed_a, walk.order.len());
        lemma_walk_rows_weigh_one(b, g, q, walk, parsed_b, walk.order.len());
        lemma_tallied_alike(
            g,
            x,
            y,
            by_text(parsed_a.ngrams_ids@),
            parsed_a.wrs@,
            parsed_a.words@.len(),
            x.len(),
        );
        assert(rows_fit(g, x, parsed_a) && are_row_matches(g, x, trace.matches, parsed_a));
        assert(a.are_results(g, x, trace, parsed_a));
        assert forall|home: (u32, u8)|
            query_text(a.shards@, home) == query_text(
                b.shards@,
                home,
            ) by {
            if home.1 < a.shards@.len() {
                assert(a.shards@[home.1 as int].i2q == b.shards@[home.1 as int].i2q);
            }
        }
        assert forall|i: int|
            #![trigger trace.results[i]]
            0 <= i < trace.results.len() implies text_of(trace.results[i].query)
            == query_text(
            b.shards@,
            homes(y, y.len())[trace.matches[i].query_id],
        ) by {
            assert(text_of(trace.results[i].query) == query_text(
                a.shards@,
                homes(x, x.len())[trace.matches[i].query_id],
            ));
        }
        assert(b.are_results(g, y, trace, parsed_b));
    }
}

} // verus!
