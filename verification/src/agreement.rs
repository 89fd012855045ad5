//! Two searches for the same thing agree.
//!
//! A walk visits the shards in an order that a hash table settles. What is stated
//! here of two searches holds whatever the two orders are.
use crate::hooks::{assigns, ParsedQuery, Placing};
use crate::index::{is_bucket_of, splits, Unpairing};
use crate::matching::{
    are_matches, can_tally, covered_by, covers_word, homes, is_covered, is_nearest_first,
    law_home_is_that_of_a_row, law_tallied_queries_have_homes,
    law_word_counts_in_full_exactly_if_covered, lemma_cover_keeps_length, members, nearer, so_far,
    tally,
};
use crate::qpick::{lemma_places_are_settled, Qpick, Walk};
use crate::results::KeywordMatchResult;
use crate::score::{Arithmetic, Score};
use crate::shard::{law_rows_are_of_the_ngrams, tells_apart, Numbering, ShardRow};
use crate::tables::{by_text, list_texts};
use crate::unweighted::{
    alike, all_alike, lemma_shard_rows_alike, lemma_walk_rows_weigh_one,
    same_but_relevances, same_index, RELEVANCE,
};
use vstd::prelude::*;

verus! {

/// The queries have the same texts and numbers, but for the relevances of their
/// ngrams.
pub open spec fn same_texts(a: ParsedQuery, b: ParsedQuery) -> bool {
    &&& a@.ngrams == b@.ngrams
    &&& a@.ngrams_ids == b@.ngrams_ids
    &&& a@.words == b@.words
    &&& a@.wrs == b@.wrs
    &&& a@.must_have == b@.must_have
    &&& a@.synonyms == b@.synonyms
}

/// Both walks are of the same query, over indexes that are the same but for the
/// relevances in their records.
pub open spec fn are_walks<
    'a,
    'b,
    S: Fn(&String, u32) -> u32,
    U: Fn(u64) -> (u64, u64),
>(
    a: Qpick<'a>,
    b: Qpick<'b>,
    wa: Walk,
    wb: Walk,
    pa: ParsedQuery,
    pb: ParsedQuery,
    shard_of: S,
    unpair: U,
) -> bool {
    &&& same_index(a, b)
    &&& same_texts(pa, pb)
    &&& a.is_walk(wa, pa, shard_of, unpair)
    &&& b.is_walk(wb, pb, shard_of, unpair)
}

/// Which ngrams belong to a shard depends on their texts.
proof fn lemma_members_by_texts(
    x: Seq<String>,
    y: Seq<String>,
    shard_ids: Seq<u32>,
    shard: usize,
    n: nat,
)
    requires
        list_texts(x) == list_texts(y),
        n <= x.len(),
    ensures
        x.len() == y.len(),
        members(x, shard_ids, shard, n) == members(y, shard_ids, shard, n),
    decreases n,
{
    assert(list_texts(x).len() == x.len() && list_texts(y).len() == y.len());
    if n > 0 {
        lemma_members_by_texts(x, y, shard_ids, shard, (n - 1) as nat);
        assert(list_texts(x)[n - 1] == list_texts(y)[n - 1]);
    }
}

/// Shard `k` of a walk is a shard of the other one too, where the same is asked of
/// it and the same buckets are read.
pub proof fn lemma_visit_has_twin<'a, 'b, S: Fn(&String, u32) -> u32, U: Fn(u64) -> (u64, u64)>(
    a: Qpick<'a>,
    b: Qpick<'b>,
    wa: Walk,
    wb: Walk,
    pa: ParsedQuery,
    pb: ParsedQuery,
    shard_of: S,
    unpair: U,
    p: Placing,
    u: Unpairing,
    k: int,
) -> (l: int)
    requires
        are_walks(a, b, wa, wb, pa, pb, shard_of, unpair),
        assigns(shard_of, p),
        splits(unpair, u),
        0 <= k < wa.order.len(),
    ensures
        wa.shard_ids == wb.shard_ids,
        0 <= l < wb.order.len(),
        wb.order[l] == wa.order[k],
        a.asked_of(pa.ngrams@, wa.shard_ids, wa.order[k]) == b.asked_of(
            pb.ngrams@,
            wb.shard_ids,
            wb.order[l],
        ),
        wa.buckets[k] == wb.buckets[l],
{
    let shard = wa.order[k];
    lemma_places_are_settled(
        a,
        b,
        wa.shard_ids,
        wb.shard_ids,
        pa.ngrams@,
        pb.ngrams@,
        shard_of,
        p,
    );
    assert(wa.order.contains(shard));
    lemma_members_by_texts(pa.ngrams@, pb.ngrams@, wa.shard_ids, shard, pa.ngrams@.len());
    assert(a.asks(pa.ngrams@, wa.shard_ids, shard));
    assert(b.asks(pb.ngrams@, wb.shard_ids, shard));
    assert(wb.order.contains(shard));
    let l = choose|l: int| 0 <= l < wb.order.len() && wb.order[l] == shard;
    assert(a.visit_fits(shard, wa.buckets[k], pa, wa.shard_ids, unpair));
    assert(b.visit_fits(shard, wb.buckets[l], pb, wb.shard_ids, unpair));
    assert(a.shards@[shard as int].map == b.shards@[shard as int].map);
    assert(wa.buckets[k] =~= wb.buckets[l]) by {
        let asked = a.asked_of(pa.ngrams@, wa.shard_ids, shard);
        let map = *a.shards@[shard as int].map;
        assert forall|i: int| 0 <= i < asked.len() implies wa.buckets[k][i] == wb.buckets[l][i] by {
            assert(is_bucket_of(wa.buckets[k][i], asked[i].0, map, unpair));
            assert(is_bucket_of(wb.buckets[l][i], asked[i].0, map, unpair));
        }
    }
    l
}

/// Every row of a walk is one of a shard.
pub proof fn lemma_row_is_of_a_visit<'a>(
    index: Qpick<'a>,
    g: Arithmetic,
    q: Numbering,
    walk: Walk,
    parsed: ParsedQuery,
    with_tfidf: bool,
    n: nat,
    j: int,
) -> (r: (int, int))
    requires
        0 <= j < index.walk_rows(g, q, walk, parsed, with_tfidf, n).len(),
    ensures
        0 <= r.0 < n,
        0 <= r.1 < index.visit_rows(g, q, walk, parsed, with_tfidf, r.0).len(),
        index.walk_rows(g, q, walk, parsed, with_tfidf, n)[j] == index.visit_rows(
            g,
            q,
            walk,
            parsed,
            with_tfidf,
            r.0,
        )[r.1],
    decreases n,
{
    let m = (n - 1) as nat;
    let ahead = index.walk_rows(g, q, walk, parsed, with_tfidf, m);
    if j < ahead.len() {
        lemma_row_is_of_a_visit(index, g, q, walk, parsed, with_tfidf, m, j)
    } else {
        (n - 1, j - ahead.len())
    }
}

/// Every row of a shard is one of the walk.
proof fn lemma_visit_row_is_a_row<'a>(
    index: Qpick<'a>,
    g: Arithmetic,
    q: Numbering,
    walk: Walk,
    parsed: ParsedQuery,
    with_tfidf: bool,
    n: nat,
    k: int,
    i: int,
) -> (j: int)
    requires
        0 <= k < n,
        0 <= i < index.visit_rows(g, q, walk, parsed, with_tfidf, k).len(),
    ensures
        0 <= j < index.walk_rows(g, q, walk, parsed, with_tfidf, n).len(),
        index.walk_rows(g, q, walk, parsed, with_tfidf, n)[j] == index.visit_rows(
            g,
            q,
            walk,
            parsed,
            with_tfidf,
            k,
        )[i],
    decreases n,
{
    let m = (n - 1) as nat;
    let ahead = index.walk_rows(g, q, walk, parsed, with_tfidf, m);
    if k < m {
        lemma_visit_row_is_a_row(index, g, q, walk, parsed, with_tfidf, m, k, i)
    } else {
        ahead.len() + i
    }
}

/// Every row of a walk has a row of the other one that says the same but for
/// relevances and weights.
pub proof fn lemma_row_has_twin<'a, 'b, S: Fn(&String, u32) -> u32, U: Fn(u64) -> (u64, u64)>(
    a: Qpick<'a>,
    b: Qpick<'b>,
    g: Arithmetic,
    q: Numbering,
    wa: Walk,
    wb: Walk,
    pa: ParsedQuery,
    pb: ParsedQuery,
    with_tfidf: (bool, bool),
    shard_of: S,
    unpair: U,
    p: Placing,
    u: Unpairing,
    j: int,
) -> (i: int)
    requires
        are_walks(a, b, wa, wb, pa, pb, shard_of, unpair),
        assigns(shard_of, p),
        splits(unpair, u),
        0 <= j < a.all_rows(g, q, wa, pa, with_tfidf.0).len(),
    ensures
        0 <= i < b.all_rows(g, q, wb, pb, with_tfidf.1).len(),
        alike(
            a.all_rows(g, q, wa, pa, with_tfidf.0)[j],
            b.all_rows(g, q, wb, pb, with_tfidf.1)[i],
        ),
{
    let (k, at) = lemma_row_is_of_a_visit(a, g, q, wa, pa, with_tfidf.0, wa.order.len(), j);
    let l = lemma_visit_has_twin(a, b, wa, wb, pa, pb, shard_of, unpair, p, u, k);
    let shard = wa.order[k];
    let asked = a.asked_of(pa.ngrams@, wa.shard_ids, shard);
    assert(a.visit_fits(shard, wa.buckets[k], pa, wa.shard_ids, unpair));
    assert(a.shards@[shard as int].i2q == b.shards@[shard as int].i2q);
    lemma_shard_rows_alike(
        g,
        q,
        asked,
        wa.buckets[k],
        (pa.trs@, pb.trs@),
        (a.shards@[shard as int].shard@, b.shards@[shard as int].shard@),
        a.id_size,
        a.shard_num,
        with_tfidf,
        asked.len(),
    );
    let x = a.visit_rows(g, q, wa, pa, with_tfidf.0, k);
    let y = b.visit_rows(g, q, wb, pb, with_tfidf.1, l);
    assert(all_alike(x, y));
    assert(alike(x[at], y[at]));
    lemma_visit_row_is_a_row(b, g, q, wb, pb, with_tfidf.1, wb.order.len(), l, at)
}

/// Ngrams with the same text cover the same words in queries of the same texts.
pub proof fn lemma_covered_by_texts(pa: ParsedQuery, pb: ParsedQuery, ngram: Seq<char>)
    requires
        same_texts(pa, pb),
    ensures
        covered_by(by_text(pa.ngrams_ids@), ngram) == covered_by(by_text(pb.ngrams_ids@), ngram),
{
    let x = by_text(pa.ngrams_ids@);
    let y = by_text(pb.ngrams_ids@);
    assert(pa@.ngrams_ids.contains_key(ngram) == x.contains_key(ngram));
    assert(pb@.ngrams_ids.contains_key(ngram) == y.contains_key(ngram));
    if x.contains_key(ngram) {
        assert(pa@.ngrams_ids[ngram] == x[ngram]@);
        assert(pb@.ngrams_ids[ngram] == y[ngram]@);
    }
}

/// What is tallied for a query on a walk.
pub open spec fn walk_tally<'a>(
    index: Qpick<'a>,
    g: Arithmetic,
    q: Numbering,
    walk: Walk,
    parsed: ParsedQuery,
    with_tfidf: bool,
) -> Map<u64, Seq<Score>> {
    let rows = index.all_rows(g, q, walk, parsed, with_tfidf);
    tally(
        g,
        rows,
        by_text(parsed.ngrams_ids@),
        parsed.wrs@,
        parsed.words@.len(),
        rows.len(),
    )
}

/// The rows of a walk can be tallied for a query.
pub open spec fn walk_can_tally<'a>(
    index: Qpick<'a>,
    g: Arithmetic,
    q: Numbering,
    walk: Walk,
    parsed: ParsedQuery,
    with_tfidf: bool,
) -> bool {
    let rows = index.all_rows(g, q, walk, parsed, with_tfidf);
    can_tally(
        g,
        rows,
        by_text(parsed.ngrams_ids@),
        parsed.wrs@,
        parsed.words@.len(),
        rows.len(),
    )
}

/// Where the queries that a walk finds have their texts.
pub open spec fn walk_homes<'a>(
    index: Qpick<'a>,
    g: Arithmetic,
    q: Numbering,
    walk: Walk,
    parsed: ParsedQuery,
    with_tfidf: bool,
) -> Map<u64, (u32, u8)> {
    let rows = index.all_rows(g, q, walk, parsed, with_tfidf);
    homes(rows, rows.len())
}

/// A query that one walk finds, the other one finds.
pub proof fn lemma_query_has_twin<'a, 'b, S: Fn(&String, u32) -> u32, U: Fn(u64) -> (u64, u64)>(
    a: Qpick<'a>,
    b: Qpick<'b>,
    g: Arithmetic,
    q: Numbering,
    wa: Walk,
    wb: Walk,
    pa: ParsedQuery,
    pb: ParsedQuery,
    with_tfidf: (bool, bool),
    shard_of: S,
    unpair: U,
    p: Placing,
    u: Unpairing,
    id: u64,
)
    requires
        are_walks(a, b, wa, wb, pa, pb, shard_of, unpair),
        assigns(shard_of, p),
        splits(unpair, u),
    ensures
        walk_tally(a, g, q, wa, pa, with_tfidf.0).contains_key(id) <==> walk_homes(
            a,
            g,
            q,
            wa,
            pa,
            with_tfidf.0,
        ).contains_key(id),
        walk_tally(a, g, q, wa, pa, with_tfidf.0).contains_key(id) ==> walk_tally(
            b,
            g,
            q,
            wb,
            pb,
            with_tfidf.1,
        ).contains_key(id) && walk_homes(b, g, q, wb, pb, with_tfidf.1).contains_key(id),
{
    let x = a.all_rows(g, q, wa, pa, with_tfidf.0);
    let y = b.all_rows(g, q, wb, pb, with_tfidf.1);
    let ids_a = by_text(pa.ngrams_ids@);
    let ids_b = by_text(pb.ngrams_ids@);
    law_tallied_queries_have_homes(g, x, ids_a, pa.wrs@, pa.words@.len(), x.len());
    law_tallied_queries_have_homes(g, y, ids_b, pb.wrs@, pb.words@.len(), y.len());
    let ta = walk_tally(a, g, q, wa, pa, with_tfidf.0);
    let tb = walk_tally(b, g, q, wb, pb, with_tfidf.1);
    let ha = walk_homes(a, g, q, wa, pa, with_tfidf.0);
    let hb = walk_homes(b, g, q, wb, pb, with_tfidf.1);
    assert(ta.dom() == ha.dom() && tb.dom() == hb.dom());
    assert(ta.dom().contains(id) == ha.dom().contains(id));
    assert(tb.dom().contains(id) == hb.dom().contains(id));
    if ha.contains_key(id) {
        let j = choose|j: int| 0 <= j < x.len() && (#[trigger] x[j]).query_id == id;
        let i = lemma_row_has_twin(
            a,
            b,
            g,
            q,
            wa,
            wb,
            pa,
            pb,
            with_tfidf,
            shard_of,
            unpair,
            p,
            u,
            j,
        );
        assert(y[i].query_id == id);
    }
}

/// A word that a row of one walk covers is covered by a row of the other.
pub proof fn lemma_covered_has_twin<'a, 'b, S: Fn(&String, u32) -> u32, U: Fn(u64) -> (u64, u64)>(
    a: Qpick<'a>,
    b: Qpick<'b>,
    g: Arithmetic,
    q: Numbering,
    wa: Walk,
    wb: Walk,
    pa: ParsedQuery,
    pb: ParsedQuery,
    with_tfidf: (bool, bool),
    shard_of: S,
    unpair: U,
    p: Placing,
    u: Unpairing,
    id: u64,
    w: int,
    j: int,
)
    requires
        are_walks(a, b, wa, wb, pa, pb, shard_of, unpair),
        assigns(shard_of, p),
        splits(unpair, u),
        0 <= j < a.all_rows(g, q, wa, pa, with_tfidf.0).len(),
        covers_word(
            a.all_rows(g, q, wa, pa, with_tfidf.0),
            by_text(pa.ngrams_ids@),
            id,
            w,
            j,
        ),
    ensures
        is_covered(
            b.all_rows(g, q, wb, pb, with_tfidf.1),
            by_text(pb.ngrams_ids@),
            id,
            w,
            b.all_rows(g, q, wb, pb, with_tfidf.1).len(),
        ),
{
    let y = b.all_rows(g, q, wb, pb, with_tfidf.1);
    let i = lemma_row_has_twin(a, b, g, q, wa, wb, pa, pb, with_tfidf, shard_of, unpair, p, u, j);
    lemma_covered_by_texts(pa, pb, y[i].ngram);
    assert(covers_word(y, by_text(pb.ngrams_ids@), id, w, i));
}

/// Whether a word is covered in a query does not depend on the walk.
pub proof fn lemma_coverage_is_settled<'a, 'b, S: Fn(&String, u32) -> u32, U: Fn(u64) -> (u64, u64)>(
    a: Qpick<'a>,
    b: Qpick<'b>,
    g: Arithmetic,
    q: Numbering,
    wa: Walk,
    wb: Walk,
    pa: ParsedQuery,
    pb: ParsedQuery,
    with_tfidf: (bool, bool),
    shard_of: S,
    unpair: U,
    p: Placing,
    u: Unpairing,
    id: u64,
    w: int,
)
    requires
        are_walks(a, b, wa, wb, pa, pb, shard_of, unpair),
        assigns(shard_of, p),
        splits(unpair, u),
        is_covered(
            a.all_rows(g, q, wa, pa, with_tfidf.0),
            by_text(pa.ngrams_ids@),
            id,
            w,
            a.all_rows(g, q, wa, pa, with_tfidf.0).len(),
        ),
    ensures
        is_covered(
            b.all_rows(g, q, wb, pb, with_tfidf.1),
            by_text(pb.ngrams_ids@),
            id,
            w,
            b.all_rows(g, q, wb, pb, with_tfidf.1).len(),
        ),
{
    let x = a.all_rows(g, q, wa, pa, with_tfidf.0);
    let j = choose|j: int|
        0 <= j < x.len() && #[trigger] covers_word(x, by_text(pa.ngrams_ids@), id, w, j);
    lemma_covered_has_twin(
        a,
        b,
        g,
        q,
        wa,
        wb,
        pa,
        pb,
        with_tfidf,
        shard_of,
        unpair,
        p,
        u,
        id,
        w,
        j,
    );
}

/// The walks are the same the other way round.
pub proof fn lemma_walks_swap<'a, 'b, S: Fn(&String, u32) -> u32, U: Fn(u64) -> (u64, u64)>(
    a: Qpick<'a>,
    b: Qpick<'b>,
    wa: Walk,
    wb: Walk,
    pa: ParsedQuery,
    pb: ParsedQuery,
    shard_of: S,
    unpair: U,
)
    requires
        are_walks(a, b, wa, wb, pa, pb, shard_of, unpair),
    ensures
        are_walks(b, a, wb, wa, pb, pa, shard_of, unpair),
{
    assert forall|i: int|
        #![trigger a.shards@[i]]
        #![trigger b.shards@[i]]
        0 <= i < b.shards@.len() implies a.shards@[i].map == b.shards@[i].map
        && a.shards@[i].i2q == b.shards@[i].i2q && same_but_relevances(
        b.shards@[i].shard@,
        a.shards@[i].shard@,
        b.id_size,
    ) by {
        let x = a.shards@[i].shard@;
        let y = b.shards@[i].shard@;
        assert forall|k: int|
            0 <= k < y.len() && b.id_size > 0 && k % (b.id_size as int)
                != RELEVANCE implies #[trigger] y[k] == x[k] by {
            assert(x[k] == y[k]);
        }
    }
}

/// Without tf-idf the tally does not depend on the walk, nor on any relevance of an
/// ngram: any two walks of the same query, over indexes that are the same but for
/// the relevances in their records, give the same one.
pub proof fn law_tally_does_not_depend_on_the_walk<
    'a,
    'b,
    S: Fn(&String, u32) -> u32,
    U: Fn(u64) -> (u64, u64),
>(
    a: Qpick<'a>,
    b: Qpick<'b>,
    g: Arithmetic,
    q: Numbering,
    wa: Walk,
    wb: Walk,
    pa: ParsedQuery,
    pb: ParsedQuery,
    shard_of: S,
    unpair: U,
    p: Placing,
    u: Unpairing,
)
    requires
        are_walks(a, b, wa, wb, pa, pb, shard_of, unpair),
        assigns(shard_of, p),
        splits(unpair, u),
        walk_can_tally(a, g, q, wa, pa, false),
        walk_can_tally(b, g, q, wb, pb, false),
    ensures
        walk_tally(a, g, q, wa, pa, false) == walk_tally(b, g, q, wb, pb, false),
{
    let f = (false, false);
    lemma_walks_swap(a, b, wa, wb, pa, pb, shard_of, unpair);
    lemma_walk_rows_weigh_one(a, g, q, wa, pa, wa.order.len());
    lemma_walk_rows_weigh_one(b, g, q, wb, pb, wb.order.len());
    let x = a.all_rows(g, q, wa, pa, false);
    let y = b.all_rows(g, q, wb, pb, false);
    let ids_a = by_text(pa.ngrams_ids@);
    let ids_b = by_text(pb.ngrams_ids@);
    let ta = walk_tally(a, g, q, wa, pa, false);
    let tb = walk_tally(b, g, q, wb, pb, false);
    let words = pa.words@.len();
    assert(pa@.words.len() == pa.words@.len() && pb@.words.len() == pb.words@.len());
    assert forall|id: u64| ta.contains_key(id) <==> tb.contains_key(id) by {
        lemma_query_has_twin(a, b, g, q, wa, wb, pa, pb, f, shard_of, unpair, p, u, id);
        lemma_query_has_twin(b, a, g, q, wb, wa, pb, pa, f, shard_of, unpair, p, u, id);
    }
    assert forall|id: u64| ta.contains_key(id) implies ta[id] == tb[id] by {
        assert(tb.contains_key(id));
        lemma_tally_has_words(g, x, ids_a, pa.wrs@, words, x.len(), id);
        lemma_tally_has_words(g, y, ids_b, pb.wrs@, words, y.len(), id);
        assert forall|w: int| 0 <= w < words implies ta[id][w] == tb[id][w] by {
            law_word_counts_in_full_exactly_if_covered(
                g,
                x,
                ids_a,
                pa.wrs@,
                words,
                x.len(),
                id,
                w,
            );
            law_word_counts_in_full_exactly_if_covered(
                g,
                y,
                ids_b,
                pb.wrs@,
                words,
                y.len(),
                id,
                w,
            );
            if is_covered(x, ids_a, id, w, x.len()) {
                lemma_coverage_is_settled(
                    a,
                    b,
                    g,
                    q,
                    wa,
                    wb,
                    pa,
                    pb,
                    f,
                    shard_of,
                    unpair,
                    p,
                    u,
                    id,
                    w,
                );
            }
            if is_covered(y, ids_b, id, w, y.len()) {
                lemma_coverage_is_settled(
                    b,
                    a,
                    g,
                    q,
                    wb,
                    wa,
                    pb,
                    pa,
                    f,
                    shard_of,
                    unpair,
                    p,
                    u,
                    id,
                    w,
                );
            }
        }
        assert(ta[id] =~= tb[id]);
    }
    assert(ta =~= tb);
}

/// Every query that is tallied has a count for each word.
pub proof fn lemma_tally_has_words(
    g: Arithmetic,
    rows: Seq<ShardRow>,
    ngrams_ids: Map<Seq<char>, Vec<usize>>,
    wrs: Seq<Score>,
    words: nat,
    n: nat,
    id: u64,
)
    requires
        n <= rows.len(),
        can_tally(g, rows, ngrams_ids, wrs, words, n),
        tally(g, rows, ngrams_ids, wrs, words, n).contains_key(id),
    ensures
        tally(g, rows, ngrams_ids, wrs, words, n)[id].len() == words,
    decreases n,
{
    if n > 0 {
        let m = (n - 1) as nat;
        let ahead = tally(g, rows, ngrams_ids, wrs, words, m);
        if ahead.contains_key(id) {
            lemma_tally_has_words(g, rows, ngrams_ids, wrs, words, m, id);
        }
        if rows[m as int].query_id == id {
            let numbers = covered_by(ngrams_ids, rows[m as int].ngram);
            lemma_cover_keeps_length(
                g,
                so_far(ahead, id, words),
                numbers,
                wrs,
                rows[m as int].weight_rel,
                numbers.len(),
                0,
            );
        }
    }
}

/// The matches are settled by what is tallied: two lists of them are the same.
pub proof fn law_matches_are_settled(
    g: Arithmetic,
    x: Seq<KeywordMatchResult>,
    y: Seq<KeywordMatchResult>,
    table: Map<u64, Seq<Score>>,
    must_have: Seq<usize>,
)
    requires
        are_matches(g, x, table, must_have),
        are_matches(g, y, table, must_have),
    ensures
        x == y,
{
    assert forall|m: KeywordMatchResult| #[trigger] x.contains(m) <==> y.contains(m) by {}
    lemma_matches_same_up_to(
        x,
        y,
        if x.len() < y.len() {
            x.len()
        } else {
            y.len()
        },
    );
    lemma_no_longer(x, y);
    lemma_no_longer(y, x);
    assert(x =~= y);
}

/// A list that starts as another does, and holds nothing else, is no longer.
proof fn lemma_no_longer(x: Seq<KeywordMatchResult>, y: Seq<KeywordMatchResult>)
    requires
        forall|i: int| 0 <= i < x.len() && i < y.len() ==> x[i] == y[i],
        is_nearest_first(y),
        forall|m: KeywordMatchResult| #[trigger] x.contains(m) <==> y.contains(m),
    ensures
        y.len() <= x.len(),
{
    if x.len() < y.len() {
        let last = y[x.len() as int];
        assert(y.contains(last));
        assert(x.contains(last));
        let k = choose|k: int| 0 <= k < x.len() && x[k] == last;
        assert(nearer(y[k], y[x.len() as int]));
    }
}

/// Two lists of the same matches, both nearest first, have the same first ones.
proof fn lemma_matches_same_up_to(
    x: Seq<KeywordMatchResult>,
    y: Seq<KeywordMatchResult>,
    n: nat,
)
    requires
        n <= x.len(),
        n <= y.len(),
        is_nearest_first(x),
        is_nearest_first(y),
        forall|m: KeywordMatchResult| #[trigger] x.contains(m) <==> y.contains(m),
    ensures
        forall|i: int| 0 <= i < n ==> x[i] == y[i],
    decreases n,
{
    if n > 0 {
        let m = n - 1;
        lemma_matches_same_up_to(x, y, m as nat);
        if x[m] != y[m] {
            assert(x.contains(x[m]) && y.contains(y[m]));
            assert(y.contains(x[m]) && x.contains(y[m]));
            let j = choose|j: int| 0 <= j < y.len() && y[j] == x[m];
            let k = choose|k: int| 0 <= k < x.len() && x[k] == y[m];
            assert(j > m) by {
                if j < m {
                    assert(nearer(x[j], x[m]));
                }
            }
            assert(k > m) by {
                if k < m {
                    assert(nearer(y[k], y[m]));
                }
            }
            assert(nearer(x[m], x[k]));
            assert(nearer(y[m], y[j]));
        }
    }
}

/// Rows of the same query say the same of where its text is.
pub open spec fn homes_are_settled(rows: Seq<ShardRow>) -> bool {
    forall|i: int, j: int|
        #![trigger rows[i], rows[j]]
        0 <= i < rows.len() && 0 <= j < rows.len() && rows[i].query_id == rows[j].query_id
            ==> rows[i].shard_query_id == rows[j].shard_query_id && rows[i].shard_id
            == rows[j].shard_id
}

/// All rows are of queries of the given number of shards.
pub open spec fn shards_are_known(rows: Seq<ShardRow>, shard_num: usize) -> bool {
    forall|i: int| 0 <= i < rows.len() ==> (#[trigger] rows[i]).shard_id < shard_num
}

/// Where the numbering gives no id twice, rows of the same query say the same of
/// where its text is.
pub proof fn law_numbering_settles_homes<'a>(
    index: Qpick<'a>,
    g: Arithmetic,
    q: Numbering,
    walk: Walk,
    parsed: ParsedQuery,
    with_tfidf: bool,
)
    requires
        tells_apart(q, index.shard_num),
        shards_are_known(index.all_rows(g, q, walk, parsed, with_tfidf), index.shard_num),
    ensures
        homes_are_settled(index.all_rows(g, q, walk, parsed, with_tfidf)),
{
    let rows = index.all_rows(g, q, walk, parsed, with_tfidf);
    assert forall|i: int| 0 <= i < rows.len() implies (#[trigger] rows[i]).query_id == q(
        rows[i].shard_query_id as u64,
        rows[i].shard_id,
        index.shard_num,
    ) by {
        let (k, at) = lemma_row_is_of_a_visit(
            index,
            g,
            q,
            walk,
            parsed,
            with_tfidf,
            walk.order.len(),
            i,
        );
        let shard = walk.order[k];
        let asked = index.asked_of(parsed.ngrams@, walk.shard_ids, shard);
        law_rows_are_of_the_ngrams(
            g,
            q,
            asked,
            walk.buckets[k],
            parsed.trs@,
            index.shards@[shard as int].shard@,
            index.id_size,
            index.shard_num,
            with_tfidf,
            asked.len(),
            at,
        );
    }
}

/// Where rows of the same query say the same of where its text is, that does not
/// depend on the walk.
pub proof fn law_homes_do_not_depend_on_the_walk<
    'a,
    'b,
    S: Fn(&String, u32) -> u32,
    U: Fn(u64) -> (u64, u64),
>(
    a: Qpick<'a>,
    b: Qpick<'b>,
    g: Arithmetic,
    q: Numbering,
    wa: Walk,
    wb: Walk,
    pa: ParsedQuery,
    pb: ParsedQuery,
    with_tfidf: (bool, bool),
    shard_of: S,
    unpair: U,
    p: Placing,
    u: Unpairing,
)
    requires
        are_walks(a, b, wa, wb, pa, pb, shard_of, unpair),
        assigns(shard_of, p),
        splits(unpair, u),
        homes_are_settled(a.all_rows(g, q, wa, pa, with_tfidf.0)),
    ensures
        walk_homes(a, g, q, wa, pa, with_tfidf.0) == walk_homes(b, g, q, wb, pb, with_tfidf.1),
{
    let back = (with_tfidf.1, with_tfidf.0);
    lemma_walks_swap(a, b, wa, wb, pa, pb, shard_of, unpair);
    let x = a.all_rows(g, q, wa, pa, with_tfidf.0);
    let y = b.all_rows(g, q, wb, pb, with_tfidf.1);
    let ha = walk_homes(a, g, q, wa, pa, with_tfidf.0);
    let hb = walk_homes(b, g, q, wb, pb, with_tfidf.1);
    assert forall|id: u64| ha.contains_key(id) <==> hb.contains_key(id) by {
        lemma_query_has_twin(a, b, g, q, wa, wb, pa, pb, with_tfidf, shard_of, unpair, p, u, id);
        lemma_query_has_twin(b, a, g, q, wb, wa, pb, pa, back, shard_of, unpair, p, u, id);
    }
    assert forall|id: u64| ha.contains_key(id) implies ha[id] == hb[id] by {
        assert(hb.contains_key(id));
        law_home_is_that_of_a_row(x, x.len(), id);
        law_home_is_that_of_a_row(y, y.len(), id);
        let i = choose|i: int|
            0 <= i < x.len() && (#[trigger] x[i]).query_id == id && ha[id] == (
                x[i].shard_query_id,
                x[i].shard_id,
            );
        let j = choose|j: int|
            0 <= j < y.len() && (#[trigger] y[j]).query_id == id && hb[id] == (
                y[j].shard_query_id,
                y[j].shard_id,
            );
        let k = lemma_row_has_twin(
            b,
            a,
            g,
            q,
            wb,
            wa,
            pb,
            pa,
            back,
            shard_of,
            unpair,
            p,
            u,
            j,
        );
        assert(x[k].query_id == x[i].query_id);
    }
    assert(ha =~= hb);
}

/// Two walks of the same query in the same order give the same rows.
pub proof fn lemma_same_order_gives_the_same_rows<
    'a,
    S: Fn(&String, u32) -> u32,
    U: Fn(u64) -> (u64, u64),
>(
    index: Qpick<'a>,
    g: Arithmetic,
    q: Numbering,
    wa: Walk,
    wb: Walk,
    pa: ParsedQuery,
    pb: ParsedQuery,
    with_tfidf: bool,
    shard_of: S,
    unpair: U,
    p: Placing,
    u: Unpairing,
    n: nat,
)
    requires
        are_walks(index, index, wa, wb, pa, pb, shard_of, unpair),
        assigns(shard_of, p),
        splits(unpair, u),
        pa@.trs == pb@.trs,
        wa.order == wb.order,
        n <= wa.order.len(),
    ensures
        index.walk_rows(g, q, wa, pa, with_tfidf, n) == index.walk_rows(
            g,
            q,
            wb,
            pb,
            with_tfidf,
            n,
        ),
    decreases n,
{
    if n > 0 {
        lemma_same_order_gives_the_same_rows(
            index,
            g,
            q,
            wa,
            wb,
            pa,
            pb,
            with_tfidf,
            shard_of,
            unpair,
            p,
            u,
            (n - 1) as nat,
        );
        let l = lemma_visit_has_twin(
            index,
            index,
            wa,
            wb,
            pa,
            pb,
            shard_of,
            unpair,
            p,
            u,
            n - 1,
        );
        assert(l == n - 1) by {
            if l != n - 1 {
                assert(wb.order[l] != wb.order[n - 1]);
            }
        }
    }
}

} // verus!
