//! Two calls for the same query give the same.
//!
//! The hooks are taken to compute functions here ([`Hooks::compute`]): what they
//! give depends on texts and numbers alone. Results are compared by what they say,
//! with their texts as sequences of characters.
use crate::agreement::{
    are_walks, homes_are_settled, law_homes_do_not_depend_on_the_walk, law_matches_are_settled,
    law_numbering_settles_homes, law_tally_does_not_depend_on_the_walk, lemma_covered_by_texts,
    lemma_same_order_gives_the_same_rows, lemma_visit_has_twin, same_texts, shards_are_known,
    walk_can_tally, walk_homes, walk_tally,
};
use crate::cosine::{MatchedTexts, MatchedWords, VectorReadings};
use crate::distances::{is_parsed_distance, Measuring};
use crate::find::{
    are_first_rows, are_row_matches, at_most, fetched, is_compared, is_row_of, law_searches_agree, rows_fit,
    wanted, Trace, FETCH_MIN,
};
use crate::hooks::{assigns, parses_to, Functions, Hooks, ParsedQuery, Placing};
use crate::index::{splits, Unpairing};
use crate::matching::{is_match, law_keyword_distance_is_not_negative, tally};
use crate::qpick::{query_text, Qpick, Walk};
use crate::results::{
    comparable, hands_out, law_items_are_handed_out_in_order, search_rows, Distance,
    DistanceResult, SearchResult,
};
use crate::score::{computes, FloatOp, Score};
use crate::search::{
    is_result, law_lowered_distance_is_not_negative, lemma_lowered_by_texts, lemma_shared_by_texts,
};
use crate::shard::{numbers, tells_apart, text_of, IndexError, ShardRow};
use crate::tables::{by_text, list_texts};
use crate::unweighted::same_index;
use crate::words::{law_tables_are_settled, one_word_each};
use fnv::{FnvHashMap, FnvHashSet};
use vstd::prelude::*;

verus! {

/// Result `i` of two searches is the same, if both have the same matches, find the
/// texts of these in the same places, and look up the same words.
proof fn lemma_result_agrees<'a, P, S, F, U, Q, E, V>(
    a: Qpick<'a>,
    b: Qpick<'a>,
    ta: Trace,
    tb: Trace,
    hooks: Hooks<P, S, F, U, Q, E, V>,
    f: Functions,
    pa: ParsedQuery,
    pb: ParsedQuery,
    ca: Option<usize>,
    cb: Option<usize>,
    with_tfidf: bool,
    ra: Seq<SearchResult>,
    rb: Seq<SearchResult>,
    i: int,
) where
    P: Fn(&str) -> ParsedQuery,
    S: Fn(&String, u32) -> u32,
    F: Fn(FloatOp) -> Score,
    U: Fn(u64) -> (u64, u64),
    Q: Fn(u64, u8, usize) -> u64,
    E: Fn(&String, &FnvHashSet<String>, &FnvHashMap<String, String>) -> MatchedWords,
    V: Fn(&Vec<String>, &MatchedWords) -> Option<VectorReadings>,

    requires
        hooks.compute(f),
        same_index(a, b),
        same_texts(pa, pb),
        one_word_each(pa@.synonyms),
        a.explains(ta, hooks, pa, ca, with_tfidf, ra),
        b.explains(tb, hooks, pb, cb, with_tfidf, rb),
        ta.matches == tb.matches,
        walk_homes(a, f.float, f.number, ta.walk, pa, with_tfidf) == walk_homes(
            b,
            f.float,
            f.number,
            tb.walk,
            pb,
            with_tfidf,
        ),
        0 <= i < ta.results.len(),
        i < tb.results.len(),
    ensures
        ta.results[i]@ == tb.results[i]@,
{
    let (g, q) = (f.float, f.number);
    let x = a.all_rows(g, q, ta.walk, pa, with_tfidf);
    let y = b.all_rows(g, q, tb.walk, pb, with_tfidf);
    assert(computes(hooks.float, g) && numbers(hooks.number, q));
    assert(a.are_results(g, x, ta, pa));
    assert(b.are_results(g, y, tb, pb));
    let (r, s) = (ta.results[i], tb.results[i]);
    let m = ta.matches[i];
    let (found_a, found_b) = (ta.found[i], tb.found[i]);
    law_tables_are_settled(
        ta.tables,
        tb.tables,
        pa.words@,
        pb.words@,
        pa.synonyms@,
        pb.synonyms@,
    );
    let index = by_text(ta.tables.index@);
    let home = walk_homes(a, g, q, ta.walk, pa, with_tfidf)[m.query_id];
    assert(text_of(r.query) == query_text(a.shards@, home));
    assert(text_of(s.query) == query_text(b.shards@, home));
    assert(query_text(a.shards@, home) == query_text(b.shards@, home)) by {
        if home.1 < a.shards@.len() {
            assert(a.shards@[home.1 as int].i2q == b.shards@[home.1 as int].i2q);
        }
    }
    assert(is_compared(hooks, ta.tables, pa.words, r, found_a, ta.vectors[i]));
    assert(is_compared(hooks, tb.tables, pb.words, s, found_b, tb.vectors[i]));
    assert(r.query->0@ == s.query->0@);
    assert(found_a@ == found_b@);
    assert(ta.vectors[i] == tb.vectors[i]);
    assert(found_a@.cand_words.len() == found_a.cand_words@.len());
    assert(found_b@.cand_words.len() == found_b.cand_words@.len());
    assert(found_a@.match_words.len() == found_a.match_words@.len());
    assert(found_b@.match_words.len() == found_b.match_words@.len());
    assert(found_a@.miss_words.len() == found_a.miss_words@.len());
    assert(found_b@.miss_words.len() == found_b.miss_words@.len());
    lemma_lowered_by_texts(
        g,
        m.dist,
        found_a.excess_words@,
        found_b.excess_words@,
        index,
        pa.wrs@,
        found_a.excess_words@.len(),
    );
    assert(pa@.words.len() == pa.words@.len() && pb@.words.len() == pb.words@.len());
    assert(is_result(
        g,
        r,
        m,
        found_a,
        ta.vectors[i],
        index,
        pa.words@.len(),
        pa.wrs@,
    ));
    assert(is_result(
        g,
        s,
        m,
        found_b,
        tb.vectors[i],
        index,
        pb.words@.len(),
        pb.wrs@,
    ));
}

/// The matches by keywords of two searches for the same are the same, whatever
/// accounts for them. The indexes may differ in the relevances of their records, and
/// the queries in those of their ngrams, where tf-idf is off; where it is on, the order
/// in which the shards are walked has to be the same.
pub proof fn law_matches_agree<'a, P, S, F, U, Q, E, V>(
    a: Qpick<'a>,
    b: Qpick<'a>,
    ta: Trace,
    tb: Trace,
    hooks: Hooks<P, S, F, U, Q, E, V>,
    f: Functions,
    pa: ParsedQuery,
    pb: ParsedQuery,
    ca: Option<usize>,
    cb: Option<usize>,
    with_tfidf: bool,
    ra: Seq<SearchResult>,
    rb: Seq<SearchResult>,
) where
    P: Fn(&str) -> ParsedQuery,
    S: Fn(&String, u32) -> u32,
    F: Fn(FloatOp) -> Score,
    U: Fn(u64) -> (u64, u64),
    Q: Fn(u64, u8, usize) -> u64,
    E: Fn(&String, &FnvHashSet<String>, &FnvHashMap<String, String>) -> MatchedWords,
    V: Fn(&Vec<String>, &MatchedWords) -> Option<VectorReadings>,

    requires
        hooks.compute(f),
        same_index(a, b),
        same_texts(pa, pb),
        with_tfidf ==> a == b && pa@.trs == pb@.trs && ta.walk.order == tb.walk.order,
        a.explains(ta, hooks, pa, ca, with_tfidf, ra),
        b.explains(tb, hooks, pb, cb, with_tfidf, rb),
    ensures
        ta.matches == tb.matches,
{
    let (g, q) = (f.float, f.number);
    let x = a.all_rows(g, q, ta.walk, pa, with_tfidf);
    let y = b.all_rows(g, q, tb.walk, pb, with_tfidf);
    assert(computes(hooks.float, g) && numbers(hooks.number, q));
    assert(rows_fit(g, x, pa) && are_row_matches(g, x, ta.matches, pa));
    assert(rows_fit(g, y, pb) && are_row_matches(g, y, tb.matches, pb));
    assert(are_walks(a, b, ta.walk, tb.walk, pa, pb, hooks.shard_of, hooks.unpair));
    if with_tfidf {
        lemma_same_order_gives_the_same_rows(
            a,
            g,
            q,
            ta.walk,
            tb.walk,
            pa,
            pb,
            true,
            hooks.shard_of,
            hooks.unpair,
            f.shard_of,
            f.unpair,
            ta.walk.order.len(),
        );
        lemma_tally_by_texts(f, pa, pb, x, x.len());
    } else {
        assert(walk_can_tally(a, g, q, ta.walk, pa, false));
        assert(walk_can_tally(b, g, q, tb.walk, pb, false));
        law_tally_does_not_depend_on_the_walk(
            a,
            b,
            g,
            q,
            ta.walk,
            tb.walk,
            pa,
            pb,
            hooks.shard_of,
            hooks.unpair,
            f.shard_of,
            f.unpair,
        );
    }
    let table = walk_tally(a, g, q, ta.walk, pa, with_tfidf);
    assert(table == walk_tally(b, g, q, tb.walk, pb, with_tfidf));
    law_matches_are_settled(g, ta.matches, tb.matches, table, pa.must_have@);
}

/// Two searches for the same agree, whatever accounts for their results: the one for
/// fewer gives the first results of the other, where both look at equally many
/// matches closer. The indexes may differ in the relevances of their records, and the
/// queries in those of their ngrams, where tf-idf is off; where it is on, the order in
/// which the shards are walked has to be the same.
pub proof fn law_two_searches_agree<'a, P, S, F, U, Q, E, V>(
    a: Qpick<'a>,
    b: Qpick<'a>,
    ta: Trace,
    tb: Trace,
    hooks: Hooks<P, S, F, U, Q, E, V>,
    f: Functions,
    pa: ParsedQuery,
    pb: ParsedQuery,
    ca: Option<usize>,
    cb: Option<usize>,
    with_tfidf: bool,
    ra: Seq<SearchResult>,
    rb: Seq<SearchResult>,
    cosines: bool,
) where
    P: Fn(&str) -> ParsedQuery,
    S: Fn(&String, u32) -> u32,
    F: Fn(FloatOp) -> Score,
    U: Fn(u64) -> (u64, u64),
    Q: Fn(u64, u8, usize) -> u64,
    E: Fn(&String, &FnvHashSet<String>, &FnvHashMap<String, String>) -> MatchedWords,
    V: Fn(&Vec<String>, &MatchedWords) -> Option<VectorReadings>,

    requires
        hooks.compute(f),
        same_index(a, b),
        same_texts(pa, pb),
        one_word_each(pa@.synonyms),
        with_tfidf ==> a == b && pa@.trs == pb@.trs && ta.walk.order == tb.walk.order,
        fetched(ca) == fetched(cb),
        wanted(ca) <= wanted(cb),
        a.explains(ta, hooks, pa, ca, with_tfidf, ra),
        b.explains(tb, hooks, pb, cb, with_tfidf, rb),
        homes_are_settled(a.all_rows(f.float, f.number, ta.walk, pa, with_tfidf)),
        comparable(ta.results, cosines),
    ensures
        ta.matches == tb.matches,
        search_rows(ta.results) == search_rows(tb.results),
        search_rows(ra) == search_rows(rb).take(at_most(rb.len(), wanted(ca)) as int),
{
    let (g, q) = (f.float, f.number);
    assert(are_walks(a, b, ta.walk, tb.walk, pa, pb, hooks.shard_of, hooks.unpair));
    law_homes_do_not_depend_on_the_walk(
        a,
        b,
        g,
        q,
        ta.walk,
        tb.walk,
        pa,
        pb,
        (with_tfidf, with_tfidf),
        hooks.shard_of,
        hooks.unpair,
        f.shard_of,
        f.unpair,
    );
    law_matches_agree(a, b, ta, tb, hooks, f, pa, pb, ca, cb, with_tfidf, ra, rb);
    assert forall|i: int| 0 <= i < ta.results.len() implies search_rows(ta.results)[i]
        == search_rows(tb.results)[i] by {
        lemma_result_agrees(
            a,
            b,
            ta,
            tb,
            hooks,
            f,
            pa,
            pb,
            ca,
            cb,
            with_tfidf,
            ra,
            rb,
            i,
        );
    }
    assert(search_rows(ta.results) =~= search_rows(tb.results));
    law_searches_agree(
        a,
        b,
        ta,
        tb,
        hooks,
        pa,
        pb,
        ca,
        cb,
        (with_tfidf, with_tfidf),
        ra,
        rb,
        cosines,
    );
}

/// What is tallied depends on the texts of the query.
proof fn lemma_tally_by_texts(
    f: Functions,
    pa: ParsedQuery,
    pb: ParsedQuery,
    rows: Seq<ShardRow>,
    n: nat,
)
    requires
        same_texts(pa, pb),
        n <= rows.len(),
    ensures
        tally(f.float, rows, by_text(pa.ngrams_ids@), pa.wrs@, pa.words@.len(), n) == tally(
            f.float,
            rows,
            by_text(pb.ngrams_ids@),
            pb.wrs@,
            pb.words@.len(),
            n,
        ),
    decreases n,
{
    assert(pa@.words.len() == pa.words@.len() && pb@.words.len() == pb.words@.len());
    if n > 0 {
        lemma_tally_by_texts(f, pa, pb, rows, (n - 1) as nat);
        lemma_covered_by_texts(pa, pb, rows[n - 1].ngram);
    }
}

/// The searches for a query are settled: whatever accounts for one, rows of the same
/// query say the same of where its text is, all results that it measures have a cosine
/// (`cosines`) or none has one, and with tf-idf it walks one shard at most.
pub open spec fn is_settled<'a, P, S, F, U, Q, E, V>(
    index: Qpick<'a>,
    hooks: Hooks<P, S, F, U, Q, E, V>,
    f: Functions,
    parsed: ParsedQuery,
    with_tfidf: bool,
    cosines: bool,
) -> bool where
    P: Fn(&str) -> ParsedQuery,
    S: Fn(&String, u32) -> u32,
    F: Fn(FloatOp) -> Score,
    U: Fn(u64) -> (u64, u64),
    Q: Fn(u64, u8, usize) -> u64,
    E: Fn(&String, &FnvHashSet<String>, &FnvHashMap<String, String>) -> MatchedWords,
    V: Fn(&Vec<String>, &MatchedWords) -> Option<VectorReadings>,
 {
    forall|trace: Trace, count: Option<usize>, r: Seq<SearchResult>| #[trigger]
        index.explains(trace, hooks, parsed, count, with_tfidf, r) ==> {
            &&& homes_are_settled(
                index.all_rows(f.float, f.number, trace.walk, parsed, with_tfidf),
            )
            &&& comparable(trace.results, cosines)
            &&& with_tfidf ==> trace.walk.order.len() <= 1
        }
}

/// Two calls of `get_matches` for the same query agree: the one for fewer gives the
/// first results of the other, up to the minimum that is fetched anyway. Without
/// tf-idf the relevances of ngrams, in the query and in the index, may differ.
pub proof fn law_two_calls_agree<'a, P, S, F, U, Q, E, V>(
    a: Qpick<'a>,
    b: Qpick<'a>,
    hooks: Hooks<P, S, F, U, Q, E, V>,
    f: Functions,
    pa: ParsedQuery,
    pb: ParsedQuery,
    ca: Option<usize>,
    cb: Option<usize>,
    with_tfidf: bool,
    ra: Seq<SearchResult>,
    rb: Seq<SearchResult>,
    cosines: bool,
) where
    P: Fn(&str) -> ParsedQuery,
    S: Fn(&String, u32) -> u32,
    F: Fn(FloatOp) -> Score,
    U: Fn(u64) -> (u64, u64),
    Q: Fn(u64, u8, usize) -> u64,
    E: Fn(&String, &FnvHashSet<String>, &FnvHashMap<String, String>) -> MatchedWords,
    V: Fn(&Vec<String>, &MatchedWords) -> Option<VectorReadings>,

    requires
        hooks.compute(f),
        same_index(a, b),
        same_texts(pa, pb),
        one_word_each(pa@.synonyms),
        with_tfidf ==> a == b && pa@.trs == pb@.trs,
        is_settled(a, hooks, f, pa, with_tfidf, cosines),
        is_settled(b, hooks, f, pb, with_tfidf, cosines),
        fetched(ca) == fetched(cb),
        wanted(ca) <= wanted(cb),
        a.finds(hooks, pa, ca, with_tfidf, ra),
        b.finds(hooks, pb, cb, with_tfidf, rb),
    ensures
        search_rows(ra) == search_rows(rb).take(at_most(rb.len(), wanted(ca)) as int),
{
    let ta = choose|ta: Trace| #[trigger] a.explains(ta, hooks, pa, ca, with_tfidf, ra);
    let tb = choose|tb: Trace| #[trigger] b.explains(tb, hooks, pb, cb, with_tfidf, rb);
    if with_tfidf {
        lemma_one_shard_is_one_order(
            a,
            ta.walk,
            tb.walk,
            pa,
            pb,
            hooks.shard_of,
            hooks.unpair,
            f.shard_of,
            f.unpair,
        );
    }
    law_two_searches_agree(
        a,
        b,
        ta,
        tb,
        hooks,
        f,
        pa,
        pb,
        ca,
        cb,
        with_tfidf,
        ra,
        rb,
        cosines,
    );
}

/// The walks that a query takes over at most one shard are in the same order.
proof fn lemma_one_shard_is_one_order<
    'a,
    S: Fn(&String, u32) -> u32,
    U: Fn(u64) -> (u64, u64),
>(
    index: Qpick<'a>,
    wa: Walk,
    wb: Walk,
    pa: ParsedQuery,
    pb: ParsedQuery,
    shard_of: S,
    unpair: U,
    p: Placing,
    u: Unpairing,
)
    requires
        same_texts(pa, pb),
        index.is_walk(wa, pa, shard_of, unpair),
        index.is_walk(wb, pb, shard_of, unpair),
        assigns(shard_of, p),
        splits(unpair, u),
        wa.order.len() <= 1,
        wb.order.len() <= 1,
    ensures
        wa.order == wb.order,
{
    assert(same_index(index, index));
    if wa.order.len() == 1 {
        let l = lemma_visit_has_twin(index, index, wa, wb, pa, pb, shard_of, unpair, p, u, 0);
    }
    if wb.order.len() == 1 {
        let l = lemma_visit_has_twin(index, index, wb, wa, pb, pa, shard_of, unpair, p, u, 0);
    }
    assert(wa.order =~= wb.order);
}

/// All ways to take a query with this text apart are settled, and give no two words
/// the same synonym.
pub open spec fn text_is_settled<'a, P, S, F, U, Q, E, V>(
    index: Qpick<'a>,
    hooks: Hooks<P, S, F, U, Q, E, V>,
    f: Functions,
    query: Seq<char>,
    with_tfidf: bool,
    cosines: bool,
) -> bool where
    P: Fn(&str) -> ParsedQuery,
    S: Fn(&String, u32) -> u32,
    F: Fn(FloatOp) -> Score,
    U: Fn(u64) -> (u64, u64),
    Q: Fn(u64, u8, usize) -> u64,
    E: Fn(&String, &FnvHashSet<String>, &FnvHashMap<String, String>) -> MatchedWords,
    V: Fn(&Vec<String>, &MatchedWords) -> Option<VectorReadings>,
 {
    &&& one_word_each((f.parse)(query).synonyms)
    &&& forall|parsed: ParsedQuery| #[trigger]
        parses_to(hooks.parse, query, parsed) ==> is_settled(
            index,
            hooks,
            f,
            parsed,
            with_tfidf,
            cosines,
        )
}

/// Two calls of `get` for the same query agree: the one for fewer gives the first
/// results of the other, up to the minimum that is fetched anyway. Calls for equally
/// many give the same.
pub proof fn law_two_calls_of_get_agree<'a, P, S, F, U, Q, E, V>(
    index: Qpick<'a>,
    hooks: Hooks<P, S, F, U, Q, E, V>,
    f: Functions,
    query: Seq<char>,
    ca: u32,
    cb: u32,
    with_tfidf: bool,
    a: Vec<SearchResult>,
    b: Vec<SearchResult>,
    cosines: bool,
) where
    P: Fn(&str) -> ParsedQuery,
    S: Fn(&String, u32) -> u32,
    F: Fn(FloatOp) -> Score,
    U: Fn(u64) -> (u64, u64),
    Q: Fn(u64, u8, usize) -> u64,
    E: Fn(&String, &FnvHashSet<String>, &FnvHashMap<String, String>) -> MatchedWords,
    V: Fn(&Vec<String>, &MatchedWords) -> Option<VectorReadings>,

    requires
        hooks.compute(f),
        text_is_settled(index, hooks, f, query, with_tfidf, cosines),
        ca <= cb,
        ca == cb || cb <= FETCH_MIN,
        index.is_answer(hooks, query, ca, with_tfidf, Ok(a)),
        index.is_answer(hooks, query, cb, with_tfidf, Ok(b)),
    ensures
        search_rows(a@) == search_rows(b@).take(at_most(b@.len(), ca as nat) as int),
        ca == cb ==> search_rows(a@) == search_rows(b@),
{
    if query.len() > 0 && ca > 0 {
        let pa = choose|pa: ParsedQuery| #[trigger]
            parses_to(hooks.parse, query, pa) && index.answers(hooks, pa, ca, with_tfidf, Ok(a));
        let pb = choose|pb: ParsedQuery| #[trigger]
            parses_to(hooks.parse, query, pb) && index.answers(hooks, pb, cb, with_tfidf, Ok(b));
        assert(pa@ == (f.parse)(query) && pb@ == (f.parse)(query));
        assert(same_index(index, index));
        law_two_calls_agree(
            index,
            index,
            hooks,
            f,
            pa,
            pb,
            Some(ca as usize),
            Some(cb as usize),
            with_tfidf,
            a@,
            b@,
            cosines,
        );
        if ca == cb {
            law_two_calls_agree(
                index,
                index,
                hooks,
                f,
                pb,
                pa,
                Some(cb as usize),
                Some(ca as usize),
                with_tfidf,
                b@,
                a@,
                cosines,
            );
            assert(search_rows(a@).len() == a@.len() && search_rows(b@).len() == b@.len());
            assert(search_rows(a@) =~= search_rows(b@));
        }
    } else {
        assert(a@.len() == 0);
        assert(search_rows(a@) =~= search_rows(b@).take(at_most(b@.len(), ca as nat) as int));
        if ca == cb {
            assert(search_rows(a@) =~= search_rows(b@));
        }
    }
}

/// As long as no more are fetched for thirty times as many than anyway, the rows for
/// writing out are those of a call of `get` for the count itself.
pub proof fn law_few_rows_are_those_of_get<'a, P, S, F, U, Q, E, V>(
    index: Qpick<'a>,
    hooks: Hooks<P, S, F, U, Q, E, V>,
    f: Functions,
    query: Seq<char>,
    count: u32,
    with_tfidf: bool,
    rows: Seq<(u64, Distance, String)>,
    list: Vec<SearchResult>,
    cosines: bool,
) where
    P: Fn(&str) -> ParsedQuery,
    S: Fn(&String, u32) -> u32,
    F: Fn(FloatOp) -> Score,
    U: Fn(u64) -> (u64, u64),
    Q: Fn(u64, u8, usize) -> u64,
    E: Fn(&String, &FnvHashSet<String>, &FnvHashMap<String, String>) -> MatchedWords,
    V: Fn(&Vec<String>, &MatchedWords) -> Option<VectorReadings>,

    requires
        hooks.compute(f),
        text_is_settled(index, hooks, f, query, with_tfidf, cosines),
        30 * count <= FETCH_MIN,
        index.are_answer_rows(hooks, query, count, with_tfidf, rows),
        index.is_answer(hooks, query, count, with_tfidf, Ok(list)),
    ensures
        rows.len() == list@.len(),
        forall|i: int| 0 <= i < rows.len() ==> is_row_of(#[trigger] rows[i], list@[i]),
{
    let all = choose|all: Vec<SearchResult>| #[trigger]
        index.is_answer(hooks, query, (30 * count) as u32, with_tfidf, Ok(all)) && are_first_rows(
            rows,
            all@,
            count as nat,
        );
    law_two_calls_of_get_agree(
        index,
        hooks,
        f,
        query,
        count,
        (30 * count) as u32,
        with_tfidf,
        list,
        all,
        cosines,
    );
    assert(search_rows(list@).len() == list@.len() && search_rows(all@).len() == all@.len());
    assert forall|i: int| 0 <= i < rows.len() implies is_row_of(#[trigger] rows[i], list@[i]) by {
        assert(search_rows(list@)[i] == search_rows(all@)[i]);
        assert(list@[i]@ == all@[i]@);
        assert(is_row_of(rows[i], all@[i]));
    }
}

/// Without word vectors all results that a search measures compare by their keyword
/// distances.
pub proof fn law_without_vectors_all_results_compare<'a, P, S, F, U, Q, E, V>(
    index: Qpick<'a>,
    hooks: Hooks<P, S, F, U, Q, E, V>,
    f: Functions,
    parsed: ParsedQuery,
    trace: Trace,
    count: Option<usize>,
    with_tfidf: bool,
    r: Seq<SearchResult>,
) where
    P: Fn(&str) -> ParsedQuery,
    S: Fn(&String, u32) -> u32,
    F: Fn(FloatOp) -> Score,
    U: Fn(u64) -> (u64, u64),
    Q: Fn(u64, u8, usize) -> u64,
    E: Fn(&String, &FnvHashSet<String>, &FnvHashMap<String, String>) -> MatchedWords,
    V: Fn(&Vec<String>, &MatchedWords) -> Option<VectorReadings>,

    requires
        hooks.compute(f),
        forall|words: Seq<Seq<char>>, found: MatchedTexts| #[trigger]
            (f.vectors)(words, found) is None,
        index.explains(trace, hooks, parsed, count, with_tfidf, r),
    ensures
        comparable(trace.results, false),
{
    let (g, q) = (f.float, f.number);
    let rows = index.all_rows(g, q, trace.walk, parsed, with_tfidf);
    assert(computes(hooks.float, g) && numbers(hooks.number, q));
    assert(are_row_matches(g, rows, trace.matches, parsed));
    assert(index.are_results(g, rows, trace, parsed));
    let table = walk_tally(index, g, q, trace.walk, parsed, with_tfidf);
    assert forall|i: int| 0 <= i < trace.results.len() implies (#[trigger] trace.results[i]).dist.cosine
        is Some == false && !trace.results[i].dist.keyword.is_nan() by {
        let m = trace.matches[i];
        assert(trace.matches.contains(m));
        assert(is_match(g, m, table, parsed.must_have@));
        law_keyword_distance_is_not_negative(g, table[m.query_id]);
        let found = trace.found[i];
        assert(is_compared(
            hooks,
            trace.tables,
            parsed.words,
            trace.results[i],
            found,
            trace.vectors[i],
        ));
        assert(trace.vectors[i] == (f.vectors)(list_texts(parsed.words@), found@));
        law_lowered_distance_is_not_negative(
            g,
            m.dist,
            found.excess_words@,
            by_text(trace.tables.index@),
            parsed.wrs@,
            found.excess_words@.len(),
        );
    }
}

/// Searches without word vectors and without tf-idf are settled, where the numbering
/// gives no id twice and all records are of shards of the index.
pub proof fn law_searches_without_vectors_are_settled<'a, P, S, F, U, Q, E, V>(
    index: Qpick<'a>,
    hooks: Hooks<P, S, F, U, Q, E, V>,
    f: Functions,
    parsed: ParsedQuery,
) where
    P: Fn(&str) -> ParsedQuery,
    S: Fn(&String, u32) -> u32,
    F: Fn(FloatOp) -> Score,
    U: Fn(u64) -> (u64, u64),
    Q: Fn(u64, u8, usize) -> u64,
    E: Fn(&String, &FnvHashSet<String>, &FnvHashMap<String, String>) -> MatchedWords,
    V: Fn(&Vec<String>, &MatchedWords) -> Option<VectorReadings>,

    requires
        hooks.compute(f),
        forall|words: Seq<Seq<char>>, found: MatchedTexts| #[trigger]
            (f.vectors)(words, found) is None,
        tells_apart(f.number, index.shard_num),
        forall|walk: Walk| #[trigger]
            index.is_walk(walk, parsed, hooks.shard_of, hooks.unpair) ==> shards_are_known(
                index.all_rows(f.float, f.number, walk, parsed, false),
                index.shard_num,
            ),
    ensures
        is_settled(index, hooks, f, parsed, false, false),
{
    assert forall|trace: Trace, count: Option<usize>, r: Seq<SearchResult>| #[trigger]
        index.explains(trace, hooks, parsed, count, false, r) implies homes_are_settled(
        index.all_rows(f.float, f.number, trace.walk, parsed, false),
    ) && comparable(trace.results, false) by {
        law_numbering_settles_homes(index, f.float, f.number, trace.walk, parsed, false);
        law_without_vectors_all_results_compare(
            index,
            hooks,
            f,
            parsed,
            trace,
            count,
            false,
            r,
        );
    }
}

/// What a call of `get_search_results` hands out, one by one, are the results of a
/// call of `get` for the same, in their order, and then none. `left` lists what is
/// left ahead of each item and after the last.
pub proof fn law_handed_out_results_are_those_of_get<'a, P, S, F, U, Q, E, V>(
    index: Qpick<'a>,
    hooks: Hooks<P, S, F, U, Q, E, V>,
    f: Functions,
    query: Seq<char>,
    count: u32,
    with_tfidf: bool,
    answer: Vec<SearchResult>,
    list: Vec<SearchResult>,
    left: Seq<Seq<SearchResult>>,
    items: Seq<Option<SearchResult>>,
    k: int,
    cosines: bool,
) where
    P: Fn(&str) -> ParsedQuery,
    S: Fn(&String, u32) -> u32,
    F: Fn(FloatOp) -> Score,
    U: Fn(u64) -> (u64, u64),
    Q: Fn(u64, u8, usize) -> u64,
    E: Fn(&String, &FnvHashSet<String>, &FnvHashMap<String, String>) -> MatchedWords,
    V: Fn(&Vec<String>, &MatchedWords) -> Option<VectorReadings>,

    requires
        hooks.compute(f),
        text_is_settled(index, hooks, f, query, with_tfidf, cosines),
        index.is_answer(hooks, query, count, with_tfidf, Ok(answer)),
        index.is_answer(hooks, query, count, with_tfidf, Ok(list)),
        left.len() == items.len() + 1,
        left[0] == answer@,
        forall|i: int|
            0 <= i < items.len() ==> hands_out(left[i], #[trigger] items[i], left[i + 1]),
        0 <= k < items.len(),
    ensures
        items[k] is Some <==> k < list@.len(),
        items[k] is Some ==> items[k]->0@ == list@[k]@,
{
    law_two_calls_of_get_agree(
        index,
        hooks,
        f,
        query,
        count,
        count,
        with_tfidf,
        answer,
        list,
        cosines,
    );
    law_items_are_handed_out_in_order(left, items, k);
    assert(search_rows(answer@).len() == answer@.len());
    assert(search_rows(list@).len() == list@.len());
    if k < list@.len() {
        assert(search_rows(answer@)[k] == answer@[k]@);
        assert(search_rows(list@)[k] == list@[k]@);
    }
}

/// The distance of a candidate is settled by its text: candidates with the same text
/// are equally far from queries of the same texts, whatever the other candidates are
/// and whatever accounts for the distances.
pub proof fn law_distance_of_a_candidate_is_settled<'a, P, S, F, U, Q, E, V>(
    a: Qpick<'a>,
    b: Qpick<'a>,
    ma: Measuring,
    mb: Measuring,
    hooks: Hooks<P, S, F, U, Q, E, V>,
    f: Functions,
    pa: ParsedQuery,
    pb: ParsedQuery,
    ca: Seq<String>,
    cb: Seq<String>,
    ra: Seq<DistanceResult>,
    rb: Seq<DistanceResult>,
    i: int,
    j: int,
) where
    P: Fn(&str) -> ParsedQuery,
    S: Fn(&String, u32) -> u32,
    F: Fn(FloatOp) -> Score,
    U: Fn(u64) -> (u64, u64),
    Q: Fn(u64, u8, usize) -> u64,
    E: Fn(&String, &FnvHashSet<String>, &FnvHashMap<String, String>) -> MatchedWords,
    V: Fn(&Vec<String>, &MatchedWords) -> Option<VectorReadings>,

    requires
        hooks.compute(f),
        same_texts(pa, pb),
        one_word_each(pa@.synonyms),
        pa.synonyms_fit(),
        a.measures(ma, hooks, pa, ca, ra),
        b.measures(mb, hooks, pb, cb, rb),
        0 <= i < ra.len(),
        0 <= j < rb.len(),
        ca[i]@ == cb[j]@,
    ensures
        ra[i]@.query == rb[j]@.query,
        ra[i].dist.keyword == rb[j].dist.keyword,
        ra[i].dist.cosine == rb[j].dist.cosine,
        ra[i].dist.query_id == i,
        rb[j].dist.query_id == j,
{
    let g = f.float;
    assert(computes(hooks.float, g));
    law_tables_are_settled(
        ma.tables,
        mb.tables,
        pa.words@,
        pb.words@,
        pa.synonyms@,
        pb.synonyms@,
    );
    let index = by_text(ma.tables.index@);
    let (x, y) = (ma.parsed[i], mb.parsed[j]);
    let (found_a, found_b) = (ma.found[i], mb.found[j]);
    assert(a.is_measured(
        hooks,
        ma.tables,
        pa.words,
        pa.wrs@.len(),
        ca[i],
        x,
        found_a,
        ma.vectors[i],
    ));
    assert(b.is_measured(
        hooks,
        mb.tables,
        pb.words,
        pb.wrs@.len(),
        cb[j],
        y,
        found_b,
        mb.vectors[j],
    ));
    assert(x@ == (f.parse)(ca[i]@) && y@ == (f.parse)(cb[j]@));
    assert(found_a@ == found_b@);
    assert(ma.vectors[i] == mb.vectors[j]);
    assert(found_a@.cand_words.len() == found_a.cand_words@.len());
    assert(found_b@.cand_words.len() == found_b.cand_words@.len());
    assert(found_a@.match_words.len() == found_a.match_words@.len());
    assert(found_b@.match_words.len() == found_b.match_words@.len());
    assert(found_a@.miss_words.len() == found_a.miss_words@.len());
    assert(found_b@.miss_words.len() == found_b.miss_words@.len());
    assert(found_a@.excess_words.len() == found_a.excess_words@.len());
    assert(found_b@.excess_words.len() == found_b.excess_words@.len());
    assert(pa@.words.len() == pa.words@.len() && pb@.words.len() == pb.words@.len());
    assert(x@.wrs == x.wrs@ && y@.wrs == y.wrs@);
    lemma_shared_by_texts(
        g,
        index,
        pa.words@.len(),
        pa.wrs@,
        x.words@,
        y.words@,
        x.wrs@,
        x.words@.len(),
    );
    assert(is_parsed_distance(
        g,
        ra[i],
        i as u64,
        ca[i],
        x,
        found_a,
        ma.vectors[i],
        index,
        pa.words@.len(),
        pa.wrs@,
    ));
    assert(is_parsed_distance(
        g,
        rb[j],
        j as u64,
        cb[j],
        y,
        found_b,
        mb.vectors[j],
        index,
        pb.words@.len(),
        pb.wrs@,
    ));
}

/// Candidates that are joined keep their distances: of three calls of `get_distances`
/// for the same query, for two lists of candidates and for both joined, the last gives
/// what the first two give, with the candidates of the second list numbered on.
pub proof fn law_three_calls_of_get_distances_agree<'a, P, S, F, U, Q, E, V>(
    index: Qpick<'a>,
    hooks: Hooks<P, S, F, U, Q, E, V>,
    f: Functions,
    query: Seq<char>,
    a: Seq<String>,
    b: Seq<String>,
    both: Seq<String>,
    ra: Vec<DistanceResult>,
    rb: Vec<DistanceResult>,
    r: Vec<DistanceResult>,
) where
    P: Fn(&str) -> ParsedQuery,
    S: Fn(&String, u32) -> u32,
    F: Fn(FloatOp) -> Score,
    U: Fn(u64) -> (u64, u64),
    Q: Fn(u64, u8, usize) -> u64,
    E: Fn(&String, &FnvHashSet<String>, &FnvHashMap<String, String>) -> MatchedWords,
    V: Fn(&Vec<String>, &MatchedWords) -> Option<VectorReadings>,

    requires
        hooks.compute(f),
        query.len() > 0,
        one_word_each((f.parse)(query).synonyms),
        list_texts(both) == list_texts(a) + list_texts(b),
        index.are_distances(hooks, query, a, Ok(ra)),
        index.are_distances(hooks, query, b, Ok(rb)),
        index.are_distances(hooks, query, both, Ok(r)),
    ensures
        r@.len() == ra@.len() + rb@.len(),
        forall|i: int| 0 <= i < ra@.len() ==> (#[trigger] r@[i])@ == ra@[i]@,
        forall|j: int|
            0 <= j < rb@.len() ==> {
                let one = #[trigger] r@[ra@.len() + j];
                &&& one@.query == rb@[j]@.query
                &&& one.dist.keyword == rb@[j].dist.keyword
                &&& one.dist.cosine == rb@[j].dist.cosine
                &&& one.dist.query_id == ra@.len() + rb@[j].dist.query_id
            },
{
    let ok_a = Ok::<Vec<DistanceResult>, IndexError>(ra);
    let ok_b = Ok::<Vec<DistanceResult>, IndexError>(rb);
    let ok = Ok::<Vec<DistanceResult>, IndexError>(r);
    let pa = choose|pa: ParsedQuery| #[trigger]
        parses_to(hooks.parse, query, pa) && index.measured(hooks, pa, a, ok_a);
    let pb = choose|pb: ParsedQuery| #[trigger]
        parses_to(hooks.parse, query, pb) && index.measured(hooks, pb, b, ok_b);
    let pc = choose|pc: ParsedQuery| #[trigger]
        parses_to(hooks.parse, query, pc) && index.measured(hooks, pc, both, ok);
    assert(pa@ == (f.parse)(query) && pb@ == (f.parse)(query) && pc@ == (f.parse)(query));
    let ma = choose|m: Measuring| #[trigger] index.measures(m, hooks, pa, a, ra@);
    let mb = choose|m: Measuring| #[trigger] index.measures(m, hooks, pb, b, rb@);
    let mc = choose|m: Measuring| #[trigger] index.measures(m, hooks, pc, both, r@);
    assert(list_texts(a).len() == a.len() && list_texts(b).len() == b.len());
    assert(list_texts(both).len() == both.len());
    assert forall|i: int| 0 <= i < ra@.len() implies (#[trigger] r@[i])@ == ra@[i]@ by {
        assert(list_texts(both)[i] == list_texts(a)[i]);
        law_distance_of_a_candidate_is_settled(
            index,
            index,
            mc,
            ma,
            hooks,
            f,
            pc,
            pa,
            both,
            a,
            r@,
            ra@,
            i,
            i,
        );
    }
    assert forall|j: int| 0 <= j < rb@.len() implies {
        let one = #[trigger] r@[ra@.len() + j];
        &&& one@.query == rb@[j]@.query
        &&& one.dist.keyword == rb@[j].dist.keyword
        &&& one.dist.cosine == rb@[j].dist.cosine
        &&& one.dist.query_id == ra@.len() + rb@[j].dist.query_id
    } by {
        let i = ra@.len() + j;
        assert(list_texts(both)[i] == list_texts(b)[j]);
        law_distance_of_a_candidate_is_settled(
            index,
            index,
            mc,
            mb,
            hooks,
            f,
            pc,
            pb,
            both,
            b,
            r@,
            rb@,
            i,
            j,
        );
    }
}

} // verus!
