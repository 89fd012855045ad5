//! What becomes of the rows of a search.
//!
//! The laws here say of each result where it comes from: which rows count for which
//! words, which queries match, what a result says of its query, and which results are
//! given in which order. They say the same of the distances of candidates.
use crate::cosine::{vector_distance, MatchedWords, VectorReadings};
use crate::distances::Measuring;
use crate::find::{
    are_first_rows, are_row_matches, at_most, fetched,
    law_results_are_limited_distinct_and_in_order, rows_fit, wanted, Trace,
};
use crate::hooks::{parses_to, Hooks, ParsedQuery};
use crate::index::numbered;
use crate::matching::{
    are_matches, can_cover, can_look, can_tally, cover, covered_by, has_first, homes,
    is_nearest_first, is_once_each, keyword_distance, law_tallied_queries_have_homes, nearer,
    so_far, tally, uncovered,
};
use crate::qpick::{query_text, Qpick, Walk};
use crate::ranking::Ranked;
use crate::results::{are_ranked, Distance, DistanceResult, KeywordMatchResult, SearchResult};
use crate::score::{computes, score, zero, Arithmetic, FloatOp, Score};
use crate::search::{excess_fits, lowered, shared, shares_fit};
use crate::shard::{numbers, text_of, IndexError, Numbering, ShardRow};
use crate::tables::{by_text, list_texts, texts, value_texts};
use crate::words::{has_word, is_synonym, lists, WordTables};
use fnv::{FnvHashMap, FnvHashSet};
use std::cmp::Ordering;
use vstd::prelude::*;
use vstd::std_specs::cmp::{PartialEqSpec, PartialOrdSpec};

verus! {

/// Covering words with a weight: each word with one of the numbers, if it counted for
/// nothing before, counts for its relevance times the weight, and no other changes.
pub proof fn law_covered_words_count_for_their_relevance(
    g: Arithmetic,
    rels: Seq<Score>,
    list: Seq<usize>,
    wrs: Seq<Score>,
    weight: Score,
    n: nat,
    w: int,
)
    requires
        n <= list.len(),
        forall|k: int| 0 <= k < n ==> (#[trigger] list[k]) < rels.len(),
        0 <= w < rels.len(),
    ensures
        cover(g, rels, list, wrs, weight, n).len() == rels.len(),
        cover(g, rels, list, wrs, weight, n)[w] == (if (rels[w].bits == 0 || rels[w].bits
            == 0x8000_0000) && (exists|k: int| 0 <= k < n && #[trigger] list[k] == w) {
            g(FloatOp::Times(wrs[w], weight))
        } else {
            rels[w]
        }),
    decreases n,
{
    if n > 0 {
        let m = (n - 1) as nat;
        law_covered_words_count_for_their_relevance(g, rels, list, wrs, weight, m, w);
        law_covered_words_count_for_their_relevance(
            g,
            rels,
            list,
            wrs,
            weight,
            m,
            list[m as int] as int,
        );
        assert((exists|k: int| 0 <= k < n && #[trigger] list[k] == w) <==> (exists|k: int|
            0 <= k < m && #[trigger] list[k] == w) || list[m as int] == w);
    }
}

/// The ngram of a row covers the word with this number.
pub open spec fn row_covers(
    row: ShardRow,
    ngrams_ids: Map<Seq<char>, Vec<usize>>,
    w: int,
) -> bool {
    ngrams_ids.contains_key(row.ngram) && exists|k: int|
        0 <= k < ngrams_ids[row.ngram]@.len() && #[trigger] ngrams_ids[row.ngram]@[k] == w
}

/// Every ngram covers words of the query only.
pub open spec fn cover_words_only(ngrams_ids: Map<Seq<char>, Vec<usize>>, words: nat) -> bool {
    forall|ngram: Seq<char>, k: int|
        #![trigger ngrams_ids[ngram]@[k]]
        ngrams_ids.contains_key(ngram) && 0 <= k < ngrams_ids[ngram]@.len()
            ==> ngrams_ids[ngram]@[k] < words
}

/// One more row: its query is counted from then on, with all words. Each word that the
/// ngram of the row covers, and that counted for nothing in this query, counts for its
/// relevance times the weight of the row. No other word and no other query changes.
pub proof fn law_one_more_row_is_counted(
    g: Arithmetic,
    rows: Seq<ShardRow>,
    ngrams_ids: Map<Seq<char>, Vec<usize>>,
    wrs: Seq<Score>,
    words: nat,
    n: nat,
    id: u64,
    w: int,
)
    requires
        n < rows.len(),
        cover_words_only(ngrams_ids, words),
        0 <= w < words,
    ensures
        tally(g, rows, ngrams_ids, wrs, words, 0) == Map::<u64, Seq<Score>>::empty(),
        ({
            let row = rows[n as int];
            let before = tally(g, rows, ngrams_ids, wrs, words, n);
            let after = tally(g, rows, ngrams_ids, wrs, words, n + 1);
            let was = if before.contains_key(row.query_id) {
                before[row.query_id][w]
            } else {
                Score { bits: 0 }
            };
            &&& after.contains_key(id) <==> before.contains_key(id) || id == row.query_id
            &&& id != row.query_id && before.contains_key(id) ==> after[id] == before[id]
            &&& after[row.query_id].len() == words
            &&& after[row.query_id][w] == if row_covers(row, ngrams_ids, w) && was.same(zero()) {
                g(FloatOp::Times(wrs[w], row.weight_rel))
            } else {
                was
            }
        }),
{
    let row = rows[n as int];
    let before = tally(g, rows, ngrams_ids, wrs, words, n);
    let list = covered_by(ngrams_ids, row.ngram);
    lemma_counted_words(g, rows, ngrams_ids, wrs, words, n, row.query_id);
    let rels = so_far(before, row.query_id, words);
    assert forall|k: int| 0 <= k < list.len() implies (#[trigger] list[k]) < rels.len() by {
        assert(ngrams_ids[row.ngram]@[k] < words);
    }
    law_covered_words_count_for_their_relevance(
        g,
        rels,
        list,
        wrs,
        row.weight_rel,
        list.len(),
        w,
    );
}

/// Every query that is counted is counted with all words.
proof fn lemma_counted_words(
    g: Arithmetic,
    rows: Seq<ShardRow>,
    ngrams_ids: Map<Seq<char>, Vec<usize>>,
    wrs: Seq<Score>,
    words: nat,
    n: nat,
    id: u64,
)
    requires
        n <= rows.len(),
        cover_words_only(ngrams_ids, words),
    ensures
        tally(g, rows, ngrams_ids, wrs, words, n).contains_key(id) ==> tally(
            g,
            rows,
            ngrams_ids,
            wrs,
            words,
            n,
        )[id].len() == words,
    decreases n,
{
    if n > 0 {
        let m = (n - 1) as nat;
        let row = rows[m as int];
        lemma_counted_words(g, rows, ngrams_ids, wrs, words, m, id);
        let before = tally(g, rows, ngrams_ids, wrs, words, m);
        let list = covered_by(ngrams_ids, row.ngram);
        let rels = so_far(before, row.query_id, words);
        if row.query_id == id {
            assert forall|k: int| 0 <= k < list.len() implies (#[trigger] list[k]) < rels.len() by {
                assert(ngrams_ids[row.ngram]@[k] < words);
            }
            if words > 0 {
                law_covered_words_count_for_their_relevance(
                    g,
                    rels,
                    list,
                    wrs,
                    row.weight_rel,
                    list.len(),
                    0,
                );
            } else {
                assert(list.len() == 0) by {
                    if list.len() > 0 {
                        assert(list[0] < rels.len());
                    }
                }
            }
        }
    }
}

/// A word counts for its relevance times the weight of the first row of the query that
/// covers it and gives more than nothing; if no row does, it counts for nothing.
pub proof fn law_first_row_that_gives_something_counts(
    g: Arithmetic,
    rows: Seq<ShardRow>,
    ngrams_ids: Map<Seq<char>, Vec<usize>>,
    wrs: Seq<Score>,
    words: nat,
    n: nat,
    id: u64,
    w: int,
    j: int,
)
    requires
        n <= rows.len(),
        cover_words_only(ngrams_ids, words),
        0 <= w < words,
        tally(g, rows, ngrams_ids, wrs, words, n).contains_key(id),
        // Row `j` is the first one that gives something, if it is among the rows.
        forall|i: int|
            #![trigger rows[i]]
            0 <= i < n && i < j && rows[i].query_id == id && row_covers(rows[i], ngrams_ids, w)
                ==> g(FloatOp::Times(wrs[w], rows[i].weight_rel)).same(zero()),
        0 <= j < n ==> rows[j].query_id == id && row_covers(rows[j], ngrams_ids, w) && !g(
            FloatOp::Times(wrs[w], rows[j].weight_rel),
        ).same(zero()),
        0 <= j,
    ensures
        ({
            let counted = tally(g, rows, ngrams_ids, wrs, words, n)[id][w];
            &&& j < n ==> counted == g(FloatOp::Times(wrs[w], rows[j].weight_rel))
            &&& j >= n ==> counted.same(zero())
        }),
    decreases n,
{
    if n > 0 {
        let m = (n - 1) as nat;
        law_one_more_row_is_counted(g, rows, ngrams_ids, wrs, words, m, id, w);
        if tally(g, rows, ngrams_ids, wrs, words, m).contains_key(id) {
            law_first_row_that_gives_something_counts(
                g,
                rows,
                ngrams_ids,
                wrs,
                words,
                m,
                id,
                w,
                j,
            );
        } else if j < m {
            law_tallied_queries_have_homes(g, rows, ngrams_ids, wrs, words, m);
            assert(rows[j].query_id == id);
            assert(homes(rows, m).contains_key(id));
            assert(tally(g, rows, ngrams_ids, wrs, words, m).dom().contains(id));
        }
    }
}

/// A query has its text where the first of its rows says.
pub proof fn law_first_row_says_where_the_text_is(rows: Seq<ShardRow>, n: nat, id: u64, j: int)
    requires
        n <= rows.len(),
        0 <= j < n,
        rows[j].query_id == id,
        forall|i: int| 0 <= i < j ==> (#[trigger] rows[i]).query_id != id,
    ensures
        homes(rows, n).contains_key(id),
        homes(rows, n)[id] == (rows[j].shard_query_id, rows[j].shard_id),
    decreases n,
{
    let m = (n - 1) as nat;
    if j < m {
        law_first_row_says_where_the_text_is(rows, m, id, j);
    } else {
        lemma_no_home_without_a_row(rows, m, id);
    }
}

/// A query without a row has no home.
proof fn lemma_no_home_without_a_row(rows: Seq<ShardRow>, n: nat, id: u64)
    requires
        n <= rows.len(),
        forall|i: int| 0 <= i < n ==> (#[trigger] rows[i]).query_id != id,
    ensures
        !homes(rows, n).contains_key(id),
    decreases n,
{
    if n > 0 {
        lemma_no_home_without_a_row(rows, (n - 1) as nat, id);
        assert(rows[n - 1].query_id != id);
    }
}

/// The words of a row can be covered exactly if each number is one of a word, and each
/// word that counts for nothing when it is covered has a relevance.
pub proof fn law_words_can_be_covered_if_they_are_there(
    g: Arithmetic,
    rels: Seq<Score>,
    list: Seq<usize>,
    wrs: Seq<Score>,
    weight: Score,
    n: nat,
)
    requires
        n <= list.len(),
    ensures
        can_cover(g, rels, list, wrs, weight, n) <==> forall|k: int|
            0 <= k < n ==> (#[trigger] list[k]) < rels.len() && (cover(
                g,
                rels,
                list,
                wrs,
                weight,
                k as nat,
            )[list[k] as int].same(zero()) ==> list[k] < wrs.len()),
    decreases n,
{
    if n > 0 {
        law_words_can_be_covered_if_they_are_there(g, rels, list, wrs, weight, (n - 1) as nat);
        if can_cover(g, rels, list, wrs, weight, n) {
            assert forall|k: int| 0 <= k < n implies (#[trigger] list[k]) < rels.len() && (cover(
                g,
                rels,
                list,
                wrs,
                weight,
                k as nat,
            )[list[k] as int].same(zero()) ==> list[k] < wrs.len()) by {
                if k < n - 1 {
                    assert(list[k] < rels.len());
                }
            }
        }
    }
}

/// Rows can be counted if their ngrams cover words of the query that have a relevance.
pub proof fn law_rows_can_be_counted_if_words_have_relevances(
    g: Arithmetic,
    rows: Seq<ShardRow>,
    ngrams_ids: Map<Seq<char>, Vec<usize>>,
    wrs: Seq<Score>,
    words: nat,
    n: nat,
)
    requires
        n <= rows.len(),
        cover_words_only(ngrams_ids, words),
        words <= wrs.len(),
    ensures
        can_tally(g, rows, ngrams_ids, wrs, words, n),
    decreases n,
{
    if n > 0 {
        let m = (n - 1) as nat;
        let row = rows[m as int];
        law_rows_can_be_counted_if_words_have_relevances(g, rows, ngrams_ids, wrs, words, m);
        let before = tally(g, rows, ngrams_ids, wrs, words, m);
        let list = covered_by(ngrams_ids, row.ngram);
        lemma_counted_words(g, rows, ngrams_ids, wrs, words, m, row.query_id);
        let rels = so_far(before, row.query_id, words);
        assert forall|k: int| 0 <= k < list.len() implies (#[trigger] list[k]) < rels.len()
            && list[k] < wrs.len() by {
            assert(ngrams_ids[row.ngram]@[k] < words);
        }
        law_words_can_be_covered_if_they_are_there(
            g,
            rels,
            list,
            wrs,
            row.weight_rel,
            list.len(),
        );
    }
}

/// One more row can be counted exactly if those ahead of it can, and the words that its
/// ngram covers can be covered in what is counted of its query so far.
pub proof fn law_one_more_row_can_be_counted(
    g: Arithmetic,
    rows: Seq<ShardRow>,
    ngrams_ids: Map<Seq<char>, Vec<usize>>,
    wrs: Seq<Score>,
    words: nat,
    n: nat,
)
    requires
        n < rows.len(),
    ensures
        can_tally(g, rows, ngrams_ids, wrs, words, 0),
        ({
            let row = rows[n as int];
            let before = tally(g, rows, ngrams_ids, wrs, words, n);
            let rels = if before.contains_key(row.query_id) {
                before[row.query_id]
            } else {
                Seq::new(words, |i: int| Score { bits: 0 })
            };
            can_tally(g, rows, ngrams_ids, wrs, words, n + 1) <==> {
                &&& can_tally(g, rows, ngrams_ids, wrs, words, n)
                &&& ngrams_ids.contains_key(row.ngram) ==> can_cover(
                    g,
                    rels,
                    ngrams_ids[row.ngram]@,
                    wrs,
                    row.weight_rel,
                    ngrams_ids[row.ngram]@.len(),
                )
            }
        }),
{
    let row = rows[n as int];
    let before = tally(g, rows, ngrams_ids, wrs, words, n);
    assert(uncovered(words) =~= Seq::new(words, |i: int| Score { bits: 0 }));
}

/// The rows of a search fit a query exactly if they can be counted, and in each query that
/// they find the words that must be there can be looked for.
pub proof fn law_rows_fit_if_they_can_be_counted(
    g: Arithmetic,
    rows: Seq<ShardRow>,
    parsed: ParsedQuery,
)
    ensures
        ({
            let ids = by_text(parsed.ngrams_ids@);
            let (wrs, words) = (parsed.wrs@, parsed.words@.len());
            let table = tally(g, rows, ids, wrs, words, rows.len());
            rows_fit(g, rows, parsed) <==> {
                &&& can_tally(g, rows, ids, wrs, words, rows.len())
                &&& forall|id: u64| #[trigger]
                    table.contains_key(id) ==> can_look(table[id], parsed.must_have@)
            }
        }),
{
}

/// Words in excess can be looked at exactly if each that the index finds has a relevance;
/// the words of a candidate, exactly if each that the index finds has one both in the query
/// and in the candidate.
pub proof fn law_found_words_need_relevances(
    list: Seq<String>,
    index: Map<Seq<char>, usize>,
    relevances: nat,
    cand_relevances: nat,
)
    ensures
        excess_fits(list, index, relevances) <==> forall|i: int|
            0 <= i < list.len() ==> !index.contains_key((#[trigger] list[i])@) || index[list[i]@]
                < relevances,
        shares_fit(index, relevances, list, cand_relevances) <==> forall|i: int|
            0 <= i < list.len() ==> !index.contains_key((#[trigger] list[i])@) || (index[list[i]@]
                < relevances && i < cand_relevances),
{
}

/// Looking for the words that must be there looks for words of the query only, exactly if
/// each number up to the first word that counts for nothing is one of a word.
pub proof fn law_must_have_words_can_be_looked_for(rels: Seq<Score>, must_have: Seq<usize>)
    ensures
        can_look(rels, must_have) <==> forall|i: int|
            #![trigger must_have[i]]
            0 <= i < must_have.len() && (forall|j: int|
                0 <= j < i ==> zero().below(rels[(#[trigger] must_have[j]) as int]))
                ==> must_have[i] < rels.len(),
{
    if can_look(rels, must_have) {
        assert forall|i: int|
            #![trigger must_have[i]]
            0 <= i < must_have.len() && (forall|j: int|
                0 <= j < i ==> zero().below(
                    rels[(#[trigger] must_have[j]) as int],
                )) implies must_have[i] < rels.len() by {
            assert(has_first(rels, must_have, i));
        }
    }
}

/// A query fits together exactly if every synonym is one of a word, every word has a
/// relevance, every ngram covers words with a relevance, and every word that must be
/// there is one of the query.
pub proof fn law_query_fits_together(parsed: ParsedQuery)
    ensures
        parsed.wf() <==> {
            let ids = by_text(parsed.ngrams_ids@);
            &&& forall|number: usize| #[trigger]
                parsed.synonyms@.contains_key(number) ==> number < parsed.words@.len()
            &&& parsed.words@.len() <= parsed.wrs@.len()
            &&& cover_words_only(ids, parsed.words@.len())
            &&& forall|i: int|
                0 <= i < parsed.must_have@.len() ==> (#[trigger] parsed.must_have@[i])
                    < parsed.words@.len()
        },
{
    if parsed.wf() {
        let ids = by_text(parsed.ngrams_ids@);
        assert forall|ngram: Seq<char>, k: int|
            #![trigger ids[ngram]@[k]]
            ids.contains_key(ngram) && 0 <= k < ids[ngram]@.len() implies ids[ngram]@[k]
            < parsed.words@.len() by {}
    }
}

/// A query matches exactly if it was found, counts each word that must be there for more
/// than nothing, and is nearer than 0.951 by its keywords; its match says how near. Of two
/// matches the nearer one stands ahead, and of two that are equally near the one of the
/// lower id.
pub proof fn law_matches_are_all_near_queries_in_order(
    g: Arithmetic,
    matches: Seq<KeywordMatchResult>,
    table: Map<u64, Seq<Score>>,
    must_have: Seq<usize>,
    id: u64,
    i: int,
    j: int,
)
    requires
        are_matches(g, matches, table, must_have),
    ensures
        (exists|k: int| 0 <= k < matches.len() && (#[trigger] matches[k]).query_id == id) <==> {
            &&& table.contains_key(id)
            &&& forall|k: int|
                0 <= k < must_have.len() ==> zero().below(
                    table[id][(#[trigger] must_have[k]) as int],
                )
            &&& keyword_distance(g, table[id]).below(score(0x3f73_74bc))
        },
        0 <= i < matches.len() ==> matches[i].dist == keyword_distance(
            g,
            table[matches[i].query_id],
        ),
        0 <= i < j < matches.len() ==> matches[i].dist.below(matches[j].dist) || (matches[i].dist
            .same(matches[j].dist) && matches[i].query_id < matches[j].query_id),
{
    if 0 <= i < matches.len() {
        assert(matches.contains(matches[i]));
    }
    if exists|k: int| 0 <= k < matches.len() && (#[trigger] matches[k]).query_id == id {
        let k = choose|k: int| 0 <= k < matches.len() && (#[trigger] matches[k]).query_id == id;
        assert(matches.contains(matches[k]));
    }
    let m = KeywordMatchResult { query_id: id, dist: keyword_distance(g, table[id]) };
    if table.contains_key(id) && (forall|k: int|
        0 <= k < must_have.len() ==> zero().below(table[id][(#[trigger] must_have[k]) as int]))
        && keyword_distance(g, table[id]).below(score(0x3f73_74bc)) {
        assert(matches.contains(m));
        let k = choose|k: int| 0 <= k < matches.len() && matches[k] == m;
        assert(matches[k].query_id == id);
    }
}

/// As many results are wanted as are asked for, or else two hundred; and as many matches
/// are looked at closer, but two hundred at least.
pub proof fn law_two_hundred_matches_at_least(count: Option<usize>, a: nat, b: nat)
    ensures
        wanted(None) == 200,
        count is Some ==> wanted(count) == count->0,
        wanted(count) >= 200 ==> fetched(count) == wanted(count),
        wanted(count) <= 200 ==> fetched(count) == 200,
        at_most(a, b) <= a && at_most(a, b) <= b,
        at_most(a, b) == a || at_most(a, b) == b,
{
}

/// Two distances compare by their cosines if both have one, whatever their keyword
/// distances are; else by these. Equally far ones compare by the query id.
pub proof fn law_distances_compare_by_cosine_first(a: Distance, b: Distance)
    ensures
        ({
            let (x, y) = if a.cosine is Some && b.cosine is Some {
                (a.cosine->0, b.cosine->0)
            } else {
                (a.keyword, b.keyword)
            };
            &&& x.below(y) ==> a.compare(b) == Some(Ordering::Less)
            &&& y.below(x) ==> a.compare(b) == Some(Ordering::Greater)
            &&& x.same(y) && a.query_id < b.query_id ==> a.compare(b) == Some(Ordering::Less)
            &&& x.same(y) && a.query_id == b.query_id ==> a.compare(b) == Some(Ordering::Equal)
            &&& x.same(y) && a.query_id > b.query_id ==> a.compare(b) == Some(Ordering::Greater)
            &&& x.is_nan() || y.is_nan() ==> a.compare(b) is None
            &&& a.same(b) <==> x.same(y)
        }),
{
}

/// Two results compare as their distances do, and equally far ones by their query ids;
/// two matches compare so by their keyword distances.
pub proof fn law_results_compare_by_distance(
    a: SearchResult,
    b: SearchResult,
    m: KeywordMatchResult,
    o: KeywordMatchResult,
)
    ensures
        !a.dist.same(b.dist) ==> a.compare(b) == a.dist.compare(b.dist),
        a.dist.same(b.dist) && a.query_id < b.query_id ==> a.compare(b) == Some(Ordering::Less),
        a.dist.same(b.dist) && a.query_id == b.query_id ==> a.compare(b) == Some(Ordering::Equal),
        a.dist.same(b.dist) && a.query_id > b.query_id ==> a.compare(b) == Some(Ordering::Greater),
        m.dist.below(o.dist) ==> m.compare(o) == Some(Ordering::Less),
        o.dist.below(m.dist) ==> m.compare(o) == Some(Ordering::Greater),
        m.dist.same(o.dist) && m.query_id < o.query_id ==> m.compare(o) == Some(Ordering::Less),
        m.dist.same(o.dist) && m.query_id == o.query_id ==> m.compare(o) == Some(Ordering::Equal),
        m.dist.same(o.dist) && m.query_id > o.query_id ==> m.compare(o) == Some(Ordering::Greater),
        m.dist.is_nan() || o.dist.is_nan() ==> m.compare(o) is None,
        a.after(b) <==> a.compare(b) == Some(Ordering::Greater),
        m.after(o) <==> m.compare(o) == Some(Ordering::Greater),
{
}

/// Distances, matches and results are equal if they are equally far, whatever their ids
/// are, and scores if they are the same number; and all of them are ordered by how they
/// compare.
pub proof fn law_equally_far_is_equal(
    a: Distance,
    b: Distance,
    m: KeywordMatchResult,
    o: KeywordMatchResult,
    r: SearchResult,
    s: SearchResult,
    x: Score,
    y: Score,
)
    ensures
        a.cosine is Some && b.cosine is Some ==> (a.eq_spec(&b) <==> a.cosine->0.same(
            b.cosine->0,
        )),
        a.cosine is None || b.cosine is None ==> (a.eq_spec(&b) <==> a.keyword.same(b.keyword)),
        m.eq_spec(&o) <==> m.dist.same(o.dist),
        r.eq_spec(&s) <==> r.dist.eq_spec(&s.dist),
        x.eq_spec(&y) <==> x.same(y),
        a.partial_cmp_spec(&b) == a.compare(b),
        m.partial_cmp_spec(&o) == m.compare(o),
        r.partial_cmp_spec(&s) == r.compare(s),
        x.partial_cmp_spec(&y) == (if x.below(y) {
            Some(Ordering::Less)
        } else if y.below(x) {
            Some(Ordering::Greater)
        } else if x.same(y) {
            Some(Ordering::Equal)
        } else {
            None
        }),
{
}

/// Results in order are the same results, each as often, and none compares as greater than
/// its neighbour on the right.
pub proof fn law_order_keeps_every_result(
    ranked: Seq<SearchResult>,
    results: Seq<SearchResult>,
    i: int,
)
    requires
        are_ranked(ranked, results),
    ensures
        ranked.to_multiset() == results.to_multiset(),
        ranked.len() == results.len(),
        0 <= i < ranked.len() - 1 ==> ranked[i].compare(ranked[i + 1]) != Some(Ordering::Greater),
{
    broadcast use vstd::seq_lib::group_to_multiset_ensures;

    assert(ranked.len() == ranked.to_multiset().len());
    assert(results.len() == results.to_multiset().len());
    if 0 <= i < ranked.len() - 1 {
        assert(!ranked[i].after(ranked[i + 1]));
    }
}

/// A pattern is read as IEEE 754 says: the highest bit is the sign, and the other bits, as
/// a whole number, are larger for a number further from zero, up to those of infinity;
/// beyond them stands no number.
pub proof fn law_patterns_are_read_by_sign_and_magnitude(a: Score, b: Score)
    ensures
        a.is_nan() <==> (0x7f80_0000 < a.bits < 0x8000_0000) || 0xff80_0000 < a.bits,
        !a.is_nan() && !b.is_nan() ==> {
            &&& a.bits < 0x8000_0000 && b.bits < 0x8000_0000 ==> (a.below(b) <==> a.bits < b.bits)
            &&& a.bits >= 0x8000_0000 && b.bits >= 0x8000_0000 ==> (a.below(b) <==> a.bits > b.bits)
            &&& a.bits >= 0x8000_0000 && b.bits < 0x8000_0000 ==> (a.below(b) <==> !(a.bits
                == 0x8000_0000 && b.bits == 0))
            &&& a.bits < 0x8000_0000 && b.bits >= 0x8000_0000 ==> !a.below(b)
            &&& a.same(b) <==> a.bits == b.bits || (a.bits == 0 && b.bits == 0x8000_0000) || (a.bits
                == 0x8000_0000 && b.bits == 0)
        },
        a.is_nan() || b.is_nan() ==> !a.below(b) && !a.same(b),
        zero().bits == 0,
        // The first counts only if it is the larger or the smaller one.
        a.larger(b) == (if b.below(a) {
            a
        } else {
            b
        }),
        a.smaller(b) == (if a.below(b) {
            a
        } else {
            b
        }),
{
}

/// The tables of a query: the index finds every word and every synonym, and nothing else.
/// A text that is no synonym is found as the last word with it. A synonym is found as a
/// word that has it. The words are those of the query, without synonyms.
pub proof fn law_tables_find_words_and_synonyms(
    tables: WordTables,
    words: Seq<String>,
    synonyms: Map<usize, String>,
    text: Seq<char>,
)
    requires
        tables.describe(words, synonyms),
    ensures
        ({
            let index = by_text(tables.index@);
            let is_word = exists|i: int| 0 <= i < words.len() && (#[trigger] words[i])@ == text;
            let is_other = exists|n: usize| #[trigger]
                synonyms.contains_key(n) && synonyms[n]@ == text;
            &&& index.contains_key(text) <==> is_word || is_other
            &&& is_other ==> synonyms.contains_key(index[text]) && synonyms[index[text]]@ == text
            &&& is_word && !is_other ==> index[text] < words.len() && words[index[text] as int]@
                == text && forall|j: int|
                index[text] < j < words.len() ==> (#[trigger] words[j])@ != text
            &&& texts(tables.words@).contains(text) <==> is_word
            &&& by_text(tables.synonyms@).contains_key(text) <==> is_other
            &&& is_other ==> exists|n: usize| #[trigger]
                synonyms.contains_key(n) && synonyms[n]@ == text && by_text(tables.synonyms@)[text]@
                    == words[n as int]@
        }),
{
    let index = by_text(tables.index@);
    if exists|n: usize| #[trigger] synonyms.contains_key(n) && synonyms[n]@ == text {
        let n = choose|n: usize| #[trigger] synonyms.contains_key(n) && synonyms[n]@ == text;
        assert(is_synonym(synonyms, n, text));
        assert(has_word(synonyms, text));
    }
    if has_word(synonyms, text) {
        let n = choose|n: usize| #[trigger] is_synonym(synonyms, n, text);
        assert(synonyms.contains_key(n) && synonyms[n]@ == text);
    }
    assert(index.contains_key(text) <==> has_word(synonyms, text)
        || lists(words, text));
    assert(texts(tables.words@).contains(text) <==> lists(words, text));
    let table = by_text(tables.synonyms@);
    assert(table.contains_key(text) <==> has_word(synonyms, text));
    if table.contains_key(text) {
        let n = choose|n: usize| #[trigger]
            is_synonym(synonyms, n, text) && by_text(tables.synonyms@)[text]@
                == words[n as int]@;
        assert(synonyms.contains_key(n) && synonyms[n]@ == text);
    }
}

/// A result of a search says of its query: its id; its keyword distance, lowered by the
/// words in excess; its distance by word vectors, for that keyword distance and as many
/// words as were compared; and the text that stands where the index says.
pub proof fn law_result_says_what_was_found<'a, P, S, F, U, Q, E, V>(
    index: Qpick<'a>,
    trace: Trace,
    hooks: Hooks<P, S, F, U, Q, E, V>,
    parsed: ParsedQuery,
    count: Option<usize>,
    with_tfidf: bool,
    r: Seq<SearchResult>,
    g: Arithmetic,
    q: Numbering,
    i: int,
) -> (k: int) where
    P: Fn(&str) -> ParsedQuery,
    S: Fn(&String, u32) -> u32,
    F: Fn(FloatOp) -> Score,
    U: Fn(u64) -> (u64, u64),
    Q: Fn(u64, u8, usize) -> u64,
    E: Fn(&String, &FnvHashSet<String>, &FnvHashMap<String, String>) -> MatchedWords,
    V: Fn(&Vec<String>, &MatchedWords) -> Option<VectorReadings>,

    requires
        index.explains(trace, hooks, parsed, count, with_tfidf, r),
        computes(hooks.float, g),
        numbers(hooks.number, q),
        0 <= i < r.len(),
    ensures
        ({
            let rows = index.all_rows(g, q, trace.walk, parsed, with_tfidf);
            let table = tally(
                g,
                rows,
                by_text(parsed.ngrams_ids@),
                parsed.wrs@,
                parsed.words@.len(),
                rows.len(),
            );
            let id = r[i].query_id;
            let found = trace.found[k];
            let words = by_text(trace.tables.index@);
            let near = lowered(
                g,
                keyword_distance(g, table[id]),
                found.excess_words@,
                words,
                parsed.wrs@,
                found.excess_words@.len(),
            );
            &&& 0 <= k < trace.matches.len()
            &&& k < trace.found.len() && k < trace.vectors.len()
            &&& k < 200 || (count is Some && k < count->0)
            &&& trace.matches[k].query_id == id
            &&& trace.tables.describe(parsed.words@, parsed.synonyms@)
            &&& table.contains_key(id)
            &&& forall|m: int|
                0 <= m < parsed.must_have@.len() ==> zero().below(
                    table[id][(#[trigger] parsed.must_have@[m]) as int],
                )
            &&& keyword_distance(g, table[id]).below(score(0x3f73_74bc))
            &&& r[i].dist.query_id == id
            &&& r[i].dist.keyword == near
            &&& r[i].dist.cosine == vector_distance(
                g,
                trace.vectors[k],
                parsed.words@.len(),
                found.cand_words@.len(),
                found.match_words@.len(),
                found.miss_words@.len(),
                found.excess_words@.len(),
                near,
            )
            &&& r[i].query is Some
            &&& text_of(r[i].query) == query_text(index.shards@, homes(rows, rows.len())[id])
            &&& hooks.match_words.ensures(
                (&r[i].query->0, &trace.tables.words, &trace.tables.synonyms),
                found,
            )
            &&& hooks.vectors.ensures((&parsed.words, &found), trace.vectors[k])
        }),
{
    law_results_are_limited_distinct_and_in_order(
        index,
        trace,
        hooks,
        parsed,
        count,
        with_tfidf,
        r,
    );
    assert(trace.results.contains(r[i]));
    let k = choose|k: int| 0 <= k < trace.results.len() && trace.results[k] == r[i];
    assert(trace.results[k] == r[i]);
    assert(trace.matches.contains(trace.matches[k]));
    let rows = index.all_rows(g, q, trace.walk, parsed, with_tfidf);
    assert(are_row_matches(g, rows, trace.matches, parsed));
    assert(index.are_results(g, rows, trace, parsed));
    k
}

/// No near query is left out: if a query was found, has every word that must be there and
/// is nearer than 0.951 by its keywords, it is among the matches; and if there are not
/// more matches than are wanted, it is among the results. No match that was not looked at
/// closer is nearer by its keywords than one that was.
pub proof fn law_no_near_query_is_left_out<'a, P, S, F, U, Q, E, V>(
    index: Qpick<'a>,
    trace: Trace,
    hooks: Hooks<P, S, F, U, Q, E, V>,
    parsed: ParsedQuery,
    count: Option<usize>,
    with_tfidf: bool,
    r: Seq<SearchResult>,
    g: Arithmetic,
    q: Numbering,
    id: u64,
) -> (k: int) where
    P: Fn(&str) -> ParsedQuery,
    S: Fn(&String, u32) -> u32,
    F: Fn(FloatOp) -> Score,
    U: Fn(u64) -> (u64, u64),
    Q: Fn(u64, u8, usize) -> u64,
    E: Fn(&String, &FnvHashSet<String>, &FnvHashMap<String, String>) -> MatchedWords,
    V: Fn(&Vec<String>, &MatchedWords) -> Option<VectorReadings>,

    requires
        index.explains(trace, hooks, parsed, count, with_tfidf, r),
        computes(hooks.float, g),
        numbers(hooks.number, q),
        ({
            let rows = index.all_rows(g, q, trace.walk, parsed, with_tfidf);
            let table = tally(
                g,
                rows,
                by_text(parsed.ngrams_ids@),
                parsed.wrs@,
                parsed.words@.len(),
                rows.len(),
            );
            &&& table.contains_key(id)
            &&& forall|m: int|
                0 <= m < parsed.must_have@.len() ==> zero().below(
                    table[id][(#[trigger] parsed.must_have@[m]) as int],
                )
            &&& keyword_distance(g, table[id]).below(score(0x3f73_74bc))
        }),
    ensures
        0 <= k < trace.matches.len(),
        trace.matches[k].query_id == id,
        count is None && trace.matches.len() <= 200 ==> exists|i: int|
            0 <= i < r.len() && (#[trigger] r[i]).query_id == id,
        count is Some && trace.matches.len() <= count->0 ==> exists|i: int|
            0 <= i < r.len() && (#[trigger] r[i]).query_id == id,
        // Those that are looked at closer are the nearest.
        forall|a: int, b: int|
            #![trigger trace.results[a], trace.matches[b]]
            0 <= a < trace.results.len() && trace.results.len() <= b < trace.matches.len()
                ==> !trace.matches[b].dist.below(trace.matches[a].dist),
        trace.matches.len() <= 200 ==> trace.results.len() == trace.matches.len(),
        trace.matches.len() > 200 ==> trace.results.len() >= 200,
{
    broadcast use vstd::seq_lib::group_to_multiset_ensures;

    let rows = index.all_rows(g, q, trace.walk, parsed, with_tfidf);
    let table = tally(
        g,
        rows,
        by_text(parsed.ngrams_ids@),
        parsed.wrs@,
        parsed.words@.len(),
        rows.len(),
    );
    assert(are_row_matches(g, rows, trace.matches, parsed));
    law_matches_are_all_near_queries_in_order(
        g,
        trace.matches,
        table,
        parsed.must_have@,
        id,
        0,
        0,
    );
    let k = choose|k: int|
        0 <= k < trace.matches.len() && (#[trigger] trace.matches[k]).query_id == id;
    if trace.matches.len() <= wanted(count) {
        let ranked = trace.ranked;
        assert(trace.results[k].query_id == id);
        assert(trace.results.contains(trace.results[k]));
        assert(trace.results.to_multiset().count(trace.results[k]) > 0);
        assert(ranked.contains(trace.results[k]));
        let i = choose|i: int| 0 <= i < ranked.len() && ranked[i] == trace.results[k];
        assert(ranked.len() == trace.results.len()) by {
            assert(ranked.len() == ranked.to_multiset().len());
            assert(trace.results.len() == trace.results.to_multiset().len());
        }
        assert(r =~= ranked);
        assert(r[i].query_id == id);
    }
    assert forall|a: int, b: int|
        #![trigger trace.results[a], trace.matches[b]]
        0 <= a < trace.results.len() && trace.results.len() <= b
            < trace.matches.len() implies !trace.matches[b].dist.below(trace.matches[a].dist) by {
        assert(nearer(trace.matches[a], trace.matches[b]));
    }
    k
}

/// The answer to a query that is not empty, where results are asked for, is what searching
/// for it gives, taken apart by the hook: so many results as are asked for at most, or why
/// the search fails. Else the answer is that there is nothing.
pub proof fn law_answer_is_what_searching_gives<'a, P, S, F, U, Q, E, V>(
    index: Qpick<'a>,
    hooks: Hooks<P, S, F, U, Q, E, V>,
    query: Seq<char>,
    count: u32,
    with_tfidf: bool,
    answer: Result<Vec<SearchResult>, IndexError>,
) -> (parsed: ParsedQuery) where
    P: Fn(&str) -> ParsedQuery,
    S: Fn(&String, u32) -> u32,
    F: Fn(FloatOp) -> Score,
    U: Fn(u64) -> (u64, u64),
    Q: Fn(u64, u8, usize) -> u64,
    E: Fn(&String, &FnvHashSet<String>, &FnvHashMap<String, String>) -> MatchedWords,
    V: Fn(&Vec<String>, &MatchedWords) -> Option<VectorReadings>,

    requires
        index.is_answer(hooks, query, count, with_tfidf, answer),
    ensures
        query.len() == 0 || count == 0 ==> answer is Ok && answer->Ok_0@.len() == 0,
        query.len() > 0 && count > 0 ==> {
            &&& exists|text: &str| #[trigger] hooks.parse.ensures((text,), parsed) && text@ == query
            &&& match answer {
                Ok(list) => list@.len() <= count && exists|trace: Trace| #[trigger]
                    index.explains(
                        trace,
                        hooks,
                        parsed,
                        Some(count as usize),
                        with_tfidf,
                        list@,
                    ),
                Err(e) => index.search_fails(
                    e,
                    hooks,
                    parsed,
                    Some(count as usize),
                    with_tfidf,
                ),
            }
        },
{
    if query.len() > 0 && count > 0 {
        let parsed = choose|parsed: ParsedQuery| #[trigger]
            parses_to(hooks.parse, query, parsed) && index.answers(
                hooks,
                parsed,
                count,
                with_tfidf,
                answer,
            );
        if let Ok(list) = answer {
            let trace = choose|trace: Trace| #[trigger]
                index.explains(
                    trace,
                    hooks,
                    parsed,
                    Some(count as usize),
                    with_tfidf,
                    list@,
                );
            law_results_are_limited_distinct_and_in_order(
                index,
                trace,
                hooks,
                parsed,
                Some(count as usize),
                with_tfidf,
                list@,
            );
        }
        parsed
    } else {
        arbitrary()
    }
}

/// The rows for writing an answer out are those of its first results, as many as are asked
/// for or as there are: each has the id, the distance and the text of the result. The
/// answer is one for thirty times as many.
pub proof fn law_rows_are_those_of_the_first_results<'a, P, S, F, U, Q, E, V>(
    index: Qpick<'a>,
    hooks: Hooks<P, S, F, U, Q, E, V>,
    query: Seq<char>,
    count: u32,
    with_tfidf: bool,
    rows: Seq<(u64, Distance, String)>,
) -> (list: Vec<SearchResult>) where
    P: Fn(&str) -> ParsedQuery,
    S: Fn(&String, u32) -> u32,
    F: Fn(FloatOp) -> Score,
    U: Fn(u64) -> (u64, u64),
    Q: Fn(u64, u8, usize) -> u64,
    E: Fn(&String, &FnvHashSet<String>, &FnvHashMap<String, String>) -> MatchedWords,
    V: Fn(&Vec<String>, &MatchedWords) -> Option<VectorReadings>,

    requires
        index.are_answer_rows(hooks, query, count, with_tfidf, rows),
        30 * count <= u32::MAX,
    ensures
        index.is_answer(
            hooks,
            query,
            (30 * count) as u32,
            with_tfidf,
            Ok(list),
        ),
        list@.len() <= count ==> rows.len() == list@.len(),
        list@.len() > count ==> rows.len() == count,
        forall|i: int|
            0 <= i < rows.len() ==> {
                &&& (#[trigger] rows[i]).0 == list@[i].query_id
                &&& rows[i].1 == list@[i].dist
                &&& list@[i].query is Some ==> rows[i].2@ == (list@[i].query->0)@
                &&& list@[i].query is None ==> rows[i].2@.len() == 0
            },
{
    choose|list: Vec<SearchResult>| #[trigger]
        index.is_answer(hooks, query, (30 * count) as u32, with_tfidf, Ok(list))
            && are_first_rows(rows, list@, count as nat)
}

/// The distance of a candidate says of it: its number; its text; the keyword distance of
/// what its words share with those of the query; and the distance by word vectors, for
/// that keyword distance and as many words as were compared.
pub proof fn law_distance_says_what_was_measured<'a, P, S, F, U, Q, E, V>(
    index: Qpick<'a>,
    m: Measuring,
    hooks: Hooks<P, S, F, U, Q, E, V>,
    parsed: ParsedQuery,
    candidates: Seq<String>,
    r: Seq<DistanceResult>,
    g: Arithmetic,
    i: int,
) where
    P: Fn(&str) -> ParsedQuery,
    S: Fn(&String, u32) -> u32,
    F: Fn(FloatOp) -> Score,
    U: Fn(u64) -> (u64, u64),
    Q: Fn(u64, u8, usize) -> u64,
    E: Fn(&String, &FnvHashSet<String>, &FnvHashMap<String, String>) -> MatchedWords,
    V: Fn(&Vec<String>, &MatchedWords) -> Option<VectorReadings>,

    requires
        index.measures(m, hooks, parsed, candidates, r),
        computes(hooks.float, g),
        0 <= i < r.len(),
    ensures
        ({
            let words = by_text(m.tables.index@);
            let cand = m.parsed[i];
            let found = m.found[i];
            let keyword = keyword_distance(
                g,
                shared(
                    g,
                    words,
                    parsed.words@.len(),
                    parsed.wrs@,
                    cand.words@,
                    cand.wrs@,
                    cand.words@.len(),
                ),
            );
            &&& i < candidates.len()
            &&& m.tables.describe(parsed.words@, parsed.synonyms@)
            &&& exists|text: &str| #[trigger]
                hooks.parse.ensures((text,), cand) && text@ == candidates[i]@
            &&& hooks.match_words.ensures(
                (&candidates[i], &m.tables.words, &m.tables.synonyms),
                found,
            )
            &&& hooks.vectors.ensures((&parsed.words, &found), m.vectors[i])
            &&& r[i].query@ == candidates[i]@
            &&& r[i].dist.query_id == i
            &&& r[i].dist.keyword == keyword
            &&& r[i].dist.cosine == vector_distance(
                g,
                m.vectors[i],
                parsed.words@.len(),
                found.cand_words@.len(),
                found.match_words@.len(),
                found.miss_words@.len(),
                found.excess_words@.len(),
                keyword,
            )
        }),
{
    assert(r[i] == r[i]);
    assert(index.is_measured(
        hooks,
        m.tables,
        parsed.words,
        parsed.wrs@.len(),
        candidates[i],
        m.parsed[i],
        m.found[i],
        m.vectors[i],
    ));
}

/// Every candidate gets a distance, in the order of the candidates, unless the query is
/// empty: then there are none. The only error is that of a query or a candidate that does
/// not fit together.
pub proof fn law_every_candidate_gets_a_distance<'a, P, S, F, U, Q, E, V>(
    index: Qpick<'a>,
    hooks: Hooks<P, S, F, U, Q, E, V>,
    query: Seq<char>,
    candidates: Seq<String>,
    r: Result<Vec<DistanceResult>, IndexError>,
) -> (out: (ParsedQuery, Measuring, int, ParsedQuery)) where
    P: Fn(&str) -> ParsedQuery,
    S: Fn(&String, u32) -> u32,
    F: Fn(FloatOp) -> Score,
    U: Fn(u64) -> (u64, u64),
    Q: Fn(u64, u8, usize) -> u64,
    E: Fn(&String, &FnvHashSet<String>, &FnvHashMap<String, String>) -> MatchedWords,
    V: Fn(&Vec<String>, &MatchedWords) -> Option<VectorReadings>,

    requires
        index.are_distances(hooks, query, candidates, r),
    ensures
        query.len() == 0 ==> r is Ok && r->Ok_0@.len() == 0,
        query.len() > 0 ==> parses_to(hooks.parse, query, out.0),
        query.len() > 0 && r is Ok ==> {
            let list = r->Ok_0@;
            &&& list.len() == candidates.len()
            &&& index.measures(out.1, hooks, out.0, candidates, list)
            &&& forall|i: int|
                0 <= i < candidates.len() ==> (#[trigger] list[i]).query@ == candidates[i]@
                    && list[i].dist.query_id == i
        },
        query.len() > 0 && r is Err ==> r->Err_0 is BadQuery,
        query.len() > 0 && r is Err && out.0.synonyms_fit() ==> {
            let (parsed, _, i, cand) = out;
            &&& 0 <= i < candidates.len()
            &&& parses_to(hooks.parse, candidates[i]@, cand)
            &&& parsed.words@.len() > parsed.wrs@.len() || cand.words@.len() > cand.wrs@.len()
        },
{
    if query.len() > 0 {
        let parsed = choose|parsed: ParsedQuery| #[trigger]
            parses_to(hooks.parse, query, parsed) && index.measured(
                hooks,
                parsed,
                candidates,
                r,
            );
        match r {
            Ok(list) => {
                let m = choose|m: Measuring| #[trigger]
                    index.measures(m, hooks, parsed, candidates, list@);
                (parsed, m, 0, parsed)
            },
            Err(_) => {
                if parsed.synonyms_fit() {
                    let (i, cand, tables) = choose|i: int, cand: ParsedQuery, tables: WordTables|
                        {
                            &&& 0 <= i < candidates.len()
                            &&& #[trigger] parses_to(hooks.parse, candidates[i]@, cand)
                            &&& #[trigger] tables.describe(parsed.words@, parsed.synonyms@)
                            &&& !shares_fit(
                                by_text(tables.index@),
                                parsed.wrs@.len(),
                                cand.words@,
                                cand.wrs@.len(),
                            )
                            &&& parsed.words@.len() > parsed.wrs@.len() || cand.words@.len()
                                > cand.wrs@.len()
                        };
                    (parsed, arbitrary(), i, cand)
                } else {
                    (parsed, arbitrary(), 0, parsed)
                }
            },
        }
    } else {
        arbitrary()
    }
}

/// A search fails for a reason: the text of one of the matches that are looked at closer is
/// not where the index says; or the query does not fit together; or a shard or a bucket is
/// missing that the query needs.
pub proof fn law_search_fails_for_a_reason<'a, P, S, F, U, Q, E, V>(
    index: Qpick<'a>,
    e: IndexError,
    hooks: Hooks<P, S, F, U, Q, E, V>,
    parsed: ParsedQuery,
    count: Option<usize>,
    with_tfidf: bool,
    g: Arithmetic,
    q: Numbering,
) -> (out: (Walk, Seq<KeywordMatchResult>, int)) where
    P: Fn(&str) -> ParsedQuery,
    S: Fn(&String, u32) -> u32,
    F: Fn(FloatOp) -> Score,
    U: Fn(u64) -> (u64, u64),
    Q: Fn(u64, u8, usize) -> u64,
    E: Fn(&String, &FnvHashSet<String>, &FnvHashMap<String, String>) -> MatchedWords,
    V: Fn(&Vec<String>, &MatchedWords) -> Option<VectorReadings>,

    requires
        index.search_fails(e, hooks, parsed, count, with_tfidf),
        computes(hooks.float, g),
        numbers(hooks.number, q),
    ensures
        e is UnknownQuery ==> {
            let (walk, matches, i) = out;
            let rows = index.all_rows(g, q, walk, parsed, with_tfidf);
            &&& index.is_walk(walk, parsed, hooks.shard_of, hooks.unpair)
            &&& 0 <= i < matches.len()
            &&& i < 200 || (count is Some && i < count->0)
            &&& query_text(index.shards@, homes(rows, rows.len())[matches[i].query_id]) is None
            &&& tally(
                g,
                rows,
                by_text(parsed.ngrams_ids@),
                parsed.wrs@,
                parsed.words@.len(),
                rows.len(),
            ).contains_key(matches[i].query_id)
        },
        e is BadQuery ==> !({
            &&& forall|number: usize| #[trigger]
                parsed.synonyms@.contains_key(number) ==> number < parsed.words@.len()
            &&& parsed.words@.len() <= parsed.wrs@.len()
            &&& cover_words_only(by_text(parsed.ngrams_ids@), parsed.words@.len())
            &&& forall|i: int|
                0 <= i < parsed.must_have@.len() ==> (#[trigger] parsed.must_have@[i])
                    < parsed.words@.len()
        }),
        !(e is UnknownQuery) && !(e is BadQuery) ==> exists|shard_ids: Seq<u32>|
            {
                &&& #[trigger] index.places(shard_ids, parsed.ngrams@, hooks.shard_of)
                &&& index.walk_fails_at(e, parsed, shard_ids, hooks.unpair)
            },
{
    law_query_fits_together(parsed);
    if e is UnknownQuery {
        let (walk, matches, i) = choose|walk: Walk, matches: Seq<KeywordMatchResult>, i: int|
            {
                &&& index.is_walk(walk, parsed, hooks.shard_of, hooks.unpair)
                &&& is_nearest_first(matches)
                &&& is_once_each(matches)
                &&& 0 <= i < matches.len()
                &&& i < fetched(count)
                &&& #[trigger] index.lacks_text(hooks, walk, matches, i, parsed, with_tfidf)
            };
        assert(matches.contains(matches[i]));
        (walk, matches, i)
    } else {
        arbitrary()
    }
}

/// A table with strings for keys is read by the text of the key: what it holds under a key,
/// if no other key has the text, is what it holds under the text, and it holds nothing
/// under a text that no key has.
pub proof fn law_table_is_read_by_text<V>(m: Map<String, V>, key: String, text: Seq<char>)
    ensures
        by_text(m).contains_key(text) <==> exists|k: String| m.contains_key(k) && #[trigger] k@
            == text,
        m.contains_key(key) && (forall|k: String|
            m.contains_key(k) && #[trigger] k@ == key@ ==> k == key) ==> by_text(m)[key@] == m[key],
{
    if m.contains_key(key) {
        assert(key@ == key@);
        assert(by_text(m).contains_key(key@));
    }
}

/// Lists and tables of strings are read by their texts, one by one.
pub proof fn law_lists_are_read_by_text(
    list: Seq<String>,
    pairs: Seq<(String, usize)>,
    table: Map<usize, String>,
    set: Set<String>,
    text: Seq<char>,
    i: int,
    n: usize,
)
    ensures
        list_texts(list).len() == list.len(),
        0 <= i < list.len() ==> list_texts(list)[i] == list[i]@,
        numbered(pairs).len() == pairs.len(),
        0 <= i < pairs.len() ==> numbered(pairs)[i] == (pairs[i].0@, pairs[i].1),
        value_texts(table).contains_key(n) <==> table.contains_key(n),
        table.contains_key(n) ==> value_texts(table)[n] == table[n]@,
        texts(set).contains(text) <==> exists|k: String| set.contains(k) && #[trigger] k@ == text,
        text_of(None) is None,
        0 <= i < list.len() ==> text_of(Some(list[i])) == Some(list[i]@),
{
}

} // verus!
