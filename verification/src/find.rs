//! Searching an index for the queries that are nearest to a query.
use crate::cosine::{MatchedWords, VectorReadings};
use crate::hooks::{parses_to, Hooks, ParsedQuery};
use crate::matching::{
    are_matches, can_look, can_look_all, can_tally, has_all, homes, is_nearest_first, is_once_each,
    keyword_distance, keyword_matches, lists_of, tally, tally_results,
};
use crate::qpick::{query_text, Qpick, Walk};
use crate::results::{
    are_ranked, comparable, law_order_is_settled, rank_results, search_rows, Distance,
    KeywordMatchResult, SearchResult, SearchResults,
};
use crate::ranking::{in_order, Ranked};
use crate::score::{computes, score, Arithmetic, FloatOp, Score, DIST_THRESH};
use crate::search::{excess_fits, is_result, search_result};
use crate::shard::{
    numbers, rows_of, text_of, IndexError, Numbering, SearchShardResult, ShardRow,
};
use crate::tables::by_text;
use crate::words::{lemma_index_finds_words, WordTables};
use fnv::{FnvHashMap, FnvHashSet};
use std::collections::HashMap;
use vstd::prelude::*;
use vstd::std_specs::iter::IteratorSpec;

verus! {

/// Matches by keywords that are looked at closer, at least.
pub const FETCH_MIN: usize = 200;

/// How a search came to its results.
pub struct Trace {
    /// The shards that were walked.
    pub walk: Walk,
    /// What was looked up of the words of the query.
    pub tables: WordTables,
    /// Matches by keywords, the nearest first.
    pub matches: Seq<KeywordMatchResult>,
    /// How the words of each match compare that was looked at closer.
    pub found: Seq<MatchedWords>,
    /// What the word vectors say of each of these matches.
    pub vectors: Seq<Option<VectorReadings>>,
    /// The results for these matches.
    pub results: Seq<SearchResult>,
    /// The same results, in order.
    pub ranked: Seq<SearchResult>,
}

/// The smaller of two numbers.
pub open spec fn at_most(a: nat, b: nat) -> nat {
    if a < b {
        a
    } else {
        b
    }
}

/// How many results are asked for.
pub open spec fn wanted(count: Option<usize>) -> nat {
    match count {
        Some(n) => n as nat,
        None => FETCH_MIN as nat,
    }
}

/// How many matches by keywords are looked at closer.
pub open spec fn fetched(count: Option<usize>) -> nat {
    if wanted(count) > FETCH_MIN {
        wanted(count)
    } else {
        FETCH_MIN as nat
    }
}

/// Adding up the rows for a query, and looking for the words that must be there,
/// finds what it needs.
pub open spec fn rows_fit(g: Arithmetic, rows: Seq<ShardRow>, parsed: ParsedQuery) -> bool {
    &&& can_tally(
        g,
        rows,
        by_text(parsed.ngrams_ids@),
        parsed.wrs@,
        parsed.words@.len(),
        rows.len(),
    )
    &&& can_look_all(
        tally(
            g,
            rows,
            by_text(parsed.ngrams_ids@),
            parsed.wrs@,
            parsed.words@.len(),
            rows.len(),
        ),
        parsed.must_have@,
    )
}

/// The matches are those that the rows give for a query.
pub open spec fn are_row_matches(
    g: Arithmetic,
    rows: Seq<ShardRow>,
    matches: Seq<KeywordMatchResult>,
    parsed: ParsedQuery,
) -> bool {
    are_matches(
        g,
        matches,
        tally(
            g,
            rows,
            by_text(parsed.ngrams_ids@),
            parsed.wrs@,
            parsed.words@.len(),
            rows.len(),
        ),
        parsed.must_have@,
    )
}

/// The hooks compared the text of a result with the words of the query, and
/// read the word vectors for it.
pub open spec fn is_compared<P, S, F, U, Q, E, V>(
    hooks: Hooks<P, S, F, U, Q, E, V>,
    tables: WordTables,
    words: Vec<String>,
    result: SearchResult,
    found: MatchedWords,
    vectors: Option<VectorReadings>,
) -> bool where
    P: Fn(&str) -> ParsedQuery,
    S: Fn(&String, u32) -> u32,
    F: Fn(FloatOp) -> Score,
    U: Fn(u64) -> (u64, u64),
    Q: Fn(u64, u8, usize) -> u64,
    E: Fn(&String, &FnvHashSet<String>, &FnvHashMap<String, String>) -> MatchedWords,
    V: Fn(&Vec<String>, &MatchedWords) -> Option<VectorReadings>,
 {
    &&& result.query is Some
    &&& hooks.match_words.ensures((&result.query->0, &tables.words, &tables.synonyms), found)
    &&& hooks.vectors.ensures((&words, &found), vectors)
}

/// A result for the JSON form of a search: the query id, its distance, and its
/// text.
pub open spec fn is_row_of(row: (u64, Distance, String), result: SearchResult) -> bool {
    &&& row.0 == result.query_id
    &&& row.1 == result.dist
    &&& row.2@ == (match result.query {
        Some(text) => text@,
        None => Seq::empty(),
    })
}

/// The words in excess of a candidate have their relevances if all of the query
/// fits together.
proof fn lemma_excess_of_fitting_query(found: MatchedWords, tables: WordTables, parsed: ParsedQuery)
    requires
        tables.describe(parsed.words@, parsed.synonyms@),
    ensures
        parsed.wf() ==> excess_fits(
            found.excess_words@,
            by_text(tables.index@),
            parsed.wrs@.len(),
        ),
{
    if parsed.wf() {
        assert forall|i: int|
            0 <= i < found.excess_words@.len() && by_text(tables.index@).contains_key(
                (#[trigger] found.excess_words@[i])@,
            ) implies by_text(tables.index@)[found.excess_words@[i]@] < parsed.wrs@.len() by {
            lemma_index_finds_words(
                by_text(tables.index@),
                parsed.words@,
                parsed.synonyms@,
                found.excess_words@[i]@,
            );
        }
    }
}

/// The rows are those of the first `count` results.
pub open spec fn are_first_rows(
    rows: Seq<(u64, Distance, String)>,
    list: Seq<SearchResult>,
    count: nat,
) -> bool {
    &&& rows.len() == at_most(list.len(), count)
    &&& forall|i: int| 0 <= i < rows.len() ==> is_row_of(#[trigger] rows[i], list[i])
}

impl<'a> Qpick<'a> {
    /// The results of a trace are those for its matches, in their order: each
    /// has the text of the match, and the distances that the trace accounts
    /// for.
    pub open spec fn are_results(
        self,
        g: Arithmetic,
        rows: Seq<ShardRow>,
        trace: Trace,
        parsed: ParsedQuery,
    ) -> bool {
        forall|i: int|
            #![trigger trace.results[i]]
            0 <= i < trace.results.len() ==> {
                &&& is_result(
                    g,
                    trace.results[i],
                    trace.matches[i],
                    trace.found[i],
                    trace.vectors[i],
                    by_text(trace.tables.index@),
                    parsed.words@.len(),
                    parsed.wrs@,
                )
                &&& text_of(trace.results[i].query) == query_text(
                    self.shards@,
                    homes(rows, rows.len())[trace.matches[i].query_id],
                )
            }
    }

    /// The trace accounts for a search: the shards of the query are walked; the
    /// rows they give are added up to matches by keywords; so many of the
    /// nearest matches as are fetched are compared, and measured by their words
    /// and by word vectors; and the results are put in order and cut to the
    /// number that is wanted.
    pub open spec fn explains<P, S, F, U, Q, E, V>(
        self,
        trace: Trace,
        hooks: Hooks<P, S, F, U, Q, E, V>,
        parsed: ParsedQuery,
        count: Option<usize>,
        with_tfidf: bool,
        r: Seq<SearchResult>,
    ) -> bool where
        P: Fn(&str) -> ParsedQuery,
        S: Fn(&String, u32) -> u32,
        F: Fn(FloatOp) -> Score,
        U: Fn(u64) -> (u64, u64),
        Q: Fn(u64, u8, usize) -> u64,
        E: Fn(&String, &FnvHashSet<String>, &FnvHashMap<String, String>) -> MatchedWords,
        V: Fn(&Vec<String>, &MatchedWords) -> Option<VectorReadings>,
     {
        &&& self.is_walk(trace.walk, parsed, hooks.shard_of, hooks.unpair)
        &&& parsed.synonyms_fit()
        &&& trace.tables.describe(parsed.words@, parsed.synonyms@)
        &&& is_nearest_first(trace.matches)
        &&& is_once_each(trace.matches)
        &&& trace.results.len() == at_most(trace.matches.len(), fetched(count))
        &&& trace.found.len() == trace.results.len()
        &&& trace.vectors.len() == trace.results.len()
        &&& forall|i: int|
            0 <= i < trace.results.len() ==> (#[trigger] trace.results[i]).query_id
                == trace.matches[i].query_id
        &&& forall|i: int|
            0 <= i < trace.results.len() ==> is_compared(
                hooks,
                trace.tables,
                parsed.words,
                #[trigger] trace.results[i],
                trace.found[i],
                trace.vectors[i],
            )
        &&& forall|i: int|
            0 <= i < trace.found.len() ==> excess_fits(
                (#[trigger] trace.found[i]).excess_words@,
                by_text(trace.tables.index@),
                parsed.wrs@.len(),
            )
        &&& forall|g: Arithmetic, q: Numbering|
            #![trigger computes(hooks.float, g), numbers(hooks.number, q)]
            computes(hooks.float, g) && numbers(hooks.number, q) ==> {
                let rows = self.all_rows(g, q, trace.walk, parsed, with_tfidf);
                &&& rows_fit(g, rows, parsed)
                &&& are_row_matches(g, rows, trace.matches, parsed)
                &&& self.are_results(g, rows, trace, parsed)
            }
        &&& are_ranked(trace.ranked, trace.results)
        &&& r == trace.ranked.take(at_most(trace.ranked.len(), wanted(count)) as int)
    }

    /// Some trace accounts for a search with these results.
    pub open spec fn finds<P, S, F, U, Q, E, V>(
        self,
        hooks: Hooks<P, S, F, U, Q, E, V>,
        parsed: ParsedQuery,
        count: Option<usize>,
        with_tfidf: bool,
        r: Seq<SearchResult>,
    ) -> bool where
        P: Fn(&str) -> ParsedQuery,
        S: Fn(&String, u32) -> u32,
        F: Fn(FloatOp) -> Score,
        U: Fn(u64) -> (u64, u64),
        Q: Fn(u64, u8, usize) -> u64,
        E: Fn(&String, &FnvHashSet<String>, &FnvHashMap<String, String>) -> MatchedWords,
        V: Fn(&Vec<String>, &MatchedWords) -> Option<VectorReadings>,
     {
        exists|trace: Trace| #[trigger] self.explains(trace, hooks, parsed, count, with_tfidf, r)
    }

    /// Match `i` of those that a walk gives has no text.
    pub open spec fn lacks_text<P, S, F, U, Q, E, V>(
        self,
        hooks: Hooks<P, S, F, U, Q, E, V>,
        walk: Walk,
        matches: Seq<KeywordMatchResult>,
        i: int,
        parsed: ParsedQuery,
        with_tfidf: bool,
    ) -> bool where
        P: Fn(&str) -> ParsedQuery,
        S: Fn(&String, u32) -> u32,
        F: Fn(FloatOp) -> Score,
        U: Fn(u64) -> (u64, u64),
        Q: Fn(u64, u8, usize) -> u64,
        E: Fn(&String, &FnvHashSet<String>, &FnvHashMap<String, String>) -> MatchedWords,
        V: Fn(&Vec<String>, &MatchedWords) -> Option<VectorReadings>,
     {
        forall|g: Arithmetic, q: Numbering|
            #![trigger computes(hooks.float, g), numbers(hooks.number, q)]
            computes(hooks.float, g) && numbers(hooks.number, q) ==> {
                let rows = self.all_rows(g, q, walk, parsed, with_tfidf);
                &&& are_row_matches(g, rows, matches, parsed)
                &&& query_text(self.shards@, homes(rows, rows.len())[matches[i].query_id]) is None
            }
    }

    /// The rows that a walk gives cannot be added up for a query, or cannot be
    /// looked at for the words that must be there.
    pub open spec fn rows_fail<P, S, F, U, Q, E, V>(
        self,
        hooks: Hooks<P, S, F, U, Q, E, V>,
        walk: Walk,
        parsed: ParsedQuery,
        with_tfidf: bool,
    ) -> bool where
        P: Fn(&str) -> ParsedQuery,
        S: Fn(&String, u32) -> u32,
        F: Fn(FloatOp) -> Score,
        U: Fn(u64) -> (u64, u64),
        Q: Fn(u64, u8, usize) -> u64,
        E: Fn(&String, &FnvHashSet<String>, &FnvHashMap<String, String>) -> MatchedWords,
        V: Fn(&Vec<String>, &MatchedWords) -> Option<VectorReadings>,
     {
        forall|g: Arithmetic, q: Numbering|
            #![trigger computes(hooks.float, g), numbers(hooks.number, q)]
            computes(hooks.float, g) && numbers(hooks.number, q) ==> !rows_fit(
                g,
                self.all_rows(g, q, walk, parsed, with_tfidf),
                parsed,
            )
    }

    /// Match `i` of those that a walk gives has this text, which the hooks compare
    /// so that a word in excess has no relevance.
    pub open spec fn excess_fails<P, S, F, U, Q, E, V>(
        self,
        hooks: Hooks<P, S, F, U, Q, E, V>,
        trace: Trace,
        i: int,
        text: String,
        found: MatchedWords,
        parsed: ParsedQuery,
        with_tfidf: bool,
    ) -> bool where
        P: Fn(&str) -> ParsedQuery,
        S: Fn(&String, u32) -> u32,
        F: Fn(FloatOp) -> Score,
        U: Fn(u64) -> (u64, u64),
        Q: Fn(u64, u8, usize) -> u64,
        E: Fn(&String, &FnvHashSet<String>, &FnvHashMap<String, String>) -> MatchedWords,
        V: Fn(&Vec<String>, &MatchedWords) -> Option<VectorReadings>,
     {
        &&& trace.tables.describe(parsed.words@, parsed.synonyms@)
        &&& hooks.match_words.ensures((&text, &trace.tables.words, &trace.tables.synonyms), found)
        &&& !excess_fits(found.excess_words@, by_text(trace.tables.index@), parsed.wrs@.len())
        &&& forall|g: Arithmetic, q: Numbering|
            #![trigger computes(hooks.float, g), numbers(hooks.number, q)]
            computes(hooks.float, g) && numbers(hooks.number, q) ==> {
                let rows = self.all_rows(g, q, trace.walk, parsed, with_tfidf);
                &&& are_row_matches(g, rows, trace.matches, parsed)
                &&& query_text(self.shards@, homes(rows, rows.len())[trace.matches[i].query_id])
                    == Some(text@)
            }
    }

    /// What a search needs of a query is missing: a word that a synonym stands for,
    /// a word or a relevance that a row asks for, or the relevance of a word in
    /// excess of one of the nearest matches.
    pub open spec fn query_fails<P, S, F, U, Q, E, V>(
        self,
        hooks: Hooks<P, S, F, U, Q, E, V>,
        parsed: ParsedQuery,
        count: Option<usize>,
        with_tfidf: bool,
    ) -> bool where
        P: Fn(&str) -> ParsedQuery,
        S: Fn(&String, u32) -> u32,
        F: Fn(FloatOp) -> Score,
        U: Fn(u64) -> (u64, u64),
        Q: Fn(u64, u8, usize) -> u64,
        E: Fn(&String, &FnvHashSet<String>, &FnvHashMap<String, String>) -> MatchedWords,
        V: Fn(&Vec<String>, &MatchedWords) -> Option<VectorReadings>,
     {
        ||| !parsed.synonyms_fit()
        ||| exists|walk: Walk|
            self.is_walk(walk, parsed, hooks.shard_of, hooks.unpair) && #[trigger] self.rows_fail(
                hooks,
                walk,
                parsed,
                with_tfidf,
            )
        ||| exists|trace: Trace, i: int, text: String, found: MatchedWords|
            {
                &&& self.is_walk(trace.walk, parsed, hooks.shard_of, hooks.unpair)
                &&& is_nearest_first(trace.matches)
                &&& is_once_each(trace.matches)
                &&& 0 <= i < trace.matches.len()
                &&& i < fetched(count)
                &&& #[trigger] self.excess_fails(hooks, trace, i, text, found, parsed, with_tfidf)
            }
    }

    /// Why a search fails: walking the shards does; or the query lacks what is
    /// needed of it, which it never does if all of it fits together; or the text
    /// of one of the nearest matches, which are looked at closer, is not where the
    /// index says.
    pub open spec fn search_fails<P, S, F, U, Q, E, V>(
        self,
        e: IndexError,
        hooks: Hooks<P, S, F, U, Q, E, V>,
        parsed: ParsedQuery,
        count: Option<usize>,
        with_tfidf: bool,
    ) -> bool where
        P: Fn(&str) -> ParsedQuery,
        S: Fn(&String, u32) -> u32,
        F: Fn(FloatOp) -> Score,
        U: Fn(u64) -> (u64, u64),
        Q: Fn(u64, u8, usize) -> u64,
        E: Fn(&String, &FnvHashSet<String>, &FnvHashMap<String, String>) -> MatchedWords,
        V: Fn(&Vec<String>, &MatchedWords) -> Option<VectorReadings>,
     {
        match e {
            IndexError::BadQuery => !parsed.wf() && self.query_fails(
                hooks,
                parsed,
                count,
                with_tfidf,
            ),
            IndexError::UnknownQuery => exists|walk: Walk, matches: Seq<KeywordMatchResult>, i: int|
                {
                    &&& self.is_walk(walk, parsed, hooks.shard_of, hooks.unpair)
                    &&& is_nearest_first(matches)
                    &&& is_once_each(matches)
                    &&& 0 <= i < matches.len()
                    &&& i < fetched(count)
                    &&& #[trigger] self.lacks_text(hooks, walk, matches, i, parsed, with_tfidf)
                },
            _ => self.walk_fails(e, parsed, hooks.shard_of, hooks.unpair),
        }
    }

    /// Finds the queries nearest to a query, the nearest first.
    pub fn get_matches<P, S, F, U, Q, E, V>(
        &self,
        hooks: &Hooks<P, S, F, U, Q, E, V>,
        parsed: &ParsedQuery,
        count: Option<usize>,
        with_tfidf: bool,
    ) -> (r: Result<Vec<SearchResult>, IndexError>) where
        P: Fn(&str) -> ParsedQuery,
        S: Fn(&String, u32) -> u32,
        F: Fn(FloatOp) -> Score,
        U: Fn(u64) -> (u64, u64),
        Q: Fn(u64, u8, usize) -> u64,
        E: Fn(&String, &FnvHashSet<String>, &FnvHashMap<String, String>) -> MatchedWords,
        V: Fn(&Vec<String>, &MatchedWords) -> Option<VectorReadings>,

        requires
            hooks.ready(),
            self.maps_are_built(),
        ensures
            r matches Ok(list) ==> self.finds(*hooks, *parsed, count, with_tfidf, list@),
            r matches Err(e) ==> self.search_fails(e, *hooks, *parsed, count, with_tfidf),
    {
        broadcast use vstd::std_specs::hash::group_hash_axioms;

        let rows: Vec<SearchShardResult> = match self.collect_results(
            &hooks.shard_of,
            &hooks.float,
            &hooks.unpair,
            &hooks.number,
            parsed,
            with_tfidf,
        ) {
            Ok(rows) => rows,
            Err(e) => return Err(e),
        };
        let ghost walk = choose|walk: Walk| #[trigger]
            self.is_walk(walk, *parsed, hooks.shard_of, hooks.unpair) && self.gives_rows(
                walk,
                rows@,
                hooks.float,
                hooks.number,
                *parsed,
                with_tfidf,
            );
        let (res_data, ids_map): (FnvHashMap<u64, Vec<Score>>, HashMap<u64, (u32, u8)>) =
            match tally_results(
            &hooks.float,
            &rows,
            &parsed.ngrams_ids,
            &parsed.wrs,
            parsed.words.len(),
        ) {
            Some(tables) => tables,
            None => {
                assert(self.rows_fail(*hooks, walk, *parsed, with_tfidf));
                return Err(IndexError::BadQuery);
            },
        };
        let matches: Vec<KeywordMatchResult> = match keyword_matches(
            &hooks.float,
            &res_data,
            &parsed.must_have,
        ) {
            Some(matches) => matches,
            None => {
                assert(!parsed.wf()) by {
                    let id = choose|id: u64| #[trigger]
                        lists_of(res_data@).contains_key(id) && !can_look(
                            lists_of(res_data@)[id],
                            parsed.must_have@,
                        );
                    assert(res_data@.contains_key(id));
                }
                assert(self.rows_fail(*hooks, walk, *parsed, with_tfidf));
                return Err(IndexError::BadQuery);
            },
        };
        if !parsed.check_synonyms() {
            return Err(IndexError::BadQuery);
        }
        let tables: WordTables = WordTables::new(&parsed.words, &parsed.synonyms);
        assert forall|g: Arithmetic| #[trigger] computes(hooks.float, g) implies rows_fit(
            g,
            rows_of(rows@),
            *parsed,
        ) by {}
        let keep: usize = match count {
            Some(n) => n,
            None => FETCH_MIN,
        };
        let limit: usize = if keep > FETCH_MIN {
            keep
        } else {
            FETCH_MIN
        };
        let mut results: Vec<SearchResult> = Vec::new();
        let ghost mut trace = Trace {
            walk,
            tables,
            matches: matches@,
            found: Seq::empty(),
            vectors: Seq::empty(),
            results: Seq::empty(),
            ranked: Seq::empty(),
        };
        let mut i: usize = 0;
        while i < matches.len() && i < limit
            invariant
                i <= matches@.len(),
                i <= limit,
                limit == fetched(count),
                hooks.ready(),
                parsed.synonyms_fit(),
                tables.describe(parsed.words@, parsed.synonyms@),
                self.is_walk(walk, *parsed, hooks.shard_of, hooks.unpair),
                self.gives_rows(walk, rows@, hooks.float, hooks.number, *parsed, with_tfidf),
                forall|g: Arithmetic| #[trigger]
                    computes(hooks.float, g) ==> are_row_matches(
                        g,
                        rows_of(rows@),
                        matches@,
                        *parsed,
                    ),
                is_nearest_first(matches@),
                is_once_each(matches@),
                ids_map@ == homes(rows_of(rows@), rows@.len()),
                forall|j: int|
                    0 <= j < matches@.len() ==> ids_map@.contains_key(
                        (#[trigger] matches@[j]).query_id,
                    ),
                trace.walk == walk,
                trace.tables == tables,
                trace.matches == matches@,
                trace.results == results@,
                trace.results.len() == i,
                trace.found.len() == i,
                trace.vectors.len() == i,
                forall|j: int|
                    0 <= j < i ==> (#[trigger] trace.results[j]).query_id
                        == trace.matches[j].query_id,
                forall|j: int|
                    0 <= j < i ==> is_compared(
                        *hooks,
                        tables,
                        parsed.words,
                        #[trigger] trace.results[j],
                        trace.found[j],
                        trace.vectors[j],
                    ),
                forall|j: int|
                    0 <= j < i ==> excess_fits(
                        (#[trigger] trace.found[j]).excess_words@,
                        by_text(tables.index@),
                        parsed.wrs@.len(),
                    ),
                forall|g: Arithmetic| #[trigger]
                    computes(hooks.float, g) ==> self.are_results(
                        g,
                        rows_of(rows@),
                        trace,
                        *parsed,
                    ),
            decreases matches@.len() - i,
        {
            broadcast use vstd::std_specs::hash::group_hash_axioms;

            let m: &KeywordMatchResult = &matches[i];
            let home: (u32, u8) = *ids_map.get(&m.query_id).unwrap();
            let cand_query: String = match self.candidate_query(home) {
                Some(text) => text,
                None => {
                    assert(self.lacks_text(
                        *hooks,
                        walk,
                        matches@,
                        i as int,
                        *parsed,
                        with_tfidf,
                    ));
                    return Err(IndexError::UnknownQuery);
                },
            };
            let found: MatchedWords = (hooks.match_words)(
                &cand_query,
                &tables.words,
                &tables.synonyms,
            );
            let vectors: Option<VectorReadings> = (hooks.vectors)(&parsed.words, &found);
            let ghost text = cand_query;
            let result: SearchResult = match search_result(
                &hooks.float,
                m,
                cand_query,
                &found,
                &vectors,
                &tables.index,
                &parsed.words,
                &parsed.wrs,
            ) {
                Some(result) => result,
                None => {
                    proof {
                        lemma_excess_of_fitting_query(found, tables, *parsed);
                        assert(self.excess_fails(
                            *hooks,
                            trace,
                            i as int,
                            text,
                            found,
                            *parsed,
                            with_tfidf,
                        ));
                    }
                    return Err(IndexError::BadQuery);
                },
            };
            let ghost had = trace;
            results.push(result);
            proof {
                trace =
                Trace {
                    walk,
                    tables,
                    matches: matches@,
                    found: had.found.push(found),
                    vectors: had.vectors.push(vectors),
                    results: results@,
                    ranked: Seq::empty(),
                };
                assert forall|j: int| 0 <= j < i implies (#[trigger] trace.results[j])
                    == had.results[j] by {}
                assert forall|g: Arithmetic| #[trigger]
                    computes(hooks.float, g) implies self.are_results(
                    g,
                    rows_of(rows@),
                    trace,
                    *parsed,
                ) by {
                    assert(self.are_results(g, rows_of(rows@), had, *parsed));
                }
            }
            i = i + 1;
        }
        let ghost measured = results@;
        let mut ranked: Vec<SearchResult> = rank_results(results);
        proof {
            trace =
            Trace {
                walk,
                tables,
                matches: matches@,
                found: trace.found,
                vectors: trace.vectors,
                results: measured,
                ranked: ranked@,
            };
        }
        if keep < ranked.len() {
            ranked.truncate(keep);
        }
        proof {
            assert(ranked@ =~= trace.ranked.take(
                at_most(trace.ranked.len(), wanted(count)) as int,
            ));
            assert(self.explains(trace, *hooks, *parsed, count, with_tfidf, ranked@));
            assert(self.finds(*hooks, *parsed, count, with_tfidf, ranked@));
        }
        Ok(ranked)
    }

    /// The answer is the one for a query that was taken apart: what searching for
    /// it gives.
    pub open spec fn answers<P, S, F, U, Q, E, V>(
        self,
        hooks: Hooks<P, S, F, U, Q, E, V>,
        parsed: ParsedQuery,
        count: u32,
        with_tfidf: bool,
        r: Result<Vec<SearchResult>, IndexError>,
    ) -> bool where
        P: Fn(&str) -> ParsedQuery,
        S: Fn(&String, u32) -> u32,
        F: Fn(FloatOp) -> Score,
        U: Fn(u64) -> (u64, u64),
        Q: Fn(u64, u8, usize) -> u64,
        E: Fn(&String, &FnvHashSet<String>, &FnvHashMap<String, String>) -> MatchedWords,
        V: Fn(&Vec<String>, &MatchedWords) -> Option<VectorReadings>,
     {
        let wanted = Some(count as usize);
        match r {
            Ok(list) => self.finds(hooks, parsed, wanted, with_tfidf, list@),
            Err(e) => self.search_fails(e, hooks, parsed, wanted, with_tfidf),
        }
    }

    /// The answer to a query: nothing if it is empty or no result is asked for,
    /// else what searching for it gives.
    pub open spec fn is_answer<P, S, F, U, Q, E, V>(
        self,
        hooks: Hooks<P, S, F, U, Q, E, V>,
        query: Seq<char>,
        count: u32,
        with_tfidf: bool,
        r: Result<Vec<SearchResult>, IndexError>,
    ) -> bool where
        P: Fn(&str) -> ParsedQuery,
        S: Fn(&String, u32) -> u32,
        F: Fn(FloatOp) -> Score,
        U: Fn(u64) -> (u64, u64),
        Q: Fn(u64, u8, usize) -> u64,
        E: Fn(&String, &FnvHashSet<String>, &FnvHashMap<String, String>) -> MatchedWords,
        V: Fn(&Vec<String>, &MatchedWords) -> Option<VectorReadings>,
     {
        if query.len() == 0 || count == 0 {
            r matches Ok(list) && list@.len() == 0
        } else {
            exists|parsed: ParsedQuery| #[trigger]
                parses_to(hooks.parse, query, parsed) && self.answers(
                    hooks,
                    parsed,
                    count,
                    with_tfidf,
                    r,
                )
        }
    }

    /// Searches for a query, and gives so many of the nearest queries at most,
    /// the nearest first.
    pub fn get<P, S, F, U, Q, E, V>(
        &self,
        hooks: &Hooks<P, S, F, U, Q, E, V>,
        query: &str,
        count: u32,
        with_tfidf: bool,
    ) -> (r: Result<Vec<SearchResult>, IndexError>) where
        P: Fn(&str) -> ParsedQuery,
        S: Fn(&String, u32) -> u32,
        F: Fn(FloatOp) -> Score,
        U: Fn(u64) -> (u64, u64),
        Q: Fn(u64, u8, usize) -> u64,
        E: Fn(&String, &FnvHashSet<String>, &FnvHashMap<String, String>) -> MatchedWords,
        V: Fn(&Vec<String>, &MatchedWords) -> Option<VectorReadings>,

        requires
            hooks.ready(),
            self.maps_are_built(),
        ensures
            self.is_answer(*hooks, query@, count, with_tfidf, r),
    {
        if query.is_empty() || count == 0 {
            return Ok(Vec::new());
        }
        let parsed: ParsedQuery = (hooks.parse)(query);
        assert(parses_to(hooks.parse, query@, parsed));
        self.get_matches(hooks, &parsed, Some(count as usize), with_tfidf)
    }

    /// Searches for a query, and hands the results out one by one.
    pub fn get_search_results<P, S, F, U, Q, E, V>(
        &self,
        hooks: &Hooks<P, S, F, U, Q, E, V>,
        query: &str,
        count: u32,
        with_tfidf: bool,
    ) -> (r: Result<SearchResults, IndexError>) where
        P: Fn(&str) -> ParsedQuery,
        S: Fn(&String, u32) -> u32,
        F: Fn(FloatOp) -> Score,
        U: Fn(u64) -> (u64, u64),
        Q: Fn(u64, u8, usize) -> u64,
        E: Fn(&String, &FnvHashSet<String>, &FnvHashMap<String, String>) -> MatchedWords,
        V: Fn(&Vec<String>, &MatchedWords) -> Option<VectorReadings>,

        requires
            hooks.ready(),
            self.maps_are_built(),
        ensures
            exists|answer: Result<Vec<SearchResult>, IndexError>| #[trigger]
                self.is_answer(*hooks, query@, count, with_tfidf, answer) && match answer {
                    Ok(list) => r is Ok && r->Ok_0.items_iter.remaining() == list@,
                    Err(e) => r == Err::<SearchResults, IndexError>(e),
                },
    {
        let answer: Result<Vec<SearchResult>, IndexError> = self.get(
            hooks,
            query,
            count,
            with_tfidf,
        );
        match answer {
            Ok(list) => {
                let items: std::vec::IntoIter<SearchResult> = list.into_iter();
                assert(items.remaining() == list@);
                Ok(SearchResults::new(items))
            },
            Err(e) => Err(e),
        }
    }

    /// The rows are those of the first `count` results of an answer for thirty times as
    /// many.
    pub open spec fn are_answer_rows<P, S, F, U, Q, E, V>(
        self,
        hooks: Hooks<P, S, F, U, Q, E, V>,
        query: Seq<char>,
        count: u32,
        with_tfidf: bool,
        rows: Seq<(u64, Distance, String)>,
    ) -> bool where
        P: Fn(&str) -> ParsedQuery,
        S: Fn(&String, u32) -> u32,
        F: Fn(FloatOp) -> Score,
        U: Fn(u64) -> (u64, u64),
        Q: Fn(u64, u8, usize) -> u64,
        E: Fn(&String, &FnvHashSet<String>, &FnvHashMap<String, String>) -> MatchedWords,
        V: Fn(&Vec<String>, &MatchedWords) -> Option<VectorReadings>,
     {
        exists|list: Vec<SearchResult>| #[trigger]
            self.is_answer(hooks, query, (30 * count) as u32, with_tfidf, Ok(list))
                && are_first_rows(rows, list@, count as nat)
    }

    /// Searches for a query among thirty times as many as are wanted, and gives
    /// the rows of the nearest for writing them out.
    pub fn get_search_rows<P, S, F, U, Q, E, V>(
        &self,
        hooks: &Hooks<P, S, F, U, Q, E, V>,
        query: &str,
        count: u32,
        with_tfidf: bool,
    ) -> (r: Result<Vec<(u64, Distance, String)>, IndexError>) where
        P: Fn(&str) -> ParsedQuery,
        S: Fn(&String, u32) -> u32,
        F: Fn(FloatOp) -> Score,
        U: Fn(u64) -> (u64, u64),
        Q: Fn(u64, u8, usize) -> u64,
        E: Fn(&String, &FnvHashSet<String>, &FnvHashMap<String, String>) -> MatchedWords,
        V: Fn(&Vec<String>, &MatchedWords) -> Option<VectorReadings>,

        requires
            hooks.ready(),
            self.maps_are_built(),
            30 * count <= u32::MAX,
        ensures
            match r {
                Ok(rows) => self.are_answer_rows(*hooks, query@, count, with_tfidf, rows@),
                Err(e) => self.is_answer(*hooks, query@, (30 * count) as u32, with_tfidf, Err(e)),
            },
    {
        let answer: Result<Vec<SearchResult>, IndexError> = self.get(
            hooks,
            query,
            30 * count,
            with_tfidf,
        );
        match answer {
            Ok(list) => {
                let mut rows: Vec<(u64, Distance, String)> = Vec::new();
                let mut i: usize = 0;
                while i < list.len() && i < count as usize
                    invariant
                        i <= list@.len(),
                        i <= count,
                        rows@.len() == i,
                        forall|j: int|
                            0 <= j < i ==> is_row_of(#[trigger] rows@[j], list@[j]),
                    decreases list@.len() - i,
                {
                    let result: &SearchResult = &list[i];
                    let dist: Distance = Distance {
                        query_id: result.dist.query_id,
                        keyword: result.dist.keyword,
                        cosine: result.dist.cosine,
                    };
                    let text: String = match &result.query {
                        Some(text) => text.clone(),
                        None => String::new(),
                    };
                    rows.push((result.query_id, dist, text));
                    i = i + 1;
                }
                Ok(rows)
            },
            Err(e) => Err(e),
        }
    }
}

/// A search gives as many results as there are matches by keywords, but no more
/// than are wanted. No query is among them twice. They are in order.
pub proof fn law_results_are_limited_distinct_and_in_order<'a, P, S, F, U, Q, E, V>(
    index: Qpick<'a>,
    trace: Trace,
    hooks: Hooks<P, S, F, U, Q, E, V>,
    parsed: ParsedQuery,
    count: Option<usize>,
    with_tfidf: bool,
    r: Seq<SearchResult>,
) where
    P: Fn(&str) -> ParsedQuery,
    S: Fn(&String, u32) -> u32,
    F: Fn(FloatOp) -> Score,
    U: Fn(u64) -> (u64, u64),
    Q: Fn(u64, u8, usize) -> u64,
    E: Fn(&String, &FnvHashSet<String>, &FnvHashMap<String, String>) -> MatchedWords,
    V: Fn(&Vec<String>, &MatchedWords) -> Option<VectorReadings>,

    requires
        index.explains(trace, hooks, parsed, count, with_tfidf, r),
    ensures
        r.len() == at_most(trace.matches.len(), wanted(count)),
        forall|i: int, j: int|
            #![trigger r[i], r[j]]
            0 <= i < j < r.len() ==> r[i].query_id != r[j].query_id,
        in_order(r),
        forall|i: int| 0 <= i < r.len() ==> trace.results.contains(#[trigger] r[i]),
{
    broadcast use vstd::seq_lib::group_to_multiset_ensures;

    let ranked = trace.ranked;
    let results = trace.results;
    assert(ranked.len() == results.len()) by {
        assert(ranked.len() == ranked.to_multiset().len());
        assert(results.len() == results.to_multiset().len());
    }
    assert forall|i: int, j: int|
        #![trigger results[i], results[j]]
        0 <= i < j < results.len() implies results[i].query_id != results[j].query_id by {
        assert(trace.matches[i].query_id != trace.matches[j].query_id);
    }
    assert(results.no_duplicates());
    results.lemma_multiset_has_no_duplicates();
    ranked.lemma_multiset_has_no_duplicates_conv();
    assert forall|i: int| 0 <= i < ranked.len() implies results.contains(#[trigger] ranked[i]) by {
        assert(ranked.contains(ranked[i]));
        assert(ranked.to_multiset().count(ranked[i]) > 0);
    }
    assert forall|i: int, j: int|
        #![trigger r[i], r[j]]
        0 <= i < j < r.len() implies r[i].query_id != r[j].query_id by {
        assert(r[i] == ranked[i] && r[j] == ranked[j]);
        let k = choose|k: int| 0 <= k < results.len() && results[k] == ranked[i];
        let l = choose|l: int| 0 <= l < results.len() && results[l] == ranked[j];
        assert(ranked[i] != ranked[j]);
        if k < l {
            assert(results[k].query_id != results[l].query_id);
        } else {
            assert(results[l].query_id != results[k].query_id);
        }
    }
    assert forall|i: int, j: int|
        #![trigger r[i], r[j]]
        0 <= i < r.len() && j == i + 1 && j < r.len() implies !r[i].after(r[j]) by {
        assert(r[i] == ranked[i] && r[j] == ranked[j]);
    }
    assert forall|i: int| 0 <= i < r.len() implies results.contains(#[trigger] r[i]) by {
        assert(r[i] == ranked[i]);
    }
}

/// Every result is of a query that was found in the shards of the query, that
/// has all words that must be there, and that is nearer by keywords than the
/// threshold.
pub proof fn law_results_are_near_and_complete<'a, P, S, F, U, Q, E, V>(
    index: Qpick<'a>,
    trace: Trace,
    hooks: Hooks<P, S, F, U, Q, E, V>,
    parsed: ParsedQuery,
    count: Option<usize>,
    with_tfidf: bool,
    r: Seq<SearchResult>,
    g: Arithmetic,
    q: Numbering,
    i: int,
) where
    P: Fn(&str) -> ParsedQuery,
    S: Fn(&String, u32) -> u32,
    F: Fn(FloatOp) -> Score,
    U: Fn(u64) -> (u64, u64),
    Q: Fn(u64, u8, usize) -> u64,
    E: Fn(&String, &FnvHashSet<String>, &FnvHashMap<String, String>) -> MatchedWords,
    V: Fn(&Vec<String>, &MatchedWords) -> Option<VectorReadings>,

    requires
        index.explains(trace, hooks, parsed, count, with_tfidf, r),
        computes(hooks.float, g),
        numbers(hooks.number, q),
        0 <= i < r.len(),
    ensures
        ({
            let rows = index.all_rows(g, q, trace.walk, parsed, with_tfidf);
            let table = tally(
                g,
                rows,
                by_text(parsed.ngrams_ids@),
                parsed.wrs@,
                parsed.words@.len(),
                rows.len(),
            );
            &&& table.contains_key(r[i].query_id)
            &&& has_all(table[r[i].query_id], parsed.must_have@)
            &&& keyword_distance(g, table[r[i].query_id]).below(score(DIST_THRESH))
            &&& r[i].dist.query_id == r[i].query_id
        }),
{
    law_results_are_limited_distinct_and_in_order(
        index,
        trace,
        hooks,
        parsed,
        count,
        with_tfidf,
        r,
    );
    assert(trace.results.contains(r[i]));
    let k = choose|k: int| 0 <= k < trace.results.len() && trace.results[k] == r[i];
    assert(trace.results[k] == r[i]);
    assert(trace.matches.contains(trace.matches[k]));
    let rows = index.all_rows(g, q, trace.walk, parsed, with_tfidf);
    assert(are_row_matches(g, rows, trace.matches, parsed));
    assert(index.are_results(g, rows, trace, parsed));
}

/// At least the minimum of matches is looked at closer, and no fewer than are
/// wanted.
pub proof fn law_enough_matches_are_fetched(count: Option<usize>)
    ensures
        fetched(count) >= FETCH_MIN,
        fetched(count) >= wanted(count),
{
}

/// Up to the minimum that is fetched anyway, a smaller count gives a prefix: what
/// accounts for the results of a search for `b` accounts for the first `a` of them
/// as those of a search for `a`.
pub proof fn law_smaller_count_gives_a_prefix<'a, P, S, F, U, Q, E, V>(
    index: Qpick<'a>,
    trace: Trace,
    hooks: Hooks<P, S, F, U, Q, E, V>,
    parsed: ParsedQuery,
    a: usize,
    b: usize,
    with_tfidf: bool,
    r: Seq<SearchResult>,
) where
    P: Fn(&str) -> ParsedQuery,
    S: Fn(&String, u32) -> u32,
    F: Fn(FloatOp) -> Score,
    U: Fn(u64) -> (u64, u64),
    Q: Fn(u64, u8, usize) -> u64,
    E: Fn(&String, &FnvHashSet<String>, &FnvHashMap<String, String>) -> MatchedWords,
    V: Fn(&Vec<String>, &MatchedWords) -> Option<VectorReadings>,

    requires
        a <= b <= FETCH_MIN,
        index.explains(trace, hooks, parsed, Some(b), with_tfidf, r),
    ensures
        index.explains(
            trace,
            hooks,
            parsed,
            Some(a),
            with_tfidf,
            r.take(at_most(r.len(), a as nat) as int),
        ),
{
    assert(r.take(at_most(r.len(), a as nat) as int) =~= trace.ranked.take(
        at_most(trace.ranked.len(), a as nat) as int,
    ));
}

/// To ask for no particular count is to ask for the minimum that is fetched.
pub proof fn law_no_count_is_the_minimum<'a, P, S, F, U, Q, E, V>(
    index: Qpick<'a>,
    trace: Trace,
    hooks: Hooks<P, S, F, U, Q, E, V>,
    parsed: ParsedQuery,
    with_tfidf: bool,
    r: Seq<SearchResult>,
) where
    P: Fn(&str) -> ParsedQuery,
    S: Fn(&String, u32) -> u32,
    F: Fn(FloatOp) -> Score,
    U: Fn(u64) -> (u64, u64),
    Q: Fn(u64, u8, usize) -> u64,
    E: Fn(&String, &FnvHashSet<String>, &FnvHashMap<String, String>) -> MatchedWords,
    V: Fn(&Vec<String>, &MatchedWords) -> Option<VectorReadings>,

    ensures
        index.explains(trace, hooks, parsed, None, with_tfidf, r) <==> index.explains(
            trace,
            hooks,
            parsed,
            Some(FETCH_MIN),
            with_tfidf,
            r,
        ),
{
}

/// Two searches that measured the same, all with a cosine or all without one, agree:
/// the one for fewer gives the first results of the other.
pub proof fn law_searches_agree<'a, 'b, P, S, F, U, Q, E, V>(
    x: Qpick<'a>,
    y: Qpick<'b>,
    trace_a: Trace,
    trace_b: Trace,
    hooks: Hooks<P, S, F, U, Q, E, V>,
    parsed_a: ParsedQuery,
    parsed_b: ParsedQuery,
    a: Option<usize>,
    b: Option<usize>,
    with_tfidf: (bool, bool),
    ra: Seq<SearchResult>,
    rb: Seq<SearchResult>,
    cosines: bool,
) where
    P: Fn(&str) -> ParsedQuery,
    S: Fn(&String, u32) -> u32,
    F: Fn(FloatOp) -> Score,
    U: Fn(u64) -> (u64, u64),
    Q: Fn(u64, u8, usize) -> u64,
    E: Fn(&String, &FnvHashSet<String>, &FnvHashMap<String, String>) -> MatchedWords,
    V: Fn(&Vec<String>, &MatchedWords) -> Option<VectorReadings>,

    requires
        wanted(a) <= wanted(b),
        x.explains(trace_a, hooks, parsed_a, a, with_tfidf.0, ra),
        y.explains(trace_b, hooks, parsed_b, b, with_tfidf.1, rb),
        search_rows(trace_a.results) == search_rows(trace_b.results),
        comparable(trace_a.results, cosines),
    ensures
        search_rows(ra) == search_rows(rb).take(at_most(rb.len(), wanted(a)) as int),
{
    let results = trace_a.results;
    assert forall|i: int, j: int|
        #![trigger results[i], results[j]]
        0 <= i < j < results.len() implies results[i].query_id != results[j].query_id by {
        assert(trace_a.matches[i].query_id != trace_a.matches[j].query_id);
    }
    law_order_is_settled(trace_a.ranked, trace_b.ranked, results, trace_b.results, cosines);
    let all = search_rows(trace_b.ranked);
    assert(search_rows(trace_a.ranked) == all);
    assert(search_rows(trace_a.ranked).len() == trace_a.ranked.len());
    assert(search_rows(trace_b.ranked).len() == trace_b.ranked.len());
    let n = at_most(trace_a.ranked.len(), wanted(a)) as int;
    assert(search_rows(ra) =~= search_rows(trace_a.ranked).take(n));
    assert(search_rows(rb) =~= all.take(at_most(trace_b.ranked.len(), wanted(b)) as int));
    assert(search_rows(ra) =~= search_rows(rb).take(at_most(rb.len(), wanted(a)) as int));
}

/// Searching among thirty times as many changes nothing as long as no more are
/// fetched for it than anyway: the first results are those of a search for the
/// count itself.
pub proof fn law_few_rows_are_those_of_the_search<'a, P, S, F, U, Q, E, V>(
    index: Qpick<'a>,
    hooks: Hooks<P, S, F, U, Q, E, V>,
    parsed: ParsedQuery,
    count: u32,
    with_tfidf: bool,
    r: Seq<SearchResult>,
) where
    P: Fn(&str) -> ParsedQuery,
    S: Fn(&String, u32) -> u32,
    F: Fn(FloatOp) -> Score,
    U: Fn(u64) -> (u64, u64),
    Q: Fn(u64, u8, usize) -> u64,
    E: Fn(&String, &FnvHashSet<String>, &FnvHashMap<String, String>) -> MatchedWords,
    V: Fn(&Vec<String>, &MatchedWords) -> Option<VectorReadings>,

    requires
        30 * count <= FETCH_MIN,
        index.finds(hooks, parsed, Some((30 * count) as usize), with_tfidf, r),
    ensures
        index.finds(
            hooks,
            parsed,
            Some(count as usize),
            with_tfidf,
            r.take(at_most(r.len(), count as nat) as int),
        ),
{
    let all = Some((30 * count) as usize);
    let trace = choose|trace: Trace| #[trigger]
        index.explains(trace, hooks, parsed, all, with_tfidf, r);
    law_smaller_count_gives_a_prefix(
        index,
        trace,
        hooks,
        parsed,
        count as usize,
        (30 * count) as usize,
        with_tfidf,
        r,
    );
}

} // verus!
