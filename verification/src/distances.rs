//! Distances of given candidates from a query.
use crate::cosine::{MatchedWords, VectorReadings};
use crate::hooks::{parses_to, Hooks, ParsedQuery};
use crate::qpick::Qpick;
use crate::results::{DistResults, Distance, DistanceResult};
use crate::score::{computes, Arithmetic, FloatOp, Score};
use crate::search::{distance_result, is_distance, shares_fit, Candidate};
use crate::shard::IndexError;
use crate::tables::by_text;
use crate::words::{lemma_index_finds_words, WordTables};
use fnv::{FnvHashMap, FnvHashSet};
use vstd::prelude::*;
use vstd::std_specs::iter::IteratorSpec;

verus! {

/// How the distances of candidates were measured.
pub struct Measuring {
    /// What was looked up of the words of the query.
    pub tables: WordTables,
    /// Each candidate, taken apart.
    pub parsed: Seq<ParsedQuery>,
    /// How the words of each candidate compare.
    pub found: Seq<MatchedWords>,
    /// What the word vectors say of each candidate.
    pub vectors: Seq<Option<VectorReadings>>,
}

/// The result is the one for a candidate that was taken apart.
pub open spec fn is_parsed_distance(
    g: Arithmetic,
    r: DistanceResult,
    cid: u64,
    query: String,
    cand: ParsedQuery,
    found: MatchedWords,
    vectors: Option<VectorReadings>,
    index: Map<Seq<char>, usize>,
    words: nat,
    wrs: Seq<Score>,
) -> bool {
    is_distance(
        g,
        r,
        cid,
        Candidate { query, words: cand.words, wrs: cand.wrs },
        found,
        vectors,
        index,
        words,
        wrs,
    )
}

impl<'a> Qpick<'a> {
    /// The hooks took a candidate apart, compared it, and read the word vectors
    /// for it.
    pub open spec fn is_measured<P, S, F, U, Q, E, V>(
        self,
        hooks: Hooks<P, S, F, U, Q, E, V>,
        tables: WordTables,
        words: Vec<String>,
        relevances: nat,
        candidate: String,
        parsed: ParsedQuery,
        found: MatchedWords,
        vectors: Option<VectorReadings>,
    ) -> bool where
        P: Fn(&str) -> ParsedQuery,
        S: Fn(&String, u32) -> u32,
        F: Fn(FloatOp) -> Score,
        U: Fn(u64) -> (u64, u64),
        Q: Fn(u64, u8, usize) -> u64,
        E: Fn(&String, &FnvHashSet<String>, &FnvHashMap<String, String>) -> MatchedWords,
        V: Fn(&Vec<String>, &MatchedWords) -> Option<VectorReadings>,
     {
        &&& parses_to(hooks.parse, candidate@, parsed)
        &&& shares_fit(
            by_text(tables.index@),
            relevances,
            parsed.words@,
            parsed.wrs@.len(),
        )
        &&& hooks.match_words.ensures((&candidate, &tables.words, &tables.synonyms), found)
        &&& hooks.vectors.ensures((&words, &found), vectors)
    }

    /// The measuring accounts for the distances of the first candidates, in
    /// their order.
    pub open spec fn measures<P, S, F, U, Q, E, V>(
        self,
        m: Measuring,
        hooks: Hooks<P, S, F, U, Q, E, V>,
        parsed: ParsedQuery,
        candidates: Seq<String>,
        r: Seq<DistanceResult>,
    ) -> bool where
        P: Fn(&str) -> ParsedQuery,
        S: Fn(&String, u32) -> u32,
        F: Fn(FloatOp) -> Score,
        U: Fn(u64) -> (u64, u64),
        Q: Fn(u64, u8, usize) -> u64,
        E: Fn(&String, &FnvHashSet<String>, &FnvHashMap<String, String>) -> MatchedWords,
        V: Fn(&Vec<String>, &MatchedWords) -> Option<VectorReadings>,
     {
        &&& m.tables.describe(parsed.words@, parsed.synonyms@)
        &&& m.parsed.len() == r.len()
        &&& m.found.len() == r.len()
        &&& m.vectors.len() == r.len()
        &&& r.len() <= candidates.len()
        &&& forall|i: int|
            0 <= i < r.len() ==> {
                &&& (#[trigger] r[i]).query@ == candidates[i]@
                &&& r[i].dist.query_id == i
            }
        &&& forall|i: int|
            0 <= i < r.len() ==> self.is_measured(
                hooks,
                m.tables,
                parsed.words,
                parsed.wrs@.len(),
                candidates[i],
                #[trigger] m.parsed[i],
                m.found[i],
                m.vectors[i],
            )
        &&& forall|g: Arithmetic, i: int|
            #![trigger computes(hooks.float, g), r[i]]
            computes(hooks.float, g) && 0 <= i < r.len() ==> is_parsed_distance(
                g,
                r[i],
                i as u64,
                candidates[i],
                m.parsed[i],
                m.found[i],
                m.vectors[i],
                by_text(m.tables.index@),
                parsed.words@.len(),
                parsed.wrs@,
            )
    }

    /// The distances are those of the candidates from a query that was taken
    /// apart. The error is given if a synonym is of no word of the query, or if a
    /// word that a candidate shares with the query lacks a relevance; never if all
    /// words of the query and of the candidates have one.
    pub open spec fn measured<P, S, F, U, Q, E, V>(
        self,
        hooks: Hooks<P, S, F, U, Q, E, V>,
        parsed: ParsedQuery,
        candidates: Seq<String>,
        r: Result<Vec<DistanceResult>, IndexError>,
    ) -> bool where
        P: Fn(&str) -> ParsedQuery,
        S: Fn(&String, u32) -> u32,
        F: Fn(FloatOp) -> Score,
        U: Fn(u64) -> (u64, u64),
        Q: Fn(u64, u8, usize) -> u64,
        E: Fn(&String, &FnvHashSet<String>, &FnvHashMap<String, String>) -> MatchedWords,
        V: Fn(&Vec<String>, &MatchedWords) -> Option<VectorReadings>,
     {
        match r {
            Ok(list) => {
                &&& parsed.synonyms_fit()
                &&& list@.len() == candidates.len()
                &&& exists|m: Measuring| #[trigger]
                    self.measures(m, hooks, parsed, candidates, list@)
            },
            Err(e) => {
                &&& e is BadQuery
                &&& !parsed.synonyms_fit() || exists|
                    i: int,
                    cand: ParsedQuery,
                    tables: WordTables,
                |
                    {
                        &&& 0 <= i < candidates.len()
                        &&& #[trigger] parses_to(hooks.parse, candidates[i]@, cand)
                        &&& #[trigger] tables.describe(parsed.words@, parsed.synonyms@)
                        &&& !shares_fit(
                            by_text(tables.index@),
                            parsed.wrs@.len(),
                            cand.words@,
                            cand.wrs@.len(),
                        )
                        &&& parsed.words@.len() > parsed.wrs@.len() || cand.words@.len()
                            > cand.wrs@.len()
                    }
            },
        }
    }

    /// The distances of candidates from a query: none if the query is empty.
    pub open spec fn are_distances<P, S, F, U, Q, E, V>(
        self,
        hooks: Hooks<P, S, F, U, Q, E, V>,
        query: Seq<char>,
        candidates: Seq<String>,
        r: Result<Vec<DistanceResult>, IndexError>,
    ) -> bool where
        P: Fn(&str) -> ParsedQuery,
        S: Fn(&String, u32) -> u32,
        F: Fn(FloatOp) -> Score,
        U: Fn(u64) -> (u64, u64),
        Q: Fn(u64, u8, usize) -> u64,
        E: Fn(&String, &FnvHashSet<String>, &FnvHashMap<String, String>) -> MatchedWords,
        V: Fn(&Vec<String>, &MatchedWords) -> Option<VectorReadings>,
     {
        if query.len() == 0 {
            r matches Ok(list) && list@.len() == 0
        } else {
            exists|parsed: ParsedQuery| #[trigger]
                parses_to(hooks.parse, query, parsed) && self.measured(
                    hooks,
                    parsed,
                    candidates,
                    r,
                )
        }
    }

    /// Measures the distances of candidates from a query that was taken apart.
    pub fn measure_candidates<P, S, F, U, Q, E, V>(
        &self,
        hooks: &Hooks<P, S, F, U, Q, E, V>,
        parsed: &ParsedQuery,
        candidates: &Vec<String>,
    ) -> (r: Result<Vec<DistanceResult>, IndexError>) where
        P: Fn(&str) -> ParsedQuery,
        S: Fn(&String, u32) -> u32,
        F: Fn(FloatOp) -> Score,
        U: Fn(u64) -> (u64, u64),
        Q: Fn(u64, u8, usize) -> u64,
        E: Fn(&String, &FnvHashSet<String>, &FnvHashMap<String, String>) -> MatchedWords,
        V: Fn(&Vec<String>, &MatchedWords) -> Option<VectorReadings>,

        requires
            hooks.ready(),
        ensures
            self.measured(*hooks, *parsed, candidates@, r),
    {
        if !parsed.check_synonyms() {
            return Err(IndexError::BadQuery);
        }
        let tables: WordTables = WordTables::new(&parsed.words, &parsed.synonyms);
        proof {
            assert forall|text: Seq<char>| #[trigger]
                by_text(tables.index@).contains_key(text) implies by_text(tables.index@)[text]
                < parsed.words@.len() by {
                lemma_index_finds_words(
                    by_text(tables.index@),
                    parsed.words@,
                    parsed.synonyms@,
                    text,
                );
            }
        }
        let mut out: Vec<DistanceResult> = Vec::new();
        let ghost mut m = Measuring {
            tables,
            parsed: Seq::empty(),
            found: Seq::empty(),
            vectors: Seq::empty(),
        };
        let mut i: usize = 0;
        while i < candidates.len()
            invariant
                i <= candidates@.len(),
                hooks.ready(),
                parsed.synonyms_fit(),
                tables.describe(parsed.words@, parsed.synonyms@),
                forall|text: Seq<char>| #[trigger]
                    by_text(tables.index@).contains_key(text) ==> by_text(tables.index@)[text]
                        < parsed.words@.len(),
                m.tables == tables,
                out@.len() == i,
                self.measures(m, *hooks, *parsed, candidates@, out@),
            decreases candidates@.len() - i,
        {
            let cand_query: &String = &candidates[i];
            let cand_parsed: ParsedQuery = (hooks.parse)(cand_query.as_str());
            assert(parses_to(hooks.parse, candidates@[i as int]@, cand_parsed));
            let found: MatchedWords = (hooks.match_words)(
                cand_query,
                &tables.words,
                &tables.synonyms,
            );
            let vectors: Option<VectorReadings> = (hooks.vectors)(&parsed.words, &found);
            let ghost whole = cand_parsed;
            let cand: Candidate = Candidate {
                query: cand_query.clone(),
                words: cand_parsed.words,
                wrs: cand_parsed.wrs,
            };
            let result: DistanceResult = match distance_result(
                &hooks.float,
                i as u64,
                &cand,
                &found,
                &vectors,
                &tables.index,
                &parsed.words,
                &parsed.wrs,
            ) {
                Some(result) => result,
                None => return Err(IndexError::BadQuery),
            };
            let ghost had = m;
            let ghost before = out@;
            out.push(result);
            proof {
                m =
                Measuring {
                    tables,
                    parsed: had.parsed.push(whole),
                    found: had.found.push(found),
                    vectors: had.vectors.push(vectors),
                };
                assert(self.is_measured(
                    *hooks,
                    tables,
                    parsed.words,
                    parsed.wrs@.len(),
                    candidates@[i as int],
                    whole,
                    found,
                    vectors,
                ));
                assert forall|j: int| 0 <= j < i implies (#[trigger] out@[j]) == before[j] by {}
                assert forall|j: int| 0 <= j < i + 1 implies self.is_measured(
                    *hooks,
                    m.tables,
                    parsed.words,
                    parsed.wrs@.len(),
                    candidates@[j],
                    #[trigger] m.parsed[j],
                    m.found[j],
                    m.vectors[j],
                ) by {
                    if j < i {
                        assert(m.parsed[j] == had.parsed[j]);
                    }
                }
            }
            i = i + 1;
        }
        Ok(out)
    }

    /// Measures the distances of candidates from a query, in the order of the
    /// candidates.
    pub fn get_distances<P, S, F, U, Q, E, V>(
        &self,
        hooks: &Hooks<P, S, F, U, Q, E, V>,
        query: &str,
        candidates: &Vec<String>,
    ) -> (r: Result<Vec<DistanceResult>, IndexError>) where
        P: Fn(&str) -> ParsedQuery,
        S: Fn(&String, u32) -> u32,
        F: Fn(FloatOp) -> Score,
        U: Fn(u64) -> (u64, u64),
        Q: Fn(u64, u8, usize) -> u64,
        E: Fn(&String, &FnvHashSet<String>, &FnvHashMap<String, String>) -> MatchedWords,
        V: Fn(&Vec<String>, &MatchedWords) -> Option<VectorReadings>,

        requires
            hooks.ready(),
        ensures
            self.are_distances(*hooks, query@, candidates@, r),
    {
        if query.is_empty() {
            return Ok(Vec::new());
        }
        let parsed: ParsedQuery = (hooks.parse)(query);
        assert(parses_to(hooks.parse, query@, parsed));
        self.measure_candidates(hooks, &parsed, candidates)
    }

    /// Measures the distances of candidates from a query, and hands them out one
    /// by one.
    pub fn get_dist_results<P, S, F, U, Q, E, V>(
        &self,
        hooks: &Hooks<P, S, F, U, Q, E, V>,
        query: &str,
        candidates: &Vec<String>,
    ) -> (r: Result<DistResults, IndexError>) where
        P: Fn(&str) -> ParsedQuery,
        S: Fn(&String, u32) -> u32,
        F: Fn(FloatOp) -> Score,
        U: Fn(u64) -> (u64, u64),
        Q: Fn(u64, u8, usize) -> u64,
        E: Fn(&String, &FnvHashSet<String>, &FnvHashMap<String, String>) -> MatchedWords,
        V: Fn(&Vec<String>, &MatchedWords) -> Option<VectorReadings>,

        requires
            hooks.ready(),
        ensures
            exists|answer: Result<Vec<DistanceResult>, IndexError>| #[trigger]
                self.are_distances(*hooks, query@, candidates@, answer) && match answer {
                    Ok(list) => r is Ok && r->Ok_0.items_iter.remaining() == list@,
                    Err(e) => r == Err::<DistResults, IndexError>(e),
                },
    {
        let answer: Result<Vec<DistanceResult>, IndexError> = self.get_distances(
            hooks,
            query,
            candidates,
        );
        match answer {
            Ok(list) => {
                let items: std::vec::IntoIter<DistanceResult> = list.into_iter();
                assert(items.remaining() == list@);
                Ok(DistResults::new(items))
            },
            Err(e) => Err(e),
        }
    }
}

/// The results, with their candidates numbered from `start` on.
pub open spec fn numbered_from(r: Seq<DistanceResult>, start: int) -> Seq<DistanceResult> {
    Seq::new(
        r.len(),
        |i: int|
            DistanceResult {
                query: r[i].query,
                dist: Distance {
                    query_id: (start + i) as u64,
                    keyword: r[i].dist.keyword,
                    cosine: r[i].dist.cosine,
                },
            },
    )
}

/// A measuring of one list of candidates, and then of another.
pub open spec fn joined(a: Measuring, b: Measuring) -> Measuring {
    Measuring {
        tables: a.tables,
        parsed: a.parsed + b.parsed,
        found: a.found + b.found,
        vectors: a.vectors + b.vectors,
    }
}

/// The distance of a candidate does not depend on the other candidates: what two
/// lists of candidates give by themselves, they give when they are joined, with
/// the candidates of the second numbered on.
pub proof fn law_joined_candidates_keep_their_distances<'a, P, S, F, U, Q, E, V>(
    index: Qpick<'a>,
    ma: Measuring,
    mb: Measuring,
    hooks: Hooks<P, S, F, U, Q, E, V>,
    parsed: ParsedQuery,
    a: Seq<String>,
    b: Seq<String>,
    ra: Seq<DistanceResult>,
    rb: Seq<DistanceResult>,
) where
    P: Fn(&str) -> ParsedQuery,
    S: Fn(&String, u32) -> u32,
    F: Fn(FloatOp) -> Score,
    U: Fn(u64) -> (u64, u64),
    Q: Fn(u64, u8, usize) -> u64,
    E: Fn(&String, &FnvHashSet<String>, &FnvHashMap<String, String>) -> MatchedWords,
    V: Fn(&Vec<String>, &MatchedWords) -> Option<VectorReadings>,

    requires
        ma.tables == mb.tables,
        ra.len() == a.len(),
        rb.len() == b.len(),
        a.len() + b.len() <= u64::MAX,
        index.measures(ma, hooks, parsed, a, ra),
        index.measures(mb, hooks, parsed, b, rb),
    ensures
        index.measures(
            joined(ma, mb),
            hooks,
            parsed,
            a + b,
            ra + numbered_from(rb, a.len() as int),
        ),
{
    let m = joined(ma, mb);
    let r = ra + numbered_from(rb, a.len() as int);
    let n = a.len() as int;
    assert forall|i: int| 0 <= i < r.len() implies (#[trigger] r[i]).query@ == (a + b)[i]@
        && r[i].dist.query_id == i by {
        if i < n {
            assert(r[i] == ra[i]);
        } else {
            assert(rb[i - n].query@ == b[i - n]@);
        }
    }
    assert forall|i: int| 0 <= i < r.len() implies index.is_measured(
        hooks,
        m.tables,
        parsed.words,
        parsed.wrs@.len(),
        (a + b)[i],
        #[trigger] m.parsed[i],
        m.found[i],
        m.vectors[i],
    ) by {
        if i < n {
            assert(m.parsed[i] == ma.parsed[i]);
        } else {
            assert(m.parsed[i] == mb.parsed[i - n]);
        }
    }
    assert forall|g: Arithmetic, i: int|
        #![trigger computes(hooks.float, g), r[i]]
        computes(hooks.float, g) && 0 <= i < r.len() implies is_parsed_distance(
        g,
        r[i],
        i as u64,
        (a + b)[i],
        m.parsed[i],
        m.found[i],
        m.vectors[i],
        by_text(m.tables.index@),
        parsed.words@.len(),
        parsed.wrs@,
    ) by {
        if i < n {
            assert(r[i] == ra[i]);
        } else {
            let one = rb[i - n];
            assert(one.query@ == b[i - n]@);
        }
    }
}

/// The measuring of the candidates from `start` on, up to `end`.
pub open spec fn part_of(m: Measuring, start: int, end: int) -> Measuring {
    Measuring {
        tables: m.tables,
        parsed: m.parsed.subrange(start, end),
        found: m.found.subrange(start, end),
        vectors: m.vectors.subrange(start, end),
    }
}

/// What a list of candidates gives, every part of the list gives by itself, with
/// its candidates numbered from zero: the distance of a candidate does not depend
/// on the other candidates.
pub proof fn law_parted_candidates_keep_their_distances<'a, P, S, F, U, Q, E, V>(
    index: Qpick<'a>,
    m: Measuring,
    hooks: Hooks<P, S, F, U, Q, E, V>,
    parsed: ParsedQuery,
    candidates: Seq<String>,
    r: Seq<DistanceResult>,
    start: int,
    end: int,
) where
    P: Fn(&str) -> ParsedQuery,
    S: Fn(&String, u32) -> u32,
    F: Fn(FloatOp) -> Score,
    U: Fn(u64) -> (u64, u64),
    Q: Fn(u64, u8, usize) -> u64,
    E: Fn(&String, &FnvHashSet<String>, &FnvHashMap<String, String>) -> MatchedWords,
    V: Fn(&Vec<String>, &MatchedWords) -> Option<VectorReadings>,

    requires
        r.len() == candidates.len(),
        r.len() <= u64::MAX,
        0 <= start <= end <= r.len(),
        index.measures(m, hooks, parsed, candidates, r),
    ensures
        index.measures(
            part_of(m, start, end),
            hooks,
            parsed,
            candidates.subrange(start, end),
            numbered_from(r.subrange(start, end), 0),
        ),
{
    let part = part_of(m, start, end);
    let cands = candidates.subrange(start, end);
    let s = numbered_from(r.subrange(start, end), 0);
    assert forall|i: int| 0 <= i < s.len() implies (#[trigger] s[i]).query@ == cands[i]@
        && s[i].dist.query_id == i by {
        assert(r[start + i].query@ == candidates[start + i]@);
    }
    assert forall|i: int| 0 <= i < s.len() implies index.is_measured(
        hooks,
        part.tables,
        parsed.words,
        parsed.wrs@.len(),
        cands[i],
        #[trigger] part.parsed[i],
        part.found[i],
        part.vectors[i],
    ) by {
        assert(part.parsed[i] == m.parsed[start + i]);
    }
    assert forall|g: Arithmetic, i: int|
        #![trigger computes(hooks.float, g), s[i]]
        computes(hooks.float, g) && 0 <= i < s.len() implies is_parsed_distance(
        g,
        s[i],
        i as u64,
        cands[i],
        part.parsed[i],
        part.found[i],
        part.vectors[i],
        by_text(part.tables.index@),
        parsed.words@.len(),
        parsed.wrs@,
    ) by {
        let one = r[start + i];
        assert(one.query@ == candidates[start + i]@);
    }
}

} // verus!
