//! Distance of two queries by the vectors of their words.
//!
//! The vectors themselves are looked up, combined and compared elsewhere. What
//! stands here is which of their cosine distances counts for a pair of queries,
//! and how it is adjusted by the keyword distance.
use crate::score::{computes, score, takes_all, zero, Arithmetic, FloatOp, Score, ONE};
use crate::tables::list_texts;
use vstd::prelude::*;

verus! {

/// Bit pattern of 0.3.
pub const NEAR: u32 = 0x3e99_999a;

/// Bit pattern of 0.45.
pub const CLOSE: u32 = 0x3ee6_6666;

/// Bit pattern of 0.5.
pub const HALF: u32 = 0x3f00_0000;

/// Bit pattern of 0.55.
pub const LENIENT: u32 = 0x3f0c_cccd;

/// Bit pattern of 0.65.
pub const MOST_LENIENT: u32 = 0x3f26_6666;

/// Bit pattern of 0.75.
pub const DISCOUNT: u32 = 0x3f40_0000;

/// Bit pattern of 1.3.
pub const PENALTY: u32 = 0x3fa6_6666;

/// The words of a candidate query, and how they differ from those of the query
/// that was asked for.
#[derive(Debug, Clone)]
pub struct MatchedWords {
    /// All words of the candidate.
    pub cand_words: Vec<String>,
    /// Words that both have.
    pub match_words: Vec<String>,
    /// Words that the candidate lacks.
    pub miss_words: Vec<String>,
    /// Words that only the candidate has.
    pub excess_words: Vec<String>,
}

/// [`MatchedWords`] with its words as sequences of characters.
#[verifier::ext_equal]
pub struct MatchedTexts {
    pub cand_words: Seq<Seq<char>>,
    pub match_words: Seq<Seq<char>>,
    pub miss_words: Seq<Seq<char>>,
    pub excess_words: Seq<Seq<char>>,
}

impl View for MatchedWords {
    type V = MatchedTexts;

    open spec fn view(&self) -> MatchedTexts {
        MatchedTexts {
            cand_words: list_texts(self.cand_words@),
            match_words: list_texts(self.match_words@),
            miss_words: list_texts(self.miss_words@),
            excess_words: list_texts(self.excess_words@),
        }
    }
}

/// How many words of each list have no vector.
#[derive(Debug, Clone, Copy)]
pub struct VectorCounts {
    pub nf_match: usize,
    pub nf_miss: usize,
    pub nf_excs: usize,
}

/// What the word vectors say of a pair of queries.
#[derive(Debug, Clone, Copy)]
pub struct VectorReadings {
    pub counts: VectorCounts,
    /// Words of the query without a vector.
    pub nf_query: usize,
    /// Words of the candidate without a vector.
    pub nf_cand: usize,
    /// Cosine distance of the excess words from the missing ones.
    pub excess_missing: Score,
    /// Cosine distance of the missing words from the excess ones.
    pub missing_excess: Score,
    /// Cosine distance of all words of the query from all of the candidate.
    pub query_cand: Score,
    /// Cosine distance of the matching words less the missing ones from the
    /// matching words less the excess ones.
    pub shifted: Score,
}

/// Which cosine distance counts for a pair of queries.
#[derive(Debug, Clone, Copy)]
pub enum CosineRoute {
    /// None: too few words have a vector.
    Unavailable,
    /// None is needed: the queries have the same words.
    Exact,
    /// That of the excess words from the missing ones.
    ExcessFromMissing,
    /// That of the whole queries, as no missing word has a vector.
    WholeWithoutMissing,
    /// That of the whole queries, as no excess word has a vector.
    WholeWithoutExcess,
    /// That of the matching words less the missing, and less the excess ones.
    Shifted,
}

/// The route for lists of these lengths, of whose words so many have no vector.
pub open spec fn route(
    match_len: nat,
    missing_len: nat,
    excess_len: nat,
    counts: VectorCounts,
) -> CosineRoute {
    if missing_len == 0 && excess_len == 0 {
        CosineRoute::Exact
    } else if counts.nf_match == match_len {
        if counts.nf_miss == missing_len || counts.nf_excs == excess_len {
            CosineRoute::Unavailable
        } else {
            CosineRoute::ExcessFromMissing
        }
    } else if counts.nf_miss == missing_len && counts.nf_excs == excess_len {
        CosineRoute::Unavailable
    } else if counts.nf_miss == missing_len {
        CosineRoute::WholeWithoutMissing
    } else if counts.nf_excs == excess_len {
        CosineRoute::WholeWithoutExcess
    } else {
        CosineRoute::Shifted
    }
}

/// Computes [`route`].
pub fn cosine_route(
    match_len: usize,
    missing_len: usize,
    excess_len: usize,
    counts: &VectorCounts,
) -> (r: CosineRoute)
    ensures
        r == route(match_len as nat, missing_len as nat, excess_len as nat, *counts),
{
    if missing_len == 0 && excess_len == 0 {
        return CosineRoute::Exact;
    }
    // Either no word matches, or none of those that do has a vector.
    if counts.nf_match == match_len {
        if counts.nf_miss == missing_len || counts.nf_excs == excess_len {
            return CosineRoute::Unavailable;
        }
        return CosineRoute::ExcessFromMissing;
    }
    if counts.nf_miss == missing_len && counts.nf_excs == excess_len {
        return CosineRoute::Unavailable;
    }
    if counts.nf_miss == missing_len {
        return CosineRoute::WholeWithoutMissing;
    }
    if counts.nf_excs == excess_len {
        return CosineRoute::WholeWithoutExcess;
    }
    CosineRoute::Shifted
}

/// Cosine distance of two whole queries: there is one if each has a word with a
/// vector.
pub open spec fn whole_distance(
    query_len: nat,
    cand_len: nat,
    nf_query: nat,
    nf_cand: nat,
    cosine: Score,
) -> Option<Score> {
    if nf_query == query_len || nf_cand == cand_len {
        None
    } else {
        Some(cosine)
    }
}

/// Computes [`whole_distance`] of two lists of words, so many of which have no
/// vector, where `cosine` is the cosine distance of their combined vectors.
pub fn cosine_distance(
    query_words: &Vec<String>,
    cand_words: &Vec<String>,
    nf_query: usize,
    nf_cand: usize,
    cosine: Score,
) -> (r: Option<Score>)
    ensures
        r == whole_distance(
            query_words@.len(),
            cand_words@.len(),
            nf_query as nat,
            nf_cand as nat,
            cosine,
        ),
{
    if nf_query == query_words.len() {
        return None;
    }
    if nf_cand == cand_words.len() {
        return None;
    }
    Some(cosine)
}

/// Excess words against missing words, with `k` the keyword distance: raised by
/// `k`, but to one at most, where more words differ than match.
pub open spec fn opposed(
    g: Arithmetic,
    match_len: nat,
    missing_len: nat,
    excess_len: nat,
    cosine: Score,
    k: Score,
) -> Score {
    if missing_len > match_len || excess_len > match_len {
        g(FloatOp::Times(cosine, g(FloatOp::Plus(score(ONE), k)))).smaller(score(ONE))
    } else {
        cosine
    }
}

/// Whole queries, `nf` of whose words have no vector and `nr` of which differ:
/// lowered where the queries are near (`near`) or close (`close`) by their
/// words, else raised by the share of words without a vector, to one at most.
pub open spec fn adjusted(
    g: Arithmetic,
    near: bool,
    close: bool,
    nf: Score,
    nr: Score,
    cosine: Score,
    k: Score,
) -> Score {
    if near {
        g(FloatOp::Times(cosine, k))
    } else if close {
        g(FloatOp::Times(cosine, g(FloatOp::Over(k, g(FloatOp::Plus(k, cosine))))))
    } else {
        g(FloatOp::Plus(cosine, g(FloatOp::Over(g(FloatOp::Times(nf, k)), nr)))).smaller(score(ONE))
    }
}

/// Computes [`adjusted`].
fn adjust<F: Fn(FloatOp) -> Score>(
    float: &F,
    near: bool,
    close: bool,
    nf: Score,
    nr: Score,
    cosine: Score,
    k: Score,
) -> (r: Score)
    requires
        takes_all(*float),
    ensures
        forall|g: Arithmetic| #[trigger]
            computes(*float, g) ==> r == adjusted(g, near, close, nf, nr, cosine, k),
{
    if near {
        return float(FloatOp::Times(cosine, k));
    }
    if close {
        let both: Score = float(FloatOp::Plus(k, cosine));
        let share: Score = float(FloatOp::Over(k, both));
        return float(FloatOp::Times(cosine, share));
    }
    let lost: Score = float(FloatOp::Times(nf, k));
    let share: Score = float(FloatOp::Over(lost, nr));
    float(FloatOp::Plus(cosine, share)).min(Score { bits: ONE })
}

/// The distance between missing and excess words that goes unpunished.
pub open spec fn tolerance(missing_len: nat, excess_len: nat) -> u32 {
    if missing_len > 1 {
        if excess_len < 2 {
            HALF
        } else {
            CLOSE
        }
    } else {
        if excess_len < 2 {
            LENIENT
        } else {
            MOST_LENIENT
        }
    }
}

/// Matching words less the missing ones, against those less the excess ones:
/// raised where few words match and the keyword distance is large, lowered
/// where few words differ and it is small; and what the missing and the excess
/// words are apart beyond the tolerance is added.
pub open spec fn shifted_distance(
    g: Arithmetic,
    match_len: nat,
    missing_len: nat,
    excess_len: nat,
    shifted: Score,
    missing_excess: Score,
    k: Score,
) -> Score {
    let apart = zero().larger(
        g(FloatOp::Minus(missing_excess, score(tolerance(missing_len, excess_len)))),
    );
    let base = if excess_len >= 1 && missing_len >= 1 && match_len <= 2 && score(CLOSE).below(k) {
        g(FloatOp::Times(score(PENALTY), shifted))
    } else if excess_len <= 2 && missing_len <= 2 && match_len > excess_len && (k.below(
        score(CLOSE),
    ) || k.same(score(CLOSE))) {
        g(FloatOp::Times(score(DISCOUNT), shifted))
    } else {
        shifted
    };
    g(FloatOp::Plus(base, apart))
}

/// Computes [`shifted_distance`].
fn shift<F: Fn(FloatOp) -> Score>(
    float: &F,
    match_len: usize,
    missing_len: usize,
    excess_len: usize,
    shifted: Score,
    missing_excess: Score,
    k: Score,
) -> (r: Score)
    requires
        takes_all(*float),
    ensures
        forall|g: Arithmetic| #[trigger]
            computes(*float, g) ==> r == shifted_distance(
                g,
                match_len as nat,
                missing_len as nat,
                excess_len as nat,
                shifted,
                missing_excess,
                k,
            ),
{
    let thresh: u32 = if missing_len > 1 {
        if excess_len < 2 {
            HALF
        } else {
            CLOSE
        }
    } else {
        if excess_len < 2 {
            LENIENT
        } else {
            MOST_LENIENT
        }
    };
    let beyond: Score = float(FloatOp::Minus(missing_excess, Score { bits: thresh }));
    let none: Score = Score { bits: 0 };
    let apart: Score = none.max(beyond);
    // Missing and excess words, and the keyword distance is too large.
    if excess_len >= 1 && missing_len >= 1 && match_len <= 2 && k > (Score { bits: CLOSE }) {
        let base: Score = float(FloatOp::Times(Score { bits: PENALTY }, shifted));
        return float(FloatOp::Plus(base, apart));
    }
    // Few words differ, and the keyword distance is not so large.
    if excess_len <= 2 && missing_len <= 2 && match_len > excess_len && k <= (Score {
        bits: CLOSE,
    }) {
        let base: Score = float(FloatOp::Times(Score { bits: DISCOUNT }, shifted));
        return float(FloatOp::Plus(base, apart));
    }
    float(FloatOp::Plus(shifted, apart))
}

/// Enough words match for the queries to count as close, if they are by their
/// keyword distance `k` and at most one word has no vector.
pub open spec fn counts_as_close(
    match_len: nat,
    missing_len: nat,
    excess_len: nat,
    nf: Score,
    k: Score,
) -> bool {
    &&& match_len >= 2
    &&& match_len > missing_len
    &&& match_len > excess_len
    &&& k.below(score(CLOSE))
    &&& nf.below(score(ONE)) || nf.same(score(ONE))
}

/// Distance by word vectors of a query of `query_len` words from a candidate of
/// `cand_len`, `match_len` of whose words match while `missing_len` are missing
/// and `excess_len` in excess, with `k` the keyword distance.
pub open spec fn vector_distance(
    g: Arithmetic,
    vectors: Option<VectorReadings>,
    query_len: nat,
    cand_len: nat,
    match_len: nat,
    missing_len: nat,
    excess_len: nat,
    k: Score,
) -> Option<Score> {
    match vectors {
        None => None,
        Some(v) => {
            let nf = g(
                FloatOp::Whole((v.counts.nf_excs + v.counts.nf_match + v.counts.nf_miss) as u128),
            );
            let nr = g(FloatOp::Whole((missing_len + excess_len) as u128));
            let whole = whole_distance(
                query_len,
                cand_len,
                v.nf_query as nat,
                v.nf_cand as nat,
                v.query_cand,
            );
            let close = counts_as_close(match_len, missing_len, excess_len, nf, k);
            match route(match_len, missing_len, excess_len, v.counts) {
                CosineRoute::Unavailable => None,
                CosineRoute::Exact => Some(zero()),
                CosineRoute::ExcessFromMissing => Some(
                    opposed(g, match_len, missing_len, excess_len, v.excess_missing, k),
                ),
                CosineRoute::WholeWithoutMissing => match whole {
                    None => None,
                    Some(c) => {
                        let near = match_len >= 2 && missing_len == 0 && excess_len < 2 && k.below(
                            score(NEAR),
                        );
                        Some(adjusted(g, near, close, nf, nr, c, k))
                    },
                },
                CosineRoute::WholeWithoutExcess => match whole {
                    None => None,
                    Some(c) => {
                        let near = match_len >= 2 && missing_len < 2 && excess_len == 0 && k.below(
                            score(NEAR),
                        );
                        Some(adjusted(g, near, close, nf, nr, c, k))
                    },
                },
                CosineRoute::Shifted => Some(
                    shifted_distance(
                        g,
                        match_len,
                        missing_len,
                        excess_len,
                        v.shifted,
                        v.missing_excess,
                        k,
                    ),
                ),
            }
        },
    }
}

/// Computes [`vector_distance`] of the query with the given words from the
/// candidate whose words `found` lists.
pub fn cosine_diff_distance<F: Fn(FloatOp) -> Score>(
    float: &F,
    vectors: &Option<VectorReadings>,
    words: &Vec<String>,
    found: &MatchedWords,
    keyword_dist: Score,
) -> (r: Option<Score>)
    requires
        takes_all(*float),
    ensures
        vectors is None ==> r is None,
        vectors is Some && found.miss_words@.len() == 0 && found.excess_words@.len() == 0 ==> r
            == Some(zero()),
        forall|g: Arithmetic| #[trigger]
            computes(*float, g) ==> r == vector_distance(
                g,
                *vectors,
                words@.len(),
                found.cand_words@.len(),
                found.match_words@.len(),
                found.miss_words@.len(),
                found.excess_words@.len(),
                keyword_dist,
            ),
{
    let v: &VectorReadings = match vectors {
        None => return None,
        Some(v) => v,
    };
    let match_len: usize = found.match_words.len();
    let missing_len: usize = found.miss_words.len();
    let excess_len: usize = found.excess_words.len();
    let k: Score = keyword_dist;
    match cosine_route(match_len, missing_len, excess_len, &v.counts) {
        CosineRoute::Unavailable => None,
        CosineRoute::Exact => Some(Score { bits: 0 }),
        CosineRoute::ExcessFromMissing => {
            if missing_len > match_len || excess_len > match_len {
                let factor: Score = float(FloatOp::Plus(Score { bits: ONE }, k));
                return Some(
                    float(FloatOp::Times(v.excess_missing, factor)).min(Score { bits: ONE }),
                );
            }
            Some(v.excess_missing)
        },
        CosineRoute::WholeWithoutMissing => {
            match cosine_distance(words, &found.cand_words, v.nf_query, v.nf_cand, v.query_cand) {
                None => None,
                Some(c) => {
                    let (nf, nr): (Score, Score) = word_shares(
                        float,
                        &v.counts,
                        missing_len,
                        excess_len,
                    );
                    let near: bool = match_len >= 2 && missing_len == 0 && excess_len < 2 && k
                        < (Score { bits: NEAR });
                    let close: bool = is_close(match_len, missing_len, excess_len, nf, k);
                    Some(adjust(float, near, close, nf, nr, c, k))
                },
            }
        },
        CosineRoute::WholeWithoutExcess => {
            match cosine_distance(words, &found.cand_words, v.nf_query, v.nf_cand, v.query_cand) {
                None => None,
                Some(c) => {
                    let (nf, nr): (Score, Score) = word_shares(
                        float,
                        &v.counts,
                        missing_len,
                        excess_len,
                    );
                    let near: bool = match_len >= 2 && missing_len < 2 && excess_len == 0 && k
                        < (Score { bits: NEAR });
                    let close: bool = is_close(match_len, missing_len, excess_len, nf, k);
                    Some(adjust(float, near, close, nf, nr, c, k))
                },
            }
        },
        CosineRoute::Shifted => Some(
            shift(float, match_len, missing_len, excess_len, v.shifted, v.missing_excess, k),
        ),
    }
}

/// The number of words without a vector, and that of words that differ.
fn word_shares<F: Fn(FloatOp) -> Score>(
    float: &F,
    counts: &VectorCounts,
    missing_len: usize,
    excess_len: usize,
) -> (r: (Score, Score))
    requires
        takes_all(*float),
    ensures
        forall|g: Arithmetic| #[trigger]
            computes(*float, g) ==> r == (
                g(FloatOp::Whole((counts.nf_excs + counts.nf_match + counts.nf_miss) as u128)),
                g(FloatOp::Whole((missing_len + excess_len) as u128)),
            ),
{
    let nf: u128 = counts.nf_excs as u128 + counts.nf_match as u128 + counts.nf_miss as u128;
    let nr: u128 = missing_len as u128 + excess_len as u128;
    (float(FloatOp::Whole(nf)), float(FloatOp::Whole(nr)))
}

/// Computes [`counts_as_close`].
fn is_close(match_len: usize, missing_len: usize, excess_len: usize, nf: Score, k: Score) -> (r:
    bool)
    ensures
        r == counts_as_close(match_len as nat, missing_len as nat, excess_len as nat, nf, k),
{
    match_len >= 2 && match_len > missing_len && match_len > excess_len && k < (Score {
        bits: CLOSE,
    }) && nf <= (Score { bits: ONE })
}

/// Without word vectors there is no distance by them. With them, queries of the
/// same words are at distance zero.
pub proof fn law_same_words_are_at_distance_zero(
    g: Arithmetic,
    vectors: Option<VectorReadings>,
    query_len: nat,
    cand_len: nat,
    match_len: nat,
    k: Score,
)
    ensures
        vector_distance(g, vectors, query_len, cand_len, match_len, 0, 0, k) == (match vectors {
            None => None,
            Some(_) => Some(zero()),
        }),
{
}

/// The readings agree on the cosine distances that the route asks for.
pub open spec fn agree_on(r: CosineRoute, a: VectorReadings, b: VectorReadings) -> bool {
    match r {
        CosineRoute::Unavailable => true,
        CosineRoute::Exact => true,
        CosineRoute::ExcessFromMissing => a.excess_missing == b.excess_missing,
        CosineRoute::WholeWithoutMissing | CosineRoute::WholeWithoutExcess => {
            a.nf_query == b.nf_query && a.nf_cand == b.nf_cand && a.query_cand == b.query_cand
        },
        CosineRoute::Shifted => a.shifted == b.shifted && a.missing_excess == b.missing_excess,
    }
}

/// The route names every reading that counts: two sets of readings with the
/// same counts of words without a vector, which agree on what the route of
/// these counts asks for, give the same distance.
pub proof fn law_route_names_what_counts(
    g: Arithmetic,
    a: VectorReadings,
    b: VectorReadings,
    query_len: nat,
    cand_len: nat,
    match_len: nat,
    missing_len: nat,
    excess_len: nat,
    k: Score,
)
    requires
        a.counts == b.counts,
        agree_on(route(match_len, missing_len, excess_len, a.counts), a, b),
    ensures
        vector_distance(
            g,
            Some(a),
            query_len,
            cand_len,
            match_len,
            missing_len,
            excess_len,
            k,
        ) == vector_distance(
            g,
            Some(b),
            query_len,
            cand_len,
            match_len,
            missing_len,
            excess_len,
            k,
        ),
{
}

/// There is no distance by word vectors exactly if there are no vectors, or too
/// few words have one: in all that the route needs, or in one of the whole
/// queries where it is those that count.
pub proof fn law_distance_is_missing_for_want_of_vectors(
    g: Arithmetic,
    vectors: Option<VectorReadings>,
    query_len: nat,
    cand_len: nat,
    match_len: nat,
    missing_len: nat,
    excess_len: nat,
    k: Score,
)
    ensures
        vector_distance(
            g,
            vectors,
            query_len,
            cand_len,
            match_len,
            missing_len,
            excess_len,
            k,
        ) is None <==> (match vectors {
            None => true,
            Some(v) => match route(match_len, missing_len, excess_len, v.counts) {
                CosineRoute::Unavailable => true,
                CosineRoute::WholeWithoutMissing
                | CosineRoute::WholeWithoutExcess => v.nf_query == query_len || v.nf_cand
                    == cand_len,
                _ => false,
            },
        }),
{
}

} // verus!
