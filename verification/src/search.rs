//! Measuring one query of the index, or one candidate, against the query that
//! was asked for.
use crate::cosine::{cosine_diff_distance, vector_distance, MatchedWords, VectorReadings};
use crate::matching::{keyword_dist, keyword_distance, uncovered};
use crate::results::{Distance, DistanceResult, KeywordMatchResult, SearchResult};
use crate::score::{computes, takes_all, zero, Arithmetic, FloatOp, Score};
use crate::tables::{by_text, list_texts, text_get};
use fnv::FnvHashMap;
use vstd::prelude::*;

verus! {

/// The keyword distance of a query after the first `n` of its words in excess
/// were looked at: those that the index finds after all lower it, by their
/// relevance in proportion, but not below zero.
pub open spec fn lowered(
    g: Arithmetic,
    dist: Score,
    excess: Seq<String>,
    index: Map<Seq<char>, usize>,
    wrs: Seq<Score>,
    n: nat,
) -> Score
    decreases n,
{
    if n == 0 {
        dist
    } else {
        let ahead = lowered(g, dist, excess, index, wrs, (n - 1) as nat);
        let text = excess[n - 1]@;
        if index.contains_key(text) {
            g(
                FloatOp::Minus(ahead, g(FloatOp::Times(dist, wrs[index[text] as int]))),
            ).larger(zero())
        } else {
            ahead
        }
    }
}

/// Every word in excess that the index finds has a relevance.
pub open spec fn excess_fits(
    excess: Seq<String>,
    index: Map<Seq<char>, usize>,
    relevances: nat,
) -> bool {
    forall|i: int|
        0 <= i < excess.len() && index.contains_key((#[trigger] excess[i])@)
            ==> index[excess[i]@] < relevances
}

/// Computes [`lowered`] for all the words in excess, if those that the index finds
/// have a relevance.
pub fn lower_distance<F: Fn(FloatOp) -> Score>(
    float: &F,
    dist: Score,
    excess_words: &Vec<String>,
    words_index: &FnvHashMap<String, usize>,
    wrs: &Vec<Score>,
) -> (r: Option<Score>)
    requires
        takes_all(*float),
    ensures
        r is Some <==> excess_fits(excess_words@, by_text(words_index@), wrs@.len()),
        forall|g: Arithmetic| #[trigger]
            computes(*float, g) && r is Some ==> r->0 == lowered(
                g,
                dist,
                excess_words@,
                by_text(words_index@),
                wrs@,
                excess_words@.len(),
            ),
{
    let mut keyword_dist: Score = dist;
    let mut i: usize = 0;
    while i < excess_words.len()
        invariant
            i <= excess_words@.len(),
            takes_all(*float),
            forall|j: int|
                0 <= j < i && by_text(words_index@).contains_key((#[trigger] excess_words@[j])@)
                    ==> by_text(words_index@)[excess_words@[j]@] < wrs@.len(),
            forall|g: Arithmetic| #[trigger]
                computes(*float, g) ==> keyword_dist == lowered(
                    g,
                    dist,
                    excess_words@,
                    by_text(words_index@),
                    wrs@,
                    i as nat,
                ),
        decreases excess_words@.len() - i,
    {
        if let Some(word_idx) = text_get(words_index, &excess_words[i]) {
            if *word_idx >= wrs.len() {
                assert(by_text(words_index@).contains_key(excess_words@[i as int]@));
                return None;
            }
            let part: Score = float(FloatOp::Times(dist, wrs[*word_idx]));
            keyword_dist = float(FloatOp::Minus(keyword_dist, part)).max(Score { bits: 0 });
        }
        i = i + 1;
    }
    Some(keyword_dist)
}

/// The result is the one for a match, whose text is compared by `found` and
/// whose word vectors are read by `vectors`.
pub open spec fn is_result(
    g: Arithmetic,
    r: SearchResult,
    m: KeywordMatchResult,
    found: MatchedWords,
    vectors: Option<VectorReadings>,
    index: Map<Seq<char>, usize>,
    words: nat,
    wrs: Seq<Score>,
) -> bool {
    let keyword = lowered(
        g,
        m.dist,
        found.excess_words@,
        index,
        wrs,
        found.excess_words@.len(),
    );
    &&& r.query_id == m.query_id
    &&& r.dist == (Distance {
        query_id: m.query_id,
        keyword,
        cosine: vector_distance(
            g,
            vectors,
            words,
            found.cand_words@.len(),
            found.match_words@.len(),
            found.miss_words@.len(),
            found.excess_words@.len(),
            keyword,
        ),
    })
}

/// Makes the result for a match: its keyword distance is lowered by the words
/// in excess that the index finds after all, and its cosine distance is found.
/// There is none if such a word has no relevance.
pub fn search_result<F: Fn(FloatOp) -> Score>(
    float: &F,
    m: &KeywordMatchResult,
    cand_query: String,
    found: &MatchedWords,
    vectors: &Option<VectorReadings>,
    words_index: &FnvHashMap<String, usize>,
    words: &Vec<String>,
    wrs: &Vec<Score>,
) -> (r: Option<SearchResult>)
    requires
        takes_all(*float),
    ensures
        r is Some <==> excess_fits(found.excess_words@, by_text(words_index@), wrs@.len()),
        r matches Some(result) ==> {
            &&& result.query_id == m.query_id
            &&& result.query == Some(cand_query)
            &&& result.dist.query_id == m.query_id
        },
        forall|g: Arithmetic| #[trigger]
            computes(*float, g) && r is Some ==> is_result(
                g,
                r->0,
                *m,
                *found,
                *vectors,
                by_text(words_index@),
                words@.len(),
                wrs@,
            ),
{
    match lower_distance(float, m.dist, &found.excess_words, words_index, wrs) {
        None => None,
        Some(keyword) => {
            let cosine: Option<Score> = cosine_diff_distance(float, vectors, words, found, keyword);
            Some(
                SearchResult {
                    query_id: m.query_id,
                    query: Some(cand_query),
                    dist: Distance { query_id: m.query_id, keyword, cosine },
                },
            )
        },
    }
}

/// A query to measure the distance of, and its words with their relevances.
#[derive(Debug, Clone)]
pub struct Candidate {
    pub query: String,
    pub words: Vec<String>,
    pub wrs: Vec<Score>,
}

/// What the words of a query of `words` count for in a candidate, after its
/// first `n` words were looked at: each word that the index finds adds its
/// relevance in the query or in the candidate, whichever is smaller.
pub open spec fn shared(
    g: Arithmetic,
    index: Map<Seq<char>, usize>,
    words: nat,
    wrs: Seq<Score>,
    cand_words: Seq<String>,
    cand_wrs: Seq<Score>,
    n: nat,
) -> Seq<Score>
    decreases n,
{
    if n == 0 {
        uncovered(words)
    } else {
        let ahead = shared(g, index, words, wrs, cand_words, cand_wrs, (n - 1) as nat);
        let text = cand_words[n - 1]@;
        if index.contains_key(text) {
            let i = index[text] as int;
            ahead.update(i, g(FloatOp::Plus(ahead[i], wrs[i].smaller(cand_wrs[n - 1]))))
        } else {
            ahead
        }
    }
}

/// Every word of a candidate that the index finds has a relevance both in the
/// query and in the candidate.
pub open spec fn shares_fit(
    index: Map<Seq<char>, usize>,
    relevances: nat,
    cand_words: Seq<String>,
    cand_relevances: nat,
) -> bool {
    forall|i: int|
        0 <= i < cand_words.len() && index.contains_key((#[trigger] cand_words[i])@)
            ==> index[cand_words[i]@] < relevances && i < cand_relevances
}

/// Computes [`shared`] for all the words of the candidate, if those that the index
/// finds have their relevances.
pub fn share_words<F: Fn(FloatOp) -> Score>(
    float: &F,
    words_index: &FnvHashMap<String, usize>,
    words: &Vec<String>,
    wrs: &Vec<Score>,
    cand: &Candidate,
) -> (r: Option<Vec<Score>>)
    requires
        takes_all(*float),
        forall|text: Seq<char>| #[trigger]
            by_text(words_index@).contains_key(text) ==> by_text(words_index@)[text]
                < words@.len(),
    ensures
        r is Some <==> shares_fit(
            by_text(words_index@),
            wrs@.len(),
            cand.words@,
            cand.wrs@.len(),
        ),
        forall|g: Arithmetic| #[trigger]
            computes(*float, g) && r is Some ==> r->0@ == shared(
                g,
                by_text(words_index@),
                words@.len(),
                wrs@,
                cand.words@,
                cand.wrs@,
                cand.words@.len(),
            ),
{
    let mut rels: Vec<Score> = crate::matching::no_words(words.len());
    let mut i: usize = 0;
    while i < cand.words.len()
        invariant
            i <= cand.words@.len(),
            takes_all(*float),
            rels@.len() == words@.len(),
            forall|text: Seq<char>| #[trigger]
                by_text(words_index@).contains_key(text) ==> by_text(words_index@)[text]
                    < words@.len(),
            forall|j: int|
                0 <= j < i && by_text(words_index@).contains_key((#[trigger] cand.words@[j])@)
                    ==> by_text(words_index@)[cand.words@[j]@] < wrs@.len() && j < cand.wrs@.len(),
            forall|g: Arithmetic| #[trigger]
                computes(*float, g) ==> rels@ == shared(
                    g,
                    by_text(words_index@),
                    words@.len(),
                    wrs@,
                    cand.words@,
                    cand.wrs@,
                    i as nat,
                ),
        decreases cand.words@.len() - i,
    {
        if let Some(word_idx) = text_get(words_index, &cand.words[i]) {
            if *word_idx >= wrs.len() || i >= cand.wrs.len() {
                assert(by_text(words_index@).contains_key(cand.words@[i as int]@));
                return None;
            }
            let part: Score = wrs[*word_idx].min(cand.wrs[i]);
            let rel: Score = float(FloatOp::Plus(rels[*word_idx], part));
            rels.set(*word_idx, rel);
        }
        i = i + 1;
    }
    Some(rels)
}

/// The result is the one for candidate `cid`, which is compared by `found` and
/// whose word vectors are read by `vectors`.
pub open spec fn is_distance(
    g: Arithmetic,
    r: DistanceResult,
    cid: u64,
    cand: Candidate,
    found: MatchedWords,
    vectors: Option<VectorReadings>,
    index: Map<Seq<char>, usize>,
    words: nat,
    wrs: Seq<Score>,
) -> bool {
    let keyword = keyword_distance(
        g,
        shared(g, index, words, wrs, cand.words@, cand.wrs@, cand.words@.len()),
    );
    &&& r.query@ == cand.query@
    &&& r.dist == (Distance {
        query_id: cid,
        keyword,
        cosine: vector_distance(
            g,
            vectors,
            words,
            found.cand_words@.len(),
            found.match_words@.len(),
            found.miss_words@.len(),
            found.excess_words@.len(),
            keyword,
        ),
    })
}

/// Measures the distance of a candidate. There is none if a word that it shares
/// with the query has no relevance.
pub fn distance_result<F: Fn(FloatOp) -> Score>(
    float: &F,
    cid: u64,
    cand: &Candidate,
    found: &MatchedWords,
    vectors: &Option<VectorReadings>,
    words_index: &FnvHashMap<String, usize>,
    words: &Vec<String>,
    wrs: &Vec<Score>,
) -> (r: Option<DistanceResult>)
    requires
        takes_all(*float),
        forall|text: Seq<char>| #[trigger]
            by_text(words_index@).contains_key(text) ==> by_text(words_index@)[text]
                < words@.len(),
    ensures
        r is Some <==> shares_fit(
            by_text(words_index@),
            wrs@.len(),
            cand.words@,
            cand.wrs@.len(),
        ),
        r matches Some(result) ==> result.query@ == cand.query@ && result.dist.query_id == cid,
        forall|g: Arithmetic| #[trigger]
            computes(*float, g) && r is Some ==> is_distance(
                g,
                r->0,
                cid,
                *cand,
                *found,
                *vectors,
                by_text(words_index@),
                words@.len(),
                wrs@,
            ),
{
    match share_words(float, words_index, words, wrs, cand) {
        None => None,
        Some(rels) => {
            let keyword: Score = keyword_dist(float, &rels);
            let cosine: Option<Score> = cosine_diff_distance(float, vectors, words, found, keyword);
            Some(
                DistanceResult {
                    query: cand.query.clone(),
                    dist: Distance { query_id: cid, keyword, cosine },
                },
            )
        },
    }
}

/// Words in excess never lower a keyword distance below zero, and never make it
/// anything but a number.
pub proof fn law_lowered_distance_is_not_negative(
    g: Arithmetic,
    dist: Score,
    excess: Seq<String>,
    index: Map<Seq<char>, usize>,
    wrs: Seq<Score>,
    n: nat,
)
    requires
        !dist.is_nan(),
        !dist.below(zero()),
    ensures
        !lowered(g, dist, excess, index, wrs, n).is_nan(),
        !lowered(g, dist, excess, index, wrs, n).below(zero()),
    decreases n,
{
    if n > 0 {
        law_lowered_distance_is_not_negative(g, dist, excess, index, wrs, (n - 1) as nat);
    }
}

/// A candidate none of whose words in excess is found in the index keeps its
/// keyword distance.
pub proof fn law_unknown_excess_words_change_nothing(
    g: Arithmetic,
    dist: Score,
    excess: Seq<String>,
    index: Map<Seq<char>, usize>,
    wrs: Seq<Score>,
    n: nat,
)
    requires
        n <= excess.len(),
        forall|i: int| 0 <= i < excess.len() ==> !index.contains_key((#[trigger] excess[i])@),
    ensures
        lowered(g, dist, excess, index, wrs, n) == dist,
    decreases n,
{
    if n > 0 {
        law_unknown_excess_words_change_nothing(g, dist, excess, index, wrs, (n - 1) as nat);
    }
}

/// How far words in excess lower a distance depends on their texts.
pub proof fn lemma_lowered_by_texts(
    g: Arithmetic,
    dist: Score,
    x: Seq<String>,
    y: Seq<String>,
    index: Map<Seq<char>, usize>,
    wrs: Seq<Score>,
    n: nat,
)
    requires
        list_texts(x) == list_texts(y),
        n <= x.len(),
    ensures
        x.len() == y.len(),
        lowered(g, dist, x, index, wrs, n) == lowered(g, dist, y, index, wrs, n),
    decreases n,
{
    assert(list_texts(x).len() == x.len() && list_texts(y).len() == y.len());
    if n > 0 {
        lemma_lowered_by_texts(g, dist, x, y, index, wrs, (n - 1) as nat);
        assert(list_texts(x)[n - 1] == list_texts(y)[n - 1]);
    }
}

/// What the words of a query count for in a candidate depends on the texts of its
/// words.
pub proof fn lemma_shared_by_texts(
    g: Arithmetic,
    index: Map<Seq<char>, usize>,
    words: nat,
    wrs: Seq<Score>,
    x: Seq<String>,
    y: Seq<String>,
    cand_wrs: Seq<Score>,
    n: nat,
)
    requires
        list_texts(x) == list_texts(y),
        n <= x.len(),
    ensures
        x.len() == y.len(),
        shared(g, index, words, wrs, x, cand_wrs, n) == shared(
            g,
            index,
            words,
            wrs,
            y,
            cand_wrs,
            n,
        ),
    decreases n,
{
    assert(list_texts(x).len() == x.len() && list_texts(y).len() == y.len());
    if n > 0 {
        lemma_shared_by_texts(g, index, words, wrs, x, y, cand_wrs, (n - 1) as nat);
        assert(list_texts(x)[n - 1] == list_texts(y)[n - 1]);
    }
}

} // verus!
