//! Matching a query by its keywords: which shard each ngram belongs to, how far
//! each query of the index covers the words, and which queries are near enough.
use crate::index::numbered;
use crate::ranking::{is_ranking, law_neighbours_order_all, rank, Ranked};
use crate::results::KeywordMatchResult;
use crate::score::{
    computes, score, takes_all, zero, Arithmetic, FloatOp, Score, DIST_THRESH, ONE,
};
use crate::shard::{rows_of, SearchShardResult, ShardRow};
use crate::tables::{by_text, number_entry, number_get, number_keys, text_get};
use fnv::FnvHashMap;
use std::collections::HashMap;
use vstd::prelude::*;

verus! {

/// Those of the first `n` ngrams that belong to a shard, with their numbers.
pub open spec fn members(ngrams: Seq<String>, shard_ids: Seq<u32>, shard: usize, n: nat) -> Seq<
    (Seq<char>, usize),
>
    decreases n,
{
    if n == 0 {
        Seq::empty()
    } else {
        let ahead = members(ngrams, shard_ids, shard, (n - 1) as nat);
        if shard_ids[n - 1] == shard {
            ahead.push((ngrams[n - 1]@, (n - 1) as usize))
        } else {
            ahead
        }
    }
}

/// The shard is one of the open ones, from `start` up to but not including
/// `end`.
pub open spec fn in_range(shard: int, start: u32, end: u32) -> bool {
    start <= shard < end
}

/// The groups hold, for each open shard that an ngram belongs to, the ngrams
/// that do, with their numbers, in the order of the query; and nothing else.
pub open spec fn are_groups(
    groups: Map<usize, Vec<(String, usize)>>,
    ngrams: Seq<String>,
    shard_ids: Seq<u32>,
    start: u32,
    end: u32,
) -> bool {
    &&& forall|shard: usize| #[trigger]
        groups.contains_key(shard) <==> in_range(shard as int, start, end) && members(
            ngrams,
            shard_ids,
            shard,
            ngrams.len(),
        ).len() > 0
    &&& forall|shard: usize| #[trigger]
        groups.contains_key(shard) ==> numbered(groups[shard]@) == members(
            ngrams,
            shard_ids,
            shard,
            ngrams.len(),
        )
}

/// Groups ngrams by the shard each belongs to, which `shard_ids` gives. Ngrams
/// of shards that are not open are left out.
pub fn group_ngrams(ngrams: &Vec<String>, shard_ids: &Vec<u32>, start: u32, end: u32) -> (r:
    FnvHashMap<usize, Vec<(String, usize)>>)
    requires
        shard_ids@.len() == ngrams@.len(),
    ensures
        are_groups(r@, ngrams@, shard_ids@, start, end),
{
    let mut groups: FnvHashMap<usize, Vec<(String, usize)>> = FnvHashMap::default();
    let mut i: usize = 0;
    while i < ngrams.len()
        invariant
            i <= ngrams@.len(),
            shard_ids@.len() == ngrams@.len(),
            forall|shard: usize| #[trigger]
                groups@.contains_key(shard) <==> in_range(shard as int, start, end) && members(
                    ngrams@,
                    shard_ids@,
                    shard,
                    i as nat,
                ).len() > 0,
            forall|shard: usize| #[trigger]
                groups@.contains_key(shard) ==> numbered(groups@[shard]@) == members(
                    ngrams@,
                    shard_ids@,
                    shard,
                    i as nat,
                ),
        decreases ngrams@.len() - i,
    {
        let shard_id: u32 = shard_ids[i];
        if shard_id >= start && shard_id < end {
            let shard: usize = shard_id as usize;
            let ghost had = groups@;
            let group: &mut Vec<(String, usize)> = number_entry(&mut groups, shard, Vec::new());
            let ghost ahead = numbered(group@);
            assert(ahead =~= members(ngrams@, shard_ids@, shard, i as nat));
            group.push((ngrams[i].clone(), i));
            assert(numbered(group@) =~= ahead.push((ngrams@[i as int]@, i)));
        }
        i = i + 1;
    }
    groups
}

/// Every ngram stands in the group of its own shard, and in no other: the group
/// of a shard lists exactly the ngrams that belong to it, each once, with its
/// number, in the order of the query.
pub proof fn law_each_ngram_is_in_its_own_group(
    ngrams: Seq<String>,
    shard_ids: Seq<u32>,
    shard: usize,
    n: nat,
)
    requires
        n <= ngrams.len(),
        ngrams.len() == shard_ids.len(),
        ngrams.len() <= usize::MAX,
    ensures
        forall|i: int| #![trigger shard_ids[i]]
            0 <= i < n ==> (shard_ids[i] == shard <==> members(
                ngrams,
                shard_ids,
                shard,
                n,
            ).contains((ngrams[i]@, i as usize))),
        forall|k: int|
            #![trigger members(ngrams, shard_ids, shard, n)[k]]
            0 <= k < members(ngrams, shard_ids, shard, n).len() ==> {
                let (text, i) = members(ngrams, shard_ids, shard, n)[k];
                &&& i < n
                &&& text == ngrams[i as int]@
                &&& shard_ids[i as int] == shard
            },
        forall|k: int, l: int|
            #![trigger members(ngrams, shard_ids, shard, n)[k], members(ngrams, shard_ids, shard, n)[l]]
            0 <= k < l < members(ngrams, shard_ids, shard, n).len() ==> members(
                ngrams,
                shard_ids,
                shard,
                n,
            )[k].1 < members(ngrams, shard_ids, shard, n)[l].1,
    decreases n,
{
    if n > 0 {
        let m = (n - 1) as nat;
        law_each_ngram_is_in_its_own_group(ngrams, shard_ids, shard, m);
        let ahead = members(ngrams, shard_ids, shard, m);
        let all = members(ngrams, shard_ids, shard, n);
        assert forall|i: int| #![trigger shard_ids[i]] 0 <= i < n implies (shard_ids[i] == shard
            <==> all.contains((ngrams[i]@, i as usize))) by {
            if shard_ids[i] == shard {
                if i < m {
                    let k = choose|k: int|
                        0 <= k < ahead.len() && ahead[k] == (ngrams[i]@, i as usize);
                    assert(all[k] == (ngrams[i]@, i as usize));
                } else {
                    assert(all[ahead.len() as int] == (ngrams[i]@, i as usize));
                }
            }
            if all.contains((ngrams[i]@, i as usize)) {
                let k = choose|k: int| 0 <= k < all.len() && all[k] == (ngrams[i]@, i as usize);
                if k < ahead.len() {
                    assert(ahead[k] == all[k]);
                    assert(ahead.contains((ngrams[i]@, i as usize)));
                }
            }
        }
        assert forall|k: int| #![trigger all[k]] 0 <= k < all.len() implies {
            let (text, i) = all[k];
            &&& i < n
            &&& text == ngrams[i as int]@
            &&& shard_ids[i as int] == shard
        } by {
            if k < ahead.len() {
                assert(ahead[k] == all[k]);
            }
        }
        assert forall|k: int, l: int|
            #![trigger all[k], all[l]]
            0 <= k < l < all.len() implies all[k].1 < all[l].1 by {
            assert(ahead[k] == all[k]);
            if l < ahead.len() {
                assert(ahead[l] == all[l]);
            }
        }
    }
}

/// Numbers of the words that an ngram covers.
pub open spec fn covered_by(ngrams_ids: Map<Seq<char>, Vec<usize>>, ngram: Seq<char>) -> Seq<usize> {
    if ngrams_ids.contains_key(ngram) {
        ngrams_ids[ngram]@
    } else {
        Seq::empty()
    }
}

/// The relevance of the words after the first `n` of `numbers` were covered
/// with a weight: a word that counts for nothing so far counts for its own
/// relevance times the weight.
pub open spec fn cover(
    g: Arithmetic,
    rels: Seq<Score>,
    numbers: Seq<usize>,
    wrs: Seq<Score>,
    weight: Score,
    n: nat,
) -> Seq<Score>
    decreases n,
{
    if n == 0 {
        rels
    } else {
        let ahead = cover(g, rels, numbers, wrs, weight, (n - 1) as nat);
        let i = numbers[n - 1] as int;
        if ahead[i].same(zero()) {
            ahead.update(i, g(FloatOp::Times(wrs[i], weight)))
        } else {
            ahead
        }
    }
}

/// Covering the first `n` of `numbers` finds what it needs: every number is one
/// of a word, and every word that counts for nothing so far has a relevance.
pub open spec fn can_cover(
    g: Arithmetic,
    rels: Seq<Score>,
    numbers: Seq<usize>,
    wrs: Seq<Score>,
    weight: Score,
    n: nat,
) -> bool
    decreases n,
{
    n == 0 || {
        let ahead = cover(g, rels, numbers, wrs, weight, (n - 1) as nat);
        let i = numbers[n - 1] as int;
        &&& can_cover(g, rels, numbers, wrs, weight, (n - 1) as nat)
        &&& i < rels.len()
        &&& ahead[i].same(zero()) ==> i < wrs.len()
    }
}

/// Words that all count for nothing.
pub open spec fn uncovered(words: nat) -> Seq<Score> {
    Seq::new(words, |i: int| zero())
}

/// What the words of a query count for so far: what the table says, or nothing.
pub open spec fn so_far(table: Map<u64, Seq<Score>>, id: u64, words: nat) -> Seq<Score> {
    if table.contains_key(id) {
        table[id]
    } else {
        uncovered(words)
    }
}

/// What the words count for in each query that the first `n` rows find.
pub open spec fn tally(
    g: Arithmetic,
    rows: Seq<ShardRow>,
    ngrams_ids: Map<Seq<char>, Vec<usize>>,
    wrs: Seq<Score>,
    words: nat,
    n: nat,
) -> Map<u64, Seq<Score>>
    decreases n,
{
    if n == 0 {
        Map::empty()
    } else {
        let ahead = tally(g, rows, ngrams_ids, wrs, words, (n - 1) as nat);
        let row = rows[n - 1];
        let rels = so_far(ahead, row.query_id, words);
        let numbers = covered_by(ngrams_ids, row.ngram);
        ahead.insert(row.query_id, cover(g, rels, numbers, wrs, row.weight_rel, numbers.len()))
    }
}

/// Tallying the first `n` rows finds the words and the relevances that it needs.
pub open spec fn can_tally(
    g: Arithmetic,
    rows: Seq<ShardRow>,
    ngrams_ids: Map<Seq<char>, Vec<usize>>,
    wrs: Seq<Score>,
    words: nat,
    n: nat,
) -> bool
    decreases n,
{
    n == 0 || {
        let row = rows[n - 1];
        let ahead = tally(g, rows, ngrams_ids, wrs, words, (n - 1) as nat);
        let numbers = covered_by(ngrams_ids, row.ngram);
        &&& can_tally(g, rows, ngrams_ids, wrs, words, (n - 1) as nat)
        &&& can_cover(
            g,
            so_far(ahead, row.query_id, words),
            numbers,
            wrs,
            row.weight_rel,
            numbers.len(),
        )
    }
}

/// Where each query that the first `n` rows find has its text: its number in a
/// shard, and the shard, as the first row of it says.
pub open spec fn homes(rows: Seq<ShardRow>, n: nat) -> Map<u64, (u32, u8)>
    decreases n,
{
    if n == 0 {
        Map::empty()
    } else {
        let ahead = homes(rows, (n - 1) as nat);
        let row = rows[n - 1];
        if ahead.contains_key(row.query_id) {
            ahead
        } else {
            ahead.insert(row.query_id, (row.shard_query_id, row.shard_id))
        }
    }
}

/// The contents of a table of lists.
pub open spec fn lists_of(table: Map<u64, Vec<Score>>) -> Map<u64, Seq<Score>> {
    table.map_values(|v: Vec<Score>| v@)
}

/// All words that an ngram covers are words of the query, and have a relevance.
pub open spec fn covers_words(
    ngrams_ids: Map<Seq<char>, Vec<usize>>,
    words: nat,
    relevances: nat,
) -> bool {
    forall|ngram: Seq<char>, i: int|
        #![trigger ngrams_ids[ngram]@[i]]
        ngrams_ids.contains_key(ngram) && 0 <= i < ngrams_ids[ngram]@.len()
            ==> ngrams_ids[ngram]@[i] < words && ngrams_ids[ngram]@[i] < relevances
}

/// Covering keeps the number of words, and what can be covered can be covered in
/// part.
pub proof fn lemma_cover_keeps_length(
    g: Arithmetic,
    rels: Seq<Score>,
    numbers: Seq<usize>,
    wrs: Seq<Score>,
    weight: Score,
    n: nat,
    m: nat,
)
    requires
        m <= n <= numbers.len(),
        can_cover(g, rels, numbers, wrs, weight, n),
    ensures
        cover(g, rels, numbers, wrs, weight, n).len() == rels.len(),
        can_cover(g, rels, numbers, wrs, weight, m),
    decreases n,
{
    if n > 0 {
        let k = (n - 1) as nat;
        lemma_cover_keeps_length(
            g,
            rels,
            numbers,
            wrs,
            weight,
            k,
            if m < n {
                m
            } else {
                k
            },
        );
    }
}

/// What can be tallied can be tallied in part.
proof fn lemma_tally_in_part(
    g: Arithmetic,
    rows: Seq<ShardRow>,
    ngrams_ids: Map<Seq<char>, Vec<usize>>,
    wrs: Seq<Score>,
    words: nat,
    n: nat,
    m: nat,
)
    requires
        m <= n,
        can_tally(g, rows, ngrams_ids, wrs, words, n),
    ensures
        can_tally(g, rows, ngrams_ids, wrs, words, m),
    decreases n,
{
    if m < n {
        lemma_tally_in_part(g, rows, ngrams_ids, wrs, words, (n - 1) as nat, m);
    }
}

/// Covers the words of the given numbers: computes [`cover`] for all of them, if
/// it finds what it needs.
pub fn cover_words<F: Fn(FloatOp) -> Score>(
    float: &F,
    rels: &mut Vec<Score>,
    numbers: &Vec<usize>,
    wrs: &Vec<Score>,
    weight: Score,
) -> (r: bool)
    requires
        takes_all(*float),
    ensures
        final(rels)@.len() == old(rels)@.len(),
        forall|g: Arithmetic| #[trigger]
            computes(*float, g) ==> r == can_cover(
                g,
                old(rels)@,
                numbers@,
                wrs@,
                weight,
                numbers@.len(),
            ),
        forall|g: Arithmetic| #[trigger]
            computes(*float, g) && r ==> final(rels)@ == cover(
                g,
                old(rels)@,
                numbers@,
                wrs@,
                weight,
                numbers@.len(),
            ),
        (forall|i: int|
            0 <= i < numbers@.len() ==> (#[trigger] numbers@[i]) < old(rels)@.len() && numbers@[i]
                < wrs@.len()) ==> r,
{
    let ghost first = rels@;
    let none: Score = Score { bits: 0 };
    let mut i: usize = 0;
    while i < numbers.len()
        invariant
            i <= numbers@.len(),
            takes_all(*float),
            none == zero(),
            first == old(rels)@,
            rels@.len() == first.len(),
            forall|g: Arithmetic| #[trigger]
                computes(*float, g) ==> can_cover(g, first, numbers@, wrs@, weight, i as nat),
            forall|g: Arithmetic| #[trigger]
                computes(*float, g) ==> rels@ == cover(
                    g,
                    first,
                    numbers@,
                    wrs@,
                    weight,
                    i as nat,
                ),
        decreases numbers@.len() - i,
    {
        let word_idx: usize = numbers[i];
        if word_idx >= rels.len() || (rels[word_idx] == none && word_idx >= wrs.len()) {
            proof {
                assert(numbers@[i as int] >= first.len() || numbers@[i as int] >= wrs@.len());
                assert forall|g: Arithmetic| #[trigger] computes(*float, g) implies !can_cover(
                    g,
                    first,
                    numbers@,
                    wrs@,
                    weight,
                    numbers@.len(),
                ) by {
                    assert(!can_cover(g, first, numbers@, wrs@, weight, (i + 1) as nat));
                    if can_cover(g, first, numbers@, wrs@, weight, numbers@.len()) {
                        lemma_cover_keeps_length(
                            g,
                            first,
                            numbers@,
                            wrs@,
                            weight,
                            numbers@.len(),
                            (i + 1) as nat,
                        );
                    }
                }
            }
            return false;
        }
        if rels[word_idx] == none {
            let rel: Score = float(FloatOp::Times(wrs[word_idx], weight));
            rels.set(word_idx, rel);
        }
        i = i + 1;
    }
    true
}

/// Makes a list of words that all count for nothing.
pub fn no_words(n: usize) -> (r: Vec<Score>)
    ensures
        r@ == uncovered(n as nat),
{
    let mut rels: Vec<Score> = Vec::new();
    let mut i: usize = 0;
    while i < n
        invariant
            i <= n,
            rels@ == uncovered(i as nat),
        decreases n - i,
    {
        rels.push(Score { bits: 0 });
        i = i + 1;
        assert(rels@ =~= uncovered(i as nat));
    }
    rels
}

/// Adds up what the rows say of each query: what the words count for in it, and
/// where its text is. There is no answer if a word or a relevance is missing that
/// is needed.
pub fn tally_results<F: Fn(FloatOp) -> Score>(
    float: &F,
    results: &Vec<SearchShardResult>,
    ngrams_ids: &FnvHashMap<String, Vec<usize>>,
    wrs: &Vec<Score>,
    vec_len: usize,
) -> (r: Option<(FnvHashMap<u64, Vec<Score>>, HashMap<u64, (u32, u8)>)>)
    requires
        takes_all(*float),
    ensures
        forall|g: Arithmetic| #[trigger]
            computes(*float, g) ==> (r is Some <==> can_tally(
                g,
                rows_of(results@),
                by_text(ngrams_ids@),
                wrs@,
                vec_len as nat,
                results@.len(),
            )),
        forall|g: Arithmetic| #[trigger]
            computes(*float, g) && r is Some ==> lists_of((r->0).0@) == tally(
                g,
                rows_of(results@),
                by_text(ngrams_ids@),
                wrs@,
                vec_len as nat,
                results@.len(),
            ),
        r matches Some(t) ==> {
            &&& forall|id: u64| #[trigger] t.0@.contains_key(id) ==> t.0@[id]@.len() == vec_len
            &&& t.1@ == homes(rows_of(results@), results@.len())
            &&& t.0@.dom() == t.1@.dom()
        },
        covers_words(by_text(ngrams_ids@), vec_len as nat, wrs@.len()) ==> r is Some,
{
    broadcast use vstd::std_specs::hash::group_hash_axioms;

    let mut ids_map: HashMap<u64, (u32, u8)> = HashMap::new();
    let mut res_data: FnvHashMap<u64, Vec<Score>> = FnvHashMap::default();
    let ghost rows = rows_of(results@);
    let ghost ids = by_text(ngrams_ids@);
    assert(lists_of(res_data@) =~= Map::empty());
    assert(res_data@.dom() =~= ids_map@.dom());
    let mut i: usize = 0;
    while i < results.len()
        invariant
            i <= results@.len(),
            takes_all(*float),
            rows == rows_of(results@),
            ids == by_text(ngrams_ids@),
            forall|g: Arithmetic| #[trigger]
                computes(*float, g) ==> can_tally(g, rows, ids, wrs@, vec_len as nat, i as nat),
            forall|g: Arithmetic| #[trigger]
                computes(*float, g) ==> lists_of(res_data@) == tally(
                    g,
                    rows,
                    ids,
                    wrs@,
                    vec_len as nat,
                    i as nat,
                ),
            forall|id: u64| #[trigger]
                res_data@.contains_key(id) ==> res_data@[id]@.len() == vec_len,
            ids_map@ == homes(rows, i as nat),
            res_data@.dom() == ids_map@.dom(),
        decreases results@.len() - i,
    {
        broadcast use vstd::std_specs::hash::group_hash_axioms;

        let row: &SearchShardResult = &results[i];
        let ghost had = res_data@;
        assert(rows[i as int] == row@);
        let rels: &mut Vec<Score> = number_entry(&mut res_data, row.query_id, no_words(vec_len));
        let ghost start = rels@;
        assert(lists_of(had).contains_key(row.query_id) == had.contains_key(row.query_id));
        assert(start == so_far(lists_of(had), row.query_id, vec_len as nat));
        let fits: bool = match text_get(ngrams_ids, &row.ngram) {
            Some(numbers) => cover_words(float, rels, numbers, wrs, row.weight_rel),
            None => true,
        };
        assert forall|g: Arithmetic| #[trigger] computes(*float, g) implies fits == can_tally(
            g,
            rows,
            ids,
            wrs@,
            vec_len as nat,
            (i + 1) as nat,
        ) by {}
        if !fits {
            proof {
                assert forall|g: Arithmetic| #[trigger] computes(*float, g) implies !can_tally(
                    g,
                    rows,
                    ids,
                    wrs@,
                    vec_len as nat,
                    results@.len(),
                ) by {
                    if can_tally(g, rows, ids, wrs@, vec_len as nat, results@.len()) {
                        lemma_tally_in_part(
                            g,
                            rows,
                            ids,
                            wrs@,
                            vec_len as nat,
                            results@.len(),
                            (i + 1) as nat,
                        );
                    }
                }
            }
            return None;
        }
        assert(lists_of(res_data@) =~= lists_of(had).insert(
            row.query_id,
            res_data@[row.query_id]@,
        ));
        if !ids_map.contains_key(&row.query_id) {
            ids_map.insert(row.query_id, (row.shard_query_id, row.shard_id));
        }
        i = i + 1;
        assert(res_data@.dom() =~= ids_map@.dom());
    }
    Some((res_data, ids_map))
}

/// Sum of the first `n` scores, from the left.
pub open spec fn total(g: Arithmetic, rels: Seq<Score>, n: nat) -> Score
    decreases n,
{
    if n == 0 {
        zero()
    } else {
        g(FloatOp::Plus(total(g, rels, (n - 1) as nat), rels[n - 1]))
    }
}

/// Keyword distance of a query in which the words count for so much: what they
/// lack of one, but not less than zero.
pub open spec fn keyword_distance(g: Arithmetic, rels: Seq<Score>) -> Score {
    g(FloatOp::Minus(score(ONE), total(g, rels, rels.len()))).larger(zero())
}

/// Computes [`keyword_distance`].
pub fn keyword_dist<F: Fn(FloatOp) -> Score>(float: &F, rels: &Vec<Score>) -> (r: Score)
    requires
        takes_all(*float),
    ensures
        forall|g: Arithmetic| #[trigger] computes(*float, g) ==> r == keyword_distance(g, rels@),
{
    let mut similarity: Score = Score { bits: 0 };
    let mut i: usize = 0;
    while i < rels.len()
        invariant
            i <= rels@.len(),
            takes_all(*float),
            forall|g: Arithmetic| #[trigger]
                computes(*float, g) ==> similarity == total(g, rels@, i as nat),
        decreases rels@.len() - i,
    {
        similarity = float(FloatOp::Plus(similarity, rels[i]));
        i = i + 1;
    }
    float(FloatOp::Minus(Score { bits: ONE }, similarity)).max(Score { bits: 0 })
}

/// The first `n` words that must be there count for more than nothing.
pub open spec fn has_first(rels: Seq<Score>, must_have: Seq<usize>, n: int) -> bool {
    forall|i: int| 0 <= i < n ==> zero().below(rels[(#[trigger] must_have[i]) as int])
}

/// All words that must be there count for more than nothing.
pub open spec fn has_all(rels: Seq<Score>, must_have: Seq<usize>) -> bool {
    has_first(rels, must_have, must_have.len() as int)
}

/// Looking for the words that must be there, one by one until one is not, looks
/// for words of the query only.
pub open spec fn can_look(rels: Seq<Score>, must_have: Seq<usize>) -> bool {
    forall|i: int|
        #![trigger must_have[i]]
        0 <= i < must_have.len() && has_first(rels, must_have, i) ==> must_have[i] < rels.len()
}

/// All queries of the table can be looked at for the words that must be there.
pub open spec fn can_look_all(table: Map<u64, Seq<Score>>, must_have: Seq<usize>) -> bool {
    forall|id: u64| #[trigger] table.contains_key(id) ==> can_look(table[id], must_have)
}

/// Computes [`has_all`], if the words can be looked for.
fn check_must_have(rels: &Vec<Score>, must_have: &Vec<usize>) -> (r: Option<bool>)
    ensures
        r == (if can_look(rels@, must_have@) {
            Some(has_all(rels@, must_have@))
        } else {
            None
        }),
{
    let none: Score = Score { bits: 0 };
    let mut i: usize = 0;
    while i < must_have.len()
        invariant
            i <= must_have@.len(),
            none == zero(),
            forall|j: int| 0 <= j < i ==> (#[trigger] must_have@[j]) < rels@.len(),
            has_first(rels@, must_have@, i as int),
        decreases must_have@.len() - i,
    {
        if must_have[i] >= rels.len() {
            assert(must_have@[i as int] >= rels@.len());
            return None;
        }
        if !(rels[must_have[i]] > none) {
            assert(!zero().below(rels@[must_have@[i as int] as int]));
            return Some(false);
        }
        i = i + 1;
    }
    Some(true)
}

/// The match for a query in which the words count for so much.
pub open spec fn is_match(
    g: Arithmetic,
    m: KeywordMatchResult,
    table: Map<u64, Seq<Score>>,
    must_have: Seq<usize>,
) -> bool {
    &&& table.contains_key(m.query_id)
    &&& has_all(table[m.query_id], must_have)
    &&& m.dist == keyword_distance(g, table[m.query_id])
    &&& m.dist.below(score(DIST_THRESH))
}

/// The first match is nearer, or as near and of the lower query id.
pub open spec fn nearer(a: KeywordMatchResult, b: KeywordMatchResult) -> bool {
    a.dist.below(b.dist) || (a.dist.same(b.dist) && a.query_id < b.query_id)
}

/// The list holds the match for each query of the table that has all words that
/// must be there and is nearer than the threshold, the nearest first.
pub open spec fn are_matches(
    g: Arithmetic,
    matches: Seq<KeywordMatchResult>,
    table: Map<u64, Seq<Score>>,
    must_have: Seq<usize>,
) -> bool {
    &&& forall|m: KeywordMatchResult| #[trigger]
        matches.contains(m) <==> is_match(g, m, table, must_have)
    &&& is_nearest_first(matches)
}

/// Each match is nearer than those behind it.
pub open spec fn is_nearest_first(matches: Seq<KeywordMatchResult>) -> bool {
    forall|i: int, j: int|
        #![trigger matches[i], matches[j]]
        0 <= i < j < matches.len() ==> nearer(matches[i], matches[j])
}

/// No two matches are of the same query.
pub open spec fn is_once_each(matches: Seq<KeywordMatchResult>) -> bool {
    forall|i: int, j: int|
        #![trigger matches[i], matches[j]]
        0 <= i < j < matches.len() ==> matches[i].query_id != matches[j].query_id
}

/// Matches at distances that are numbers, each of another query, are nearest
/// first once they are ranked.
proof fn lemma_ranking_is_nearest_first(
    ranked: Seq<KeywordMatchResult>,
    found: Seq<KeywordMatchResult>,
)
    requires
        is_ranking(ranked, found),
        forall|i: int| 0 <= i < found.len() ==> !(#[trigger] found[i]).dist.is_nan(),
        is_once_each(found),
    ensures
        is_nearest_first(ranked),
        is_once_each(ranked),
        forall|m: KeywordMatchResult| #[trigger] ranked.contains(m) <==> found.contains(m),
{
    broadcast use vstd::seq_lib::group_to_multiset_ensures;

    assert forall|m: KeywordMatchResult| #[trigger] ranked.contains(m) <==> found.contains(m) by {
        assert(ranked.contains(m) <==> ranked.to_multiset().count(m) > 0);
        assert(found.contains(m) <==> found.to_multiset().count(m) > 0);
    }
    assert(found.no_duplicates());
    found.lemma_multiset_has_no_duplicates();
    ranked.lemma_multiset_has_no_duplicates_conv();
    assert forall|i: int| 0 <= i < ranked.len() implies !(#[trigger] ranked[i]).dist.is_nan() by {
        assert(ranked.contains(ranked[i]));
        let k = choose|k: int| 0 <= k < found.len() && found[k] == ranked[i];
        assert(!found[k].dist.is_nan());
    }
    assert forall|a: KeywordMatchResult, b: KeywordMatchResult, c: KeywordMatchResult|
        #![trigger a.after(b), b.after(c)]
        ranked.contains(a) && ranked.contains(b) && ranked.contains(c) && !a.after(b) && !b.after(
            c,
        ) implies !a.after(c) by {
        let x = choose|x: int| 0 <= x < ranked.len() && ranked[x] == a;
        let y = choose|y: int| 0 <= y < ranked.len() && ranked[y] == b;
        let z = choose|z: int| 0 <= z < ranked.len() && ranked[z] == c;
        assert(!ranked[x].dist.is_nan() && !ranked[y].dist.is_nan() && !ranked[z].dist.is_nan());
    }
    assert forall|i: int, j: int|
        #![trigger ranked[i], ranked[j]]
        0 <= i < j < ranked.len() implies nearer(ranked[i], ranked[j]) && ranked[i].query_id
        != ranked[j].query_id by {
        law_neighbours_order_all(ranked, i, j);
        assert(ranked.contains(ranked[i]) && ranked.contains(ranked[j]));
        let k = choose|k: int| 0 <= k < found.len() && found[k] == ranked[i];
        let l = choose|l: int| 0 <= l < found.len() && found[l] == ranked[j];
        assert(ranked[i] != ranked[j]);
        if k < l {
            assert(found[k].query_id != found[l].query_id);
        } else {
            assert(found[l].query_id != found[k].query_id);
        }
    }
}

/// Finds the queries of the table that have all words that must be there and
/// are nearer than the threshold, the nearest first. There is no answer if a word
/// is looked for that is none of the query.
pub fn keyword_matches<F: Fn(FloatOp) -> Score>(
    float: &F,
    res_data: &FnvHashMap<u64, Vec<Score>>,
    must_have: &Vec<usize>,
) -> (r: Option<Vec<KeywordMatchResult>>)
    requires
        takes_all(*float),
    ensures
        r is Some <==> can_look_all(lists_of(res_data@), must_have@),
        forall|g: Arithmetic| #[trigger]
            computes(*float, g) && r is Some ==> are_matches(
                g,
                r->0@,
                lists_of(res_data@),
                must_have@,
            ),
        r matches Some(list) ==> {
            &&& is_nearest_first(list@)
            &&& is_once_each(list@)
            &&& forall|i: int|
                0 <= i < list@.len() ==> res_data@.contains_key((#[trigger] list@[i]).query_id)
                    && list@[i].dist.below(score(DIST_THRESH))
        },
{
    let mut found: Vec<KeywordMatchResult> = Vec::new();
    let keys: Vec<u64> = number_keys(res_data);
    let thresh: Score = Score { bits: DIST_THRESH };
    let mut i: usize = 0;
    while i < keys.len()
        invariant
            i <= keys@.len(),
            takes_all(*float),
            thresh == score(DIST_THRESH),
            keys@.no_duplicates(),
            forall|k: u64| keys@.contains(k) <==> #[trigger] res_data@.contains_key(k),
            forall|j: int|
                0 <= j < i ==> can_look(lists_of(res_data@)[#[trigger] keys@[j]], must_have@),
            forall|j: int|
                0 <= j < found@.len() ==> (#[trigger] found@[j]).dist.below(score(DIST_THRESH)),
            forall|j: int|
                0 <= j < found@.len() ==> keys@.take(i as int).contains(
                    (#[trigger] found@[j]).query_id,
                ),
            is_once_each(found@),
            forall|g: Arithmetic, m: KeywordMatchResult|
                #![trigger computes(*float, g), found@.contains(m)]
                computes(*float, g) ==> (found@.contains(m) <==> is_match(
                    g,
                    m,
                    lists_of(res_data@),
                    must_have@,
                ) && keys@.take(i as int).contains(m.query_id)),
        decreases keys@.len() - i,
    {
        let query_id: u64 = keys[i];
        let ghost before = keys@.take(i as int);
        let ghost after = keys@.take(i + 1);
        let ghost had = found@;
        proof {
            assert(keys@.contains(query_id));
            assert(after =~= before.push(query_id));
            assert forall|k: u64| after.contains(k) <==> before.contains(k) || k == query_id by {
                if before.contains(k) {
                    let j = choose|j: int| 0 <= j < before.len() && before[j] == k;
                    assert(after[j] == k);
                }
                if k == query_id {
                    assert(after[i as int] == k);
                }
            }
            assert(!before.contains(query_id)) by {
                if before.contains(query_id) {
                    let j = choose|j: int| 0 <= j < before.len() && before[j] == query_id;
                    assert(keys@[j] == keys@[i as int]);
                }
            }
        }
        match number_get(res_data, query_id) {
            Some(rels) => {
                assert(lists_of(res_data@)[query_id] == rels@);
                let complete: bool = match check_must_have(rels, must_have) {
                    Some(complete) => complete,
                    None => {
                        assert(lists_of(res_data@).contains_key(query_id));
                        return None;
                    },
                };
                if complete {
                    let dist: Score = keyword_dist(float, rels);
                    if dist < thresh {
                        let m: KeywordMatchResult = KeywordMatchResult { query_id, dist };
                        found.push(m);
                        proof {
                            assert forall|x: KeywordMatchResult|
                                found@.contains(x) <==> had.contains(x) || x == m by {
                                if had.contains(x) {
                                    let j = choose|j: int| 0 <= j < had.len() && had[j] == x;
                                    assert(found@[j] == x);
                                }
                                if x == m {
                                    assert(found@[had.len() as int] == x);
                                }
                            }
                        }
                    }
                }
            },
            None => {},
        }
        assert forall|g: Arithmetic, m: KeywordMatchResult|
            #![trigger computes(*float, g), found@.contains(m)]
            computes(*float, g) implies (found@.contains(m) <==> is_match(
            g,
            m,
            lists_of(res_data@),
            must_have@,
        ) && after.contains(m.query_id)) by {
            assert(had.contains(m) <==> is_match(g, m, lists_of(res_data@), must_have@)
                && before.contains(m.query_id));
        }
        i = i + 1;
    }
    assert(keys@.take(i as int) =~= keys@);
    assert forall|id: u64| #[trigger] lists_of(res_data@).contains_key(id) implies can_look(
        lists_of(res_data@)[id],
        must_have@,
    ) by {
        assert(res_data@.contains_key(id));
        let j = choose|j: int| 0 <= j < keys@.len() && keys@[j] == id;
        assert(keys@[j] == id);
    }
    let matches: Vec<KeywordMatchResult> = rank(found);
    proof {
        lemma_ranking_is_nearest_first(matches@, found@);
        assert forall|j: int| 0 <= j < matches@.len() implies res_data@.contains_key(
            (#[trigger] matches@[j]).query_id,
        ) && matches@[j].dist.below(score(DIST_THRESH)) by {
            assert(matches@.contains(matches@[j]));
            let k = choose|k: int| 0 <= k < found@.len() && found@[k] == matches@[j];
            assert(keys@.contains(found@[k].query_id));
        }
        assert forall|g: Arithmetic| #[trigger] computes(*float, g) implies are_matches(
            g,
            matches@,
            lists_of(res_data@),
            must_have@,
        ) by {
            assert forall|m: KeywordMatchResult| #[trigger]
                matches@.contains(m) <==> is_match(g, m, lists_of(res_data@), must_have@) by {
                assert(found@.contains(m) == matches@.contains(m));
            }
        }
    }
    Some(matches)
}

/// The first ngram that covers a word settles what it counts for: once a word
/// counts for something, covering more words does not change it.
pub proof fn law_first_cover_wins(
    g: Arithmetic,
    rels: Seq<Score>,
    numbers: Seq<usize>,
    wrs: Seq<Score>,
    weight: Score,
    n: nat,
    i: int,
)
    requires
        n <= numbers.len(),
        can_cover(g, rels, numbers, wrs, weight, n),
        0 <= i < rels.len(),
        !rels[i].same(zero()),
    ensures
        cover(g, rels, numbers, wrs, weight, n)[i] == rels[i],
    decreases n,
{
    if n > 0 {
        law_first_cover_wins(g, rels, numbers, wrs, weight, (n - 1) as nat, i);
        lemma_cover_keeps_length(g, rels, numbers, wrs, weight, (n - 1) as nat, 0);
    }
}

/// Every query that is tallied has a home, and the other way round: both are
/// those that a row was found for.
pub proof fn law_tallied_queries_have_homes(
    g: Arithmetic,
    rows: Seq<ShardRow>,
    ngrams_ids: Map<Seq<char>, Vec<usize>>,
    wrs: Seq<Score>,
    words: nat,
    n: nat,
)
    requires
        n <= rows.len(),
    ensures
        tally(g, rows, ngrams_ids, wrs, words, n).dom() == homes(rows, n).dom(),
        forall|id: u64| #[trigger]
            homes(rows, n).contains_key(id) <==> exists|i: int|
                0 <= i < n && (#[trigger] rows[i]).query_id == id,
    decreases n,
{
    if n > 0 {
        let m = (n - 1) as nat;
        law_tallied_queries_have_homes(g, rows, ngrams_ids, wrs, words, m);
        assert(tally(g, rows, ngrams_ids, wrs, words, n).dom() =~= homes(rows, n).dom());
        assert forall|id: u64| #[trigger]
            homes(rows, n).contains_key(id) <==> exists|i: int|
                0 <= i < n && (#[trigger] rows[i]).query_id == id by {
            assert(homes(rows, n).contains_key(id) <==> homes(rows, m).contains_key(id) || id
                == rows[m as int].query_id);
        }
    } else {
        assert(tally(g, rows, ngrams_ids, wrs, words, n).dom() =~= homes(rows, n).dom());
    }
}

/// A keyword distance is a number, and not below zero, whatever the words count
/// for.
pub proof fn law_keyword_distance_is_not_negative(g: Arithmetic, rels: Seq<Score>)
    ensures
        !keyword_distance(g, rels).is_nan(),
        !keyword_distance(g, rels).below(zero()),
{
}

/// Of the matches, the nearest comes first: no match behind another one is
/// nearer, and all are nearer than the threshold and have all words that must be
/// there.
pub proof fn law_matches_are_near_and_complete(
    g: Arithmetic,
    matches: Seq<KeywordMatchResult>,
    table: Map<u64, Seq<Score>>,
    must_have: Seq<usize>,
    i: int,
    j: int,
)
    requires
        are_matches(g, matches, table, must_have),
        0 <= i < j < matches.len(),
    ensures
        !matches[j].dist.below(matches[i].dist),
        matches[i].dist.below(score(DIST_THRESH)),
        matches[j].dist.below(score(DIST_THRESH)),
        has_all(table[matches[i].query_id], must_have),
        has_all(table[matches[j].query_id], must_have),
{
    assert(matches.contains(matches[i]) && matches.contains(matches[j]));
    assert(nearer(matches[i], matches[j]));
}

/// The number is among the first `n`.
pub open spec fn is_among(numbers: Seq<usize>, w: int, n: nat) -> bool {
    exists|k: int| 0 <= k < n && #[trigger] numbers[k] == w
}

/// What a word counts for after covering is what it counted for before, or its
/// relevance times the weight, if it is covered.
proof fn lemma_cover_of_word(
    g: Arithmetic,
    rels: Seq<Score>,
    numbers: Seq<usize>,
    wrs: Seq<Score>,
    weight: Score,
    n: nat,
    w: int,
)
    requires
        n <= numbers.len(),
        can_cover(g, rels, numbers, wrs, weight, n),
        0 <= w < rels.len(),
    ensures
        cover(g, rels, numbers, wrs, weight, n).len() == rels.len(),
        ({
            let after = cover(g, rels, numbers, wrs, weight, n)[w];
            let full = g(FloatOp::Times(wrs[w], weight));
            &&& after == rels[w] || (is_among(numbers, w, n) && w < wrs.len() && after == full)
            &&& rels[w].same(zero()) && is_among(numbers, w, n) ==> w < wrs.len() && after == full
            &&& rels[w] == full && is_among(numbers, w, n) ==> after == full
        }),
    decreases n,
{
    if n > 0 {
        let m = (n - 1) as nat;
        lemma_cover_of_word(g, rels, numbers, wrs, weight, m, w);
        assert(is_among(numbers, w, n) <==> is_among(numbers, w, m) || numbers[m as int] == w);
    }
}

/// A row of the query is among the first `n`, and covers the word.
pub open spec fn covers_word(
    rows: Seq<ShardRow>,
    ngrams_ids: Map<Seq<char>, Vec<usize>>,
    id: u64,
    w: int,
    j: int,
) -> bool {
    let numbers = covered_by(ngrams_ids, rows[j].ngram);
    rows[j].query_id == id && is_among(numbers, w, numbers.len())
}

/// Some of the first `n` rows of the query covers the word.
pub open spec fn is_covered(
    rows: Seq<ShardRow>,
    ngrams_ids: Map<Seq<char>, Vec<usize>>,
    id: u64,
    w: int,
    n: nat,
) -> bool {
    exists|j: int| 0 <= j < n && #[trigger] covers_word(rows, ngrams_ids, id, w, j)
}

/// A word that counts for something in a query was covered by a row of the query,
/// and counts for its relevance times the weight of that row. Every word of the
/// query is counted.
pub proof fn law_word_counts_for_a_row_that_covers_it(
    g: Arithmetic,
    rows: Seq<ShardRow>,
    ngrams_ids: Map<Seq<char>, Vec<usize>>,
    wrs: Seq<Score>,
    words: nat,
    n: nat,
    id: u64,
    w: int,
)
    requires
        n <= rows.len(),
        can_tally(g, rows, ngrams_ids, wrs, words, n),
        tally(g, rows, ngrams_ids, wrs, words, n).contains_key(id),
        0 <= w < words,
    ensures
        tally(g, rows, ngrams_ids, wrs, words, n)[id].len() == words,
        ({
            let counted = tally(g, rows, ngrams_ids, wrs, words, n)[id][w];
            counted == zero() || exists|j: int|
                {
                    &&& 0 <= j < n
                    &&& #[trigger] covers_word(rows, ngrams_ids, id, w, j)
                    &&& w < wrs.len()
                    &&& counted == g(FloatOp::Times(wrs[w], rows[j].weight_rel))
                }
        }),
    decreases n,
{
    if n > 0 {
        let m = (n - 1) as nat;
        let row = rows[m as int];
        let ahead = tally(g, rows, ngrams_ids, wrs, words, m);
        if ahead.contains_key(id) {
            law_word_counts_for_a_row_that_covers_it(
                g,
                rows,
                ngrams_ids,
                wrs,
                words,
                m,
                id,
                w,
            );
        }
        if row.query_id == id {
            let numbers = covered_by(ngrams_ids, row.ngram);
            let before = so_far(ahead, id, words);
            lemma_cover_of_word(
                g,
                before,
                numbers,
                wrs,
                row.weight_rel,
                numbers.len(),
                w,
            );
            let after = cover(g, before, numbers, wrs, row.weight_rel, numbers.len())[w];
            if after != before[w] {
                assert(covers_word(rows, ngrams_ids, id, w, m as int));
            }
        }
    }
}

/// Where all rows weigh one, as they do without tf-idf, a word counts in full if
/// some row of the query covers it, and for nothing if none does.
pub proof fn law_word_counts_in_full_exactly_if_covered(
    g: Arithmetic,
    rows: Seq<ShardRow>,
    ngrams_ids: Map<Seq<char>, Vec<usize>>,
    wrs: Seq<Score>,
    words: nat,
    n: nat,
    id: u64,
    w: int,
)
    requires
        n <= rows.len(),
        forall|j: int| 0 <= j < n ==> (#[trigger] rows[j]).weight_rel == score(ONE),
        can_tally(g, rows, ngrams_ids, wrs, words, n),
        tally(g, rows, ngrams_ids, wrs, words, n).contains_key(id),
        0 <= w < words,
    ensures
        tally(g, rows, ngrams_ids, wrs, words, n)[id].len() == words,
        tally(g, rows, ngrams_ids, wrs, words, n)[id][w] == (if is_covered(
            rows,
            ngrams_ids,
            id,
            w,
            n,
        ) {
            g(FloatOp::Times(wrs[w], score(ONE)))
        } else {
            zero()
        }),
        is_covered(rows, ngrams_ids, id, w, n) ==> w < wrs.len(),
    decreases n,
{
    let m = (n - 1) as nat;
    if n > 0 {
        let row = rows[m as int];
        let ahead = tally(g, rows, ngrams_ids, wrs, words, m);
        assert(is_covered(rows, ngrams_ids, id, w, n) <==> is_covered(rows, ngrams_ids, id, w, m)
            || covers_word(rows, ngrams_ids, id, w, m as int));
        if ahead.contains_key(id) {
            law_word_counts_in_full_exactly_if_covered(
                g,
                rows,
                ngrams_ids,
                wrs,
                words,
                m,
                id,
                w,
            );
        } else {
            law_tallied_queries_have_homes(g, rows, ngrams_ids, wrs, words, m);
            assert(!homes(rows, m).contains_key(id)) by {
                assert(ahead.dom() == homes(rows, m).dom());
                assert(!ahead.dom().contains(id));
            }
            assert(!is_covered(rows, ngrams_ids, id, w, m)) by {
                if is_covered(rows, ngrams_ids, id, w, m) {
                    let j = choose|j: int|
                        0 <= j < m && #[trigger] covers_word(rows, ngrams_ids, id, w, j);
                    assert(rows[j].query_id == id);
                }
            }
        }
        if row.query_id == id {
            let numbers = covered_by(ngrams_ids, row.ngram);
            let before = so_far(ahead, id, words);
            lemma_cover_of_word(
                g,
                before,
                numbers,
                wrs,
                row.weight_rel,
                numbers.len(),
                w,
            );
        } else {
            assert(!covers_word(rows, ngrams_ids, id, w, m as int));
        }
    }
}

/// A query that is tallied has its text where some row of it says.
pub proof fn law_home_is_that_of_a_row(rows: Seq<ShardRow>, n: nat, id: u64)
    requires
        n <= rows.len(),
        homes(rows, n).contains_key(id),
    ensures
        exists|j: int|
            0 <= j < n && (#[trigger] rows[j]).query_id == id && homes(rows, n)[id] == (
                rows[j].shard_query_id,
                rows[j].shard_id,
            ),
    decreases n,
{
    if n > 0 {
        let m = (n - 1) as nat;
        if homes(rows, m).contains_key(id) {
            law_home_is_that_of_a_row(rows, m, id);
        } else {
            assert(rows[m as int].query_id == id);
        }
    }
}

} // verus!
