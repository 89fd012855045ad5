//! What a shard says of the ngrams of a query.
use crate::index::{
    are_buckets_of, find_buckets, map_is_built, numbered, read_bucket, records, splits_all, RECORD,
};
use crate::score::{
    computes, score, takes_all, Arithmetic, FloatOp, Score, HUNDRED, ONE,
};
use vstd::prelude::*;

verus! {

/// A shard of an index, as it is held open.
#[derive(Debug)]
pub struct Shard<'a> {
    /// From each ngram to its bucket.
    pub map: &'a fst::Map,
    /// The buckets.
    pub shard: &'a [u8],
    /// The texts of the queries of the shard, where they are at hand.
    pub i2q: Option<&'a Vec<String>>,
}

/// One query of the index that holds an ngram of the query that was asked for.
#[derive(Debug, Clone)]
pub struct SearchShardResult {
    /// Query id, unique globally.
    pub query_id: u64,
    /// Shard that the text of the query is in.
    pub shard_id: u8,
    /// Query id, unique within that shard.
    pub shard_query_id: u32,
    /// Number of the ngram in the query that was asked for.
    pub ngram_idx: usize,
    /// Relevance of the ngram in the query that was found.
    pub ngram_rel: Score,
    /// Weight of the relevance, relative to the query that was asked for.
    pub weight_rel: Score,
    /// Relevance of the ngram in the query that was asked for.
    pub query_ngram_rel: Score,
    pub ngram: String,
    pub query: Option<String>,
}

/// A [`SearchShardResult`] with its texts as sequences of characters.
pub struct ShardRow {
    pub query_id: u64,
    pub shard_id: u8,
    pub shard_query_id: u32,
    pub ngram_idx: usize,
    pub ngram_rel: Score,
    pub weight_rel: Score,
    pub query_ngram_rel: Score,
    pub ngram: Seq<char>,
    pub query: Option<Seq<char>>,
}

/// The text of a string that may be absent.
pub open spec fn text_of(s: Option<String>) -> Option<Seq<char>> {
    match s {
        Some(s) => Some(s@),
        None => None,
    }
}

impl View for SearchShardResult {
    type V = ShardRow;

    open spec fn view(&self) -> ShardRow {
        ShardRow {
            query_id: self.query_id,
            shard_id: self.shard_id,
            shard_query_id: self.shard_query_id,
            ngram_idx: self.ngram_idx,
            ngram_rel: self.ngram_rel,
            weight_rel: self.weight_rel,
            query_ngram_rel: self.query_ngram_rel,
            ngram: self.ngram@,
            query: text_of(self.query),
        }
    }
}

/// A function from the number of a query in its shard, the shard, and the
/// number of shards, to the global id of the query.
pub type Numbering = spec_fn(u64, u8, usize) -> u64;

/// Every result that `number` can give is the one that `q` names.
pub open spec fn numbers<Q: Fn(u64, u8, usize) -> u64>(number: Q, q: Numbering) -> bool {
    forall|id: u64, shard: u8, count: usize, r: u64|
        #[trigger] number.ensures((id, shard, count), r) ==> r == q(id, shard, count)
}

/// `number` takes every query.
pub open spec fn numbers_all<Q: Fn(u64, u8, usize) -> u64>(number: Q) -> bool {
    forall|id: u64, shard: u8, count: usize| #[trigger] number.requires((id, shard, count))
}

/// A relevance that is given as a percentage.
pub open spec fn relevance(g: Arithmetic, percent: u8) -> Score {
    g(FloatOp::Over(g(FloatOp::Whole(percent as u128)), score(HUNDRED)))
}

/// Weight of an ngram of relevance `found` in the query that was found and
/// `asked` in the one that was asked for: with tf-idf, what share of the latter
/// the former reaches, else one.
pub open spec fn weight(g: Arithmetic, with_tfidf: bool, found: Score, asked: Score) -> Score {
    if with_tfidf {
        g(FloatOp::Over(found.smaller(asked), asked))
    } else {
        score(ONE)
    }
}

/// The row for a record of the bucket of an ngram.
pub open spec fn row_of(
    g: Arithmetic,
    q: Numbering,
    record: (u32, u8, u8),
    shard_num: usize,
    query_ngram_rel: Score,
    ngram_idx: usize,
    ngram: Seq<char>,
    query: Option<Seq<char>>,
    with_tfidf: bool,
) -> ShardRow {
    ShardRow {
        query_id: q(record.0 as u64, record.1, shard_num),
        shard_id: record.1,
        shard_query_id: record.0,
        ngram_idx,
        ngram_rel: relevance(g, record.2),
        weight_rel: weight(g, with_tfidf, relevance(g, record.2), query_ngram_rel),
        query_ngram_rel,
        ngram,
        query,
    }
}

impl SearchShardResult {
    /// Makes the result for a record of the bucket of an ngram.
    pub fn new<F: Fn(FloatOp) -> Score, Q: Fn(u64, u8, usize) -> u64>(
        float: &F,
        number: &Q,
        shard_id: u8,
        shard_query_id: u32,
        shard_num: usize,
        ngram_rel: u8,
        query_ngram_rel: Score,
        ngram_idx: usize,
        ngram: String,
        query: Option<String>,
        with_tfidf: bool,
    ) -> (r: SearchShardResult)
        requires
            takes_all(*float),
            numbers_all(*number),
        ensures
            number.ensures((shard_query_id as u64, shard_id, shard_num), r.query_id),
            r.shard_id == shard_id,
            r.shard_query_id == shard_query_id,
            r.ngram_idx == ngram_idx,
            r.query_ngram_rel == query_ngram_rel,
            r.ngram@ == ngram@,
            text_of(r.query) == text_of(query),
            !with_tfidf ==> r.weight_rel == score(ONE),
            forall|g: Arithmetic, q: Numbering|
                #![trigger computes(*float, g), numbers(*number, q)]
                computes(*float, g) && numbers(*number, q) ==> r@ == row_of(
                    g,
                    q,
                    (shard_query_id, shard_id, ngram_rel),
                    shard_num,
                    query_ngram_rel,
                    ngram_idx,
                    ngram@,
                    text_of(query),
                    with_tfidf,
                ),
    {
        let query_id: u64 = number(shard_query_id as u64, shard_id, shard_num);
        let percent: Score = float(FloatOp::Whole(ngram_rel as u128));
        let ngram_rel: Score = float(FloatOp::Over(percent, Score { bits: HUNDRED }));
        let weight_rel: Score = if with_tfidf {
            float(FloatOp::Over(ngram_rel.min(query_ngram_rel), query_ngram_rel))
        } else {
            Score { bits: ONE }
        };
        SearchShardResult {
            query_id,
            shard_id,
            shard_query_id,
            ngram_rel,
            weight_rel,
            query_ngram_rel,
            ngram_idx,
            ngram,
            query,
        }
    }
}

/// The results of a shard.
#[derive(Debug, Clone)]
pub struct ShardResults {
    pub results: Vec<SearchShardResult>,
}

/// The rows of a list of results.
pub open spec fn rows_of(results: Seq<SearchShardResult>) -> Seq<ShardRow> {
    Seq::new(results.len(), |i: int| results[i]@)
}

/// A bucket lies within the bytes of the shard, and its records hold all that a
/// record has to.
pub open spec fn bucket_fits(bucket: (u64, u64), total: nat, id_size: usize) -> bool {
    &&& bucket.0 * id_size + bucket.1 * id_size <= total
    &&& bucket.1 > 0 ==> id_size >= RECORD
}

/// All buckets lie within the bytes of the shard, and all ngrams that have a
/// record have a relevance in the query.
pub open spec fn buckets_fit(
    ngrams: Seq<(Seq<char>, usize)>,
    buckets: Seq<Option<(u64, u64)>>,
    relevances: nat,
    total: nat,
    id_size: usize,
) -> bool {
    forall|i: int|
        #![trigger buckets[i]]
        0 <= i < buckets.len() && buckets[i] is Some ==> bucket_fits(
            buckets[i]->0,
            total,
            id_size,
        ) && ((buckets[i]->0).1 > 0 ==> ngrams[i].1 < relevances)
}

/// Computes [`buckets_fit`].
pub fn check_buckets(
    ngrams: &Vec<(String, usize)>,
    buckets: &Vec<Option<(u64, u64)>>,
    trs: &Vec<Score>,
    ifd: &[u8],
    id_size: usize,
) -> (r: bool)
    requires
        buckets@.len() == ngrams@.len(),
    ensures
        r == buckets_fit(numbered(ngrams@), buckets@, trs@.len(), ifd@.len(), id_size),
{
    let total: u128 = ifd.len() as u128;
    let mut i: usize = 0;
    while i < buckets.len()
        invariant
            i <= buckets@.len(),
            buckets@.len() == ngrams@.len(),
            total == ifd@.len(),
            total <= usize::MAX,
            buckets_fit(numbered(ngrams@), buckets@.take(i as int), trs@.len(), ifd@.len(), id_size),
        decreases buckets@.len() - i,
    {
        let ghost before = buckets@.take(i as int);
        let ghost after = buckets@.take(i + 1);
        assert(after =~= before.push(buckets@[i as int]));
        if let Some((addr, len)) = buckets[i] {
            assert(addr * id_size <= u64::MAX * u64::MAX && len * id_size <= u64::MAX * u64::MAX
                && addr * id_size >= 0 && len * id_size >= 0) by (nonlinear_arith)
                requires
                    0 <= addr <= u64::MAX,
                    0 <= len <= u64::MAX,
                    0 <= id_size <= u64::MAX,
            ;
            let start: u128 = addr as u128 * id_size as u128;
            let size: u128 = len as u128 * id_size as u128;
            if start > total || size > total - start || (len > 0 && (id_size < RECORD
                || ngrams[i].1 >= trs.len())) {
                assert(buckets@[i as int] is Some);
                return false;
            }
        }
        assert forall|j: int|
            #![trigger after[j]]
            0 <= j < after.len() && after[j] is Some implies bucket_fits(
            after[j]->0,
            ifd@.len(),
            id_size,
        ) && ((after[j]->0).1 > 0 ==> numbered(ngrams@)[j].1 < trs@.len()) by {
            if j < i {
                assert(before[j] is Some);
            }
        }
        i = i + 1;
    }
    assert(buckets@.take(i as int) =~= buckets@);
    true
}

/// The rows that the records of one bucket give.
pub open spec fn bucket_rows(
    g: Arithmetic,
    q: Numbering,
    records: Seq<(u32, u8, u8)>,
    shard_num: usize,
    query_ngram_rel: Score,
    ngram_idx: usize,
    ngram: Seq<char>,
    with_tfidf: bool,
) -> Seq<ShardRow> {
    Seq::new(
        records.len(),
        |i: int|
            row_of(
                g,
                q,
                records[i],
                shard_num,
                query_ngram_rel,
                ngram_idx,
                ngram,
                None,
                with_tfidf,
            ),
    )
}

/// The rows that the first `n` ngrams find in the bytes of a shard: those of
/// the bucket of each ngram that has one, bucket after bucket.
pub open spec fn shard_rows(
    g: Arithmetic,
    q: Numbering,
    ngrams: Seq<(Seq<char>, usize)>,
    buckets: Seq<Option<(u64, u64)>>,
    trs: Seq<Score>,
    bytes: Seq<u8>,
    id_size: usize,
    shard_num: usize,
    with_tfidf: bool,
    n: nat,
) -> Seq<ShardRow>
    decreases n,
{
    if n == 0 {
        Seq::empty()
    } else {
        let ahead = shard_rows(
            g,
            q,
            ngrams,
            buckets,
            trs,
            bytes,
            id_size,
            shard_num,
            with_tfidf,
            (n - 1) as nat,
        );
        match buckets[n - 1] {
            None => ahead,
            Some(b) => ahead + bucket_rows(
                g,
                q,
                records(bytes, b.0 * id_size, b.1 as nat, id_size as int),
                shard_num,
                trs[ngrams[n - 1].1 as int],
                ngrams[n - 1].1,
                ngrams[n - 1].0,
                with_tfidf,
            ),
        }
    }
}

/// Makes the results for the records of one bucket.
fn bucket_results<F: Fn(FloatOp) -> Score, Q: Fn(u64, u8, usize) -> u64>(
    float: &F,
    number: &Q,
    records: &Vec<(u32, u8, u8)>,
    shard_num: usize,
    query_ngram_rel: Score,
    ngram_idx: usize,
    ngram: &String,
    with_tfidf: bool,
) -> (r: Vec<SearchShardResult>)
    requires
        takes_all(*float),
        numbers_all(*number),
    ensures
        forall|g: Arithmetic, q: Numbering|
            #![trigger computes(*float, g), numbers(*number, q)]
            computes(*float, g) && numbers(*number, q) ==> rows_of(r@) == bucket_rows(
                g,
                q,
                records@,
                shard_num,
                query_ngram_rel,
                ngram_idx,
                ngram@,
                with_tfidf,
            ),
{
    let mut out: Vec<SearchShardResult> = Vec::new();
    let mut i: usize = 0;
    while i < records.len()
        invariant
            i <= records@.len(),
            takes_all(*float),
            numbers_all(*number),
            out@.len() == i,
            forall|g: Arithmetic, q: Numbering, j: int|
                #![trigger computes(*float, g), numbers(*number, q), out@[j]]
                computes(*float, g) && numbers(*number, q) && 0 <= j < i ==> out@[j]@ == row_of(
                    g,
                    q,
                    records@[j],
                    shard_num,
                    query_ngram_rel,
                    ngram_idx,
                    ngram@,
                    None,
                    with_tfidf,
                ),
        decreases records@.len() - i,
    {
        let (shard_query_id, shard_id, ngram_rel): (u32, u8, u8) = records[i];
        let result: SearchShardResult = SearchShardResult::new(
            float,
            number,
            shard_id,
            shard_query_id,
            shard_num,
            ngram_rel,
            query_ngram_rel,
            ngram_idx,
            ngram.clone(),
            None,
            with_tfidf,
        );
        out.push(result);
        i = i + 1;
    }
    assert forall|g: Arithmetic, q: Numbering|
        #![trigger computes(*float, g), numbers(*number, q)]
        computes(*float, g) && numbers(*number, q) implies rows_of(out@) == bucket_rows(
        g,
        q,
        records@,
        shard_num,
        query_ngram_rel,
        ngram_idx,
        ngram@,
        with_tfidf,
    ) by {
        assert(rows_of(out@) =~= bucket_rows(
            g,
            q,
            records@,
            shard_num,
            query_ngram_rel,
            ngram_idx,
            ngram@,
            with_tfidf,
        ));
    }
    out
}

/// Reads the given buckets of some ngrams from the bytes of a shard.
pub fn read_buckets<F: Fn(FloatOp) -> Score, Q: Fn(u64, u8, usize) -> u64>(
    float: &F,
    number: &Q,
    ngrams: &Vec<(String, usize)>,
    buckets: &Vec<Option<(u64, u64)>>,
    trs: &Vec<Score>,
    ifd: &[u8],
    id_size: usize,
    shard_num: usize,
    with_tfidf: bool,
) -> (r: ShardResults)
    requires
        takes_all(*float),
        numbers_all(*number),
        buckets@.len() == ngrams@.len(),
        buckets_fit(numbered(ngrams@), buckets@, trs@.len(), ifd@.len(), id_size),
    ensures
        forall|g: Arithmetic, q: Numbering|
            #![trigger computes(*float, g), numbers(*number, q)]
            computes(*float, g) && numbers(*number, q) ==> rows_of(r.results@) == shard_rows(
                g,
                q,
                numbered(ngrams@),
                buckets@,
                trs@,
                ifd@,
                id_size,
                shard_num,
                with_tfidf,
                ngrams@.len(),
            ),
{
    let mut sres: Vec<SearchShardResult> = Vec::new();
    let mut i: usize = 0;
    let total: usize = ifd.len();
    assert(rows_of(sres@) =~= Seq::<ShardRow>::empty());
    while i < ngrams.len()
        invariant
            i <= ngrams@.len(),
            total == ifd@.len(),
            takes_all(*float),
            numbers_all(*number),
            buckets@.len() == ngrams@.len(),
            buckets_fit(numbered(ngrams@), buckets@, trs@.len(), ifd@.len(), id_size),
            forall|g: Arithmetic, q: Numbering|
                #![trigger computes(*float, g), numbers(*number, q)]
                computes(*float, g) && numbers(*number, q) ==> rows_of(sres@) == shard_rows(
                    g,
                    q,
                    numbered(ngrams@),
                    buckets@,
                    trs@,
                    ifd@,
                    id_size,
                    shard_num,
                    with_tfidf,
                    i as nat,
                ),
        decreases ngrams@.len() - i,
    {
        if let Some((addr, len)) = buckets[i] {
            assert(buckets@[i as int] is Some);
            // A shard holds no more records than it has bytes, unless it has none.
            if len > 0 {
                assert(addr <= addr * id_size && len <= len * id_size && addr * id_size >= 0)
                    by (nonlinear_arith)
                    requires
                        id_size >= 1,
                        addr >= 0,
                        len >= 0,
                ;
                let ngram: &String = &ngrams[i].0;
                let ngram_idx: usize = ngrams[i].1;
                let mem_addr: usize = addr as usize * id_size;
                let records: Vec<(u32, u8, u8)> = read_bucket(ifd, mem_addr, len as usize, id_size);
                let mut more: Vec<SearchShardResult> = bucket_results(
                    float,
                    number,
                    &records,
                    shard_num,
                    trs[ngram_idx],
                    ngram_idx,
                    ngram,
                    with_tfidf,
                );
                let ghost had = sres@;
                let ghost added = more@;
                sres.append(&mut more);
                assert(rows_of(sres@) =~= rows_of(had) + rows_of(added));
            } else {
                assert forall|g: Arithmetic, q: Numbering|
                    #![trigger computes(*float, g), numbers(*number, q)]
                    computes(*float, g) && numbers(*number, q) implies rows_of(sres@) == shard_rows(
                    g,
                    q,
                    numbered(ngrams@),
                    buckets@,
                    trs@,
                    ifd@,
                    id_size,
                    shard_num,
                    with_tfidf,
                    (i + 1) as nat,
                ) by {
                    assert(rows_of(sres@) =~= shard_rows(
                        g,
                        q,
                        numbered(ngrams@),
                        buckets@,
                        trs@,
                        ifd@,
                        id_size,
                        shard_num,
                        with_tfidf,
                        (i + 1) as nat,
                    ));
                }
            }
        }
        i = i + 1;
    }
    ShardResults { results: sres }
}

/// What an index lacks that a search needs.
#[derive(Debug, Clone, Copy, PartialEq, Eq, Structural)]
pub enum IndexError {
    /// A word or a relevance is not there that is needed of the query, or of a
    /// candidate.
    BadQuery,
    /// A shard is in the range that is searched, but is not open.
    MissingShard,
    /// A bucket reaches beyond the bytes of its shard, or its records are too
    /// short, or the query has no relevance for its ngram.
    BadBucket,
    /// The text of a query is not where the index says.
    UnknownQuery,
}

/// The outcome of reading the given buckets of some ngrams: their rows if the
/// buckets fit, else the error.
pub open spec fn is_reading<F: Fn(FloatOp) -> Score, Q: Fn(u64, u8, usize) -> u64>(
    r: Result<ShardResults, IndexError>,
    buckets: Seq<Option<(u64, u64)>>,
    float: F,
    number: Q,
    ngrams: Seq<(Seq<char>, usize)>,
    trs: Seq<Score>,
    bytes: Seq<u8>,
    id_size: usize,
    shard_num: usize,
    with_tfidf: bool,
) -> bool {
    if buckets_fit(ngrams, buckets, trs.len(), bytes.len(), id_size) {
        r is Ok && forall|g: Arithmetic, q: Numbering|
            #![trigger computes(float, g), numbers(number, q)]
            computes(float, g) && numbers(number, q) ==> rows_of(r->Ok_0.results@) == shard_rows(
                g,
                q,
                ngrams,
                buckets,
                trs,
                bytes,
                id_size,
                shard_num,
                with_tfidf,
                ngrams.len(),
            )
    } else {
        r == Err::<ShardResults, IndexError>(IndexError::BadBucket)
    }
}

/// Looks up the buckets of some ngrams in the map of a shard, and reads them
/// from its bytes. Fails if a bucket does not fit.
pub fn get_shard_results<
    F: Fn(FloatOp) -> Score,
    U: Fn(u64) -> (u64, u64),
    Q: Fn(u64, u8, usize) -> u64,
>(
    float: &F,
    unpair: &U,
    number: &Q,
    ngrams: &Vec<(String, usize)>,
    trs: &Vec<Score>,
    map: &fst::Map,
    ifd: &[u8],
    id_size: usize,
    shard_num: usize,
    with_tfidf: bool,
) -> (r: Result<ShardResults, IndexError>)
    requires
        map_is_built(*map),
        takes_all(*float),
        splits_all(*unpair),
        numbers_all(*number),
    ensures
        exists|buckets: Seq<Option<(u64, u64)>>| #[trigger]
            are_buckets_of(buckets, numbered(ngrams@), *map, *unpair) && is_reading(
                r,
                buckets,
                *float,
                *number,
                numbered(ngrams@),
                trs@,
                ifd@,
                id_size,
                shard_num,
                with_tfidf,
            ),
{
    let buckets: Vec<Option<(u64, u64)>> = find_buckets(ngrams, map, unpair);
    if !check_buckets(ngrams, &buckets, trs, ifd, id_size) {
        return Err(IndexError::BadBucket);
    }
    Ok(
        read_buckets(
            float,
            number,
            ngrams,
            &buckets,
            trs,
            ifd,
            id_size,
            shard_num,
            with_tfidf,
        ),
    )
}

/// Every row is of one of the ngrams that were looked up, with its relevance in
/// the query, which has one if the buckets fit. Without tf-idf all rows weigh one.
pub proof fn law_rows_are_of_the_ngrams(
    g: Arithmetic,
    q: Numbering,
    ngrams: Seq<(Seq<char>, usize)>,
    buckets: Seq<Option<(u64, u64)>>,
    trs: Seq<Score>,
    bytes: Seq<u8>,
    id_size: usize,
    shard_num: usize,
    with_tfidf: bool,
    n: nat,
    k: int,
)
    requires
        n <= ngrams.len(),
        0 <= k < shard_rows(
            g,
            q,
            ngrams,
            buckets,
            trs,
            bytes,
            id_size,
            shard_num,
            with_tfidf,
            n,
        ).len(),
    ensures
        ({
            let row = shard_rows(
                g,
                q,
                ngrams,
                buckets,
                trs,
                bytes,
                id_size,
                shard_num,
                with_tfidf,
                n,
            )[k];
            &&& ngrams.contains((row.ngram, row.ngram_idx))
            &&& row.query_ngram_rel == trs[row.ngram_idx as int]
            &&& row.weight_rel == weight(g, with_tfidf, row.ngram_rel, row.query_ngram_rel)
            &&& !with_tfidf ==> row.weight_rel == score(ONE)
            &&& row.query_id == q(row.shard_query_id as u64, row.shard_id, shard_num)
            &&& exists|percent: u8| row.ngram_rel == #[trigger] relevance(g, percent)
            &&& buckets_fit(ngrams, buckets, trs.len(), bytes.len(), id_size) && n <= buckets.len()
                ==> row.ngram_idx < trs.len()
        }),
    decreases n,
{
    if n > 0 {
        let m = (n - 1) as nat;
        let ahead = shard_rows(
            g,
            q,
            ngrams,
            buckets,
            trs,
            bytes,
            id_size,
            shard_num,
            with_tfidf,
            m,
        );
        if k < ahead.len() {
            law_rows_are_of_the_ngrams(
                g,
                q,
                ngrams,
                buckets,
                trs,
                bytes,
                id_size,
                shard_num,
                with_tfidf,
                m,
                k,
            );
        } else {
            assert(ngrams[m as int] == (ngrams[m as int].0, ngrams[m as int].1));
            assert(ngrams.contains(ngrams[m as int]));
            let b = buckets[m as int]->0;
            let list = records(bytes, b.0 * id_size, b.1 as nat, id_size as int);
            let row = shard_rows(
                g,
                q,
                ngrams,
                buckets,
                trs,
                bytes,
                id_size,
                shard_num,
                with_tfidf,
                n,
            )[k];
            assert(row.ngram_rel == relevance(g, list[k - ahead.len()].2));
            assert(buckets[m as int] is Some);
        }
    }
}

/// The numbering gives no id twice among the shards of an index of `shard_num`.
pub open spec fn tells_apart(q: Numbering, shard_num: usize) -> bool {
    forall|a: u64, s: u8, b: u64, t: u8|
        #![trigger q(a, s, shard_num), q(b, t, shard_num)]
        s < shard_num && t < shard_num && q(a, s, shard_num) == q(b, t, shard_num) ==> a == b && s
            == t
}

/// Where the numbering gives no id twice, two rows have the same global id exactly
/// if they are of the same query of the same shard. It depends on nothing but that
/// query, that shard and the number of shards.
pub proof fn law_global_ids_tell_queries_apart(
    g: Arithmetic,
    q: Numbering,
    a: ShardRow,
    b: ShardRow,
    record_a: (u32, u8, u8),
    record_b: (u32, u8, u8),
    shard_num: usize,
    rels: (Score, Score),
    idxs: (usize, usize),
    ngrams: (Seq<char>, Seq<char>),
    queries: (Option<Seq<char>>, Option<Seq<char>>),
    with_tfidf: (bool, bool),
)
    requires
        tells_apart(q, shard_num),
        a == row_of(
            g,
            q,
            record_a,
            shard_num,
            rels.0,
            idxs.0,
            ngrams.0,
            queries.0,
            with_tfidf.0,
        ),
        b == row_of(
            g,
            q,
            record_b,
            shard_num,
            rels.1,
            idxs.1,
            ngrams.1,
            queries.1,
            with_tfidf.1,
        ),
        a.shard_id < shard_num,
        b.shard_id < shard_num,
    ensures
        a.query_id == b.query_id <==> a.shard_id == b.shard_id && a.shard_query_id
            == b.shard_query_id,
{
    assert(a.query_id == q(a.shard_query_id as u64, a.shard_id, shard_num));
    assert(b.query_id == q(b.shard_query_id as u64, b.shard_id, shard_num));
}

} // verus!
