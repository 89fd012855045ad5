//! What an index holds, and what is read out of it.
//!
//! The laws here tie the rows of a search to the bytes of the shards: what was written
//! is read back, all of it, and nothing else.
use crate::hooks::ParsedQuery;
use crate::index::{
    contents_of, is_ascending, is_bucket_of, le_u32, map_contents, numbered, record_at, records,
    splits, stands_ahead, Unpairing,
};
use crate::matching::{are_groups, in_range, law_each_ngram_is_in_its_own_group, members};
use crate::qpick::{query_text, Qpick, Walk};
use crate::score::{computes, score, Arithmetic, FloatOp, Score};
use crate::shard::{
    bucket_fits, buckets_fit, is_reading, numbers, rows_of, shard_rows, IndexError, Numbering,
    SearchShardResult, Shard, ShardResults, ShardRow,
};
use vstd::prelude::*;
use vstd::utf8::encode_utf8;

verus! {

/// A record is written at a place: the four digits of its number to the base 256, the
/// lowest first, then the shard, then the relevance.
pub open spec fn is_written(bytes: Seq<u8>, at: int, record: (u32, u8, u8)) -> bool {
    &&& bytes[at] == record.0 % 256
    &&& bytes[at + 1] == record.0 / 256 % 256
    &&& bytes[at + 2] == record.0 / 65536 % 256
    &&& bytes[at + 3] == record.0 / 16777216
    &&& bytes[at + 4] == record.1
    &&& bytes[at + 5] == record.2
}

/// A record that is written is read back, for every number of a query, every shard and
/// every relevance.
pub proof fn law_record_is_read_back(bytes: Seq<u8>, at: int, record: (u32, u8, u8))
    requires
        is_written(bytes, at, record),
    ensures
        le_u32(bytes, at) == record.0,
        record_at(bytes, at) == record,
{
    let n = record.0;
    assert(n == n % 256 + (n / 256 % 256) * 256 + (n / 65536 % 256) * 65536 + (n / 16777216)
        * 16777216) by (nonlinear_arith);
}

/// A bucket that is written is read back: every record, and in their order.
pub proof fn law_bucket_is_read_back(
    bytes: Seq<u8>,
    addr: int,
    id_size: int,
    list: Seq<(u32, u8, u8)>,
)
    requires
        forall|i: int|
            0 <= i < list.len() ==> is_written(bytes, addr + i * id_size, #[trigger] list[i]),
    ensures
        records(bytes, addr, list.len(), id_size) == list,
{
    let read = records(bytes, addr, list.len(), id_size);
    assert forall|i: int| 0 <= i < list.len() implies read[i] == list[i] by {
        law_record_is_read_back(bytes, addr + i * id_size, list[i]);
    }
    assert(read =~= list);
}

/// A bucket is its first records and then the others, wherever it is parted.
pub proof fn law_bucket_is_both_of_its_parts(
    bytes: Seq<u8>,
    addr: int,
    id_size: int,
    a: nat,
    b: nat,
)
    ensures
        records(bytes, addr, a, id_size).len() == a,
        records(bytes, addr, a + b, id_size) == records(bytes, addr, a, id_size) + records(
            bytes,
            addr + a * id_size,
            b,
            id_size,
        ),
{
    let whole = records(bytes, addr, a + b, id_size);
    let parts = records(bytes, addr, a, id_size) + records(bytes, addr + a * id_size, b, id_size);
    assert forall|i: int| 0 <= i < a + b implies whole[i] == parts[i] by {
        if i >= a {
            assert(i * id_size == a * id_size + (i - a) * id_size) by (nonlinear_arith);
        }
    }
    assert(whole =~= parts);
}

/// A bucket fits exactly if its last byte lies within the shard and, unless it is empty,
/// its records are six bytes long or more. Then every record lies within the shard.
pub proof fn law_bucket_fits_if_its_records_do(
    addr: u64,
    len: u64,
    total: nat,
    id_size: usize,
    i: int,
)
    ensures
        bucket_fits((addr, len), total, id_size) <==> (addr + len) * id_size <= total && (len == 0
            || id_size >= 6),
        bucket_fits((addr, len), total, id_size) && 0 <= i < len ==> 0 <= addr * id_size + i
            * id_size && addr * id_size + i * id_size + 6 <= total,
{
    assert((addr + len) * id_size == addr * id_size + len * id_size) by (nonlinear_arith);
    if bucket_fits((addr, len), total, id_size) && 0 <= i < len {
        assert(0 <= addr * id_size + i * id_size && addr * id_size + i * id_size + 6 <= addr
            * id_size + len * id_size) by (nonlinear_arith)
            requires
                0 <= i < len,
                id_size >= 6,
                addr >= 0,
        ;
    }
}

/// Buckets fit exactly if each that there is does, and each ngram with a record has a
/// relevance.
pub proof fn law_buckets_fit_if_each_does(
    ngrams: Seq<(Seq<char>, usize)>,
    buckets: Seq<Option<(u64, u64)>>,
    relevances: nat,
    total: nat,
    id_size: usize,
)
    ensures
        buckets_fit(ngrams, buckets, relevances, total, id_size) <==> forall|i: int|
            0 <= i < buckets.len() ==> match #[trigger] buckets[i] {
                Some((addr, len)) => {
                    &&& (addr + len) * id_size <= total
                    &&& len == 0 || (id_size >= 6 && ngrams[i].1 < relevances)
                },
                None => true,
            },
{
    assert forall|i: int|
        #![trigger buckets[i]]
        0 <= i < buckets.len() && buckets[i] is Some implies (bucket_fits(
        buckets[i]->0,
        total,
        id_size,
    ) <==> ((buckets[i]->0).0 + (buckets[i]->0).1) * id_size <= total && ((buckets[i]->0).1 == 0
        || id_size >= 6)) by {
        let b = buckets[i]->0;
        law_bucket_fits_if_its_records_do(b.0, b.1, total, id_size, 0);
    }
}

/// The bucket of an ngram is what the map holds of its text, split: there is one exactly
/// if the map holds something.
pub proof fn law_bucket_is_what_the_map_holds<U: Fn(u64) -> (u64, u64)>(
    bucket: Option<(u64, u64)>,
    ngram: Seq<char>,
    map: fst::Map,
    unpair: U,
)
    requires
        is_bucket_of(bucket, ngram, map, unpair),
    ensures
        bucket is Some <==> map_contents(map).contains_key(encode_utf8(ngram)),
        bucket is Some ==> unpair.ensures((map_contents(map)[encode_utf8(ngram)],), bucket->0),
{
}

/// One string of bytes stands ahead of another exactly if they agree up to some place
/// where the first one ends and the other does not, or has the lower byte.
pub proof fn law_lower_byte_stands_ahead(a: Seq<u8>, b: Seq<u8>)
    ensures
        stands_ahead(a, b) <==> exists|k: int|
            {
                &&& 0 <= k <= a.len()
                &&& k < b.len()
                &&& #[trigger] a.take(k) == b.take(k)
                &&& k == a.len() || a[k] < b[k]
            },
    decreases a.len(),
{
    let (c, d) = (a.drop_first(), b.drop_first());
    if b.len() > 0 && a.len() == 0 {
        assert(a.take(0) =~= b.take(0));
    } else if b.len() > 0 && a[0] != b[0] {
        if a[0] < b[0] {
            assert(a.take(0) =~= b.take(0));
        }
        assert forall|k: int|
            0 < k <= a.len() && k < b.len() implies #[trigger] a.take(k) != b.take(k) by {
            assert(a.take(k)[0] == a[0] && b.take(k)[0] == b[0]);
        }
    } else if b.len() > 0 {
        law_lower_byte_stands_ahead(c, d);
        if stands_ahead(c, d) {
            let k = choose|k: int|
                {
                    &&& 0 <= k <= c.len()
                    &&& k < d.len()
                    &&& #[trigger] c.take(k) == d.take(k)
                    &&& k == c.len() || c[k] < d[k]
                };
            assert forall|i: int| 0 <= i < k + 1 implies a[i] == b[i] by {
                if i > 0 {
                    assert(c.take(k)[i - 1] == d.take(k)[i - 1]);
                }
            }
            assert(a.take(k + 1) =~= b.take(k + 1));
        }
        assert forall|k: int|
            {
                &&& 0 <= k <= a.len()
                &&& k < b.len()
                &&& #[trigger] a.take(k) == b.take(k)
                &&& k == a.len() || a[k] < b[k]
            } implies stands_ahead(a, b) by {
            assert(k > 0);
            assert forall|i: int| 0 <= i < k - 1 implies c[i] == d[i] by {
                assert(a.take(k)[i + 1] == b.take(k)[i + 1]);
            }
            assert(c.take(k - 1) =~= d.take(k - 1));
        }
    }
}

/// What stands ahead of a string of bytes stands ahead of all that this is ahead of.
proof fn lemma_stands_ahead_of_the_rest(a: Seq<u8>, b: Seq<u8>, c: Seq<u8>)
    requires
        stands_ahead(a, b),
        stands_ahead(b, c),
    ensures
        stands_ahead(a, c),
    decreases a.len(),
{
    if a.len() > 0 && a[0] == b[0] && b[0] == c[0] {
        lemma_stands_ahead_of_the_rest(a.drop_first(), b.drop_first(), c.drop_first());
    }
}

/// No entries ascend, and one more does exactly if those ahead of it do and its key stands
/// behind the last of theirs.
pub proof fn law_one_more_entry_ascends(entries: Seq<(String, u64)>, entry: (String, u64))
    ensures
        is_ascending(Seq::empty()),
        is_ascending(entries.push(entry)) <==> is_ascending(entries) && (entries.len() > 0
            ==> stands_ahead(encode_utf8(entries.last().0@), encode_utf8(entry.0@))),
{
    let more = entries.push(entry);
    let n = entries.len() as int;
    if is_ascending(more) {
        assert forall|i: int, j: int|
            #![trigger entries[i], entries[j]]
            0 <= i < j < n implies stands_ahead(
            encode_utf8(entries[i].0@),
            encode_utf8(entries[j].0@),
        ) by {
            assert(more[i] == entries[i] && more[j] == entries[j]);
        }
        if n > 0 {
            assert(more[n - 1] == entries.last() && more[n] == entry);
        }
    }
    if is_ascending(entries) && (n > 0 ==> stands_ahead(
        encode_utf8(entries.last().0@),
        encode_utf8(entry.0@),
    )) {
        assert forall|i: int, j: int|
            #![trigger more[i], more[j]]
            0 <= i < j < more.len() implies stands_ahead(
            encode_utf8(more[i].0@),
            encode_utf8(more[j].0@),
        ) by {
            assert(more[i] == entries[i]);
            if j < n {
                assert(more[j] == entries[j]);
            } else if i < n - 1 {
                assert(entries[n - 1] == entries.last());
                lemma_stands_ahead_of_the_rest(
                    encode_utf8(entries[i].0@),
                    encode_utf8(entries.last().0@),
                    encode_utf8(entry.0@),
                );
            }
        }
    }
}

/// No string of bytes stands ahead of itself.
proof fn lemma_does_not_stand_ahead_of_itself(a: Seq<u8>)
    ensures
        !stands_ahead(a, a),
    decreases a.len(),
{
    if a.len() > 0 {
        lemma_does_not_stand_ahead_of_itself(a.drop_first());
    }
}

/// A map of ascending entries holds each of them, and nothing else.
pub proof fn law_map_holds_its_entries(entries: Seq<(String, u64)>, n: nat, key: Seq<u8>)
    requires
        is_ascending(entries),
        n <= entries.len(),
    ensures
        contents_of(entries, n).contains_key(key) <==> exists|i: int|
            0 <= i < n && encode_utf8((#[trigger] entries[i]).0@) == key,
        forall|i: int|
            0 <= i < n && encode_utf8((#[trigger] entries[i]).0@) == key ==> contents_of(
                entries,
                n,
            )[key] == entries[i].1,
    decreases n,
{
    if n > 0 {
        let m = (n - 1) as nat;
        law_map_holds_its_entries(entries, m, key);
        assert forall|i: int|
            0 <= i < n && encode_utf8((#[trigger] entries[i]).0@) == key implies contents_of(
            entries,
            n,
        )[key] == entries[i].1 by {
            if i < m {
                let last = entries[m as int];
                lemma_does_not_stand_ahead_of_itself(key);
                assert(stands_ahead(encode_utf8(entries[i].0@), encode_utf8(last.0@)));
            }
        }
    }
}

/// One more ngram adds a row for every record of its bucket, and none if it has no
/// bucket. The row has the number, the shard and the relevance that the six bytes of the
/// record say; the ngram, its number and its relevance in the query; the id that the
/// query's number and shard give; and the weight that the two relevances give.
pub proof fn law_every_record_of_an_ngram_gives_a_row(
    g: Arithmetic,
    q: Numbering,
    ngrams: Seq<(Seq<char>, usize)>,
    buckets: Seq<Option<(u64, u64)>>,
    trs: Seq<Score>,
    bytes: Seq<u8>,
    id_size: usize,
    shard_num: usize,
    with_tfidf: bool,
    n: nat,
    i: int,
)
    requires
        n < ngrams.len(),
    ensures
        shard_rows(g, q, ngrams, buckets, trs, bytes, id_size, shard_num, with_tfidf, 0).len()
            == 0,
        ({
            let before = shard_rows(
                g,
                q,
                ngrams,
                buckets,
                trs,
                bytes,
                id_size,
                shard_num,
                with_tfidf,
                n,
            );
            let after = shard_rows(
                g,
                q,
                ngrams,
                buckets,
                trs,
                bytes,
                id_size,
                shard_num,
                with_tfidf,
                n + 1,
            );
            match buckets[n as int] {
                None => after == before,
                Some((addr, len)) => {
                    &&& after.len() == before.len() + len
                    &&& after.take(before.len() as int) == before
                    &&& 0 <= i < len ==> {
                        let row = after[before.len() + i];
                        let at = addr * id_size + i * id_size;
                        let found = g(
                            FloatOp::Over(
                                g(FloatOp::Whole(bytes[at + 5] as u128)),
                                score(0x42c8_0000),
                            ),
                        );
                        let asked = trs[ngrams[n as int].1 as int];
                        &&& row.shard_query_id == bytes[at] + 256 * bytes[at + 1] + 65536
                            * bytes[at + 2] + 16777216 * bytes[at + 3]
                        &&& row.shard_id == bytes[at + 4]
                        &&& row.query_id == q(row.shard_query_id as u64, row.shard_id, shard_num)
                        &&& row.ngram == ngrams[n as int].0
                        &&& row.ngram_idx == ngrams[n as int].1
                        &&& row.query is None
                        &&& row.ngram_rel == found
                        &&& row.query_ngram_rel == asked
                        &&& row.weight_rel == if !with_tfidf {
                            score(0x3f80_0000)
                        } else if found.below(asked) {
                            g(FloatOp::Over(found, asked))
                        } else {
                            g(FloatOp::Over(asked, asked))
                        }
                    }
                },
            }
        }),
{
    let before = shard_rows(
        g,
        q,
        ngrams,
        buckets,
        trs,
        bytes,
        id_size,
        shard_num,
        with_tfidf,
        n,
    );
    let after = shard_rows(
        g,
        q,
        ngrams,
        buckets,
        trs,
        bytes,
        id_size,
        shard_num,
        with_tfidf,
        n + 1,
    );
    if let Some((addr, len)) = buckets[n as int] {
        assert(after.take(before.len() as int) =~= before);
    }
}

/// A shard is searched exactly if it is in the range and some ngram belongs to it.
pub proof fn law_shard_is_searched_if_an_ngram_belongs_to_it<'a>(
    index: Qpick<'a>,
    ngrams: Seq<String>,
    shard_ids: Seq<u32>,
    shard: usize,
)
    requires
        ngrams.len() == shard_ids.len(),
        ngrams.len() <= usize::MAX,
    ensures
        index.asks(ngrams, shard_ids, shard) <==> index.shard_range.start <= shard
            < index.shard_range.end && exists|i: int|
            0 <= i < ngrams.len() && #[trigger] shard_ids[i] == shard,
        in_range(shard as int, index.shard_range.start, index.shard_range.end) <==> (
        index.shard_range.start <= shard && shard < index.shard_range.end),
{
    let asked = members(ngrams, shard_ids, shard, ngrams.len());
    law_each_ngram_is_in_its_own_group(ngrams, shard_ids, shard, ngrams.len());
    if asked.len() > 0 {
        let (text, i) = asked[0];
        assert(shard_ids[i as int] == shard);
    }
    if exists|i: int| 0 <= i < ngrams.len() && #[trigger] shard_ids[i] == shard {
        let i = choose|i: int| 0 <= i < ngrams.len() && #[trigger] shard_ids[i] == shard;
        assert(asked.contains((ngrams[i]@, i as usize)));
    }
}

/// The rows of the first shards of a walk are among those of more of them.
proof fn lemma_rows_stay<'a>(
    index: Qpick<'a>,
    g: Arithmetic,
    q: Numbering,
    walk: Walk,
    parsed: ParsedQuery,
    with_tfidf: bool,
    m: nat,
    n: nat,
)
    requires
        m <= n,
    ensures
        index.walk_rows(g, q, walk, parsed, with_tfidf, m).len() <= index.walk_rows(
            g,
            q,
            walk,
            parsed,
            with_tfidf,
            n,
        ).len(),
        index.walk_rows(g, q, walk, parsed, with_tfidf, n).take(
            index.walk_rows(g, q, walk, parsed, with_tfidf, m).len() as int,
        ) == index.walk_rows(g, q, walk, parsed, with_tfidf, m),
    decreases n,
{
    let few = index.walk_rows(g, q, walk, parsed, with_tfidf, m);
    let all = index.walk_rows(g, q, walk, parsed, with_tfidf, n);
    if m < n {
        lemma_rows_stay(index, g, q, walk, parsed, with_tfidf, m, (n - 1) as nat);
        let ahead = index.walk_rows(g, q, walk, parsed, with_tfidf, (n - 1) as nat);
        assert forall|i: int| 0 <= i < few.len() implies all[i] == few[i] by {
            assert(ahead.take(few.len() as int)[i] == few[i]);
        }
        assert(all.take(few.len() as int) =~= few);
    } else {
        assert(all.take(few.len() as int) =~= few);
    }
}

/// The rows of the first ngrams are among those of more of them.
proof fn lemma_shard_rows_stay(
    g: Arithmetic,
    q: Numbering,
    ngrams: Seq<(Seq<char>, usize)>,
    buckets: Seq<Option<(u64, u64)>>,
    trs: Seq<Score>,
    bytes: Seq<u8>,
    id_size: usize,
    shard_num: usize,
    with_tfidf: bool,
    m: nat,
    n: nat,
)
    requires
        m <= n,
    ensures
        ({
            let few = shard_rows(
                g,
                q,
                ngrams,
                buckets,
                trs,
                bytes,
                id_size,
                shard_num,
                with_tfidf,
                m,
            );
            let all = shard_rows(
                g,
                q,
                ngrams,
                buckets,
                trs,
                bytes,
                id_size,
                shard_num,
                with_tfidf,
                n,
            );
            few.len() <= all.len() && all.take(few.len() as int) == few
        }),
    decreases n,
{
    let few = shard_rows(
        g,
        q,
        ngrams,
        buckets,
        trs,
        bytes,
        id_size,
        shard_num,
        with_tfidf,
        m,
    );
    let all = shard_rows(
        g,
        q,
        ngrams,
        buckets,
        trs,
        bytes,
        id_size,
        shard_num,
        with_tfidf,
        n,
    );
    if m < n {
        lemma_shard_rows_stay(
            g,
            q,
            ngrams,
            buckets,
            trs,
            bytes,
            id_size,
            shard_num,
            with_tfidf,
            m,
            (n - 1) as nat,
        );
        let ahead = shard_rows(
            g,
            q,
            ngrams,
            buckets,
            trs,
            bytes,
            id_size,
            shard_num,
            with_tfidf,
            (n - 1) as nat,
        );
        assert forall|i: int| 0 <= i < few.len() implies all[i] == few[i] by {
            assert(ahead.take(few.len() as int)[i] == few[i]);
        }
        assert(all.take(few.len() as int) =~= few);
    } else {
        assert(all.take(few.len() as int) =~= few);
    }
}

/// Row `row` is that of a record at a place of a shard, for an ngram with this text,
/// number and relevance in the query.
pub open spec fn is_row_at(
    row: ShardRow,
    q: Numbering,
    bytes: Seq<u8>,
    at: int,
    ngram: Seq<char>,
    number: usize,
    asked: Score,
    shard_num: usize,
) -> bool {
    &&& row.shard_query_id == bytes[at] + 256 * bytes[at + 1] + 65536 * bytes[at + 2] + 16777216
        * bytes[at + 3]
    &&& row.shard_id == bytes[at + 4]
    &&& row.query_id == q(row.shard_query_id as u64, row.shard_id, shard_num)
    &&& row.ngram == ngram
    &&& row.ngram_idx == number
    &&& row.query_ngram_rel == asked
}

/// Nothing is left out: every record of the bucket of every ngram of the query, in the
/// shard that the ngram belongs to, gives a row, if the shard is searched.
pub proof fn law_every_record_is_found<'a, S: Fn(&String, u32) -> u32, U: Fn(u64) -> (u64, u64)>(
    index: Qpick<'a>,
    g: Arithmetic,
    q: Numbering,
    walk: Walk,
    parsed: ParsedQuery,
    with_tfidf: bool,
    shard_of: S,
    unpair: U,
    j: int,
    i: int,
) -> (r: (int, int, int))
    requires
        index.is_walk(walk, parsed, shard_of, unpair),
        0 <= j < parsed.ngrams@.len(),
        parsed.ngrams@.len() <= usize::MAX,
        index.shard_range.start <= walk.shard_ids[j] < index.shard_range.end,
    ensures
        ({
            let (k, m, at) = r;
            let rows = index.all_rows(g, q, walk, parsed, with_tfidf);
            let bucket = walk.buckets[k][m];
            &&& 0 <= k < walk.order.len()
            &&& walk.order[k] == walk.shard_ids[j]
            &&& walk.shard_ids[j] < index.shards@.len()
            &&& 0 <= m < walk.buckets[k].len()
            &&& is_bucket_of(
                bucket,
                parsed.ngrams@[j]@,
                *index.shards@[walk.shard_ids[j] as int].map,
                unpair,
            )
            &&& bucket is Some && 0 <= i < (bucket->0).1 ==> {
                &&& 0 <= at < rows.len()
                &&& is_row_at(
                    rows[at],
                    q,
                    index.shards@[walk.shard_ids[j] as int].shard@,
                    (bucket->0).0 * index.id_size + i * index.id_size,
                    parsed.ngrams@[j]@,
                    j as usize,
                    parsed.trs@[j],
                    index.shard_num,
                )
            }
        }),
{
    let shard = walk.shard_ids[j] as usize;
    let ngrams = parsed.ngrams@;
    let asked = members(ngrams, walk.shard_ids, shard, ngrams.len());
    law_each_ngram_is_in_its_own_group(ngrams, walk.shard_ids, shard, ngrams.len());
    assert(walk.shard_ids[j] == shard);
    assert(asked.contains((ngrams[j]@, j as usize)));
    let m = choose|m: int| 0 <= m < asked.len() && asked[m] == (ngrams[j]@, j as usize);
    assert(index.asks(ngrams, walk.shard_ids, shard));
    assert(walk.order.contains(shard));
    let k = choose|k: int| 0 <= k < walk.order.len() && walk.order[k] == shard;
    let buckets = walk.buckets[k];
    assert(index.visit_fits(walk.order[k], buckets, parsed, walk.shard_ids, unpair));
    let bytes = index.shards@[shard as int].shard@;
    if buckets[m] is Some && 0 <= i < (buckets[m]->0).1 {
        law_every_record_of_an_ngram_gives_a_row(
            g,
            q,
            asked,
            buckets,
            parsed.trs@,
            bytes,
            index.id_size,
            index.shard_num,
            with_tfidf,
            m as nat,
            i,
        );
        lemma_shard_rows_stay(
            g,
            q,
            asked,
            buckets,
            parsed.trs@,
            bytes,
            index.id_size,
            index.shard_num,
            with_tfidf,
            (m + 1) as nat,
            asked.len(),
        );
        let few = shard_rows(
            g,
            q,
            asked,
            buckets,
            parsed.trs@,
            bytes,
            index.id_size,
            index.shard_num,
            with_tfidf,
            m as nat,
        );
        let more = shard_rows(
            g,
            q,
            asked,
            buckets,
            parsed.trs@,
            bytes,
            index.id_size,
            index.shard_num,
            with_tfidf,
            (m + 1) as nat,
        );
        let visit = index.visit_rows(g, q, walk, parsed, with_tfidf, k);
        let p = few.len() + i;
        assert(visit.take(more.len() as int)[p] == more[p]);
        assert(visit[p] == more[p]);
        let ahead = index.walk_rows(g, q, walk, parsed, with_tfidf, k as nat);
        let upto = index.walk_rows(g, q, walk, parsed, with_tfidf, (k + 1) as nat);
        lemma_rows_stay(index, g, q, walk, parsed, with_tfidf, (k + 1) as nat, walk.order.len());
        let rows = index.all_rows(g, q, walk, parsed, with_tfidf);
        let at = ahead.len() + p;
        assert(upto[at] == visit[p]);
        assert(rows.take(upto.len() as int)[at] == upto[at]);
        assert(rows[at] == more[p]);
        (k, m, at)
    } else {
        (k, m, 0)
    }
}

/// The text of a query is the one at its number in the list of its shard. It is empty if
/// the shard has no list; there is none if the shard is not open, or the list has no such
/// number.
pub proof fn law_text_is_at_its_number(shards: Seq<Shard>, number: u32, shard: u8)
    ensures
        shard >= shards.len() ==> query_text(shards, (number, shard)) is None,
        shard < shards.len() ==> match shards[shard as int].i2q {
            None => query_text(shards, (number, shard)) == Some(Seq::<char>::empty()),
            Some(list) => {
                &&& number < list@.len() ==> query_text(shards, (number, shard)) == Some(
                    list@[number as int]@,
                )
                &&& number >= list@.len() ==> query_text(shards, (number, shard)) is None
            },
        },
{
}

/// Walking the shards fails exactly as what is missing says: a shard that an ngram belongs
/// to and that is searched is not open, or a bucket does not fit into the shard, or the
/// ngram has no relevance there.
pub proof fn law_walking_fails_for_what_is_missing<'a, U: Fn(u64) -> (u64, u64)>(
    index: Qpick<'a>,
    e: IndexError,
    parsed: ParsedQuery,
    shard_ids: Seq<u32>,
    unpair: U,
)
    requires
        parsed.ngrams@.len() == shard_ids.len(),
        parsed.ngrams@.len() <= usize::MAX,
    ensures
        e is MissingShard ==> (index.walk_fails_at(e, parsed, shard_ids, unpair) <==> exists|i: int|
            {
                &&& 0 <= i < shard_ids.len()
                &&& index.shard_range.start <= #[trigger] shard_ids[i] < index.shard_range.end
                &&& shard_ids[i] >= index.shards@.len()
            }),
        index.walk_fails_at(e, parsed, shard_ids, unpair) ==> e is MissingShard || e is BadBucket,
{
    let ngrams = parsed.ngrams@;
    if e is MissingShard {
        if index.walk_fails_at(e, parsed, shard_ids, unpair) {
            let shard = choose|shard: usize| #[trigger]
                index.asks(ngrams, shard_ids, shard) && shard >= index.shards@.len();
            law_shard_is_searched_if_an_ngram_belongs_to_it(index, ngrams, shard_ids, shard);
            let i = choose|i: int| 0 <= i < ngrams.len() && #[trigger] shard_ids[i] == shard;
            assert(shard_ids[i] >= index.shards@.len());
        }
        if exists|i: int|
            {
                &&& 0 <= i < shard_ids.len()
                &&& index.shard_range.start <= #[trigger] shard_ids[i] < index.shard_range.end
                &&& shard_ids[i] >= index.shards@.len()
            } {
            let i = choose|i: int|
                {
                    &&& 0 <= i < shard_ids.len()
                    &&& index.shard_range.start <= #[trigger] shard_ids[i] < index.shard_range.end
                    &&& shard_ids[i] >= index.shards@.len()
                };
            let shard = shard_ids[i] as usize;
            assert(shard_ids[i] == shard);
            law_shard_is_searched_if_an_ngram_belongs_to_it(index, ngrams, shard_ids, shard);
            assert(index.asks(ngrams, shard_ids, shard));
        }
    }
}

/// A walk takes the shard of each ngram from the hook, which is asked for one of all
/// shards of the index.
pub proof fn law_shards_are_those_of_the_hook<'a, S: Fn(&String, u32) -> u32>(
    index: Qpick<'a>,
    shard_ids: Seq<u32>,
    ngrams: Seq<String>,
    shard_of: S,
)
    ensures
        index.places(shard_ids, ngrams, shard_of) <==> shard_ids.len() == ngrams.len() && forall|
            i: int,
        |
            0 <= i < ngrams.len() ==> shard_of.ensures(
                (&ngrams[i], index.shard_num as u32),
                #[trigger] shard_ids[i],
            ),
{
}

/// The groups of a query hold each ngram in the group of the shard that the hook assigns
/// to it, if that is searched, with its number, and nothing else.
pub proof fn law_groups_hold_the_ngrams_of_their_shards<'a, S: Fn(&String, u32) -> u32>(
    index: Qpick<'a>,
    groups: Map<usize, Vec<(String, usize)>>,
    ngrams: Seq<String>,
    shard_of: S,
) -> (shard_ids: Seq<u32>)
    requires
        index.are_shard_groups(groups, ngrams, shard_of),
        ngrams.len() <= usize::MAX,
    ensures
        index.places(shard_ids, ngrams, shard_of),
        forall|i: int|
            0 <= i < ngrams.len() && index.shard_range.start <= (#[trigger] shard_ids[i])
                < index.shard_range.end ==> {
                &&& groups.contains_key(shard_ids[i] as usize)
                &&& exists|k: int|
                    {
                        &&& 0 <= k < groups[shard_ids[i] as usize]@.len()
                        &&& (#[trigger] groups[shard_ids[i] as usize]@[k]).1 == i
                        &&& groups[shard_ids[i] as usize]@[k].0@ == ngrams[i]@
                    }
            },
        forall|shard: usize| #[trigger]
            groups.contains_key(shard) ==> index.shard_range.start <= shard < index.shard_range.end
                && groups[shard]@.len() > 0,
        forall|shard: usize, k: int|
            #![trigger groups[shard]@[k]]
            groups.contains_key(shard) && 0 <= k < groups[shard]@.len() ==> {
                let (text, i) = groups[shard]@[k];
                i < ngrams.len() && text@ == ngrams[i as int]@ && shard_ids[i as int] == shard
            },
{
    let shard_ids = choose|shard_ids: Seq<u32>| #[trigger]
        index.places(shard_ids, ngrams, shard_of) && are_groups(
            groups,
            ngrams,
            shard_ids,
            index.shard_range.start,
            index.shard_range.end,
        );
    assert forall|i: int|
        0 <= i < ngrams.len() && index.shard_range.start <= (#[trigger] shard_ids[i])
            < index.shard_range.end implies groups.contains_key(shard_ids[i] as usize) && exists|
        k: int,
    |
        {
            &&& 0 <= k < groups[shard_ids[i] as usize]@.len()
            &&& (#[trigger] groups[shard_ids[i] as usize]@[k]).1 == i
            &&& groups[shard_ids[i] as usize]@[k].0@ == ngrams[i]@
        } by {
        let shard = shard_ids[i] as usize;
        let all = members(ngrams, shard_ids, shard, ngrams.len());
        law_each_ngram_is_in_its_own_group(ngrams, shard_ids, shard, ngrams.len());
        assert(all.contains((ngrams[i]@, i as usize)));
        let k = choose|k: int| 0 <= k < all.len() && all[k] == (ngrams[i]@, i as usize);
        assert(groups.contains_key(shard));
        assert(numbered(groups[shard]@)[k] == all[k]);
        assert(groups[shard]@[k].1 == i);
    }
    assert forall|shard: usize, k: int|
        #![trigger groups[shard]@[k]]
        groups.contains_key(shard) && 0 <= k < groups[shard]@.len() implies ({
        let (text, i) = groups[shard]@[k];
        i < ngrams.len() && text@ == ngrams[i as int]@ && shard_ids[i as int] == shard
    }) by {
        let all = members(ngrams, shard_ids, shard, ngrams.len());
        law_each_ngram_is_in_its_own_group(ngrams, shard_ids, shard, ngrams.len());
        assert(numbered(groups[shard]@)[k] == all[k]);
    }
    assert forall|shard: usize| #[trigger]
        groups.contains_key(shard) implies groups[shard]@.len() > 0 by {
        assert(numbered(groups[shard]@).len() == groups[shard]@.len());
    }
    shard_ids
}

/// The rows of a list of results have what the results have.
pub proof fn law_rows_have_what_the_results_have(results: Seq<SearchShardResult>, i: int)
    requires
        0 <= i < results.len(),
    ensures
        rows_of(results).len() == results.len(),
        ({
            let (row, result) = (rows_of(results)[i], results[i]);
            &&& row.query_id == result.query_id
            &&& row.shard_id == result.shard_id
            &&& row.shard_query_id == result.shard_query_id
            &&& row.ngram_idx == result.ngram_idx
            &&& row.ngram_rel == result.ngram_rel
            &&& row.weight_rel == result.weight_rel
            &&& row.query_ngram_rel == result.query_ngram_rel
            &&& row.ngram == result.ngram@
            &&& row.query is Some <==> result.query is Some
            &&& row.query is Some ==> row.query->0 == (result.query->0)@
        }),
{
}

/// A walk gives the rows of each shard that it visits, one shard after the other, and no
/// others: those of the buckets that the ngrams of the query have there, in the bytes of
/// that shard.
pub proof fn law_walk_gives_the_rows_of_each_shard<'a>(
    index: Qpick<'a>,
    g: Arithmetic,
    q: Numbering,
    walk: Walk,
    parsed: ParsedQuery,
    with_tfidf: bool,
    n: nat,
)
    requires
        n < walk.order.len(),
    ensures
        index.walk_rows(g, q, walk, parsed, with_tfidf, 0).len() == 0,
        ({
            let shard = walk.order[n as int];
            let asked = members(parsed.ngrams@, walk.shard_ids, shard, parsed.ngrams@.len());
            index.walk_rows(g, q, walk, parsed, with_tfidf, n + 1) == index.walk_rows(
                g,
                q,
                walk,
                parsed,
                with_tfidf,
                n,
            ) + shard_rows(
                g,
                q,
                asked,
                walk.buckets[n as int],
                parsed.trs@,
                index.shards@[shard as int].shard@,
                index.id_size,
                index.shard_num,
                with_tfidf,
                asked.len(),
            )
        }),
        index.all_rows(g, q, walk, parsed, with_tfidf) == index.walk_rows(
            g,
            q,
            walk,
            parsed,
            with_tfidf,
            walk.order.len(),
        ),
{
}

/// A walk visits each shard that is searched once, and no other. All of them are open, and
/// their buckets are those that their maps hold of the ngrams, and fit.
pub proof fn law_walk_visits_each_searched_shard_once<
    'a,
    S: Fn(&String, u32) -> u32,
    U: Fn(u64) -> (u64, u64),
>(
    index: Qpick<'a>,
    walk: Walk,
    parsed: ParsedQuery,
    shard_of: S,
    unpair: U,
    k: int,
    l: int,
    m: int,
)
    requires
        index.is_walk(walk, parsed, shard_of, unpair),
        parsed.ngrams@.len() <= usize::MAX,
        0 <= k < walk.order.len(),
    ensures
        walk.shard_ids.len() == parsed.ngrams@.len(),
        index.shard_range.start <= walk.order[k] < index.shard_range.end,
        walk.order[k] < index.shards@.len(),
        exists|i: int| 0 <= i < walk.shard_ids.len() && #[trigger] walk.shard_ids[i]
            == walk.order[k],
        0 <= l < walk.order.len() && l != k ==> walk.order[l] != walk.order[k],
        ({
            let shard = walk.order[k];
            let asked = members(parsed.ngrams@, walk.shard_ids, shard, parsed.ngrams@.len());
            &&& walk.buckets[k].len() == asked.len()
            &&& 0 <= m < asked.len() ==> is_bucket_of(
                walk.buckets[k][m],
                asked[m].0,
                *index.shards@[shard as int].map,
                unpair,
            )
            &&& 0 <= m < asked.len() && walk.buckets[k][m] is Some ==> {
                let (addr, len) = walk.buckets[k][m]->0;
                &&& (addr + len) * index.id_size <= index.shards@[shard as int].shard@.len()
                &&& len == 0 || (index.id_size >= 6 && asked[m].1 < parsed.trs@.len())
            }
        }),
{
    let shard = walk.order[k];
    let asked = members(parsed.ngrams@, walk.shard_ids, shard, parsed.ngrams@.len());
    assert(walk.order.contains(shard));
    law_shard_is_searched_if_an_ngram_belongs_to_it(
        index,
        parsed.ngrams@,
        walk.shard_ids,
        shard,
    );
    assert(index.visit_fits(shard, walk.buckets[k], parsed, walk.shard_ids, unpair));
    law_buckets_fit_if_each_does(
        asked,
        walk.buckets[k],
        parsed.trs@.len(),
        index.shards@[shard as int].shard@.len(),
        index.id_size,
    );
    if 0 <= m < asked.len() {
        assert(walk.buckets[k][m] == walk.buckets[k][m]);
    }
}

/// Reading buckets gives the rows of all ngrams exactly if each bucket fits; else it fails.
pub proof fn law_reading_fails_only_if_a_bucket_does_not_fit<
    F: Fn(FloatOp) -> Score,
    Q: Fn(u64, u8, usize) -> u64,
>(
    r: Result<ShardResults, IndexError>,
    buckets: Seq<Option<(u64, u64)>>,
    float: F,
    number: Q,
    ngrams: Seq<(Seq<char>, usize)>,
    trs: Seq<Score>,
    bytes: Seq<u8>,
    id_size: usize,
    shard_num: usize,
    with_tfidf: bool,
    g: Arithmetic,
    q: Numbering,
)
    requires
        is_reading(
            r,
            buckets,
            float,
            number,
            ngrams,
            trs,
            bytes,
            id_size,
            shard_num,
            with_tfidf,
        ),
        computes(float, g),
        numbers(number, q),
    ensures
        r is Ok <==> forall|i: int|
            0 <= i < buckets.len() ==> match #[trigger] buckets[i] {
                Some((addr, len)) => {
                    &&& (addr + len) * id_size <= bytes.len()
                    &&& len == 0 || (id_size >= 6 && ngrams[i].1 < trs.len())
                },
                None => true,
            },
        r is Err ==> r->Err_0 is BadBucket,
        r is Ok ==> rows_of(r->Ok_0.results@) == shard_rows(
            g,
            q,
            ngrams,
            buckets,
            trs,
            bytes,
            id_size,
            shard_num,
            with_tfidf,
            ngrams.len(),
        ),
{
    law_buckets_fit_if_each_does(ngrams, buckets, trs.len(), bytes.len(), id_size);
}

/// The results of a walk are its rows, all of them and in their order.
pub proof fn law_results_of_a_walk_are_its_rows<
    'a,
    F: Fn(FloatOp) -> Score,
    Q: Fn(u64, u8, usize) -> u64,
>(
    index: Qpick<'a>,
    walk: Walk,
    results: Seq<SearchShardResult>,
    float: F,
    number: Q,
    parsed: ParsedQuery,
    with_tfidf: bool,
    g: Arithmetic,
    q: Numbering,
)
    requires
        index.gives_rows(walk, results, float, number, parsed, with_tfidf),
        computes(float, g),
        numbers(number, q),
    ensures
        rows_of(results) == index.walk_rows(g, q, walk, parsed, with_tfidf, walk.order.len()),
{
}

/// A hook that always gives what a function names computes it.
pub proof fn law_hooks_compute_what_they_give<
    F: Fn(FloatOp) -> Score,
    U: Fn(u64) -> (u64, u64),
    Q: Fn(u64, u8, usize) -> u64,
>(float: F, g: Arithmetic, unpair: U, u: Unpairing, number: Q, q: Numbering)
    ensures
        computes(float, g) <==> forall|op: FloatOp, r: Score| #[trigger]
            float.ensures((op,), r) ==> r == g(op),
        splits(unpair, u) <==> forall|value: u64, r: (u64, u64)| #[trigger]
            unpair.ensures((value,), r) ==> r == u(value),
        numbers(number, q) <==> forall|id: u64, shard: u8, count: usize, r: u64| #[trigger]
            number.ensures((id, shard, count), r) ==> r == q(id, shard, count),
{
}

} // verus!
