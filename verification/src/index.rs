//! The index of a shard: a map from each ngram to its bucket, and the buckets.
//!
//! A bucket is a run of records of `id_size` bytes. A record starts with the
//! number of a query in its shard, in four bytes, the low one first, then the
//! number of that shard, then the relevance of the ngram in the query, as a
//! percentage.
use crate::score::{computes, score, takes_all, Arithmetic, FloatOp, Score, TWO};
use crate::tables::{by_text, lemma_empty_by_text, text_insert};
use byteorder::{ByteOrder, LittleEndian};
use fnv::FnvHashMap;
use vstd::prelude::*;
use vstd::utf8::encode_utf8;

verus! {

/// The map type of the `fst` crate.
#[verifier::external_type_specification]
#[verifier::external_body]
pub struct ExMap(fst::Map);

/// What a map holds: the value of each key, a string of bytes.
pub uninterp spec fn map_contents(map: fst::Map) -> Map<Seq<u8>, u64>;

/// The bytes of the map are those that a builder of the `fst` crate wrote. A map
/// can be opened over other bytes too, and looking a key up in it may then panic.
pub uninterp spec fn map_is_built(map: fst::Map) -> bool;

/// `fst::Map::get` with a text as the key: the value that the map holds under
/// the bytes of the text, if it holds one. It may panic on a map that no builder
/// wrote.
#[verifier::external_body]
fn map_get(map: &fst::Map, key: &str) -> (r: Option<u64>)
    requires
        map_is_built(*map),
    ensures
        r == (if map_contents(*map).contains_key(encode_utf8(key@)) {
            Some(map_contents(*map)[encode_utf8(key@)])
        } else {
            None
        }),
{
    map.get(key)
}

/// The first string of bytes stands ahead of the second in a dictionary.
pub open spec fn stands_ahead(a: Seq<u8>, b: Seq<u8>) -> bool
    decreases a.len(),
{
    if b.len() == 0 {
        false
    } else if a.len() == 0 {
        true
    } else if a[0] != b[0] {
        a[0] < b[0]
    } else {
        stands_ahead(a.drop_first(), b.drop_first())
    }
}

/// The bytes of each key stand ahead of those of every later key.
pub open spec fn is_ascending(entries: Seq<(String, u64)>) -> bool {
    forall|i: int, j: int|
        #![trigger entries[i], entries[j]]
        0 <= i < j < entries.len() ==> stands_ahead(
            encode_utf8(entries[i].0@),
            encode_utf8(entries[j].0@),
        )
}

/// The values of the first `n` entries, by the bytes of their keys.
pub open spec fn contents_of(entries: Seq<(String, u64)>, n: nat) -> Map<Seq<u8>, u64>
    decreases n,
{
    if n == 0 {
        Map::empty()
    } else {
        contents_of(entries, (n - 1) as nat).insert(
            encode_utf8(entries[n - 1].0@),
            entries[n - 1].1,
        )
    }
}

/// `fst::Map::from_iter`: a map that a builder writes into memory, and that
/// holds the entries. There is one exactly if the keys come in ascending order,
/// each once.
#[verifier::external_body]
fn map_from_entries(entries: Vec<(String, u64)>) -> (r: Option<fst::Map>)
    ensures
        r is Some <==> is_ascending(entries@),
        r matches Some(map) ==> map_is_built(map) && map_contents(map) == contents_of(
            entries@,
            entries@.len(),
        ),
{
    fst::Map::from_iter(entries).ok()
}

/// Builds a map of the given entries, if their keys come in ascending order.
pub fn build_map(entries: Vec<(String, u64)>) -> (r: Option<fst::Map>)
    ensures
        r is Some <==> is_ascending(entries@),
        r matches Some(map) ==> map_is_built(map) && map_contents(map) == contents_of(
            entries@,
            entries@.len(),
        ),
{
    map_from_entries(entries)
}

/// The number that four bytes give, the low one first.
pub open spec fn le_u32(bytes: Seq<u8>, at: int) -> int {
    bytes[at] + bytes[at + 1] * 0x100 + bytes[at + 2] * 0x1_0000 + bytes[at + 3] * 0x100_0000
}

/// `byteorder::LittleEndian::read_u32`: the number that the first four bytes
/// give, the low one first. It panics on fewer bytes.
#[verifier::external_body]
fn read_u32(buf: &[u8]) -> (r: u32)
    requires
        buf@.len() >= 4,
    ensures
        r == le_u32(buf@, 0),
{
    LittleEndian::read_u32(buf)
}

/// Bytes that a record takes at least.
pub const RECORD: usize = 6;

/// The record at a place: the number of a query in its shard, the shard, and
/// the relevance.
pub open spec fn record_at(bytes: Seq<u8>, at: int) -> (u32, u8, u8) {
    (le_u32(bytes, at) as u32, bytes[at + 4], bytes[at + 5])
}

/// The records of a bucket of `len` that starts at `addr`.
pub open spec fn records(bytes: Seq<u8>, addr: int, len: nat, id_size: int) -> Seq<(u32, u8, u8)> {
    Seq::new(len, |i: int| record_at(bytes, addr + i * id_size))
}

/// Reads a bucket of `len` records that starts at byte `addr`.
pub fn read_bucket(bytes: &[u8], addr: usize, len: usize, id_size: usize) -> (r: Vec<(u32, u8, u8)>)
    requires
        addr + len * id_size <= bytes@.len(),
        len > 0 ==> id_size >= RECORD,
    ensures
        r@ == records(bytes@, addr as int, len as nat, id_size as int),
{
    let mut out: Vec<(u32, u8, u8)> = Vec::new();
    let mut i: usize = 0;
    let mut at: usize = addr;
    let total: usize = bytes.len();
    while i < len
        invariant
            i <= len,
            total == bytes@.len(),
            addr + len * id_size <= bytes@.len(),
            len > 0 ==> id_size >= RECORD,
            at == addr + i * id_size,
            out@ == records(bytes@, addr as int, i as nat, id_size as int),
        decreases len - i,
    {
        assert(i * id_size + id_size == (i + 1) * id_size && (i + 1) * id_size <= len * id_size)
            by (nonlinear_arith)
            requires
                i + 1 <= len,
                id_size >= 0,
        ;
        let head: &[u8] = vstd::slice::slice_subrange(bytes, at, at + 4);
        let number: u32 = read_u32(head);
        assert(le_u32(head@, 0) == le_u32(bytes@, at as int));
        out.push((number, bytes[at + 4], bytes[at + 5]));
        at = at + id_size;
        i = i + 1;
        assert(out@ =~= records(bytes@, addr as int, i as nat, id_size as int));
    }
    out
}

/// A function that splits the value of an ngram into the number of records
/// ahead of its bucket and the length of the bucket.
pub type Unpairing = spec_fn(u64) -> (u64, u64);

/// Every result that `unpair` can give is the one that `u` names.
pub open spec fn splits<U: Fn(u64) -> (u64, u64)>(unpair: U, u: Unpairing) -> bool {
    forall|value: u64, r: (u64, u64)| #[trigger] unpair.ensures((value,), r) ==> r == u(value)
}

/// `unpair` takes every value.
pub open spec fn splits_all<U: Fn(u64) -> (u64, u64)>(unpair: U) -> bool {
    forall|value: u64| #[trigger] unpair.requires((value,))
}

/// The bucket is the one of the ngram in the map, as `unpair` splits its value;
/// there is none if the map does not have the ngram.
pub open spec fn is_bucket_of<U: Fn(u64) -> (u64, u64)>(
    bucket: Option<(u64, u64)>,
    ngram: Seq<char>,
    map: fst::Map,
    unpair: U,
) -> bool {
    let key = encode_utf8(ngram);
    match bucket {
        Some(b) => map_contents(map).contains_key(key) && unpair.ensures(
            (map_contents(map)[key],),
            b,
        ),
        None => !map_contents(map).contains_key(key),
    }
}

/// Looks up the bucket of an ngram: the number of records ahead of it, and the
/// number of its own.
pub fn get_addr_and_len<U: Fn(u64) -> (u64, u64)>(ngram: &str, map: &fst::Map, unpair: &U) -> (r:
    Option<(u64, u64)>)
    requires
        map_is_built(*map),
        splits_all(*unpair),
    ensures
        is_bucket_of(r, ngram@, *map, *unpair),
{
    match map_get(map, ngram) {
        Some(value) => Some(unpair(value)),
        None => None,
    }
}

/// Numbered texts of a list of numbered strings.
pub open spec fn numbered(s: Seq<(String, usize)>) -> Seq<(Seq<char>, usize)> {
    Seq::new(s.len(), |i: int| (s[i].0@, s[i].1))
}

/// The buckets are those of the ngrams, one by one.
pub open spec fn are_buckets_of<U: Fn(u64) -> (u64, u64)>(
    buckets: Seq<Option<(u64, u64)>>,
    ngrams: Seq<(Seq<char>, usize)>,
    map: fst::Map,
    unpair: U,
) -> bool {
    &&& buckets.len() == ngrams.len()
    &&& forall|i: int|
        0 <= i < ngrams.len() ==> is_bucket_of(
            #[trigger] buckets[i],
            ngrams[i].0,
            map,
            unpair,
        )
}

/// Looks up the buckets of some ngrams.
pub fn find_buckets<U: Fn(u64) -> (u64, u64)>(
    ngrams: &Vec<(String, usize)>,
    map: &fst::Map,
    unpair: &U,
) -> (r: Vec<Option<(u64, u64)>>)
    requires
        map_is_built(*map),
        splits_all(*unpair),
    ensures
        are_buckets_of(r@, numbered(ngrams@), *map, *unpair),
{
    let mut buckets: Vec<Option<(u64, u64)>> = Vec::new();
    let mut i: usize = 0;
    while i < ngrams.len()
        invariant
            i <= ngrams@.len(),
            map_is_built(*map),
            splits_all(*unpair),
            are_buckets_of(buckets@, numbered(ngrams@).take(i as int), *map, *unpair),
        decreases ngrams@.len() - i,
    {
        let ghost before = buckets@;
        let bucket: Option<(u64, u64)> = get_addr_and_len(ngrams[i].0.as_str(), map, unpair);
        buckets.push(bucket);
        assert forall|j: int| 0 <= j < i + 1 implies is_bucket_of(
            #[trigger] buckets@[j],
            numbered(ngrams@).take(i + 1)[j].0,
            *map,
            *unpair,
        ) by {
            if j < i {
                assert(is_bucket_of(
                    before[j],
                    numbered(ngrams@).take(i as int)[j].0,
                    *map,
                    *unpair,
                ));
            }
        }
        i = i + 1;
    }
    assert(numbered(ngrams@).take(i as int) =~= numbered(ngrams@));
    buckets
}

/// The inverse document frequency of an ngram in a shard of `n` queries: the
/// binary logarithm of `n` by the length of its bucket, or of `n` if it has
/// none.
pub open spec fn inverse_frequency(g: Arithmetic, n: usize, bucket: Option<(u64, u64)>) -> Score {
    let size = g(FloatOp::Whole(n as u128));
    match bucket {
        Some(b) => g(
            FloatOp::Log(g(FloatOp::Over(size, g(FloatOp::Whole(b.1 as u128)))), score(TWO)),
        ),
        None => g(FloatOp::Log(size, score(TWO))),
    }
}

/// The number and the inverse document frequency of the first `n` ngrams, by
/// their text; the last counts of several with one text.
pub open spec fn frequencies(
    g: Arithmetic,
    ngrams: Seq<(Seq<char>, usize)>,
    buckets: Seq<Option<(u64, u64)>>,
    shard_size: usize,
    n: nat,
) -> Map<Seq<char>, (usize, Score)>
    decreases n,
{
    if n == 0 {
        Map::empty()
    } else {
        frequencies(g, ngrams, buckets, shard_size, (n - 1) as nat).insert(
            ngrams[n - 1].0,
            (ngrams[n - 1].1, inverse_frequency(g, shard_size, buckets[n - 1])),
        )
    }
}

/// Weighs ngrams by how long their buckets are, in a shard of `shard_size`
/// queries.
pub fn bucket_idfs<F: Fn(FloatOp) -> Score>(
    float: &F,
    ngrams: &Vec<(String, usize)>,
    buckets: &Vec<Option<(u64, u64)>>,
    shard_size: usize,
) -> (r: FnvHashMap<String, (usize, Score)>)
    requires
        takes_all(*float),
        buckets@.len() == ngrams@.len(),
    ensures
        weighs(by_text(r@), *float, numbered(ngrams@), buckets@, shard_size),
{
    let mut idfs: FnvHashMap<String, (usize, Score)> = FnvHashMap::default();
    proof {
        lemma_empty_by_text::<(usize, Score)>();
    }
    let two: Score = Score { bits: TWO };
    let n: Score = float(FloatOp::Whole(shard_size as u128));
    let mut i: usize = 0;
    while i < ngrams.len()
        invariant
            i <= ngrams@.len(),
            buckets@.len() == ngrams@.len(),
            takes_all(*float),
            two == score(TWO),
            float.ensures((FloatOp::Whole(shard_size as u128),), n),
            forall|g: Arithmetic| #[trigger]
                computes(*float, g) ==> by_text(idfs@) == frequencies(
                    g,
                    numbered(ngrams@),
                    buckets@,
                    shard_size,
                    i as nat,
                ),
        decreases ngrams@.len() - i,
    {
        let idf: Score = match buckets[i] {
            Some((_, len)) => {
                let size: Score = float(FloatOp::Whole(len as u128));
                let share: Score = float(FloatOp::Over(n, size));
                float(FloatOp::Log(share, two))
            },
            None => float(FloatOp::Log(n, two)),
        };
        text_insert(&mut idfs, ngrams[i].0.clone(), (ngrams[i].1, idf));
        i = i + 1;
    }
    idfs
}

/// The table weighs the ngrams by the given buckets.
pub open spec fn weighs<F: Fn(FloatOp) -> Score>(
    table: Map<Seq<char>, (usize, Score)>,
    float: F,
    ngrams: Seq<(Seq<char>, usize)>,
    buckets: Seq<Option<(u64, u64)>>,
    shard_size: usize,
) -> bool {
    forall|g: Arithmetic| #[trigger]
        computes(float, g) ==> table == frequencies(
            g,
            ngrams,
            buckets,
            shard_size,
            ngrams.len(),
        )
}

/// Weighs ngrams by how rare they are in a shard of `shard_size` queries.
pub fn _get_idfs<F: Fn(FloatOp) -> Score, U: Fn(u64) -> (u64, u64)>(
    float: &F,
    unpair: &U,
    ngrams: &Vec<(String, usize)>,
    map: &fst::Map,
    shard_size: usize,
) -> (r: FnvHashMap<String, (usize, Score)>)
    requires
        map_is_built(*map),
        takes_all(*float),
        splits_all(*unpair),
    ensures
        exists|buckets: Seq<Option<(u64, u64)>>| #[trigger]
            are_buckets_of(buckets, numbered(ngrams@), *map, *unpair) && weighs(
                by_text(r@),
                *float,
                numbered(ngrams@),
                buckets,
                shard_size,
            ),
{
    let buckets: Vec<Option<(u64, u64)>> = find_buckets(ngrams, map, unpair);
    bucket_idfs(float, ngrams, &buckets, shard_size)
}

/// Weighs ngrams by how rare they are in a shard of `shard_size` queries whose map
/// has the given entries, if their keys come in ascending order.
pub fn entry_idfs<F: Fn(FloatOp) -> Score, U: Fn(u64) -> (u64, u64)>(
    float: &F,
    unpair: &U,
    ngrams: &Vec<(String, usize)>,
    entries: Vec<(String, u64)>,
    shard_size: usize,
) -> (r: Option<FnvHashMap<String, (usize, Score)>>)
    requires
        takes_all(*float),
        splits_all(*unpair),
    ensures
        r is Some <==> is_ascending(entries@),
        r matches Some(table) ==> exists|map: fst::Map, buckets: Seq<Option<(u64, u64)>>|
            {
                &&& map_contents(map) == contents_of(entries@, entries@.len())
                &&& #[trigger] are_buckets_of(buckets, numbered(ngrams@), map, *unpair)
                &&& weighs(by_text(table@), *float, numbered(ngrams@), buckets, shard_size)
            },
{
    match build_map(entries) {
        Some(map) => Some(_get_idfs(float, unpair, ngrams, &map, shard_size)),
        None => None,
    }
}

/// A bucket depends on its own bytes alone: bytes that agree from its start to
/// its end hold the same records.
pub proof fn law_bucket_depends_on_its_own_bytes(
    a: Seq<u8>,
    b: Seq<u8>,
    addr: nat,
    len: nat,
    id_size: nat,
)
    requires
        len > 0 ==> id_size >= RECORD,
        addr + len * id_size <= a.len(),
        addr + len * id_size <= b.len(),
        forall|i: int| addr <= i < addr + len * id_size ==> a[i] == b[i],
    ensures
        records(a, addr as int, len, id_size as int) == records(
            b,
            addr as int,
            len,
            id_size as int,
        ),
{
    let x = records(a, addr as int, len, id_size as int);
    let y = records(b, addr as int, len, id_size as int);
    assert forall|i: int| 0 <= i < len implies x[i] == y[i] by {
        assert(0 <= i * id_size && i * id_size + id_size == (i + 1) * id_size && (i + 1) * id_size
            <= len * id_size) by (nonlinear_arith)
            requires
                0 <= i < len,
                id_size >= 0,
        ;
    }
    assert(x =~= y);
}

} // verus!
