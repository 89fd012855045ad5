//! An open index, and the walk over the shards that a query belongs to.
use crate::hooks::{are_shards_of, assigns, find_shards, shards_all, ParsedQuery, Placing};
use crate::index::{are_buckets_of, map_is_built, numbered, splits, splits_all, Unpairing};
use crate::matching::{are_groups, group_ngrams, in_range, members};
use crate::score::{computes, takes_all, Arithmetic, FloatOp, Score};
use crate::shard::{
    buckets_fit, get_shard_results, is_reading, numbers, numbers_all, rows_of, shard_rows, text_of,
    IndexError, Numbering, SearchShardResult, Shard, ShardResults, ShardRow,
};
use crate::tables::{list_texts, number_get, number_keys};
use fnv::FnvHashMap;
use std::ops::Range;
use vstd::prelude::*;

verus! {

/// A way to walk the shards that the ngrams of a query belong to.
pub struct Walk {
    /// Shard that each ngram belongs to.
    pub shard_ids: Seq<u32>,
    /// Shards that are walked.
    pub order: Seq<usize>,
    /// Buckets that the ngrams have in each of these.
    pub buckets: Seq<Seq<Option<(u64, u64)>>>,
}

/// A searchable index.
#[derive(Debug)]
pub struct Qpick<'a> {
    pub shards: Vec<Shard<'a>>,
    /// Shards that are searched.
    pub shard_range: Range<u32>,
    /// Bytes of a record.
    pub id_size: usize,
    /// The texts of all open shards are at hand.
    pub i2q_loaded: bool,
    /// Shards of the whole index.
    pub shard_num: usize,
}

/// The text of a query, by its number in a shard and the shard; empty if the
/// texts of the shard are not at hand. There is none if the shard is not open,
/// or has no such query.
pub open spec fn query_text(shards: Seq<Shard>, home: (u32, u8)) -> Option<Seq<char>> {
    if home.1 >= shards.len() {
        None
    } else {
        match shards[home.1 as int].i2q {
            None => Some(Seq::empty()),
            Some(list) => if home.0 < list@.len() {
                Some(list@[home.0 as int]@)
            } else {
                None
            },
        }
    }
}

/// Shards that are searched: the given ones, or else all of the index.
pub fn searched_shards(shard_range: Option<Range<u32>>, nr_shards: usize) -> (r: Range<u32>)
    ensures
        r == (match shard_range {
            Some(range) => range,
            None => Range { start: 0, end: nr_shards as u32 },
        }),
{
    match shard_range {
        Some(range) => range,
        None => Range { start: 0, end: #[verifier::truncate] (nr_shards as u32) },
    }
}

impl<'a> Qpick<'a> {
    /// Makes an index of shards that were opened, out of `nr_shards`, with
    /// records of `id_size` bytes.
    pub fn new(
        shards: Vec<Shard<'a>>,
        shard_range: Option<Range<u32>>,
        nr_shards: usize,
        id_size: usize,
    ) -> (r: Qpick<'a>)
        ensures
            r.shards == shards,
            r.shard_range == (match shard_range {
                Some(range) => range,
                None => Range { start: 0, end: nr_shards as u32 },
            }),
            r.id_size == id_size,
            r.shard_num == nr_shards,
            r.i2q_loaded == (forall|i: int|
                0 <= i < shards@.len() ==> (#[trigger] shards@[i]).i2q is Some),
    {
        let mut i2q_loaded: bool = true;
        let mut i: usize = 0;
        while i < shards.len()
            invariant
                i <= shards@.len(),
                i2q_loaded == (forall|j: int| 0 <= j < i ==> (#[trigger] shards@[j]).i2q is Some),
            decreases shards@.len() - i,
        {
            i2q_loaded = i2q_loaded && shards[i].i2q.is_some();
            i = i + 1;
        }
        Qpick {
            shards,
            shard_range: searched_shards(shard_range, nr_shards),
            id_size,
            i2q_loaded,
            shard_num: nr_shards,
        }
    }

    /// Whether the texts of all open shards are at hand.
    pub fn i2q_is_loaded(&self) -> (r: bool)
        ensures
            r == self.i2q_loaded,
    {
        self.i2q_loaded
    }

    /// The maps of all open shards were written by a builder of the `fst` crate.
    pub open spec fn maps_are_built(self) -> bool {
        forall|i: int| 0 <= i < self.shards@.len() ==> map_is_built(*(#[trigger] self.shards@[i]).map)
    }

    /// The shards are ones that the hook can assign to the ngrams of a query.
    pub open spec fn places<S: Fn(&String, u32) -> u32>(
        self,
        shard_ids: Seq<u32>,
        ngrams: Seq<String>,
        shard_of: S,
    ) -> bool {
        are_shards_of(shard_ids, ngrams, self.shard_num as u32, shard_of)
    }

    /// The ngrams of a query that belong to a shard, with their numbers.
    pub open spec fn asked_of(self, ngrams: Seq<String>, shard_ids: Seq<u32>, shard: usize) -> Seq<
        (Seq<char>, usize),
    > {
        members(ngrams, shard_ids, shard, ngrams.len())
    }

    /// The shard is searched for the query: it is in the range, and an ngram
    /// belongs to it.
    pub open spec fn asks(self, ngrams: Seq<String>, shard_ids: Seq<u32>, shard: usize) -> bool {
        &&& in_range(shard as int, self.shard_range.start, self.shard_range.end)
        &&& self.asked_of(ngrams, shard_ids, shard).len() > 0
    }

    /// The buckets are those of the ngrams that belong to an open shard.
    pub open spec fn are_shard_buckets<U: Fn(u64) -> (u64, u64)>(
        self,
        buckets: Seq<Option<(u64, u64)>>,
        ngrams: Seq<String>,
        shard_ids: Seq<u32>,
        shard: usize,
        unpair: U,
    ) -> bool {
        are_buckets_of(
            buckets,
            self.asked_of(ngrams, shard_ids, shard),
            *self.shards[shard as int].map,
            unpair,
        )
    }

    /// The buckets lie within the bytes of the shard.
    pub open spec fn shard_buckets_fit(
        self,
        buckets: Seq<Option<(u64, u64)>>,
        ngrams: Seq<String>,
        shard_ids: Seq<u32>,
        relevances: nat,
        shard: usize,
    ) -> bool {
        buckets_fit(
            self.asked_of(ngrams, shard_ids, shard),
            buckets,
            relevances,
            self.shards[shard as int].shard@.len(),
            self.id_size,
        )
    }

    /// The shard is open, and the buckets are those that the ngrams of the query
    /// have there, and fit.
    pub open spec fn visit_fits<U: Fn(u64) -> (u64, u64)>(
        self,
        shard: usize,
        buckets: Seq<Option<(u64, u64)>>,
        parsed: ParsedQuery,
        shard_ids: Seq<u32>,
        unpair: U,
    ) -> bool {
        &&& shard < self.shards@.len()
        &&& self.are_shard_buckets(buckets, parsed.ngrams@, shard_ids, shard, unpair)
        &&& self.shard_buckets_fit(buckets, parsed.ngrams@, shard_ids, parsed.trs@.len(), shard)
    }

    /// The walk visits every shard that is searched for the query once. All of
    /// them are open, and the buckets that the ngrams have there fit.
    pub open spec fn is_walk<S: Fn(&String, u32) -> u32, U: Fn(u64) -> (u64, u64)>(
        self,
        walk: Walk,
        parsed: ParsedQuery,
        shard_of: S,
        unpair: U,
    ) -> bool {
        &&& self.places(walk.shard_ids, parsed.ngrams@, shard_of)
        &&& walk.order.no_duplicates()
        &&& forall|shard: usize| #[trigger]
            walk.order.contains(shard) <==> self.asks(parsed.ngrams@, walk.shard_ids, shard)
        &&& walk.buckets.len() == walk.order.len()
        &&& forall|k: int|
            0 <= k < walk.order.len() ==> self.visit_fits(
                walk.order[k],
                #[trigger] walk.buckets[k],
                parsed,
                walk.shard_ids,
                unpair,
            )
    }

    /// The rows that shard `k` of a walk gives.
    pub open spec fn visit_rows(
        self,
        g: Arithmetic,
        q: Numbering,
        walk: Walk,
        parsed: ParsedQuery,
        with_tfidf: bool,
        k: int,
    ) -> Seq<ShardRow> {
        let shard = walk.order[k];
        let asked = self.asked_of(parsed.ngrams@, walk.shard_ids, shard);
        shard_rows(
            g,
            q,
            asked,
            walk.buckets[k],
            parsed.trs@,
            self.shards[shard as int].shard@,
            self.id_size,
            self.shard_num,
            with_tfidf,
            asked.len(),
        )
    }

    /// The rows that the first `n` shards of a walk give, shard after shard.
    pub open spec fn walk_rows(
        self,
        g: Arithmetic,
        q: Numbering,
        walk: Walk,
        parsed: ParsedQuery,
        with_tfidf: bool,
        n: nat,
    ) -> Seq<ShardRow>
        decreases n,
    {
        if n == 0 {
            Seq::empty()
        } else {
            self.walk_rows(g, q, walk, parsed, with_tfidf, (n - 1) as nat) + self.visit_rows(
                g,
                q,
                walk,
                parsed,
                with_tfidf,
                n - 1,
            )
        }
    }

    /// The rows that a whole walk gives.
    pub open spec fn all_rows(
        self,
        g: Arithmetic,
        q: Numbering,
        walk: Walk,
        parsed: ParsedQuery,
        with_tfidf: bool,
    ) -> Seq<ShardRow> {
        self.walk_rows(g, q, walk, parsed, with_tfidf, walk.order.len())
    }

    /// The results are those of a walk, whatever is computed.
    pub open spec fn gives_rows<F: Fn(FloatOp) -> Score, Q: Fn(u64, u8, usize) -> u64>(
        self,
        walk: Walk,
        results: Seq<SearchShardResult>,
        float: F,
        number: Q,
        parsed: ParsedQuery,
        with_tfidf: bool,
    ) -> bool {
        forall|g: Arithmetic, q: Numbering|
            #![trigger computes(float, g), numbers(number, q)]
            computes(float, g) && numbers(number, q) ==> rows_of(results) == self.all_rows(
                g,
                q,
                walk,
                parsed,
                with_tfidf,
            )
    }

    /// Why walking the shards fails, where the ngrams belong to the given ones:
    /// a shard that is searched is not open, or a bucket that an ngram has in one
    /// does not fit.
    pub open spec fn walk_fails_at<U: Fn(u64) -> (u64, u64)>(
        self,
        e: IndexError,
        parsed: ParsedQuery,
        shard_ids: Seq<u32>,
        unpair: U,
    ) -> bool {
        match e {
            IndexError::MissingShard => exists|shard: usize| #[trigger]
                self.asks(parsed.ngrams@, shard_ids, shard) && shard >= self.shards@.len(),
            IndexError::BadBucket => exists|shard: usize, buckets: Seq<Option<(u64, u64)>>|
                {
                    &&& self.asks(parsed.ngrams@, shard_ids, shard)
                    &&& shard < self.shards@.len()
                    &&& #[trigger] self.are_shard_buckets(
                        buckets,
                        parsed.ngrams@,
                        shard_ids,
                        shard,
                        unpair,
                    )
                    &&& !self.shard_buckets_fit(
                        buckets,
                        parsed.ngrams@,
                        shard_ids,
                        parsed.trs@.len(),
                        shard,
                    )
                },
            _ => false,
        }
    }

    /// Why walking the shards fails.
    pub open spec fn walk_fails<S: Fn(&String, u32) -> u32, U: Fn(u64) -> (u64, u64)>(
        self,
        e: IndexError,
        parsed: ParsedQuery,
        shard_of: S,
        unpair: U,
    ) -> bool {
        exists|shard_ids: Seq<u32>| #[trigger]
            self.places(shard_ids, parsed.ngrams@, shard_of) && self.walk_fails_at(
                e,
                parsed,
                shard_ids,
                unpair,
            )
    }

    /// The groups are those of the ngrams of a query, by the shards that the hook can
    /// assign to them, as far as they are searched.
    pub open spec fn are_shard_groups<S: Fn(&String, u32) -> u32>(
        self,
        groups: Map<usize, Vec<(String, usize)>>,
        ngrams: Seq<String>,
        shard_of: S,
    ) -> bool {
        exists|shard_ids: Seq<u32>| #[trigger]
            self.places(shard_ids, ngrams, shard_of) && are_groups(
                groups,
                ngrams,
                shard_ids,
                self.shard_range.start,
                self.shard_range.end,
            )
    }

    /// Groups the ngrams of a query by the shard that each belongs to. Ngrams of
    /// shards that are not searched are left out.
    pub fn shard_ngrams<S: Fn(&String, u32) -> u32>(&self, shard_of: &S, ngrams: &Vec<String>) -> (r:
        FnvHashMap<usize, Vec<(String, usize)>>)
        requires
            shards_all(*shard_of),
        ensures
            self.are_shard_groups(r@, ngrams@, *shard_of),
    {
        let shards: u32 = #[verifier::truncate] (self.shard_num as u32);
        let shard_ids: Vec<u32> = find_shards(ngrams, shards, shard_of);
        assert(self.places(shard_ids@, ngrams@, *shard_of));
        group_ngrams(ngrams, &shard_ids, self.shard_range.start, self.shard_range.end)
    }

    /// Walks the shards that the ngrams of a query belong to, and reads what
    /// they say of the ngrams.
    pub fn collect_results<
        S: Fn(&String, u32) -> u32,
        F: Fn(FloatOp) -> Score,
        U: Fn(u64) -> (u64, u64),
        Q: Fn(u64, u8, usize) -> u64,
    >(
        &self,
        shard_of: &S,
        float: &F,
        unpair: &U,
        number: &Q,
        parsed: &ParsedQuery,
        with_tfidf: bool,
    ) -> (r: Result<Vec<SearchShardResult>, IndexError>)
        requires
            self.maps_are_built(),
            shards_all(*shard_of),
            takes_all(*float),
            splits_all(*unpair),
            numbers_all(*number),
        ensures
            r matches Ok(results) ==> exists|walk: Walk| #[trigger]
                self.is_walk(walk, *parsed, *shard_of, *unpair) && self.gives_rows(
                    walk,
                    results@,
                    *float,
                    *number,
                    *parsed,
                    with_tfidf,
                ),
            r matches Err(e) ==> self.walk_fails(e, *parsed, *shard_of, *unpair),
    {
        let groups: FnvHashMap<usize, Vec<(String, usize)>> = self.shard_ngrams(
            shard_of,
            &parsed.ngrams,
        );
        let ghost shard_ids: Seq<u32> = choose|shard_ids: Seq<u32>| #[trigger]
            self.places(shard_ids, parsed.ngrams@, *shard_of) && are_groups(
                groups@,
                parsed.ngrams@,
                shard_ids,
                self.shard_range.start,
                self.shard_range.end,
            );
        let order: Vec<usize> = number_keys(&groups);
        let mut results: Vec<SearchShardResult> = Vec::new();
        let ghost mut walk = Walk { shard_ids, order: order@, buckets: Seq::empty() };
        assert(rows_of(results@) =~= Seq::<ShardRow>::empty());
        let mut k: usize = 0;
        while k < order.len()
            invariant
                k <= order@.len(),
                self.maps_are_built(),
                takes_all(*float),
                splits_all(*unpair),
                numbers_all(*number),
                self.places(shard_ids, parsed.ngrams@, *shard_of),
                are_groups(
                    groups@,
                    parsed.ngrams@,
                    shard_ids,
                    self.shard_range.start,
                    self.shard_range.end,
                ),
                walk.shard_ids == shard_ids,
                walk.order == order@,
                order@.no_duplicates(),
                forall|shard: usize|
                    order@.contains(shard) <==> #[trigger] groups@.contains_key(shard),
                walk.buckets.len() == k,
                forall|j: int|
                    0 <= j < k ==> self.visit_fits(
                        walk.order[j],
                        #[trigger] walk.buckets[j],
                        *parsed,
                        shard_ids,
                        *unpair,
                    ),
                forall|g: Arithmetic, q: Numbering|
                    #![trigger computes(*float, g), numbers(*number, q)]
                    computes(*float, g) && numbers(*number, q) ==> rows_of(results@)
                        == self.walk_rows(g, q, walk, *parsed, with_tfidf, k as nat),
            decreases order@.len() - k,
        {
            let shard: usize = order[k];
            assert(order@.contains(shard));
            assert(groups@.contains_key(shard));
            assert(self.asks(parsed.ngrams@, shard_ids, shard));
            if shard >= self.shards.len() {
                assert(self.walk_fails_at(
                    IndexError::MissingShard,
                    *parsed,
                    shard_ids,
                    *unpair,
                ));
                return Err(IndexError::MissingShard);
            }
            if let Some(ngrams) = number_get(&groups, shard) {
                let reading: Result<ShardResults, IndexError> = get_shard_results(
                    float,
                    unpair,
                    number,
                    ngrams,
                    &parsed.trs,
                    self.shards[shard].map,
                    self.shards[shard].shard,
                    self.id_size,
                    self.shard_num,
                    with_tfidf,
                );
                let ghost map = *self.shards@[shard as int].map;
                let ghost bytes = self.shards@[shard as int].shard@;
                let ghost buckets: Seq<Option<(u64, u64)>> = choose|
                    buckets: Seq<Option<(u64, u64)>>,
                | #[trigger]
                    are_buckets_of(buckets, numbered(ngrams@), map, *unpair) && is_reading(
                        reading,
                        buckets,
                        *float,
                        *number,
                        numbered(ngrams@),
                        parsed.trs@,
                        bytes,
                        self.id_size,
                        self.shard_num,
                        with_tfidf,
                    );
                assert(self.are_shard_buckets(
                    buckets,
                    parsed.ngrams@,
                    shard_ids,
                    shard,
                    *unpair,
                ));
                match reading {
                    Err(e) => {
                        assert(!self.shard_buckets_fit(
                            buckets,
                            parsed.ngrams@,
                            shard_ids,
                            parsed.trs@.len(),
                            shard,
                        ));
                        assert(self.walk_fails_at(e, *parsed, shard_ids, *unpair));
                        return Err(e);
                    },
                    Ok(mut more) => {
                        let ghost had = results@;
                        let ghost added = more.results@;
                        let ghost old_walk = walk;
                        results.append(&mut more.results);
                        proof {
                            walk =
                            Walk { shard_ids, order: order@, buckets: walk.buckets.push(buckets) };
                            assert(self.visit_fits(shard, buckets, *parsed, shard_ids, *unpair));
                            assert(rows_of(results@) =~= rows_of(had) + rows_of(added));
                            assert forall|g: Arithmetic, q: Numbering|
                                #![trigger computes(*float, g), numbers(*number, q)]
                                computes(*float, g) && numbers(*number, q) implies rows_of(
                                results@,
                            ) == self.walk_rows(
                                g,
                                q,
                                walk,
                                *parsed,
                                with_tfidf,
                                (k + 1) as nat,
                            ) by {
                                self.lemma_walk_rows_ahead(
                                    g,
                                    q,
                                    old_walk,
                                    walk,
                                    *parsed,
                                    with_tfidf,
                                    k as nat,
                                );
                            }
                        }
                    },
                }
            }
            k = k + 1;
        }
        proof {
            assert forall|shard: usize| #[trigger]
                walk.order.contains(shard) <==> self.asks(parsed.ngrams@, shard_ids, shard) by {
                assert(order@.contains(shard) <==> groups@.contains_key(shard));
            }
            assert(self.is_walk(walk, *parsed, *shard_of, *unpair));
        }
        Ok(results)
    }

    /// The rows that the first shards of a walk give depend on these alone.
    proof fn lemma_walk_rows_ahead(
        self,
        g: Arithmetic,
        q: Numbering,
        a: Walk,
        b: Walk,
        parsed: ParsedQuery,
        with_tfidf: bool,
        n: nat,
    )
        requires
            a.shard_ids == b.shard_ids,
            a.order == b.order,
            n <= a.buckets.len(),
            n <= b.buckets.len(),
            forall|i: int| 0 <= i < n ==> a.buckets[i] == b.buckets[i],
        ensures
            self.walk_rows(g, q, a, parsed, with_tfidf, n) == self.walk_rows(
                g,
                q,
                b,
                parsed,
                with_tfidf,
                n,
            ),
        decreases n,
    {
        if n > 0 {
            self.lemma_walk_rows_ahead(g, q, a, b, parsed, with_tfidf, (n - 1) as nat);
        }
    }

    /// The text of a query, or that it is not where the index says.
    pub fn candidate_query(&self, home: (u32, u8)) -> (r: Option<String>)
        ensures
            text_of(r) == query_text(self.shards@, home),
    {
        let (sh_qid, sh_id): (u32, u8) = home;
        if sh_id as usize >= self.shards.len() {
            return None;
        }
        match self.shards[sh_id as usize].i2q {
            None => Some(String::new()),
            Some(list) => {
                if (sh_qid as usize) < list.len() {
                    Some(list[sh_qid as usize].clone())
                } else {
                    None
                }
            },
        }
    }
}

/// Where the hooks are functions, a query either can be walked or cannot: no
/// walk exists if there is a reason for it to fail.
pub proof fn law_walking_succeeds_or_fails<
    'a,
    S: Fn(&String, u32) -> u32,
    U: Fn(u64) -> (u64, u64),
>(
    index: Qpick<'a>,
    walk: Walk,
    e: IndexError,
    parsed: ParsedQuery,
    shard_of: S,
    unpair: U,
    p: Placing,
    u: Unpairing,
)
    requires
        assigns(shard_of, p),
        splits(unpair, u),
    ensures
        !(index.is_walk(walk, parsed, shard_of, unpair) && index.walk_fails(
            e,
            parsed,
            shard_of,
            unpair,
        )),
{
    if index.is_walk(walk, parsed, shard_of, unpair) && index.walk_fails(
        e,
        parsed,
        shard_of,
        unpair,
    ) {
        let shard_ids = choose|shard_ids: Seq<u32>| #[trigger]
            index.places(shard_ids, parsed.ngrams@, shard_of) && index.walk_fails_at(
                e,
                parsed,
                shard_ids,
                unpair,
            );
        lemma_places_are_settled(
            index,
            index,
            shard_ids,
            walk.shard_ids,
            parsed.ngrams@,
            parsed.ngrams@,
            shard_of,
            p,
        );
        if e is MissingShard {
            let shard = choose|shard: usize| #[trigger]
                index.asks(parsed.ngrams@, shard_ids, shard) && shard >= index.shards@.len();
            assert(walk.order.contains(shard));
            let k = choose|k: int| 0 <= k < walk.order.len() && walk.order[k] == shard;
            assert(index.visit_fits(
                walk.order[k],
                walk.buckets[k],
                parsed,
                walk.shard_ids,
                unpair,
            ));
        } else {
            let (shard, buckets) = choose|shard: usize, buckets: Seq<Option<(u64, u64)>>|
                {
                    &&& index.asks(parsed.ngrams@, shard_ids, shard)
                    &&& shard < index.shards@.len()
                    &&& #[trigger] index.are_shard_buckets(
                        buckets,
                        parsed.ngrams@,
                        shard_ids,
                        shard,
                        unpair,
                    )
                    &&& !index.shard_buckets_fit(
                        buckets,
                        parsed.ngrams@,
                        shard_ids,
                        parsed.trs@.len(),
                        shard,
                    )
                };
            assert(walk.order.contains(shard));
            let k = choose|k: int| 0 <= k < walk.order.len() && walk.order[k] == shard;
            assert(index.visit_fits(
                walk.order[k],
                walk.buckets[k],
                parsed,
                walk.shard_ids,
                unpair,
            ));
            assert(buckets =~= walk.buckets[k]);
        }
    }
}

/// The hook assigns the same shards in two calls.
pub proof fn lemma_places_are_settled<'a, 'b, S: Fn(&String, u32) -> u32>(
    a: Qpick<'a>,
    b: Qpick<'b>,
    x: Seq<u32>,
    y: Seq<u32>,
    ngrams_a: Seq<String>,
    ngrams_b: Seq<String>,
    shard_of: S,
    p: Placing,
)
    requires
        assigns(shard_of, p),
        a.shard_num == b.shard_num,
        list_texts(ngrams_a) == list_texts(ngrams_b),
        a.places(x, ngrams_a, shard_of),
        b.places(y, ngrams_b, shard_of),
    ensures
        x == y,
        forall|i: int| 0 <= i < x.len() ==> x[i] == p(ngrams_a[i]@, a.shard_num as u32),
{
    assert(list_texts(ngrams_a).len() == ngrams_a.len());
    assert(list_texts(ngrams_b).len() == ngrams_b.len());
    assert forall|i: int| 0 <= i < x.len() implies x[i] == y[i] && x[i] == p(
        ngrams_a[i]@,
        a.shard_num as u32,
    ) by {
        assert(list_texts(ngrams_a)[i] == list_texts(ngrams_b)[i]);
        assert(shard_of.ensures((&ngrams_a[i], a.shard_num as u32), x[i]));
        assert(shard_of.ensures((&ngrams_b[i], b.shard_num as u32), y[i]));
    }
    assert(x =~= y);
}

/// The groups over a range of shards are those over its two parts, which have no
/// shard in common.
pub proof fn law_groups_of_adjoining_ranges_join<'a, 'b, 'c, S: Fn(&String, u32) -> u32>(
    low: Qpick<'a>,
    high: Qpick<'b>,
    both: Qpick<'c>,
    low_groups: Map<usize, Vec<(String, usize)>>,
    high_groups: Map<usize, Vec<(String, usize)>>,
    groups: Map<usize, Vec<(String, usize)>>,
    ngrams: Seq<String>,
    shard_of: S,
    p: Placing,
)
    requires
        assigns(shard_of, p),
        low.shard_num == both.shard_num,
        high.shard_num == both.shard_num,
        low.shard_range.start <= low.shard_range.end,
        low.shard_range.end == high.shard_range.start,
        high.shard_range.start <= high.shard_range.end,
        both.shard_range.start == low.shard_range.start,
        both.shard_range.end == high.shard_range.end,
        low.are_shard_groups(low_groups, ngrams, shard_of),
        high.are_shard_groups(high_groups, ngrams, shard_of),
        both.are_shard_groups(groups, ngrams, shard_of),
    ensures
        groups.dom() == low_groups.dom().union(high_groups.dom()),
        low_groups.dom().disjoint(high_groups.dom()),
        forall|shard: usize| #[trigger]
            low_groups.contains_key(shard) ==> numbered(groups[shard]@) == numbered(
                low_groups[shard]@,
            ),
        forall|shard: usize| #[trigger]
            high_groups.contains_key(shard) ==> numbered(groups[shard]@) == numbered(
                high_groups[shard]@,
            ),
{
    let x = choose|x: Seq<u32>| #[trigger]
        low.places(x, ngrams, shard_of) && are_groups(
            low_groups,
            ngrams,
            x,
            low.shard_range.start,
            low.shard_range.end,
        );
    let y = choose|y: Seq<u32>| #[trigger]
        high.places(y, ngrams, shard_of) && are_groups(
            high_groups,
            ngrams,
            y,
            high.shard_range.start,
            high.shard_range.end,
        );
    let z = choose|z: Seq<u32>| #[trigger]
        both.places(z, ngrams, shard_of) && are_groups(
            groups,
            ngrams,
            z,
            both.shard_range.start,
            both.shard_range.end,
        );
    lemma_places_are_settled(low, both, x, z, ngrams, ngrams, shard_of, p);
    lemma_places_are_settled(high, both, y, z, ngrams, ngrams, shard_of, p);
    assert forall|shard: usize|
        groups.contains_key(shard) <==> low_groups.contains_key(shard)
            || high_groups.contains_key(shard) by {}
    assert forall|shard: usize|
        !(low_groups.contains_key(shard) && high_groups.contains_key(shard)) by {}
    assert(groups.dom() =~= low_groups.dom().union(high_groups.dom()));
    assert forall|shard: usize| #[trigger] low_groups.contains_key(shard) implies numbered(
        groups[shard]@,
    ) == numbered(low_groups[shard]@) by {
        assert(groups.contains_key(shard));
    }
    assert forall|shard: usize| #[trigger] high_groups.contains_key(shard) implies numbered(
        groups[shard]@,
    ) == numbered(high_groups[shard]@) by {
        assert(groups.contains_key(shard));
    }
}

/// How many ngrams the groups of the first `n` shards hold.
pub open spec fn grouped(groups: Map<usize, Vec<(String, usize)>>, n: nat) -> nat
    decreases n,
{
    if n == 0 {
        0
    } else {
        let shard = (n - 1) as usize;
        grouped(groups, (n - 1) as nat) + if groups.contains_key(shard) {
            groups[shard]@.len()
        } else {
            0
        }
    }
}

/// How many of the first `m` ngrams belong to one of the first `n` shards.
spec fn placed(ngrams: Seq<String>, shard_ids: Seq<u32>, n: nat, m: nat) -> nat
    decreases n,
{
    if n == 0 {
        0
    } else {
        placed(ngrams, shard_ids, (n - 1) as nat, m) + members(
            ngrams,
            shard_ids,
            (n - 1) as usize,
            m,
        ).len()
    }
}

/// One more ngram is placed once, if it belongs to one of the shards.
proof fn lemma_placed_once(ngrams: Seq<String>, shard_ids: Seq<u32>, n: nat, m: nat)
    requires
        m < ngrams.len() == shard_ids.len(),
        n <= usize::MAX,
    ensures
        placed(ngrams, shard_ids, n, m + 1) == placed(ngrams, shard_ids, n, m) + if shard_ids[m as int]
            < n {
            1nat
        } else {
            0nat
        },
    decreases n,
{
    if n > 0 {
        lemma_placed_once(ngrams, shard_ids, (n - 1) as nat, m);
    }
}

/// All ngrams are placed, if each belongs to one of the shards.
proof fn lemma_all_placed(ngrams: Seq<String>, shard_ids: Seq<u32>, n: nat, m: nat)
    requires
        m <= ngrams.len() == shard_ids.len(),
        n <= usize::MAX,
        forall|i: int| 0 <= i < shard_ids.len() ==> (#[trigger] shard_ids[i]) < n,
    ensures
        placed(ngrams, shard_ids, n, m) == m,
    decreases m,
{
    if m > 0 {
        lemma_all_placed(ngrams, shard_ids, n, (m - 1) as nat);
        lemma_placed_once(ngrams, shard_ids, n, (m - 1) as nat);
    } else {
        lemma_none_placed(ngrams, shard_ids, n);
    }
}

/// Of no ngrams none is placed.
proof fn lemma_none_placed(ngrams: Seq<String>, shard_ids: Seq<u32>, n: nat)
    ensures
        placed(ngrams, shard_ids, n, 0) == 0,
    decreases n,
{
    if n > 0 {
        lemma_none_placed(ngrams, shard_ids, (n - 1) as nat);
    }
}

/// The groups hold what is placed.
proof fn lemma_groups_hold_what_is_placed(
    groups: Map<usize, Vec<(String, usize)>>,
    ngrams: Seq<String>,
    shard_ids: Seq<u32>,
    end: u32,
    n: nat,
)
    requires
        are_groups(groups, ngrams, shard_ids, 0, end),
        n <= end,
        end <= usize::MAX,
    ensures
        grouped(groups, n) == placed(ngrams, shard_ids, n, ngrams.len()),
    decreases n,
{
    if n > 0 {
        lemma_groups_hold_what_is_placed(groups, ngrams, shard_ids, end, (n - 1) as nat);
        let shard = (n - 1) as usize;
        if groups.contains_key(shard) {
            assert(numbered(groups[shard]@).len() == groups[shard]@.len());
        }
    }
}

/// Over all shards of the index the groups hold every ngram once: their lengths add
/// up, if the hook gives every ngram a shard of the index.
pub proof fn law_all_groups_hold_every_ngram_once<'a, S: Fn(&String, u32) -> u32>(
    index: Qpick<'a>,
    groups: Map<usize, Vec<(String, usize)>>,
    ngrams: Seq<String>,
    shard_of: S,
    p: Placing,
)
    requires
        assigns(shard_of, p),
        index.shard_num <= u32::MAX,
        index.shard_range.start == 0,
        index.shard_range.end == index.shard_num,
        forall|i: int|
            0 <= i < ngrams.len() ==> p((#[trigger] ngrams[i])@, index.shard_num as u32)
                < index.shard_num,
        index.are_shard_groups(groups, ngrams, shard_of),
    ensures
        grouped(groups, index.shard_num as nat) == ngrams.len(),
{
    let n = index.shard_num as nat;
    let x = choose|x: Seq<u32>| #[trigger]
        index.places(x, ngrams, shard_of) && are_groups(
            groups,
            ngrams,
            x,
            index.shard_range.start,
            index.shard_range.end,
        );
    lemma_places_are_settled(index, index, x, x, ngrams, ngrams, shard_of, p);
    assert forall|i: int| 0 <= i < x.len() implies (#[trigger] x[i]) < n by {
        assert(ngrams[i] == ngrams[i]);
    }
    lemma_all_placed(ngrams, x, n, ngrams.len());
    lemma_groups_hold_what_is_placed(groups, ngrams, x, index.shard_range.end, n);
}

} // verus!
