//! Distances between queries, and the results that a search gives.
use crate::iterate::advance;
use crate::ranking::{in_order, is_ranking, law_neighbours_order_all, rank, Comparable, Ranked};
use crate::score::Score;
use std::cmp::Ordering;
use vstd::prelude::*;
use vstd::std_specs::iter::IteratorSpec;

verus! {

/// How two query ids compare.
pub open spec fn id_order(a: u64, b: u64) -> Ordering {
    if a < b {
        Ordering::Less
    } else if a == b {
        Ordering::Equal
    } else {
        Ordering::Greater
    }
}

/// Distance of a query from the one that was asked for.
#[derive(Debug, Clone)]
pub struct Distance {
    /// Query the distance is of.
    pub query_id: u64,
    /// Distance by the words that the queries share.
    pub keyword: Score,
    /// Distance by word vectors, where there is one.
    pub cosine: Option<Score>,
}

impl Distance {
    /// Both distances have a cosine, so that they compare by it.
    pub open spec fn by_cosine(self, other: Distance) -> bool {
        self.cosine is Some && other.cosine is Some
    }

    /// The two are equally far.
    pub open spec fn same(self, other: Distance) -> bool {
        if self.by_cosine(other) {
            self.cosine->0.same(other.cosine->0)
        } else {
            self.keyword.same(other.keyword)
        }
    }

    /// How two distances compare: by the cosine where both have one, else by
    /// the keyword distance, and by the query id where they are equally far.
    pub open spec fn compare(self, other: Distance) -> Option<Ordering> {
        if self.same(other) {
            Some(id_order(self.query_id, other.query_id))
        } else if self.by_cosine(other) {
            self.cosine->0.compare(other.cosine->0)
        } else {
            self.keyword.compare(other.keyword)
        }
    }
}

impl PartialEq for Distance {
    fn eq(&self, other: &Distance) -> (r: bool) {
        match (self.cosine, other.cosine) {
            (Some(a), Some(b)) => a == b,
            _ => self.keyword == other.keyword,
        }
    }
}

impl vstd::std_specs::cmp::PartialEqSpecImpl for Distance {
    open spec fn obeys_eq_spec() -> bool {
        true
    }

    open spec fn eq_spec(&self, other: &Distance) -> bool {
        self.same(*other)
    }
}

impl PartialOrd for Distance {
    fn partial_cmp(&self, other: &Distance) -> (r: Option<Ordering>) {
        if self == other {
            self.query_id.partial_cmp(&other.query_id)
        } else {
            match (self.cosine, other.cosine) {
                (Some(a), Some(b)) => a.partial_cmp(&b),
                _ => self.keyword.partial_cmp(&other.keyword),
            }
        }
    }
}

impl vstd::std_specs::cmp::PartialOrdSpecImpl for Distance {
    open spec fn obeys_partial_cmp_spec() -> bool {
        true
    }

    open spec fn partial_cmp_spec(&self, other: &Distance) -> Option<Ordering> {
        self.compare(*other)
    }
}

/// A candidate query and its distance.
#[derive(Debug, Clone)]
pub struct DistanceResult {
    pub query: String,
    pub dist: Distance,
}

/// A [`DistanceResult`] with its text as a sequence of characters.
pub struct DistanceRow {
    pub query: Seq<char>,
    pub dist: Distance,
}

impl View for DistanceResult {
    type V = DistanceRow;

    open spec fn view(&self) -> DistanceRow {
        DistanceRow { query: self.query@, dist: self.dist }
    }
}

/// A query that was found, by its keyword distance.
#[derive(Debug, Clone)]
pub struct KeywordMatchResult {
    /// Query id, unique globally.
    pub query_id: u64,
    pub dist: Score,
}

impl KeywordMatchResult {
    /// How two matches compare: by distance, and by query id where they are
    /// equally far.
    pub open spec fn compare(self, other: KeywordMatchResult) -> Option<Ordering> {
        if self.dist.same(other.dist) {
            Some(id_order(self.query_id, other.query_id))
        } else {
            self.dist.compare(other.dist)
        }
    }
}

impl PartialEq for KeywordMatchResult {
    fn eq(&self, other: &KeywordMatchResult) -> (r: bool) {
        self.dist == other.dist
    }
}

impl vstd::std_specs::cmp::PartialEqSpecImpl for KeywordMatchResult {
    open spec fn obeys_eq_spec() -> bool {
        true
    }

    open spec fn eq_spec(&self, other: &KeywordMatchResult) -> bool {
        self.dist.same(other.dist)
    }
}

impl PartialOrd for KeywordMatchResult {
    fn partial_cmp(&self, other: &KeywordMatchResult) -> (r: Option<Ordering>) {
        if self == other {
            self.query_id.partial_cmp(&other.query_id)
        } else {
            self.dist.partial_cmp(&other.dist)
        }
    }
}

impl vstd::std_specs::cmp::PartialOrdSpecImpl for KeywordMatchResult {
    open spec fn obeys_partial_cmp_spec() -> bool {
        true
    }

    open spec fn partial_cmp_spec(&self, other: &KeywordMatchResult) -> Option<Ordering> {
        self.compare(*other)
    }
}

impl Ranked for KeywordMatchResult {
    open spec fn before(self, other: KeywordMatchResult) -> bool {
        self.compare(other) is None || self.compare(other) == Some(Ordering::Less)
    }

    open spec fn after(self, other: KeywordMatchResult) -> bool {
        self.compare(other) == Some(Ordering::Greater)
    }

    proof fn after_excludes_before(a: KeywordMatchResult, b: KeywordMatchResult) {
    }

    proof fn after_reverses(a: KeywordMatchResult, b: KeywordMatchResult) {
    }
}

impl Comparable for KeywordMatchResult {
    fn precedes(&self, other: &KeywordMatchResult) -> (r: bool) {
        match self.partial_cmp(other) {
            None => true,
            Some(Ordering::Less) => true,
            _ => false,
        }
    }
}

/// A query that was found.
#[derive(Debug, Clone)]
pub struct SearchResult {
    /// Query id, unique globally.
    pub query_id: u64,
    /// Text of the query.
    pub query: Option<String>,
    pub dist: Distance,
}

/// A [`SearchResult`] with its text as a sequence of characters.
pub struct SearchRow {
    pub query_id: u64,
    pub query: Option<Seq<char>>,
    pub dist: Distance,
}

impl View for SearchResult {
    type V = SearchRow;

    open spec fn view(&self) -> SearchRow {
        SearchRow {
            query_id: self.query_id,
            query: match self.query {
                Some(text) => Some(text@),
                None => None,
            },
            dist: self.dist,
        }
    }
}

/// The rows of a list of results.
pub open spec fn search_rows(s: Seq<SearchResult>) -> Seq<SearchRow> {
    Seq::new(s.len(), |i: int| s[i]@)
}

impl SearchResult {
    /// How two results compare: by distance, and by query id where they are
    /// equally far.
    pub open spec fn compare(self, other: SearchResult) -> Option<Ordering> {
        if self.dist.same(other.dist) {
            Some(id_order(self.query_id, other.query_id))
        } else {
            self.dist.compare(other.dist)
        }
    }
}

impl PartialEq for SearchResult {
    fn eq(&self, other: &SearchResult) -> (r: bool) {
        self.dist == other.dist
    }
}

impl vstd::std_specs::cmp::PartialEqSpecImpl for SearchResult {
    open spec fn obeys_eq_spec() -> bool {
        true
    }

    open spec fn eq_spec(&self, other: &SearchResult) -> bool {
        self.dist.same(other.dist)
    }
}

impl PartialOrd for SearchResult {
    fn partial_cmp(&self, other: &SearchResult) -> (r: Option<Ordering>) {
        if self == other {
            self.query_id.partial_cmp(&other.query_id)
        } else {
            self.dist.partial_cmp(&other.dist)
        }
    }
}

impl vstd::std_specs::cmp::PartialOrdSpecImpl for SearchResult {
    open spec fn obeys_partial_cmp_spec() -> bool {
        true
    }

    open spec fn partial_cmp_spec(&self, other: &SearchResult) -> Option<Ordering> {
        self.compare(*other)
    }
}

impl Ranked for SearchResult {
    open spec fn before(self, other: SearchResult) -> bool {
        self.compare(other) is None || self.compare(other) == Some(Ordering::Less)
    }

    open spec fn after(self, other: SearchResult) -> bool {
        self.compare(other) == Some(Ordering::Greater)
    }

    proof fn after_excludes_before(a: SearchResult, b: SearchResult) {
    }

    proof fn after_reverses(a: SearchResult, b: SearchResult) {
    }
}

impl Comparable for SearchResult {
    fn precedes(&self, other: &SearchResult) -> (r: bool) {
        match self.partial_cmp(other) {
            None => true,
            Some(Ordering::Less) => true,
            _ => false,
        }
    }
}

/// The results are those of the other list, each as often, in order.
pub open spec fn are_ranked(ranked: Seq<SearchResult>, results: Seq<SearchResult>) -> bool {
    is_ranking(ranked, results)
}

/// Puts search results in order.
pub fn rank_results(results: Vec<SearchResult>) -> (r: Vec<SearchResult>)
    ensures
        are_ranked(r@, results@),
{
    rank(results)
}

/// Comparing is antisymmetric: swapping the operands swaps `Less` and
/// `Greater`, and keeps equality and being unordered. Two distances compare as
/// equal exactly if they are equally far and of the same query.
pub proof fn law_distances_compare_antisymmetrically(a: Distance, b: Distance)
    ensures
        a.compare(b) == Some(Ordering::Less) <==> b.compare(a) == Some(Ordering::Greater),
        a.compare(b) == Some(Ordering::Equal) <==> b.compare(a) == Some(Ordering::Equal),
        a.compare(b) is None <==> b.compare(a) is None,
        a.compare(b) == Some(Ordering::Equal) <==> a.same(b) && a.query_id == b.query_id,
{
}

/// Comparing search results is antisymmetric, and a result compares as its
/// distance does if the distance is of the same query.
pub proof fn law_results_compare_antisymmetrically(a: SearchResult, b: SearchResult)
    ensures
        a.compare(b) == Some(Ordering::Less) <==> b.compare(a) == Some(Ordering::Greater),
        a.compare(b) == Some(Ordering::Equal) <==> b.compare(a) == Some(Ordering::Equal),
        a.compare(b) is None <==> b.compare(a) is None,
        a.query_id == a.dist.query_id && b.query_id == b.dist.query_id ==> a.compare(b)
            == a.dist.compare(b.dist),
{
}

/// Comparing matches is antisymmetric.
pub proof fn law_matches_compare_antisymmetrically(a: KeywordMatchResult, b: KeywordMatchResult)
    ensures
        a.compare(b) == Some(Ordering::Less) <==> b.compare(a) == Some(Ordering::Greater),
        a.compare(b) == Some(Ordering::Equal) <==> b.compare(a) == Some(Ordering::Equal),
        a.compare(b) is None <==> b.compare(a) is None,
{
}

/// The distance that decides the order of results which all have a cosine, or
/// which all have none.
pub open spec fn deciding(cosines: bool, d: Distance) -> Score {
    if cosines {
        d.cosine->0
    } else {
        d.keyword
    }
}

/// All results have a cosine (`cosines`), or none has one, and the distances
/// that decide are numbers.
pub open spec fn comparable(s: Seq<SearchResult>, cosines: bool) -> bool {
    forall|i: int|
        0 <= i < s.len() ==> {
            &&& (#[trigger] s[i]).dist.cosine is Some == cosines
            &&& !deciding(cosines, s[i].dist).is_nan()
        }
}

/// A list of results in order, all of which have a cosine or none of which has
/// one, is ordered throughout: by the deciding distance, and by query id among
/// the equally far.
pub proof fn law_comparable_results_are_sorted(s: Seq<SearchResult>, cosines: bool, i: int, j: int)
    requires
        in_order(s),
        comparable(s, cosines),
        0 <= i < j < s.len(),
    ensures
        deciding(cosines, s[i].dist).below(deciding(cosines, s[j].dist)) || (deciding(
            cosines,
            s[i].dist,
        ).same(deciding(cosines, s[j].dist)) && s[i].query_id <= s[j].query_id),
{
    assert forall|a: SearchResult, b: SearchResult, c: SearchResult|
        #![trigger a.after(b), b.after(c)]
        s.contains(a) && s.contains(b) && s.contains(c) && !a.after(b) && !b.after(
            c,
        ) implies !a.after(c) by {
        let x = choose|x: int| 0 <= x < s.len() && s[x] == a;
        let y = choose|y: int| 0 <= y < s.len() && s[y] == b;
        let z = choose|z: int| 0 <= z < s.len() && s[z] == c;
        assert(s[x] == a && s[y] == b && s[z] == c);
    }
    law_neighbours_order_all(s, i, j);
}

/// The order of results of different queries, all of which have a cosine or none
/// of which has one, is settled: two lists that hold the same rows, put in order,
/// are the same row by row.
pub proof fn law_order_is_settled(
    x: Seq<SearchResult>,
    y: Seq<SearchResult>,
    s: Seq<SearchResult>,
    t: Seq<SearchResult>,
    cosines: bool,
)
    requires
        are_ranked(x, s),
        are_ranked(y, t),
        search_rows(s) == search_rows(t),
        comparable(s, cosines),
        are_of_different_queries(s),
    ensures
        search_rows(x) == search_rows(y),
{
    assert(search_rows(s).len() == s.len() && search_rows(t).len() == t.len());
    assert forall|i: int| 0 <= i < s.len() implies s[i]@ == #[trigger] t[i]@ by {
        assert(search_rows(s)[i] == s[i]@);
        assert(search_rows(t)[i] == t[i]@);
    }
    assert(comparable(t, cosines)) by {
        assert forall|i: int| 0 <= i < t.len() implies (#[trigger] t[i]).dist.cosine is Some
            == cosines && !deciding(cosines, t[i].dist).is_nan() by {
            assert(s[i]@ == t[i]@);
            assert(s[i].dist == t[i].dist);
        }
    }
    assert(are_of_different_queries(t)) by {
        assert forall|i: int, j: int|
            #![trigger t[i], t[j]]
            0 <= i < j < t.len() implies t[i].query_id != t[j].query_id by {
            assert(s[i]@ == t[i]@ && s[j]@ == t[j]@);
            assert(s[i].query_id != s[j].query_id);
        }
    }
    lemma_ranked_are_apart(x, s, cosines);
    lemma_ranked_are_apart(y, t, cosines);
    lemma_same_up_to(search_rows(x), search_rows(y), cosines, x.len());
    assert(search_rows(x) =~= search_rows(y));
}

/// No two results are of the same query.
pub open spec fn are_of_different_queries(s: Seq<SearchResult>) -> bool {
    forall|i: int, j: int|
        #![trigger s[i], s[j]]
        0 <= i < j < s.len() ==> s[i].query_id != s[j].query_id
}

/// A result is nearer than another by the deciding distance, or as near and of a
/// lower query id.
spec fn decidedly_before(cosines: bool, a: SearchRow, b: SearchRow) -> bool {
    let (p, q) = (deciding(cosines, a.dist), deciding(cosines, b.dist));
    p.below(q) || (p.same(q) && a.query_id < b.query_id)
}

/// Ranked results of different queries are decidedly in order.
proof fn lemma_ranked_are_apart(x: Seq<SearchResult>, s: Seq<SearchResult>, cosines: bool)
    requires
        are_ranked(x, s),
        comparable(s, cosines),
        are_of_different_queries(s),
    ensures
        x.len() == s.len(),
        forall|v: SearchRow| #[trigger] search_rows(x).contains(v) <==> search_rows(s).contains(v),
        forall|i: int, j: int|
            #![trigger search_rows(x)[i], search_rows(x)[j]]
            0 <= i < j < x.len() ==> decidedly_before(
                cosines,
                search_rows(x)[i],
                search_rows(x)[j],
            ),
{
    broadcast use vstd::seq_lib::group_to_multiset_ensures;

    assert(x.len() == s.len()) by {
        assert(x.len() == x.to_multiset().len());
        assert(s.len() == s.to_multiset().len());
    }
    assert forall|a: SearchResult| #[trigger] x.contains(a) <==> s.contains(a) by {
        assert(x.contains(a) <==> x.to_multiset().count(a) > 0);
        assert(s.contains(a) <==> s.to_multiset().count(a) > 0);
    }
    assert forall|v: SearchRow| #[trigger]
        search_rows(x).contains(v) <==> search_rows(s).contains(v) by {
        if search_rows(x).contains(v) {
            let i = choose|i: int| 0 <= i < search_rows(x).len() && search_rows(x)[i] == v;
            assert(x.contains(x[i]));
            assert(s.contains(x[i]));
            let k = choose|k: int| 0 <= k < s.len() && s[k] == x[i];
            assert(search_rows(s)[k] == v);
        }
        if search_rows(s).contains(v) {
            let i = choose|i: int| 0 <= i < search_rows(s).len() && search_rows(s)[i] == v;
            assert(s.contains(s[i]));
            assert(x.contains(s[i]));
            let k = choose|k: int| 0 <= k < x.len() && x[k] == s[i];
            assert(search_rows(x)[k] == v);
        }
    }
    assert(s.no_duplicates());
    s.lemma_multiset_has_no_duplicates();
    x.lemma_multiset_has_no_duplicates_conv();
    assert(comparable(x, cosines)) by {
        assert forall|i: int| 0 <= i < x.len() implies (#[trigger] x[i]).dist.cosine is Some
            == cosines && !deciding(cosines, x[i].dist).is_nan() by {
            assert(x.contains(x[i]));
            let k = choose|k: int| 0 <= k < s.len() && s[k] == x[i];
            assert(s[k] == x[i]);
        }
    }
    assert forall|i: int, j: int|
        #![trigger search_rows(x)[i], search_rows(x)[j]]
        0 <= i < j < x.len() implies decidedly_before(
        cosines,
        search_rows(x)[i],
        search_rows(x)[j],
    ) by {
        law_comparable_results_are_sorted(x, cosines, i, j);
        assert(x.contains(x[i]) && x.contains(x[j]) && x[i] != x[j]);
        let k = choose|k: int| 0 <= k < s.len() && s[k] == x[i];
        let l = choose|l: int| 0 <= l < s.len() && s[l] == x[j];
        if k < l {
            assert(s[k].query_id != s[l].query_id);
        } else {
            assert(s[l].query_id != s[k].query_id);
        }
    }
}

/// Two lists of the same rows, both decidedly in order, have the same first ones.
proof fn lemma_same_up_to(x: Seq<SearchRow>, y: Seq<SearchRow>, cosines: bool, n: nat)
    requires
        n <= x.len() == y.len(),
        forall|v: SearchRow| #[trigger] x.contains(v) <==> y.contains(v),
        forall|i: int, j: int|
            #![trigger x[i], x[j]]
            0 <= i < j < x.len() ==> decidedly_before(cosines, x[i], x[j]),
        forall|i: int, j: int|
            #![trigger y[i], y[j]]
            0 <= i < j < y.len() ==> decidedly_before(cosines, y[i], y[j]),
    ensures
        forall|i: int| 0 <= i < n ==> x[i] == y[i],
    decreases n,
{
    if n > 0 {
        let m = n - 1;
        lemma_same_up_to(x, y, cosines, m as nat);
        if x[m] != y[m] {
            assert(x.contains(x[m]) && y.contains(y[m]));
            assert(y.contains(x[m]) && x.contains(y[m]));
            let j = choose|j: int| 0 <= j < y.len() && y[j] == x[m];
            let k = choose|k: int| 0 <= k < x.len() && x[k] == y[m];
            assert(j > m) by {
                if j < m {
                    assert(decidedly_before(cosines, x[j], x[m]));
                }
            }
            assert(k > m) by {
                if k < m {
                    assert(decidedly_before(cosines, y[k], y[m]));
                }
            }
            assert(decidedly_before(cosines, x[m], x[k]));
            assert(decidedly_before(cosines, y[m], y[j]));
        }
    }
}

/// Of the items that are left, the first is handed out and the others are left
/// after it; where none is left, none is handed out.
pub open spec fn hands_out<T>(left: Seq<T>, item: Option<T>, after: Seq<T>) -> bool {
    if left.len() > 0 {
        item == Some(left[0]) && after == left.drop_first()
    } else {
        item == None::<T> && after == left
    }
}

/// Handing out one by one gives the items in their order, and then none: call `k`
/// gives item `k` while there is one. `left` lists what is left ahead of each call
/// and after the last.
pub proof fn law_items_are_handed_out_in_order<T>(left: Seq<Seq<T>>, items: Seq<Option<T>>, k: int)
    requires
        left.len() == items.len() + 1,
        forall|i: int|
            0 <= i < items.len() ==> hands_out(left[i], #[trigger] items[i], left[i + 1]),
        0 <= k < items.len(),
    ensures
        items[k] == (if k < left[0].len() {
            Some(left[0][k])
        } else {
            None
        }),
        left[k + 1] == (if k < left[0].len() {
            left[0].skip(k + 1)
        } else {
            left[0].skip(left[0].len() as int)
        }),
    decreases k,
{
    assert(hands_out(left[k], items[k], left[k + 1]));
    if k > 0 {
        law_items_are_handed_out_in_order(left, items, k - 1);
        assert(hands_out(left[k - 1], items[k - 1], left[k]));
    }
    assert(left[k + 1] =~= (if k < left[0].len() {
        left[0].skip(k + 1)
    } else {
        left[0].skip(left[0].len() as int)
    }));
}

/// Candidates and their distances, handed out one by one.
#[derive(Debug)]
pub struct DistResults {
    pub items_iter: std::vec::IntoIter<DistanceResult>,
}

impl DistResults {
    /// Hands out what the iterator yields.
    pub fn new(items_iter: std::vec::IntoIter<DistanceResult>) -> (r: DistResults)
        ensures
            r.items_iter == items_iter,
    {
        DistResults { items_iter }
    }

    /// Hands out the next result, while there is one.
    pub fn next(&mut self) -> (r: Option<DistanceResult>)
        ensures
            hands_out(old(self).items_iter.remaining(), r, final(self).items_iter.remaining()),
    {
        advance(&mut self.items_iter)
    }
}

/// Search results, handed out one by one.
#[derive(Debug)]
pub struct SearchResults {
    pub items_iter: std::vec::IntoIter<SearchResult>,
}

impl SearchResults {
    /// Hands out what the iterator yields.
    pub fn new(items_iter: std::vec::IntoIter<SearchResult>) -> (r: SearchResults)
        ensures
            r.items_iter == items_iter,
    {
        SearchResults { items_iter }
    }

    /// Hands out the next result, while there is one.
    pub fn next(&mut self) -> (r: Option<SearchResult>)
        ensures
            hands_out(old(self).items_iter.remaining(), r, final(self).items_iter.remaining()),
    {
        advance(&mut self.items_iter)
    }
}

} // verus!
