use qpick::ranking::{rank, Comparable};
use qpick::score::Score;
use qpick::{
    DistResults, Distance, DistanceResult, KeywordMatchResult, SearchResult, SearchResults,
};
use std::cmp::Ordering;

fn s(x: f32) -> Score {
    Score { bits: x.to_bits() }
}

fn d(id: u64, keyword: f32, cosine: Option<f32>) -> Distance {
    Distance { query_id: id, keyword: s(keyword), cosine: cosine.map(s) }
}

fn r(id: u64, keyword: f32, cosine: Option<f32>) -> SearchResult {
    SearchResult { query_id: id, query: None, dist: d(id, keyword, cosine) }
}

#[test]
fn distances_compare_by_cosine_if_both_have_one() {
    let a = d(1, 0.9, Some(0.1));
    let b = d(2, 0.2, Some(0.3));
    assert_eq!(a.partial_cmp(&b), Some(Ordering::Less));
    assert_eq!(b.partial_cmp(&a), Some(Ordering::Greater));
    assert!(a != b);
}

#[test]
fn distances_compare_by_keyword_if_one_has_no_cosine() {
    let a = d(1, 0.9, Some(0.1));
    let b = d(2, 0.2, None);
    assert_eq!(a.partial_cmp(&b), Some(Ordering::Greater));
    assert_eq!(b.partial_cmp(&a), Some(Ordering::Less));
}

#[test]
fn equally_far_distances_compare_by_query() {
    let a = d(1, 0.9, Some(0.1));
    let b = d(2, 0.2, Some(0.1));
    assert!(a == b);
    assert_eq!(a.partial_cmp(&b), Some(Ordering::Less));
    assert_eq!(b.partial_cmp(&a), Some(Ordering::Greater));
    assert_eq!(a.partial_cmp(&a), Some(Ordering::Equal));
}

#[test]
fn distances_that_are_not_numbers_are_unordered() {
    let a = d(1, f32::NAN, None);
    let b = d(2, 0.2, None);
    assert_eq!(a.partial_cmp(&b), None);
    assert_eq!(b.partial_cmp(&a), None);
    assert!(r(1, f32::NAN, None).precedes(&r(2, 0.2, None)));
    assert!(r(2, 0.2, None).precedes(&r(1, f32::NAN, None)));
}

#[test]
fn matches_compare_by_distance_and_query() {
    let m = |id: u64, x: f32| KeywordMatchResult { query_id: id, dist: s(x) };
    assert_eq!(m(5, 0.1).partial_cmp(&m(1, 0.2)), Some(Ordering::Less));
    assert_eq!(m(5, 0.2).partial_cmp(&m(1, 0.2)), Some(Ordering::Greater));
    assert!(m(5, 0.2) == m(1, 0.2));
    assert_eq!(m(5, f32::NAN).partial_cmp(&m(5, f32::NAN)), None);
}

#[test]
fn results_compare_as_their_distances() {
    let a = r(1, 0.5, None);
    let b = r(2, 0.5, None);
    assert_eq!(a.partial_cmp(&b), a.dist.partial_cmp(&b.dist));
    assert!(a == b);
}

#[test]
fn ranking_puts_the_nearest_first() {
    let list = vec![
        r(7, 0.9, None),
        r(3, 0.1, None),
        r(5, 0.5, None),
        r(4, 0.5, None),
        r(9, 0.0, None),
    ];
    let ids: Vec<u64> = rank(list).iter().map(|x| x.query_id).collect();
    assert_eq!(ids, vec![9, 3, 4, 5, 7]);
}

#[test]
fn ranking_agrees_with_a_stable_sort() {
    let mut list: Vec<KeywordMatchResult> = Vec::new();
    for i in 0..100u64 {
        list.push(KeywordMatchResult { query_id: i, dist: s(((i * 37) % 11) as f32) });
    }
    let mut sorted = list.clone();
    sorted.sort_by(|a, b| a.partial_cmp(b).unwrap_or(Ordering::Less));
    let want: Vec<u64> = sorted.iter().map(|x| x.query_id).collect();
    let got: Vec<u64> = rank(list).iter().map(|x| x.query_id).collect();
    assert_eq!(got, want);
}

#[test]
fn ranking_keeps_all_items_of_an_intransitive_list() {
    let list = vec![r(1, 0.1, Some(0.5)), r(2, 0.2, None), r(3, 0.3, Some(0.4))];
    let mut ids: Vec<u64> = rank(list).iter().map(|x| x.query_id).collect();
    ids.sort();
    assert_eq!(ids, vec![1, 2, 3]);
}

#[test]
fn search_results_are_handed_out_in_order() {
    let mut all = SearchResults::new(vec![r(3, 0.1, None), r(1, 0.2, None)].into_iter());
    assert_eq!(all.next().map(|x| x.query_id), Some(3));
    assert_eq!(all.next().map(|x| x.query_id), Some(1));
    assert!(all.next().is_none());
    assert!(all.next().is_none());
}

#[test]
fn dist_results_are_handed_out_in_order() {
    let one = DistanceResult { query: "a".to_string(), dist: d(0, 0.1, None) };
    let mut all = DistResults::new(vec![one].into_iter());
    assert_eq!(all.next().map(|x| x.query), Some("a".to_string()));
    assert!(all.next().is_none());
}
