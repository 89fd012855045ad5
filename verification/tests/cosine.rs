use qpick::cosine::{
    cosine_diff_distance, cosine_distance, cosine_route, CosineRoute, MatchedWords, VectorCounts,
    VectorReadings,
};
use qpick::score::{FloatOp, Score};

fn s(x: f32) -> Score {
    Score { bits: x.to_bits() }
}

fn f(x: Score) -> f32 {
    f32::from_bits(x.bits)
}

fn eval(op: FloatOp) -> Score {
    s(match op {
        FloatOp::Whole(n) => n as f32,
        FloatOp::Plus(a, b) => f(a) + f(b),
        FloatOp::Minus(a, b) => f(a) - f(b),
        FloatOp::Times(a, b) => f(a) * f(b),
        FloatOp::Over(a, b) => f(a) / f(b),
        FloatOp::Log(a, b) => f(a).log(f(b)),
    })
}

fn words(n: usize) -> Vec<String> {
    (0..n).map(|i| format!("w{}", i)).collect()
}

fn matched(cand: usize, matching: usize, missing: usize, excess: usize) -> MatchedWords {
    MatchedWords {
        cand_words: words(cand),
        match_words: words(matching),
        miss_words: words(missing),
        excess_words: words(excess),
    }
}

fn readings(nf_match: usize, nf_miss: usize, nf_excs: usize) -> VectorReadings {
    VectorReadings {
        counts: VectorCounts { nf_match, nf_miss, nf_excs },
        nf_query: 0,
        nf_cand: 0,
        excess_missing: s(0.8),
        missing_excess: s(0.7),
        query_cand: s(0.4),
        shifted: s(0.2),
    }
}

fn dist(v: Option<VectorReadings>, m: MatchedWords, k: f32) -> Option<f32> {
    cosine_diff_distance(&eval, &v, &words(3), &m, s(k)).map(f)
}

#[test]
fn no_vectors_give_no_distance() {
    assert_eq!(dist(None, matched(2, 2, 0, 0), 0.1), None);
}

#[test]
fn same_words_are_at_zero() {
    assert_eq!(dist(Some(readings(0, 0, 0)), matched(2, 2, 0, 0), 0.1), Some(0.0));
}

#[test]
fn routes_follow_the_counts() {
    let c = |a, b, e| VectorCounts { nf_match: a, nf_miss: b, nf_excs: e };
    assert!(matches!(cosine_route(2, 0, 0, &c(0, 0, 0)), CosineRoute::Exact));
    assert!(matches!(cosine_route(0, 1, 1, &c(0, 0, 0)), CosineRoute::ExcessFromMissing));
    assert!(matches!(cosine_route(1, 1, 1, &c(1, 1, 0)), CosineRoute::Unavailable));
    assert!(matches!(cosine_route(1, 1, 1, &c(0, 1, 1)), CosineRoute::Unavailable));
    assert!(matches!(cosine_route(1, 1, 1, &c(0, 1, 0)), CosineRoute::WholeWithoutMissing));
    assert!(matches!(cosine_route(1, 1, 1, &c(0, 0, 1)), CosineRoute::WholeWithoutExcess));
    assert!(matches!(cosine_route(1, 1, 1, &c(0, 0, 0)), CosineRoute::Shifted));
}

#[test]
fn opposed_words_are_raised_to_one_at_most() {
    assert_eq!(dist(Some(readings(0, 0, 0)), matched(1, 0, 1, 1), 0.1), Some(0.8f32 * (1.0 + 0.1)));
    assert_eq!(dist(Some(readings(0, 0, 0)), matched(1, 0, 1, 1), 0.9), Some(1.0));
    assert_eq!(dist(Some(readings(2, 0, 0)), matched(3, 2, 1, 1), 0.9), Some(0.8));
}

#[test]
fn whole_queries_are_adjusted() {
    let v = readings(0, 0, 0);
    assert_eq!(dist(Some(v), matched(3, 2, 0, 1), 0.2), Some(0.4f32 * 0.2));
    assert_eq!(
        dist(Some(v), matched(5, 3, 0, 2), 0.2),
        Some(0.4f32 * (0.2f32 / (0.2f32 + 0.4f32)))
    );
    assert_eq!(dist(Some(v), matched(3, 1, 0, 2), 0.5), Some(0.4f32 + 0.0 * 0.5 / 2.0));
    let w = readings(1, 0, 1);
    assert_eq!(dist(Some(w), matched(3, 2, 0, 2), 0.5), Some(0.4f32 + 2.0f32 * 0.5 / 2.0).map(|x: f32| x.min(1.0)));
    assert_eq!(dist(Some(v), matched(2, 2, 1, 0), 0.2), Some(0.4f32 * 0.2));
}

#[test]
fn whole_queries_need_vectors_on_both_sides() {
    let mut v = readings(0, 0, 0);
    v.nf_query = 3;
    assert_eq!(dist(Some(v), matched(3, 2, 0, 1), 0.2), None);
    v.nf_query = 0;
    v.nf_cand = 3;
    assert_eq!(dist(Some(v), matched(3, 2, 0, 1), 0.2), None);
    assert!(cosine_distance(&words(2), &words(2), 2, 0, s(0.5)).is_none());
    assert!(cosine_distance(&words(2), &words(2), 0, 2, s(0.5)).is_none());
    assert_eq!(cosine_distance(&words(2), &words(2), 1, 1, s(0.5)).map(f), Some(0.5));
}

#[test]
fn shifted_vectors_are_punished_or_rewarded() {
    let v = Some(readings(0, 0, 0));
    assert_eq!(
        dist(v, matched(2, 1, 1, 1), 0.6),
        Some(1.3f32 * 0.2 + (0.7f32 - 0.55))
    );
    assert_eq!(
        dist(v, matched(3, 2, 1, 1), 0.45),
        Some(0.75f32 * 0.2 + (0.7f32 - 0.55))
    );
    assert_eq!(dist(v, matched(6, 3, 2, 3), 0.45), Some(0.2f32 + (0.7f32 - 0.45)));
    assert_eq!(dist(v, matched(6, 3, 2, 1), 0.6), Some(0.2f32 + (0.7f32 - 0.5)));
    assert_eq!(dist(v, matched(6, 3, 1, 2), 0.6), Some(0.2f32 + (0.7f32 - 0.65)));
}

#[test]
fn readings_off_the_route_do_not_count() {
    let mut v = readings(0, 0, 0);
    let m = matched(2, 1, 1, 1);
    let before = dist(Some(v), m.clone(), 0.6);
    v.excess_missing = s(9.0);
    v.query_cand = s(9.0);
    v.nf_query = 3;
    assert_eq!(dist(Some(v), m, 0.6), before);
}

#[test]
fn the_distance_grows_with_the_keyword_distance() {
    for found in [matched(1, 0, 1, 1), matched(2, 1, 1, 1), matched(6, 3, 2, 2), matched(9, 5, 1, 3)] {
        let mut last = 0.0f32;
        for i in 0..=100 {
            let d = dist(Some(readings(0, 0, 0)), found.clone(), i as f32 / 100.0).unwrap();
            assert!(last <= d);
            last = d;
        }
        let top = dist(Some(readings(0, 0, 0)), found.clone(), f32::INFINITY).unwrap();
        assert!(last <= top);
    }
    let mut none = readings(0, 0, 0);
    none.excess_missing = s(0.0);
    assert_eq!(dist(Some(none), matched(1, 0, 1, 1), 0.5), Some(0.0));
    assert_eq!(dist(Some(none), matched(1, 0, 1, 1), f32::INFINITY), Some(1.0));
}
