use qpick::score::{Score, DIST_THRESH, HUNDRED, ONE, TWO};
use std::cmp::Ordering;

fn s(x: f32) -> Score {
    Score { bits: x.to_bits() }
}

#[test]
fn constants_are_the_bit_patterns_of_their_numbers() {
    assert_eq!(f32::from_bits(DIST_THRESH), 0.951f32);
    assert_eq!(f32::from_bits(ONE), 1.0f32);
    assert_eq!(f32::from_bits(TWO), 2.0f32);
    assert_eq!(f32::from_bits(HUNDRED), 100.0f32);
    assert_eq!(f32::from_bits(qpick::cosine::NEAR), 0.3f32);
    assert_eq!(f32::from_bits(qpick::cosine::CLOSE), 0.45f32);
    assert_eq!(f32::from_bits(qpick::cosine::HALF), 0.5f32);
    assert_eq!(f32::from_bits(qpick::cosine::LENIENT), 0.55f32);
    assert_eq!(f32::from_bits(qpick::cosine::MOST_LENIENT), 0.65f32);
    assert_eq!(f32::from_bits(qpick::cosine::DISCOUNT), 0.75f32);
    assert_eq!(f32::from_bits(qpick::cosine::PENALTY), 1.3f32);
    assert_eq!(qpick::FETCH_MIN, 200);
}

#[test]
fn scores_compare_as_the_numbers_do() {
    let numbers = [
        0.0f32,
        -0.0,
        1.0,
        -1.0,
        0.951,
        1e-45,
        -1e-45,
        f32::MAX,
        f32::MIN,
        f32::INFINITY,
        f32::NEG_INFINITY,
        f32::NAN,
        -f32::NAN,
    ];
    for a in numbers {
        for b in numbers {
            assert_eq!(s(a).partial_cmp(&s(b)), a.partial_cmp(&b), "{} {}", a, b);
            assert_eq!(s(a) == s(b), a == b, "{} {}", a, b);
            assert_eq!(s(a) < s(b), a < b);
            assert_eq!(s(a) <= s(b), a <= b);
            assert_eq!(s(a) > s(b), a > b);
        }
    }
}

#[test]
fn zeros_are_the_same_number() {
    assert!(s(0.0) == s(-0.0));
    assert_eq!(s(0.0).position(), 0);
    assert_eq!(s(-0.0).position(), 0);
}

#[test]
fn what_is_not_a_number_is_unordered() {
    assert!(s(f32::NAN).not_a_number());
    assert!(!s(f32::INFINITY).not_a_number());
    assert_eq!(s(f32::NAN).partial_cmp(&s(1.0)), None);
    assert_eq!(s(1.0).partial_cmp(&s(f32::NAN)), None);
    assert!(s(f32::NAN) != s(f32::NAN));
}

#[test]
fn max_and_min_take_the_second_when_in_doubt() {
    assert_eq!(s(1.0).max(s(2.0)).bits, 2.0f32.to_bits());
    assert_eq!(s(2.0).max(s(1.0)).bits, 2.0f32.to_bits());
    assert_eq!(s(1.0).min(s(2.0)).bits, 1.0f32.to_bits());
    assert_eq!(s(2.0).min(s(1.0)).bits, 1.0f32.to_bits());
    assert_eq!(s(f32::NAN).max(s(0.0)).bits, 0);
    assert!(s(0.0).max(s(f32::NAN)).not_a_number());
    assert_eq!(s(0.0).max(s(-0.0)).bits, 0x8000_0000);
}

#[test]
fn places_order_all_numbers() {
    assert_eq!(s(-1.0).partial_cmp(&s(-2.0)), Some(Ordering::Greater));
    assert!(s(-1.0).position() > s(-2.0).position());
}
