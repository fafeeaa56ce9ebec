use ternary_memory::score::Score;

fn score(x: f64) -> Score {
    Score::from_bits(x.to_bits())
}

fn value(s: Score) -> f64 {
    f64::from_bits(s.to_bits())
}

#[test]
fn comparisons_follow_binary64() {
    let vals = [f64::NEG_INFINITY, -3.5, -1.0, -0.0, 0.0, 1e-300, 0.5, 2.0, f64::INFINITY, f64::NAN];
    for a in vals {
        for b in vals {
            assert_eq!(score(a).lt(&score(b)), a < b, "{} < {}", a, b);
            assert_eq!(score(a).le(&score(b)), a <= b, "{} <= {}", a, b);
            assert_eq!(score(a) == score(b), a == b, "{} == {}", a, b);
        }
        assert_eq!(score(a).nan(), a.is_nan());
    }
}

#[test]
fn max_and_min_skip_nan() {
    assert_eq!(value(score(1.0).max(score(2.0))), 2.0);
    assert_eq!(value(score(1.0).min(score(2.0))), 1.0);
    assert_eq!(value(score(f64::NAN).max(score(2.0))), 2.0);
    assert_eq!(value(score(3.0).min(score(f64::NAN))), 3.0);
    assert_eq!(value(score(-1.0).max(score(f64::NEG_INFINITY))), -1.0);
}

#[test]
fn special_values() {
    assert_eq!(value(Score::zero()), 0.0);
    assert_eq!(value(Score::infinity()), f64::INFINITY);
    assert_eq!(value(Score::neg_infinity()), f64::NEG_INFINITY);
}
