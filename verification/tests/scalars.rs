use incline_watershed::scalar::Scalar;

fn samples() -> Vec<f64> {
    vec![
        0.0,
        -0.0,
        1.0,
        -1.0,
        1e-9,
        -1e-9,
        1.5,
        100.0,
        20_000.0,
        f64::MIN_POSITIVE,
        f64::from_bits(1),
        -f64::from_bits(1),
        f64::MAX,
        f64::MIN,
        f64::INFINITY,
        f64::NEG_INFINITY,
        f64::NAN,
        -f64::NAN,
    ]
}

fn scalar(v: f64) -> Scalar {
    Scalar::from_bits(v.to_bits())
}

#[test]
fn scalars_compare_as_numbers_do() {
    for a in samples() {
        for b in samples() {
            assert_eq!(scalar(a).lt(scalar(b)), a < b, "{a} < {b}");
            assert_eq!(scalar(a).le(scalar(b)), a <= b, "{a} <= {b}");
            assert_eq!(scalar(a).equals(scalar(b)), a == b, "{a} == {b}");
            assert_eq!(scalar(a) == scalar(b), a == b, "{a} == {b}");
            assert_eq!(scalar(a).partial_cmp(&scalar(b)), a.partial_cmp(&b), "{a} ? {b}");
        }
    }
}

#[test]
fn scalars_are_classified_as_numbers_are() {
    for a in samples() {
        assert_eq!(scalar(a).is_nan(), a.is_nan());
        assert_eq!(scalar(a).is_finite(), a.is_finite());
    }
    assert_eq!(Scalar::zero(), scalar(0.0));
    assert_eq!(Scalar::infinity(), scalar(f64::INFINITY));
}

#[test]
fn smaller_and_larger_skip_what_is_no_number() {
    for a in samples() {
        for b in samples() {
            let min = f64::from_bits(scalar(a).min(scalar(b)).bits);
            let max = f64::from_bits(scalar(a).max(scalar(b)).bits);
            if a.is_nan() && b.is_nan() {
                assert!(min.is_nan() && max.is_nan());
            } else {
                assert_eq!(min, a.min(b));
                assert_eq!(max, a.max(b));
            }
        }
    }
}
