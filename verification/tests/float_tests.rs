use libs_processing::float_order::{eq, le, lt};

fn cases() -> Vec<f32> {
    vec![
        0.0,
        -0.0,
        1.0,
        -1.0,
        267.59,
        242.8,
        f32::INFINITY,
        f32::NEG_INFINITY,
        f32::NAN,
        f32::MIN_POSITIVE,
        1.0e-45,
        -1.0e-45,
        f32::MAX,
        f32::MIN,
    ]
}

#[test]
fn comparisons_agree_with_f32() {
    for a in cases() {
        for b in cases() {
            assert_eq!(lt(a.to_bits(), b.to_bits()), a < b, "{} < {}", a, b);
            assert_eq!(le(a.to_bits(), b.to_bits()), a <= b, "{} <= {}", a, b);
            assert_eq!(eq(a.to_bits(), b.to_bits()), a == b, "{} == {}", a, b);
        }
    }
}

#[test]
fn zeros_are_equal() {
    assert!(eq(0.0f32.to_bits(), (-0.0f32).to_bits()));
    assert!(!lt((-0.0f32).to_bits(), 0.0f32.to_bits()));
}

#[test]
fn nan_is_unordered() {
    let nan = f32::NAN.to_bits();
    assert!(!lt(nan, nan));
    assert!(!le(nan, nan));
    assert!(!eq(nan, nan));
}
