use tsp_brute::float_bits::{le, lt, next_upper};

fn next_upper_f32(v: f32) -> f32 {
    f32::from_bits(next_upper(v.to_bits()))
}

/// For finite, non-maximal values the successor is strictly greater, and the
/// gap is a single step of the integer encoding.
#[test]
fn successor_is_strictly_greater() {
    let samples = [
        -1.0e30f32,
        -12345.678,
        -1.0,
        -0.5,
        -1.0e-38,
        -1.0e-45,
        0.0,
        -0.0,
        1.0e-45,
        1.0e-38,
        0.5,
        1.0,
        12345.678,
        1.0e30,
    ];
    for v in samples {
        let next = next_upper_f32(v);
        assert!(next > v, "no increase at {v}");
        let magnitude_step = if v == 0.0 {
            next.to_bits() == 0x1
        } else if v > 0.0 {
            next.to_bits() == v.to_bits() + 1
        } else {
            next.to_bits() == v.to_bits() - 1
        };
        assert!(magnitude_step, "gap not minimal at {v}");
    }
}

/// Both zero encodings step to the smallest positive value.
#[test]
fn zero_steps_to_smallest_positive() {
    assert_eq!(next_upper(0.0f32.to_bits()), 1);
    assert_eq!(next_upper((-0.0f32).to_bits()), 1);
    let tiny = f32::from_bits(1);
    assert!(tiny > 0.0);
    assert!(next_upper_f32(0.0) == tiny);
}

/// NaN has no successor and propagates unchanged.
#[test]
fn nan_is_fixed() {
    let nan_bits = f32::NAN.to_bits();
    assert_eq!(next_upper(nan_bits), nan_bits);
    assert!(next_upper_f32(f32::NAN).is_nan());
}

/// Positive infinity has no successor and is returned unchanged.
#[test]
fn positive_infinity_is_fixed() {
    let inf_bits = f32::INFINITY.to_bits();
    assert_eq!(next_upper(inf_bits), inf_bits);
}

/// Negative infinity steps to the most negative finite value.
#[test]
fn negative_infinity_steps_to_min() {
    assert_eq!(next_upper_f32(f32::NEG_INFINITY), f32::MIN);
}

/// Subnormal magnitudes step exactly, without collapsing to zero.
#[test]
fn subnormals_step_exactly() {
    let tiny = f32::from_bits(1);
    assert_eq!(next_upper(tiny.to_bits()), 2);
    let neg_tiny = -tiny;
    assert_eq!(next_upper_f32(neg_tiny), -0.0);
    assert_eq!(next_upper_f32(neg_tiny).to_bits(), (-0.0f32).to_bits());
}

/// The bit-level comparisons agree with the floating-point ones, including
/// the NaN and signed-zero cases.
#[test]
fn comparisons_match_float_semantics() {
    let samples = [
        f32::NEG_INFINITY,
        -2.0f32,
        -1.0,
        -0.0,
        0.0,
        1.0e-45,
        1.0,
        2.0,
        f32::INFINITY,
        f32::NAN,
    ];
    for a in samples {
        for b in samples {
            assert_eq!(
                lt(a.to_bits(), b.to_bits()),
                a < b,
                "lt mismatch at {a} < {b}"
            );
            assert_eq!(
                le(a.to_bits(), b.to_bits()),
                a <= b,
                "le mismatch at {a} <= {b}"
            );
        }
    }
}
