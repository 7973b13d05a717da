use verdant::fixed::{fx, Fx, ONE_RAW};

trait ToF64 {
    fn to_f64(self) -> f64;
}

impl ToF64 for Fx {
    fn to_f64(self) -> f64 {
        self.to_raw() as f64 / 4294967296.0
    }
}

#[test]
fn constants_match_their_real_values() {
    assert!((Fx::pi().to_f64() - core::f64::consts::PI).abs() < 1e-9);
    assert!((Fx::tau().to_f64() - core::f64::consts::TAU).abs() < 1e-9);
    assert!((Fx::frac_pi_2().to_f64() - core::f64::consts::FRAC_PI_2).abs() < 1e-9);
    assert!((Fx::e().to_f64() - core::f64::consts::E).abs() < 1e-9);
}

#[test]
fn arithmetic_is_exact_for_representable_values() {
    assert_eq!(fx(2) + fx(3), fx(5));
    assert_eq!(fx(2) - fx(5), fx(-3));
    assert_eq!(fx(6) * fx(7), fx(42));
    assert_eq!(fx(42) / fx(7), fx(6));
    assert_eq!(Fx::from_ratio(1, 2) * Fx::from_ratio(1, 2), Fx::from_ratio(1, 4));
}

#[test]
fn from_ratio_is_exact_where_the_denominator_is_a_power_of_two() {
    assert_eq!(Fx::from_ratio(1, 2).to_raw(), ONE_RAW / 2);
    assert_eq!(Fx::from_ratio(3, 4).to_raw(), ONE_RAW * 3 / 4);
    assert_eq!(Fx::from_ratio(-1, 8).to_raw(), -ONE_RAW / 8);
}

#[test]
fn overflow_saturates_rather_than_wrapping() {
    assert_eq!(Fx::max_value() + Fx::one(), Fx::max_value());
    assert_eq!(Fx::min_value() - Fx::one(), Fx::min_value());
    assert_eq!(Fx::max_value() * fx(2), Fx::max_value());
    assert_eq!(Fx::max_value().checked_mul(fx(2)), None);
    assert_eq!(fx(1).checked_div(Fx::zero()), None);
}

#[test]
fn rounding_handles_negatives_correctly() {
    let value = Fx::from_ratio(-3, 2); // -1.5
    assert_eq!(value.floor_int(), -2);
    assert_eq!(value.ceil_int(), -1);
    assert_eq!(value.round_int(), -2);
    assert_eq!(value.to_int(), -1, "to_int truncates toward zero");
    // fract() is always non-negative, which tile lookups rely on.
    assert!(!value.fract().is_negative());
    assert_eq!(value.fract(), Fx::half());
}

#[test]
fn sqrt_matches_reference_within_tolerance() {
    for n in 0..2000i32 {
        let value = Fx::from_ratio(n, 16);
        let root = value.sqrt();
        let expected = value.to_f64().sqrt();
        assert!(
            (root.to_f64() - expected).abs() < 1e-6,
            "sqrt({}) = {} but expected {expected:?}",
            value.to_f64(),
            root.to_f64()
        );
    }
}

#[test]
fn sqrt_of_a_perfect_square_is_exact() {
    for n in 0..64i32 {
        assert_eq!(fx(n * n).sqrt(), fx(n), "sqrt({}) should be {n:?}", n * n);
    }
}

#[test]
fn sine_and_cosine_track_the_real_functions() {
    for step in -720..=720i32 {
        let radians = Fx::tau() * Fx::from_ratio(step, 360);
        let expected_sin = radians.to_f64().sin();
        let expected_cos = radians.to_f64().cos();
        assert!(
            (radians.sin().to_f64() - expected_sin).abs() < 1e-4,
            "sin({}) drifted",
            radians.to_f64()
        );
        assert!(
            (radians.cos().to_f64() - expected_cos).abs() < 1e-4,
            "cos({}) drifted",
            radians.to_f64()
        );
    }
}

#[test]
fn pythagorean_identity_holds() {
    for step in 0..360i32 {
        let radians = Fx::tau() * Fx::from_ratio(step, 360);
        let identity = radians.sin() * radians.sin() + radians.cos() * radians.cos();
        assert!((identity.to_f64() - 1.0).abs() < 1e-3, "sin^2 + cos^2 drifted at {step:?} deg");
    }
}

#[test]
fn atan2_covers_all_four_quadrants() {
    let cases = [
        (1, 0, 0.0),
        (0, 1, core::f64::consts::FRAC_PI_2),
        (-1, 0, core::f64::consts::PI),
        (0, -1, -core::f64::consts::FRAC_PI_2),
        (1, 1, core::f64::consts::FRAC_PI_4),
        (-1, 1, 3.0 * core::f64::consts::FRAC_PI_4),
        (-1, -1, -3.0 * core::f64::consts::FRAC_PI_4),
        (1, -1, -core::f64::consts::FRAC_PI_4),
    ];
    for (x, y, expected) in cases {
        let actual = Fx::atan2(fx(y), fx(x)).to_f64();
        assert!(
            (actual - expected).abs() < 1e-3,
            "atan2({y:?}, {x:?}) = {actual:?} but expected {expected:?}"
        );
    }
}

#[test]
fn lerp_hits_both_endpoints_exactly() {
    let a = Fx::from_ratio(1, 3);
    let b = Fx::from_ratio(7, 9);
    assert_eq!(a.lerp(b, Fx::zero()), a);
    assert_eq!(a.lerp(b, Fx::one()), b);
}

#[test]
fn move_towards_never_overshoots() {
    let mut value = Fx::zero();
    for _ in 0..100 {
        value = value.move_towards(fx(3), Fx::from_ratio(1, 10));
    }
    assert_eq!(value, fx(3));
}

#[test]
fn raw_round_trip_is_lossless() {
    for raw in [0i64, 1, -1, i64::MAX, i64::MIN, 123_456_789] {
        assert_eq!(Fx::from_raw(raw).to_raw(), raw);
    }
}

#[test]
fn repeated_accumulation_is_bit_stable() {
    let step = Fx::from_ratio(1, 60);
    let mut a = Fx::zero();
    for _ in 0..10_000 {
        a = a + step * Fx::from_ratio(7, 3) - step * Fx::from_ratio(1, 3);
    }
    let mut b = Fx::zero();
    for _ in 0..10_000 {
        b = b + step * Fx::from_ratio(7, 3) - step * Fx::from_ratio(1, 3);
    }
    assert_eq!(a.to_raw(), b.to_raw());
}


#[test]
fn atan2_stays_within_its_documented_error() {
    let actual = Fx::atan2(fx(1), fx(9)).to_f64();
    assert!((actual - 0.110657).abs() <= 1.5e-3, "atan2(1, 9) = {actual}");
    for (y, x) in [(1, 9), (9, 1), (-3, 7), (5, -2), (-4, -11), (2, 3)] {
        let actual = Fx::atan2(fx(y), fx(x)).to_f64();
        let expected = (y as f64).atan2(x as f64);
        assert!((actual - expected).abs() <= 1.6e-3, "atan2({y}, {x}) = {actual}, not {expected}");
    }
}

#[test]
fn integer_rounding_saturates_at_the_ends_of_the_range() {
    assert_eq!(Fx::from_ratio(-3, 2).ceil_int(), -1);
    assert_eq!(fx(2).ceil_int(), 2);
    assert_eq!(Fx::max_value().ceil_int(), i32::MAX);
    assert_eq!(Fx::max_value().round_int(), i32::MAX);
    assert_eq!(Fx::min_value().round_int(), i32::MIN);
    assert_eq!(Fx::from_ratio(5, 2).round_int(), 3);
    assert_eq!(Fx::from_ratio(-5, 2).round_int(), -3);
}
