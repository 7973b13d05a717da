use verdant::easing::Easing;
use verdant::fixed::Fx;

trait ToF64 {
    fn to_f64(self) -> f64;
}

impl ToF64 for Fx {
    fn to_f64(self) -> f64 {
        self.to_raw() as f64 / 4294967296.0
    }
}

const ALL: [Easing; 18] = [
    Easing::Linear,
    Easing::QuadIn,
    Easing::QuadOut,
    Easing::QuadInOut,
    Easing::CubicIn,
    Easing::CubicOut,
    Easing::CubicInOut,
    Easing::QuartIn,
    Easing::QuartOut,
    Easing::SineIn,
    Easing::SineOut,
    Easing::SineInOut,
    Easing::CircIn,
    Easing::CircOut,
    Easing::BackIn,
    Easing::BackOut,
    Easing::ElasticOut,
    Easing::BounceOut,
];

#[test]
fn every_curve_starts_at_zero_and_ends_at_one() {
    for easing in ALL {
        let start = easing.apply(Fx::zero()).to_f64();
        let end = easing.apply(Fx::one()).to_f64();
        assert!(start.abs() < 1e-3, "{easing:?} started at {start:?}");
        assert!((end - 1.0).abs() < 1e-3, "{easing:?} ended at {end:?}");
    }
}

#[test]
fn input_is_clamped_outside_the_unit_interval() {
    for easing in ALL {
        assert_eq!(easing.apply(Fx::from_num(-5)), easing.apply(Fx::zero()));
        assert_eq!(easing.apply(Fx::from_num(5)), easing.apply(Fx::one()));
    }
}

#[test]
fn non_overshooting_curves_stay_within_the_unit_interval() {
    let bounded = [
        Easing::Linear,
        Easing::QuadIn,
        Easing::QuadOut,
        Easing::QuadInOut,
        Easing::CubicIn,
        Easing::CubicOut,
        Easing::CubicInOut,
        Easing::QuartIn,
        Easing::QuartOut,
        Easing::SineIn,
        Easing::SineOut,
        Easing::SineInOut,
        Easing::CircIn,
        Easing::CircOut,
        Easing::BounceOut,
    ];
    for easing in bounded {
        for step in 0..=100i32 {
            let value = easing.apply(Fx::from_ratio(step, 100));
            assert!(
                value >= Fx::from_ratio(-1, 1000) && value <= Fx::from_ratio(1001, 1000),
                "{easing:?} left the unit interval at t={step:?}: {value:?}"
            );
        }
    }
}

#[test]
fn monotonic_curves_never_decrease() {
    // The back and elastic families intentionally reverse; the rest must not.
    let monotonic = [
        Easing::Linear,
        Easing::QuadIn,
        Easing::QuadOut,
        Easing::QuadInOut,
        Easing::CubicIn,
        Easing::CubicOut,
        Easing::CubicInOut,
        Easing::QuartIn,
        Easing::QuartOut,
        Easing::SineIn,
        Easing::SineOut,
        Easing::SineInOut,
        Easing::CircIn,
        Easing::CircOut,
    ];
    for easing in monotonic {
        let mut previous = easing.apply(Fx::zero());
        for step in 1..=200i32 {
            let value = easing.apply(Fx::from_ratio(step, 200));
            assert!(
                value >= previous - Fx::from_ratio(1, 10_000),
                "{easing:?} decreased at t={step:?}: {previous:?} -> {value:?}"
            );
            previous = value;
        }
    }
}

#[test]
fn back_curves_actually_overshoot() {
    // BackIn must dip below zero; BackOut must rise above one. If they did
    // not, the constant would be wrong and the effect invisible.
    let dips = (0..50).any(|step| {
        Easing::BackIn
            .apply(Fx::from_ratio(step, 100))
            .is_negative()
    });
    assert!(dips, "BackIn should undershoot near the start");
    let overshoots =
        (50..100).any(|step| Easing::BackOut.apply(Fx::from_ratio(step, 100)) > Fx::one());
    assert!(overshoots, "BackOut should overshoot near the end");
}

#[test]
fn in_out_curves_pass_through_the_midpoint() {
    for easing in [Easing::QuadInOut, Easing::CubicInOut, Easing::SineInOut] {
        let midpoint = easing.apply(Fx::half()).to_f64();
        assert!(
            (midpoint - 0.5).abs() < 1e-3,
            "{easing:?} midpoint was {midpoint:?}"
        );
    }
}

#[test]
fn linear_is_the_identity() {
    for step in 0..=100i32 {
        let t = Fx::from_ratio(step, 100);
        assert_eq!(Easing::Linear.apply(t), t);
    }
}

#[test]
fn interpolate_spans_the_requested_range() {
    let start = Fx::from_num(10);
    let end = Fx::from_num(20);
    for easing in ALL {
        assert_eq!(easing.interpolate(start, end, Fx::zero()), start);
        assert_eq!(easing.interpolate(start, end, Fx::one()), end);
    }
}


#[test]
fn sine_out_overshoots_one_by_less_than_a_thousandth() {
    let end = Easing::SineOut.apply(Fx::one());
    assert_eq!(end.to_raw(), 4_294_982_470);
    assert!(end > Fx::one());
    assert!(end <= Fx::from_ratio(1001, 1000));
    let start = Easing::SineIn.apply(Fx::one());
    assert!(start >= Fx::from_ratio(999, 1000) && start <= Fx::from_ratio(1001, 1000));
}
