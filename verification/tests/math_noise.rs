use verdant::fixed::Fx;
use verdant::noise::{fbm, quintic, ridged, FbmSettings, ValueNoise};

trait ToF64 {
    fn to_f64(self) -> f64;
}

impl ToF64 for Fx {
    fn to_f64(self) -> f64 {
        self.to_raw() as f64 / 4294967296.0
    }
}

#[test]
fn samples_stay_within_the_unit_interval() {
    let noise = ValueNoise::new(1234);
    for i in -200..200i32 {
        for j in -20..20i32 {
            let value = noise.sample(Fx::from_ratio(i, 7), Fx::from_ratio(j, 5));
            assert!(value >= Fx::zero() && value <= Fx::one(), "sample was {value:?}");
        }
    }
}

#[test]
fn sampling_is_deterministic() {
    let a = ValueNoise::new(99);
    let b = ValueNoise::new(99);
    for i in 0..500i32 {
        let x = Fx::from_ratio(i, 13);
        let y = Fx::from_ratio(i * 3, 7);
        assert_eq!(a.sample(x, y), b.sample(x, y));
    }
}

#[test]
fn different_seeds_produce_different_fields() {
    let a = ValueNoise::new(1);
    let b = ValueNoise::new(2);
    let differences = (0..100i32)
        .filter(|i| {
            let x = Fx::from_ratio(*i, 9);
            a.sample(x, Fx::zero()) != b.sample(x, Fx::zero())
        })
        .count();
    assert!(differences > 90, "fields should differ nearly everywhere");
}

#[test]
fn the_field_is_continuous_across_lattice_boundaries() {
    let noise = ValueNoise::new(7);
    // Step across an integer boundary in tiny increments; the field must
    // never jump, which is what a missing smoothstep would cause.
    let mut previous = noise.sample(Fx::from_ratio(99, 100), Fx::half());
    for step in 100..=110i32 {
        let value = noise.sample(Fx::from_ratio(step, 100), Fx::half());
        let jump = (value - previous).abs();
        assert!(jump < Fx::from_ratio(1, 10), "discontinuity of {jump:?} at step {step:?}");
        previous = value;
    }
}

#[test]
fn integer_lattice_points_reproduce_their_hashed_values() {
    let noise = ValueNoise::new(3);
    // At an exact lattice point the interpolation weights are zero, so the
    // sample must equal that corner's hash exactly.
    for x in 0..10i32 {
        for y in 0..10i32 {
            let expected = noise.lattice_value(x, y);
            assert_eq!(noise.sample(Fx::from_num(x), Fx::from_num(y)), expected);
        }
    }
}

#[test]
fn quintic_smoothstep_pins_its_endpoints() {
    assert_eq!(quintic(Fx::zero()), Fx::zero());
    assert_eq!(quintic(Fx::one()), Fx::one());
    // Symmetric about the midpoint.
    assert!((quintic(Fx::half()).to_f64() - 0.5).abs() < 1e-6);
}

#[test]
fn fbm_stays_normalised_regardless_of_octave_count() {
    let noise = ValueNoise::new(555);
    for octaves in 1..=8u32 {
        let settings = FbmSettings { octaves, ..FbmSettings::default() };
        for i in 0..100i32 {
            let value = fbm(noise, Fx::from_num(i), Fx::from_num(i * 2), settings);
            assert!(value >= Fx::zero() && value <= Fx::one(), "{octaves:?} octaves gave {value:?}");
        }
    }
}

#[test]
fn fbm_mean_is_near_the_midpoint() {
    let noise = ValueNoise::new(2024);
    let settings = FbmSettings::default();
    let samples = 4000;
    let mut total = Fx::zero();
    for i in 0..samples {
        total += fbm(noise, Fx::from_ratio(i, 3), Fx::from_ratio(i * 7, 5), settings);
    }
    let mean = (total / Fx::from_num(samples)).to_f64();
    assert!((mean - 0.5).abs() < 0.1, "fbm mean drifted to {mean:?}");
}

#[test]
fn fbm_with_zero_octaves_returns_the_midpoint() {
    let noise = ValueNoise::new(1);
    let settings = FbmSettings { octaves: 0, ..FbmSettings::default() };
    assert_eq!(fbm(noise, Fx::zero(), Fx::zero(), settings), Fx::half());
}

#[test]
fn ridged_noise_stays_in_range() {
    let noise = ValueNoise::new(808);
    let settings = FbmSettings::default();
    for i in 0..500i32 {
        let value = ridged(noise, Fx::from_ratio(i, 11), Fx::from_ratio(i, 13), settings);
        assert!(value >= Fx::zero() && value <= Fx::one());
    }
}

