use verdant::fixed::Fx;
use verdant::rng::Rng;

trait ToF64 {
    fn to_f64(self) -> f64;
}

impl ToF64 for Fx {
    fn to_f64(self) -> f64 {
        self.to_raw() as f64 / 4294967296.0
    }
}

#[test]
fn the_same_seed_produces_the_same_sequence() {
    let mut a = Rng::new(42);
    let mut b = Rng::new(42);
    for _ in 0..1000 {
        assert_eq!(a.next_u32(), b.next_u32());
    }
}

#[test]
fn different_seeds_diverge() {
    let mut a = Rng::new(1);
    let mut b = Rng::new(2);
    let a_values: Vec<u32> = (0..32).map(|_| a.next_u32()).collect();
    let b_values: Vec<u32> = (0..32).map(|_| b.next_u32()).collect();
    assert_ne!(a_values, b_values);
}

#[test]
fn streams_are_independent() {
    let mut a = Rng::with_stream(7, 1);
    let mut b = Rng::with_stream(7, 2);
    let a_values: Vec<u32> = (0..32).map(|_| a.next_u32()).collect();
    let b_values: Vec<u32> = (0..32).map(|_| b.next_u32()).collect();
    assert_ne!(a_values, b_values);
}

#[test]
fn derive_is_stable_and_does_not_consume_the_parent() {
    let parent = Rng::new(99);
    let first = parent.derive("cave-level-7").next_u32();
    let second = parent.derive("cave-level-7").next_u32();
    assert_eq!(first, second, "deriving twice gives the same child");
    assert_ne!(first, parent.derive("cave-level-8").next_u32());
    // The parent is untouched: `derive` takes &self.
    let mut check = parent.clone();
    assert_eq!(check.next_u32(), Rng::new(99).next_u32());
}

#[test]
fn below_stays_in_bounds() {
    let mut rng = Rng::new(5);
    for bound in [1u32, 2, 3, 7, 100, 1000] {
        for _ in 0..500 {
            assert!(rng.below(bound) < bound);
        }
    }
}

#[test]
fn below_is_close_to_uniform() {
    let mut rng = Rng::new(11);
    let mut buckets = [0u32; 6];
    const ROLLS: u32 = 60_000;
    for _ in 0..ROLLS {
        buckets[rng.below(6) as usize] += 1;
    }
    // Each bucket should hold ~10000; allow a generous 5% band so the test
    // is not flaky while still catching a genuinely skewed generator.
    for count in buckets {
        assert!(
            (9_500..10_500).contains(&count),
            "bucket counts were {buckets:?}"
        );
    }
}

#[test]
fn range_covers_both_endpoints() {
    let mut rng = Rng::new(13);
    let mut saw_min = false;
    let mut saw_max = false;
    for _ in 0..1000 {
        let value = rng.range(-3, 3);
        assert!((-3..=3).contains(&value));
        saw_min |= value == -3;
        saw_max |= value == 3;
    }
    assert!(saw_min && saw_max, "range must be inclusive at both ends");
}

#[test]
fn range_with_equal_bounds_returns_that_value() {
    let mut rng = Rng::new(17);
    assert_eq!(rng.range(5, 5), 5);
}

#[test]
fn unit_stays_in_the_half_open_zero_one_interval() {
    let mut rng = Rng::new(19);
    for _ in 0..5000 {
        let value = rng.unit();
        assert!(
            value >= Fx::zero() && value < Fx::one(),
            "unit() produced {value:?}"
        );
    }
}

#[test]
fn weighted_picks_never_select_a_zero_weight() {
    let mut rng = Rng::new(23);
    let weights = [0u32, 5, 0, 3, 0];
    for _ in 0..2000 {
        let index = rng
            .pick_weighted(&weights)
            .expect("weights are non-zero overall");
        assert!(weights[index] > 0, "selected zero-weight index {index:?}");
    }
    assert_eq!(rng.pick_weighted(&[0, 0, 0]), None);
    assert_eq!(rng.pick_weighted(&[]), None);
}

#[test]
fn weighted_picks_respect_the_ratio() {
    let mut rng = Rng::new(29);
    let weights = [1u32, 9];
    let mut counts = [0u32; 2];
    for _ in 0..20_000 {
        counts[rng.pick_weighted(&weights).unwrap()] += 1;
    }
    let ratio = f64::from(counts[1]) / f64::from(counts[0]);
    assert!(
        (ratio - 9.0).abs() < 1.0,
        "expected roughly 9:1, got {ratio:?}"
    );
}

#[test]
fn shuffle_is_a_permutation() {
    let mut rng = Rng::new(31);
    let mut items: Vec<u32> = (0..64).collect();
    rng.shuffle(&mut items);
    assert_ne!(
        items,
        (0..64).collect::<Vec<u32>>(),
        "shuffling should reorder"
    );
    items.sort_unstable();
    assert_eq!(
        items,
        (0..64).collect::<Vec<u32>>(),
        "no element lost or duplicated"
    );
}

#[test]
fn shuffle_handles_degenerate_lengths() {
    let mut rng = Rng::new(37);
    let mut empty: [u32; 0] = [];
    rng.shuffle(&mut empty);
    let mut single = [1u32];
    rng.shuffle(&mut single);
    assert_eq!(single, [1]);
}

#[test]
fn pick_returns_none_only_for_empty_slices() {
    let mut rng = Rng::new(41);
    assert_eq!(rng.pick::<u32>(&[]), None);
    assert_eq!(rng.pick(&[9u32]), Some(&9));
}

#[test]
fn unit_circle_samples_lie_inside_the_circle() {
    let mut rng = Rng::new(43);
    for _ in 0..2000 {
        assert!(rng.unit_circle().length_squared() <= Fx::one());
    }
}

#[test]
fn state_round_trips_through_snapshot_and_restore() {
    let mut rng = Rng::new(47);
    for _ in 0..10 {
        rng.next_u32();
    }
    let snapshot = rng.state();
    let expected: Vec<u32> = (0..16).map(|_| rng.next_u32()).collect();
    rng.restore(snapshot);
    let replayed: Vec<u32> = (0..16).map(|_| rng.next_u32()).collect();
    assert_eq!(
        expected, replayed,
        "restoring must rewind the sequence exactly"
    );
}

#[test]
fn chance_respects_its_probability() {
    let mut rng = Rng::new(53);
    let hits = (0..10_000).filter(|_| rng.chance(1, 4)).count();
    assert!(
        (2_300..2_700).contains(&hits),
        "expected ~2500 hits, got {hits:?}"
    );
    // Degenerate probabilities must be absolute, not approximate.
    assert!((0..100).all(|_| !rng.chance(0, 10)));
    assert!((0..100).all(|_| rng.chance(10, 10)));
}


#[test]
fn a_captured_increment_is_odd_and_restoring_forces_odd() {
    let rng = Rng::with_stream(5, 8);
    assert_eq!(rng.state().1 % 2, 1);
    let mut other = Rng::new(1);
    other.restore((10, 4));
    assert_eq!(other.state(), (10, 5));
    let copy = rng.clone();
    assert_eq!(copy, rng);
}
