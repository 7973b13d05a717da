use verdant::fixed::{fx, Fx};
use verdant::vec2::{IVec2, Vec2};

trait ToF64 {
    fn to_f64(self) -> f64;
}

impl ToF64 for Fx {
    fn to_f64(self) -> f64 {
        self.to_raw() as f64 / 4294967296.0
    }
}

#[test]
fn length_of_a_three_four_five_triangle_is_exact() {
    assert_eq!(Vec2::from_ints(3, 4).length(), fx(5));
    assert_eq!(Vec2::from_ints(-3, -4).length(), fx(5));
}

#[test]
fn normalize_produces_unit_length() {
    for (x, y) in [(3, 4), (1, 0), (0, -7), (-5, 12), (8, 15)] {
        let normalized = Vec2::from_ints(x, y).normalize();
        let length = normalized.length().to_f64();
        assert!(
            (length - 1.0).abs() < 1e-6,
            "({x:?}, {y:?}) normalized to length {length:?}"
        );
    }
}

#[test]
fn normalize_of_zero_is_zero_not_a_division_by_zero() {
    assert_eq!(Vec2::zero().normalize(), Vec2::zero());
}

#[test]
fn dot_and_cross_agree_with_geometry() {
    let a = Vec2::from_ints(1, 0);
    let b = Vec2::from_ints(0, 1);
    assert_eq!(
        a.dot(b),
        Fx::zero(),
        "perpendicular vectors have zero dot product"
    );
    assert_eq!(a.cross(b), Fx::one());
    assert_eq!(b.cross(a), Fx::neg_one());
}

#[test]
fn perpendicular_is_orthogonal_and_preserves_length() {
    let v = Vec2::from_ints(3, 4);
    let p = v.perpendicular();
    assert_eq!(v.dot(p), Fx::zero());
    assert_eq!(p.length(), v.length());
}

#[test]
fn rotating_by_a_full_turn_returns_close_to_the_original() {
    let v = Vec2::from_ints(10, 0);
    let rotated = v.rotate(Fx::tau());
    assert!((rotated.x.to_f64() - 10.0).abs() < 1e-3);
    assert!(rotated.y.to_f64().abs() < 1e-3);
}

#[test]
fn rotating_by_a_quarter_turn_maps_x_to_y() {
    let rotated = Vec2::unit_x().rotate(Fx::frac_pi_2());
    assert!(rotated.x.to_f64().abs() < 1e-4);
    assert!((rotated.y.to_f64() - 1.0).abs() < 1e-4);
}

#[test]
fn clamp_length_caps_long_vectors_and_leaves_short_ones() {
    let long = Vec2::from_ints(30, 40).clamp_length(fx(5));
    assert!((long.length().to_f64() - 5.0).abs() < 1e-5);
    let short = Vec2::from_ints(1, 0);
    assert_eq!(short.clamp_length(fx(5)), short);
}

#[test]
fn move_towards_reaches_the_target_without_overshooting() {
    let mut position = Vec2::zero();
    let target = Vec2::from_ints(3, 4);
    for _ in 0..100 {
        position = position.move_towards(target, Fx::from_ratio(1, 10));
    }
    assert_eq!(position, target);
}

#[test]
fn reflect_bounces_off_a_flat_floor() {
    // Travelling down-right, hitting a floor whose normal points up.
    let velocity = Vec2::new(fx(1), fx(1));
    let reflected = velocity.reflect(Vec2::up());
    assert_eq!(reflected.x, fx(1), "tangential component is preserved");
    assert_eq!(reflected.y, fx(-1), "normal component is inverted");
}

#[test]
fn to_tile_floors_negative_coordinates() {
    let tile = fx(16);
    assert_eq!(Vec2::from_ints(0, 0).to_tile(tile), (0, 0));
    assert_eq!(Vec2::from_ints(15, 15).to_tile(tile), (0, 0));
    assert_eq!(Vec2::from_ints(16, 32).to_tile(tile), (1, 2));
    assert_eq!(Vec2::from_ints(-1, -1).to_tile(tile), (-1, -1));
    assert_eq!(Vec2::from_ints(-16, -17).to_tile(tile), (-1, -2));
}

#[test]
fn ivec2_neighbour_tables_are_the_documented_length() {
    assert_eq!(IVec2::cardinals().len(), 4);
    assert_eq!(IVec2::neighbours().len(), 8);
    // Every cardinal must also appear in the eight-way table.
    for cardinal in IVec2::cardinals() {
        assert!(IVec2::neighbours().contains(&cardinal));
    }
}

#[test]
fn ivec2_world_conversion_round_trips() {
    let tile = fx(16);
    for (x, y) in [(0, 0), (3, 7), (-2, -5)] {
        let cell = IVec2::new(x, y);
        assert_eq!(cell.to_world(tile).to_tile(tile), (x, y));
        assert_eq!(cell.to_world_centre(tile).to_tile(tile), (x, y));
    }
}

