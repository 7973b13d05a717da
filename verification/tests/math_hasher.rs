use verdant::fixed::Fx;
use verdant::hasher::{StateHasher, FNV_OFFSET_BASIS};
use verdant::vec2::Vec2;

trait ToF64 {
    fn to_f64(self) -> f64;
}

impl ToF64 for Fx {
    fn to_f64(self) -> f64 {
        self.to_raw() as f64 / 4294967296.0
    }
}

#[test]
fn hashing_is_order_sensitive() {
    let mut a = StateHasher::new();
    a.write_u32(1);
    a.write_u32(2);
    let mut b = StateHasher::new();
    b.write_u32(2);
    b.write_u32(1);
    assert_ne!(
        a.finish(),
        b.finish(),
        "a state hash must notice reordering"
    );
}

#[test]
fn hashing_the_same_sequence_is_reproducible() {
    let build = || {
        let mut hasher = StateHasher::new();
        hasher.write_fx(Fx::from_ratio(1, 3));
        hasher.write_vec2(Vec2::from_ints(4, -7));
        hasher.write_u64(u64::MAX);
        hasher.finish()
    };
    assert_eq!(build(), build());
}

#[test]
fn an_empty_hash_is_the_offset_basis() {
    assert_eq!(StateHasher::new().finish(), FNV_OFFSET_BASIS);
}

#[test]
fn a_single_bit_change_changes_the_hash() {
    let mut a = StateHasher::new();
    a.write_fx(Fx::from_raw(1_000_000));
    let mut b = StateHasher::new();
    b.write_fx(Fx::from_raw(1_000_001));
    assert_ne!(a.finish(), b.finish());
}

