//! Two-dimensional vectors: [`Vec2`] for world positions in fixed point and
//! [`IVec2`] for integer grid coordinates.
use crate::fixed::{
    fx_abs, fx_add, fx_atan2, fx_cos, fx_div, fx_floor_int, fx_int, fx_lerp, fx_max, fx_min, fx_mul,
    fx_mul_int, fx_neg, fx_sin, fx_sqrt, fx_sub, scale, Fx,
};
use core::ops::{Add, AddAssign, Div, Mul, MulAssign, Neg, Sub, SubAssign};
use vstd::prelude::*;

verus! {

/// A 2D vector of [`Fx`] components. `+y` points down the screen.
#[derive(Clone, Copy, PartialEq, Eq, Structural, Hash, Default, Debug)]
pub struct Vec2 {
    pub x: Fx,
    pub y: Fx,
}

/// The vector with the given components.
pub open spec fn v2(x: Fx, y: Fx) -> Vec2 {
    Vec2 { x, y }
}

/// Component-wise saturating sum.
pub open spec fn v2_add(a: Vec2, b: Vec2) -> Vec2 {
    v2(fx_add(a.x, b.x), fx_add(a.y, b.y))
}

/// Component-wise saturating difference.
pub open spec fn v2_sub(a: Vec2, b: Vec2) -> Vec2 {
    v2(fx_sub(a.x, b.x), fx_sub(a.y, b.y))
}

/// Both components scaled by `s`.
pub open spec fn v2_scale(a: Vec2, s: Fx) -> Vec2 {
    v2(fx_mul(a.x, s), fx_mul(a.y, s))
}

/// Both components divided by `s`.
pub open spec fn v2_div(a: Vec2, s: Fx) -> Vec2 {
    v2(fx_div(a.x, s), fx_div(a.y, s))
}

/// The dot product `a.x * b.x + a.y * b.y`.
pub open spec fn v2_dot(a: Vec2, b: Vec2) -> Fx {
    fx_add(fx_mul(a.x, b.x), fx_mul(a.y, b.y))
}

/// The z component of the 3D cross product.
pub open spec fn v2_cross(a: Vec2, b: Vec2) -> Fx {
    fx_sub(fx_mul(a.x, b.y), fx_mul(a.y, b.x))
}

/// The squared length `x² + y²`.
pub open spec fn v2_length_squared(a: Vec2) -> Fx {
    fx_add(fx_mul(a.x, a.x), fx_mul(a.y, a.y))
}

/// The Euclidean length.
pub open spec fn v2_length(a: Vec2) -> Fx {
    fx_sqrt(v2_length_squared(a))
}

/// The vector scaled to unit length, or zero for the zero vector.
pub open spec fn v2_normalize(a: Vec2) -> Vec2 {
    let length = v2_length(a);
    if length.0 == 0 {
        v2(Fx(0), Fx(0))
    } else {
        v2(fx_div(a.x, length), fx_div(a.y, length))
    }
}

/// A square of a fixed-point value is never negative.
pub proof fn lemma_square_nonnegative(a: Fx)
    ensures
        fx_mul(a, a).0 >= 0,
{
    assert(a.0 * a.0 >= 0) by (nonlinear_arith);
    assert((a.0 * a.0) / scale() >= 0);
}

/// A squared length is never negative, so its square root is defined.
pub proof fn lemma_length_squared_nonnegative(a: Vec2)
    ensures
        v2_length_squared(a).0 >= 0,
{
    lemma_square_nonnegative(a.x);
    lemma_square_nonnegative(a.y);
}

impl Vec2 {
    /// `(0, 0)`.
    pub fn zero() -> (r: Vec2)
        ensures
            r == v2(Fx(0), Fx(0)),
    {
        Vec2 { x: Fx::zero(), y: Fx::zero() }
    }

    /// `(1, 1)`.
    pub fn one() -> (r: Vec2)
        ensures
            r == v2(fx_int(1), fx_int(1)),
    {
        Vec2 { x: Fx::one(), y: Fx::one() }
    }

    /// The unit x axis, `(1, 0)`.
    pub fn unit_x() -> (r: Vec2)
        ensures
            r == v2(fx_int(1), Fx(0)),
    {
        Vec2 { x: Fx::one(), y: Fx::zero() }
    }

    /// The unit y axis, `(0, 1)`.
    pub fn unit_y() -> (r: Vec2)
        ensures
            r == v2(Fx(0), fx_int(1)),
    {
        Vec2 { x: Fx::zero(), y: Fx::one() }
    }

    /// Screen up, `(0, -1)`.
    pub fn up() -> (r: Vec2)
        ensures
            r == v2(Fx(0), fx_int(-1)),
    {
        Vec2 { x: Fx::zero(), y: Fx::neg_one() }
    }

    /// Screen down, `(0, 1)`.
    pub fn down() -> (r: Vec2)
        ensures
            r == v2(Fx(0), fx_int(1)),
    {
        Vec2 { x: Fx::zero(), y: Fx::one() }
    }

    /// Left, `(-1, 0)`.
    pub fn left() -> (r: Vec2)
        ensures
            r == v2(fx_int(-1), Fx(0)),
    {
        Vec2 { x: Fx::neg_one(), y: Fx::zero() }
    }

    /// Right, `(1, 0)`.
    pub fn right() -> (r: Vec2)
        ensures
            r == v2(fx_int(1), Fx(0)),
    {
        Vec2 { x: Fx::one(), y: Fx::zero() }
    }

    /// Builds a vector from its components.
    pub fn new(x: Fx, y: Fx) -> (r: Vec2)
        ensures
            r == v2(x, y),
    {
        Vec2 { x, y }
    }

    /// Builds a vector from whole-number components.
    pub fn from_ints(x: i32, y: i32) -> (r: Vec2)
        ensures
            r == v2(fx_int(x as int), fx_int(y as int)),
    {
        Vec2 { x: Fx::from_num(x), y: Fx::from_num(y) }
    }

    /// A vector with both components equal to `value`.
    pub fn splat(value: Fx) -> (r: Vec2)
        ensures
            r == v2(value, value),
    {
        Vec2 { x: value, y: value }
    }

    /// The vector of the given length pointing at `angle` radians from +x.
    pub fn from_angle(angle: Fx, length: Fx) -> (r: Vec2)
        ensures
            r == v2(fx_mul(fx_cos(angle), length), fx_mul(fx_sin(angle), length)),
    {
        Vec2 { x: angle.cos() * length, y: angle.sin() * length }
    }

    /// Dot product.
    pub fn dot(self, other: Vec2) -> (r: Fx)
        ensures
            r == v2_dot(self, other),
    {
        self.x * other.x + self.y * other.y
    }

    /// The z component of the 3D cross product; positive when `other` is
    /// clockwise from `self` on screen.
    pub fn cross(self, other: Vec2) -> (r: Fx)
        ensures
            r == v2_cross(self, other),
    {
        self.x * other.y - self.y * other.x
    }

    /// Squared length; cheaper than [`Vec2::length`] and exact.
    pub fn length_squared(self) -> (r: Fx)
        ensures
            r == v2_length_squared(self),
            r.0 >= 0,
    {
        proof {
            lemma_length_squared_nonnegative(self);
        }
        self.x * self.x + self.y * self.y
    }

    /// Euclidean length.
    pub fn length(self) -> (r: Fx)
        ensures
            r == v2_length(self),
    {
        self.length_squared().sqrt()
    }

    /// Distance to another point.
    pub fn distance(self, other: Vec2) -> (r: Fx)
        ensures
            r == v2_length(v2_sub(other, self)),
    {
        (other - self).length()
    }

    /// Squared distance to another point.
    pub fn distance_squared(self, other: Vec2) -> (r: Fx)
        ensures
            r == v2_length_squared(v2_sub(other, self)),
            r.0 >= 0,
    {
        (other - self).length_squared()
    }

    /// Manhattan (taxicab) distance.
    pub fn manhattan_distance(self, other: Vec2) -> (r: Fx)
        ensures
            r == fx_add(fx_abs(fx_sub(other.x, self.x)), fx_abs(fx_sub(other.y, self.y))),
    {
        (other.x - self.x).abs() + (other.y - self.y).abs()
    }

    /// The unit vector in the same direction, or zero for the zero vector
    /// rather than dividing by zero.
    pub fn normalize(self) -> (r: Vec2)
        ensures
            r == v2_normalize(self),
    {
        let length = self.length();
        if length.is_zero() {
            Vec2::zero()
        } else {
            Vec2 { x: self.x / length, y: self.y / length }
        }
    }

    /// This vector, shortened to `max` if it is longer than that.
    pub fn clamp_length(self, max: Fx) -> (r: Vec2)
        ensures
            r == (if v2_length_squared(self).0 > fx_mul(max, max).0 {
                v2_scale(v2_normalize(self), max)
            } else {
                self
            }),
    {
        let length_sq = self.length_squared();
        if length_sq.0 > (max * max).0 {
            self.normalize() * max
        } else {
            self
        }
    }

    /// This vector rotated by `angle` radians.
    pub fn rotate(self, angle: Fx) -> (r: Vec2)
        ensures
            r == v2(
                fx_sub(fx_mul(self.x, fx_cos(angle)), fx_mul(self.y, fx_sin(angle))),
                fx_add(fx_mul(self.x, fx_sin(angle)), fx_mul(self.y, fx_cos(angle))),
            ),
    {
        let sin = angle.sin();
        let cos = angle.cos();
        Vec2 { x: self.x * cos - self.y * sin, y: self.x * sin + self.y * cos }
    }

    /// The vector rotated a quarter turn: `(-y, x)`.
    pub fn perpendicular(self) -> (r: Vec2)
        ensures
            r == v2(fx_neg(self.y), self.x),
    {
        Vec2 { x: self.y.neg(), y: self.x }
    }

    /// The angle from +x in `(-π, π]`.
    pub fn angle(self) -> (r: Fx)
        ensures
            r == fx_atan2(self.y, self.x),
    {
        Fx::atan2(self.y, self.x)
    }

    /// Component-wise absolute value.
    pub fn abs(self) -> (r: Vec2)
        ensures
            r == v2(fx_abs(self.x), fx_abs(self.y)),
    {
        Vec2 { x: self.x.abs(), y: self.y.abs() }
    }

    /// Component-wise floor.
    pub fn floor(self) -> (r: Vec2)
        ensures
            r.x.0 == fx_floor_int(self.x) * scale(),
            r.y.0 == fx_floor_int(self.y) * scale(),
    {
        Vec2 { x: self.x.floor(), y: self.y.floor() }
    }

    /// Component-wise rounding, halves away from zero. Components within half
    /// a unit of the ends of the range overflow and are left
    /// out.
    pub fn round(self) -> (r: Vec2)
        requires
            -(i64::MAX - 2147483648) <= self.x.0 <= i64::MAX - 2147483648,
            -(i64::MAX - 2147483648) <= self.y.0 <= i64::MAX - 2147483648,
        ensures
            r.x.0 == (if self.x.0 >= 0 {
                ((self.x.0 + 2147483648) / scale()) * scale()
            } else {
                -(((-self.x.0 + 2147483648) / scale()) * scale())
            }),
            r.y.0 == (if self.y.0 >= 0 {
                ((self.y.0 + 2147483648) / scale()) * scale()
            } else {
                -(((-self.y.0 + 2147483648) / scale()) * scale())
            }),
    {
        Vec2 { x: self.x.round(), y: self.y.round() }
    }

    /// Component-wise minimum.
    pub fn min(self, other: Vec2) -> (r: Vec2)
        ensures
            r == v2(fx_min(self.x, other.x), fx_min(self.y, other.y)),
    {
        Vec2 { x: self.x.min(other.x), y: self.y.min(other.y) }
    }

    /// Component-wise maximum.
    pub fn max(self, other: Vec2) -> (r: Vec2)
        ensures
            r == v2(fx_max(self.x, other.x), fx_max(self.y, other.y)),
    {
        Vec2 { x: self.x.max(other.x), y: self.y.max(other.y) }
    }

    /// Component-wise product.
    pub fn mul_components(self, other: Vec2) -> (r: Vec2)
        ensures
            r == v2(fx_mul(self.x, other.x), fx_mul(self.y, other.y)),
    {
        Vec2 { x: self.x * other.x, y: self.y * other.y }
    }

    /// Component-wise linear interpolation; `t` is not clamped.
    pub fn lerp(self, target: Vec2, t: Fx) -> (r: Vec2)
        ensures
            r == v2(fx_lerp(self.x, target.x, t), fx_lerp(self.y, target.y, t)),
    {
        Vec2 { x: self.x.lerp(target.x, t), y: self.y.lerp(target.y, t) }
    }

    /// Moves toward `target` by at most `max_delta`, never overshooting.
    pub fn move_towards(self, target: Vec2, max_delta: Fx) -> (r: Vec2)
        ensures
            r == (if v2_length(v2_sub(target, self)).0 <= max_delta.0 || v2_length(
                v2_sub(target, self),
            ).0 == 0 {
                target
            } else {
                v2_add(
                    self,
                    v2_scale(
                        v2_div(v2_sub(target, self), v2_length(v2_sub(target, self))),
                        max_delta,
                    ),
                )
            }),
    {
        let delta = target - self;
        let distance = delta.length();
        if distance.0 <= max_delta.0 || distance.is_zero() {
            target
        } else {
            self + delta / distance * max_delta
        }
    }

    /// The reflection of this vector off a surface with the given unit normal.
    pub fn reflect(self, normal: Vec2) -> (r: Vec2)
        ensures
            r == v2_sub(self, v2_scale(normal, fx_mul(v2_dot(self, normal), fx_int(2)))),
    {
        self - normal * (self.dot(normal) * Fx::two())
    }

    /// True when both components are exactly zero.
    pub fn is_zero(self) -> (r: bool)
        ensures
            r == (self.x.0 == 0 && self.y.0 == 0),
    {
        self.x.is_zero() && self.y.is_zero()
    }

    /// The tile containing this point, for square tiles of `tile_size` world
    /// units, flooring so negative coordinates land in the right tile. The
    /// tile size must not be zero.
    pub fn to_tile(self, tile_size: Fx) -> (r: (i32, i32))
        requires
            tile_size.0 != 0,
        ensures
            r.0 == fx_floor_int(fx_div(self.x, tile_size)),
            r.1 == fx_floor_int(fx_div(self.y, tile_size)),
    {
        ((self.x / tile_size).floor_int(), (self.y / tile_size).floor_int())
    }
}

impl Add for Vec2 {
    type Output = Vec2;

    fn add(self, other: Vec2) -> (r: Vec2) {
        Vec2 { x: self.x + other.x, y: self.y + other.y }
    }
}

impl vstd::std_specs::ops::AddSpecImpl for Vec2 {
    open spec fn obeys_add_spec() -> bool {
        true
    }

    open spec fn add_req(self, rhs: Vec2) -> bool {
        true
    }

    open spec fn add_spec(self, rhs: Vec2) -> Vec2 {
        v2_add(self, rhs)
    }
}

impl Sub for Vec2 {
    type Output = Vec2;

    fn sub(self, other: Vec2) -> (r: Vec2) {
        Vec2 { x: self.x - other.x, y: self.y - other.y }
    }
}

impl vstd::std_specs::ops::SubSpecImpl for Vec2 {
    open spec fn obeys_sub_spec() -> bool {
        true
    }

    open spec fn sub_req(self, rhs: Vec2) -> bool {
        true
    }

    open spec fn sub_spec(self, rhs: Vec2) -> Vec2 {
        v2_sub(self, rhs)
    }
}

impl Mul<Fx> for Vec2 {
    type Output = Vec2;

    fn mul(self, scalar: Fx) -> (r: Vec2) {
        Vec2 { x: self.x * scalar, y: self.y * scalar }
    }
}

impl vstd::std_specs::ops::MulSpecImpl<Fx> for Vec2 {
    open spec fn obeys_mul_spec() -> bool {
        true
    }

    open spec fn mul_req(self, rhs: Fx) -> bool {
        true
    }

    open spec fn mul_spec(self, rhs: Fx) -> Vec2 {
        v2_scale(self, rhs)
    }
}

impl Mul<i32> for Vec2 {
    type Output = Vec2;

    fn mul(self, scalar: i32) -> (r: Vec2) {
        Vec2 { x: self.x * scalar, y: self.y * scalar }
    }
}

impl vstd::std_specs::ops::MulSpecImpl<i32> for Vec2 {
    open spec fn obeys_mul_spec() -> bool {
        true
    }

    open spec fn mul_req(self, rhs: i32) -> bool {
        true
    }

    open spec fn mul_spec(self, rhs: i32) -> Vec2 {
        v2(fx_mul_int(self.x, rhs), fx_mul_int(self.y, rhs))
    }
}

impl Div<Fx> for Vec2 {
    type Output = Vec2;

    /// `scalar` must not be zero.
    fn div(self, scalar: Fx) -> (r: Vec2) {
        Vec2 { x: self.x / scalar, y: self.y / scalar }
    }
}

impl vstd::std_specs::ops::DivSpecImpl<Fx> for Vec2 {
    open spec fn obeys_div_spec() -> bool {
        true
    }

    open spec fn div_req(self, rhs: Fx) -> bool {
        rhs.0 != 0
    }

    open spec fn div_spec(self, rhs: Fx) -> Vec2 {
        v2_div(self, rhs)
    }
}

impl Neg for Vec2 {
    type Output = Vec2;

    fn neg(self) -> (r: Vec2) {
        Vec2 { x: self.x.neg(), y: self.y.neg() }
    }
}

impl vstd::std_specs::ops::NegSpecImpl for Vec2 {
    open spec fn obeys_neg_spec() -> bool {
        true
    }

    open spec fn neg_req(self) -> bool {
        true
    }

    open spec fn neg_spec(self) -> Vec2 {
        v2(fx_neg(self.x), fx_neg(self.y))
    }
}

impl AddAssign for Vec2 {
    fn add_assign(&mut self, other: Vec2) {
        *self = *self + other;
    }
}

impl SubAssign for Vec2 {
    fn sub_assign(&mut self, other: Vec2) {
        *self = *self - other;
    }
}

impl MulAssign<Fx> for Vec2 {
    fn mul_assign(&mut self, scalar: Fx) {
        *self = *self * scalar;
    }
}

/// An integer grid coordinate: a tile position, a chunk index, a pathfinding
/// node.
#[derive(Clone, Copy, PartialEq, Eq, Structural, Hash, Debug, Default, PartialOrd, Ord)]
pub struct IVec2 {
    pub x: i32,
    pub y: i32,
}

/// Absolute value of an `i32` difference that the caller keeps in range.
pub open spec fn i32_abs(v: int) -> int {
    if v < 0 {
        -v
    } else {
        v
    }
}

impl IVec2 {
    /// `(0, 0)`.
    pub fn zero() -> (r: IVec2)
        ensures
            r == (IVec2 { x: 0, y: 0 }),
    {
        IVec2 { x: 0, y: 0 }
    }

    /// `(1, 1)`.
    pub fn one() -> (r: IVec2)
        ensures
            r == (IVec2 { x: 1, y: 1 }),
    {
        IVec2 { x: 1, y: 1 }
    }

    /// The four edge-adjacent neighbours, clockwise from up.
    pub fn cardinals() -> (r: [IVec2; 4])
        ensures
            r@ == seq![
                IVec2 { x: 0, y: -1i32 },
                IVec2 { x: 1, y: 0 },
                IVec2 { x: 0, y: 1 },
                IVec2 { x: -1i32, y: 0 },
            ],
    {
        let r = [
            IVec2 { x: 0, y: -1i32 },
            IVec2 { x: 1, y: 0 },
            IVec2 { x: 0, y: 1 },
            IVec2 { x: -1i32, y: 0 },
        ];
        assert(r@ =~= seq![
            IVec2 { x: 0, y: -1i32 },
            IVec2 { x: 1, y: 0 },
            IVec2 { x: 0, y: 1 },
            IVec2 { x: -1i32, y: 0 },
        ]);
        r
    }

    /// All eight neighbours, clockwise from up.
    pub fn neighbours() -> (r: [IVec2; 8])
        ensures
            r@ == seq![
                IVec2 { x: 0, y: -1i32 },
                IVec2 { x: 1, y: -1i32 },
                IVec2 { x: 1, y: 0 },
                IVec2 { x: 1, y: 1 },
                IVec2 { x: 0, y: 1 },
                IVec2 { x: -1i32, y: 1 },
                IVec2 { x: -1i32, y: 0 },
                IVec2 { x: -1i32, y: -1i32 },
            ],
    {
        let r = [
            IVec2 { x: 0, y: -1i32 },
            IVec2 { x: 1, y: -1i32 },
            IVec2 { x: 1, y: 0 },
            IVec2 { x: 1, y: 1 },
            IVec2 { x: 0, y: 1 },
            IVec2 { x: -1i32, y: 1 },
            IVec2 { x: -1i32, y: 0 },
            IVec2 { x: -1i32, y: -1i32 },
        ];
        assert(r@ =~= seq![
            IVec2 { x: 0, y: -1i32 },
            IVec2 { x: 1, y: -1i32 },
            IVec2 { x: 1, y: 0 },
            IVec2 { x: 1, y: 1 },
            IVec2 { x: 0, y: 1 },
            IVec2 { x: -1i32, y: 1 },
            IVec2 { x: -1i32, y: 0 },
            IVec2 { x: -1i32, y: -1i32 },
        ]);
        r
    }

    /// Builds a coordinate.
    pub fn new(x: i32, y: i32) -> (r: IVec2)
        ensures
            r == (IVec2 { x, y }),
    {
        IVec2 { x, y }
    }

    /// The world-space position of this tile's top-left corner.
    pub fn to_world(self, tile_size: Fx) -> (r: Vec2)
        ensures
            r == v2(fx_mul(fx_int(self.x as int), tile_size), fx_mul(fx_int(self.y as int), tile_size)),
    {
        Vec2::new(Fx::from_num(self.x) * tile_size, Fx::from_num(self.y) * tile_size)
    }

    /// The world-space position of this tile's centre.
    pub fn to_world_centre(self, tile_size: Fx) -> (r: Vec2)
        ensures
            r == v2_add(
                v2(fx_mul(fx_int(self.x as int), tile_size), fx_mul(fx_int(self.y as int), tile_size)),
                v2(fx_mul(tile_size, Fx(2147483648)), fx_mul(tile_size, Fx(2147483648))),
            ),
    {
        self.to_world(tile_size) + Vec2::splat(tile_size * Fx::half())
    }

    /// Manhattan distance in tiles. Inputs whose distance
    /// does not fit an `i32` are left out.
    pub fn manhattan_distance(self, other: IVec2) -> (r: i32)
        requires
            i32_abs(self.x - other.x) + i32_abs(self.y - other.y) <= i32::MAX,
        ensures
            r == i32_abs(self.x - other.x) + i32_abs(self.y - other.y),
    {
        let dx = self.x as i64 - other.x as i64;
        let dy = self.y as i64 - other.y as i64;
        let ax = if dx < 0 { -dx } else { dx };
        let ay = if dy < 0 { -dy } else { dy };
        (ax + ay) as i32
    }

    /// Chebyshev (king-move) distance in tiles. Inputs with a
    /// coordinate difference that does not fit an `i32` are left out.
    pub fn chebyshev_distance(self, other: IVec2) -> (r: i32)
        requires
            i32_abs(self.x - other.x) <= i32::MAX,
            i32_abs(self.y - other.y) <= i32::MAX,
        ensures
            r == (if i32_abs(self.x - other.x) >= i32_abs(self.y - other.y) {
                i32_abs(self.x - other.x)
            } else {
                i32_abs(self.y - other.y)
            }),
    {
        let dx = self.x as i64 - other.x as i64;
        let dy = self.y as i64 - other.y as i64;
        let ax = if dx < 0 { -dx } else { dx };
        let ay = if dy < 0 { -dy } else { dy };
        if ax >= ay {
            ax as i32
        } else {
            ay as i32
        }
    }
}

impl Add for IVec2 {
    type Output = IVec2;

    /// Component sums must stay within `i32`.
    fn add(self, other: IVec2) -> (r: IVec2) {
        IVec2 { x: self.x + other.x, y: self.y + other.y }
    }
}

impl vstd::std_specs::ops::AddSpecImpl for IVec2 {
    open spec fn obeys_add_spec() -> bool {
        true
    }

    open spec fn add_req(self, rhs: IVec2) -> bool {
        i32::MIN <= self.x + rhs.x <= i32::MAX && i32::MIN <= self.y + rhs.y <= i32::MAX
    }

    open spec fn add_spec(self, rhs: IVec2) -> IVec2 {
        IVec2 { x: (self.x + rhs.x) as i32, y: (self.y + rhs.y) as i32 }
    }
}

impl Sub for IVec2 {
    type Output = IVec2;

    /// Component differences must stay within `i32`.
    fn sub(self, other: IVec2) -> (r: IVec2) {
        IVec2 { x: self.x - other.x, y: self.y - other.y }
    }
}

impl vstd::std_specs::ops::SubSpecImpl for IVec2 {
    open spec fn obeys_sub_spec() -> bool {
        true
    }

    open spec fn sub_req(self, rhs: IVec2) -> bool {
        i32::MIN <= self.x - rhs.x <= i32::MAX && i32::MIN <= self.y - rhs.y <= i32::MAX
    }

    open spec fn sub_spec(self, rhs: IVec2) -> IVec2 {
        IVec2 { x: (self.x - rhs.x) as i32, y: (self.y - rhs.y) as i32 }
    }
}

impl Mul<i32> for IVec2 {
    type Output = IVec2;

    /// Component products must stay within `i32`.
    fn mul(self, scalar: i32) -> (r: IVec2) {
        IVec2 { x: self.x * scalar, y: self.y * scalar }
    }
}

impl vstd::std_specs::ops::MulSpecImpl<i32> for IVec2 {
    open spec fn obeys_mul_spec() -> bool {
        true
    }

    open spec fn mul_req(self, rhs: i32) -> bool {
        i32::MIN <= self.x * rhs <= i32::MAX && i32::MIN <= self.y * rhs <= i32::MAX
    }

    open spec fn mul_spec(self, rhs: i32) -> IVec2 {
        IVec2 { x: (self.x * rhs) as i32, y: (self.y * rhs) as i32 }
    }
}

/// Floored division lands between bounds that bracket the dividend.
proof fn lemma_div_between(n: int, t: int, lo: int, hi: int)
    requires
        t > 0,
        lo * t <= n,
        n < hi * t,
    ensures
        lo <= n / t < hi,
{
    vstd::arithmetic::div_mod::lemma_fundamental_div_mod(n, t);
    let q = n / t;
    let r = n % t;
    assert(0 <= r < t) by {
        vstd::arithmetic::div_mod::lemma_mod_bound(n, t);
    }
    assert(n == t * q + r);
    if q < lo {
        assert(t * q + r < lo * t) by (nonlinear_arith)
            requires
                q + 1 <= lo,
                0 <= r < t,
                t > 0,
        ;
    }
    if q >= hi {
        assert(t * q + r >= hi * t) by (nonlinear_arith)
            requires
                q >= hi,
                0 <= r,
                t > 0,
        ;
    }
}

/// One axis of the tile round trip: a tile's corner, or its corner plus half
/// a tile, divided by the tile size and floored, gives the tile again.
proof fn lemma_axis_round_trip(x: int, t: int)
    requires
        0 < t <= i64::MAX,
        i32::MIN <= x <= i32::MAX,
        -i64::MAX <= x * t,
        (x + 1) * t <= i64::MAX,
    ensures
        fx_mul(fx_int(x), Fx(t as i64)).0 == x * t,
        fx_floor_int(fx_div(Fx((x * t) as i64), Fx(t as i64))) == x,
        fx_floor_int(fx_div(fx_add(Fx((x * t) as i64), fx_mul(Fx(t as i64), Fx(2147483648))), Fx(t as i64)))
            == x,
{
    let s: int = 4294967296;
    let a = x * t;
    assert(x * t < (x + 1) * t) by (nonlinear_arith)
        requires
            t > 0,
    ;
    assert((x * s) * t == a * s) by (nonlinear_arith)
        requires
            a == x * t,
    ;
    assert(((x * s) * t) / s == a) by (nonlinear_arith)
        requires
            ((x * s) * t) == a * s,
            s == 4294967296,
    ;
    assert(-0x8000_0000_0000_0000 <= x * s < 0x8000_0000_0000_0000) by (nonlinear_arith)
        requires
            s == 4294967296,
            i32::MIN <= x <= i32::MAX,
    ;
    assert(fx_int(x).0 == x * s);
    assert(fx_mul(fx_int(x), Fx(t as i64)).0 == a);
    // The corner: the quotient is exactly x whole units.
    assert(crate::fixed::trunc_div(a * s, t) == x * s) by {
        assert((x * s + 1) * t == a * s + t) by (nonlinear_arith)
            requires
                (x * s) * t == a * s,
        ;
        assert((-(x * s) + 1) * t == -(a * s) + t) by (nonlinear_arith)
            requires
                (x * s) * t == a * s,
        ;
        assert((-(x * s)) * t == -(a * s)) by (nonlinear_arith)
            requires
                (x * s) * t == a * s,
        ;
        if a * s >= 0 {
            lemma_div_between(a * s, t, x * s, x * s + 1);
        } else {
            lemma_div_between(-(a * s), t, -(x * s), -(x * s) + 1);
        }
    }
    assert((x * s) / s == x) by (nonlinear_arith)
        requires
            s == 4294967296,
    ;
    // The centre: half a tile more, still inside the same whole unit.
    let h = (t * 2147483648) / s;
    assert(0 <= h && 2 * h <= t) by (nonlinear_arith)
        requires
            h == (t * 2147483648) / s,
            s == 4294967296,
            t > 0,
    ;
    assert(fx_mul(Fx(t as i64), Fx(2147483648)).0 == h);
    let c = a + h;
    assert(c <= (x + 1) * t) by (nonlinear_arith)
        requires
            c == a + h,
            a == x * t,
            0 <= 2 * h <= t,
    ;
    assert(fx_add(Fx(a as i64), Fx(h as i64)).0 == c);
    let q = crate::fixed::trunc_div(c * s, t);
    assert(x * s <= q < x * s + s) by {
        assert(h < t);
        assert((x * s) * t <= c * s) by (nonlinear_arith)
            requires
                (x * s) * t == a * s,
                c == a + h,
                h >= 0,
                s == 4294967296,
        ;
        assert(c * s <= ((x + 1) * s - 1) * t) by (nonlinear_arith)
            requires
                (x * s) * t == a * s,
                c == a + h,
                0 <= 2 * h <= t,
                s == 4294967296,
                t > 0,
        ;
        if c >= 0 {
            assert(c * s < (x * s + s) * t) by (nonlinear_arith)
                requires
                    c * s <= ((x + 1) * s - 1) * t,
                    t > 0,
            ;
            lemma_div_between(c * s, t, x * s, x * s + s);
        } else {
            assert((-((x + 1) * s) + 1) * t <= -(c * s)) by (nonlinear_arith)
                requires
                    c * s <= ((x + 1) * s - 1) * t,
            ;
            assert(-(c * s) < (-(x * s) + 1) * t) by (nonlinear_arith)
                requires
                    (x * s) * t <= c * s,
                    t > 0,
            ;
            lemma_div_between(-(c * s), t, -((x + 1) * s) + 1, -(x * s) + 1);
        }
    }
    assert(q / s == x) by (nonlinear_arith)
        requires
            x * s <= q < x * s + s,
            s == 4294967296,
    ;
}

/// A tile taken to world space, at its corner or its centre, and back to a
/// tile is the same tile, for any positive tile size at which the positions
/// fit in the raw range.
pub proof fn lemma_tile_world_round_trip(cell: IVec2, tile: Fx)
    requires
        tile.0 > 0,
        -i64::MAX <= cell.x * tile.0,
        (cell.x + 1) * tile.0 <= i64::MAX,
        -i64::MAX <= cell.y * tile.0,
        (cell.y + 1) * tile.0 <= i64::MAX,
    ensures
        ({
            let corner = v2(
                fx_mul(fx_int(cell.x as int), tile),
                fx_mul(fx_int(cell.y as int), tile),
            );
            let centre = v2_add(corner, v2(fx_mul(tile, Fx(2147483648)), fx_mul(tile, Fx(2147483648))));
            &&& fx_floor_int(fx_div(corner.x, tile)) == cell.x
            &&& fx_floor_int(fx_div(corner.y, tile)) == cell.y
            &&& fx_floor_int(fx_div(centre.x, tile)) == cell.x
            &&& fx_floor_int(fx_div(centre.y, tile)) == cell.y
        }),
{
    lemma_axis_round_trip(cell.x as int, tile.0 as int);
    lemma_axis_round_trip(cell.y as int, tile.0 as int);
    assert(Fx(tile.0 as int as i64) == tile);
}

/// A perpendicular has the same length as the vector, and is orthogonal to
/// it up to the rounding of one product: the dot product is zero, or one
/// unit in the last place below zero, and exactly zero whenever the product
/// of the coordinates is a whole number of units that fits the raw range.
pub proof fn lemma_perpendicular_is_orthogonal_and_keeps_length(v: Vec2)
    requires
        v.y.0 != i64::MIN,
    ensures
        v2_length_squared(v2(fx_neg(v.y), v.x)) == v2_length_squared(v),
        v2_length(v2(fx_neg(v.y), v.x)) == v2_length(v),
        v2_dot(v, v2(fx_neg(v.y), v.x)).0 == 0 || v2_dot(v, v2(fx_neg(v.y), v.x)).0 == -1,
        (v.x.0 as int * v.y.0 as int) % 4294967296 == 0 && -0x8000_0000_0000_0000 < (v.x.0 as int
            * v.y.0 as int) / 4294967296 < 0x8000_0000_0000_0000 ==> v2_dot(
            v,
            v2(fx_neg(v.y), v.x),
        ).0 == 0,
{
    let x = v.x.0 as int;
    let y = v.y.0 as int;
    assert(fx_neg(v.y).0 == -y);
    assert((-y) * (-y) == y * y) by (nonlinear_arith);
    assert(x * (-y) == -(x * y)) by (nonlinear_arith);
    assert(y * x == x * y) by (nonlinear_arith);
    let p = x * y;
    let f = p / 4294967296;
    let g = (-p) / 4294967296;
    assert(g == -f || g == -f - 1) by (nonlinear_arith)
        requires
            f == p / 4294967296,
            g == (-p) / 4294967296,
    ;
    assert(p % 4294967296 == 0 ==> g == -f) by (nonlinear_arith)
        requires
            f == p / 4294967296,
            g == (-p) / 4294967296,
    ;
    assert(fx_mul(v.x, fx_neg(v.y)).0 == crate::fixed::saturate(g));
    assert(fx_mul(v.y, v.x).0 == crate::fixed::saturate(f));
}

} // verus!
