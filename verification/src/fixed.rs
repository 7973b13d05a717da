//! Q32.32 fixed-point arithmetic.
//!
//! [`Fx`] is a plain `i64` read as a fraction with 32 fractional bits, so every
//! operation is integer arithmetic with defined overflow behaviour. Arithmetic
//! saturates rather than wrapping or panicking; the `checked_*` methods report
//! the condition instead.
use core::ops::{Add, AddAssign, Div, Mul, MulAssign, Neg, Rem, Sub, SubAssign};
use vstd::prelude::*;

verus! {

/// Number of fractional bits in an [`Fx`] value.
pub const FRACTIONAL_BITS: u32 = 32;

/// The raw integer that represents `1.0`.
pub const ONE_RAW: i64 = 4294967296;

/// `2^32`, the scale of the fraction.
pub open spec fn scale() -> int {
    4294967296
}

/// Clamps a mathematical integer into the range of `i64`.
pub open spec fn saturate(v: int) -> i64 {
    if v > i64::MAX {
        i64::MAX
    } else if v < i64::MIN {
        i64::MIN
    } else {
        v as i64
    }
}

/// Absolute value of a mathematical integer.
pub open spec fn abs_int(v: int) -> int {
    if v < 0 {
        -v
    } else {
        v
    }
}

/// Integer division rounding toward zero, as Rust's `/` does.
pub open spec fn trunc_div(x: int, y: int) -> int {
    if (x >= 0) == (y >= 0) {
        abs_int(x) / abs_int(y)
    } else {
        -(abs_int(x) / abs_int(y))
    }
}

/// The remainder matching [`trunc_div`], as Rust's `%` computes it.
pub open spec fn trunc_rem(x: int, y: int) -> int {
    x - y * trunc_div(x, y)
}

/// `r` is the integer square root of `n`: the largest `r` with `r * r <= n`.
pub open spec fn is_floor_sqrt(r: int, n: int) -> bool {
    &&& 0 <= r
    &&& r * r <= n
    &&& n < (r + 1) * (r + 1)
}

/// Two integer square roots of the same number are equal.
pub proof fn lemma_floor_sqrt_unique(r1: int, r2: int, n: int)
    requires
        is_floor_sqrt(r1, n),
        is_floor_sqrt(r2, n),
    ensures
        r1 == r2,
{
    if r1 < r2 {
        assert((r1 + 1) * (r1 + 1) <= r2 * r2) by (nonlinear_arith)
            requires
                0 <= r1 + 1 <= r2,
        ;
    } else if r2 < r1 {
        assert((r2 + 1) * (r2 + 1) <= r1 * r1) by (nonlinear_arith)
            requires
                0 <= r2 + 1 <= r1,
        ;
    }
}

/// A deterministic Q32.32 fixed-point number: the value is `self.0 / 2^32`.
#[derive(Clone, Copy, PartialEq, Eq, Structural, Hash, Default, PartialOrd, Ord, Debug)]
pub struct Fx(pub i64);

/// Saturating sum.
pub open spec fn fx_add(a: Fx, b: Fx) -> Fx {
    Fx(saturate(a.0 + b.0))
}

/// Saturating difference.
pub open spec fn fx_sub(a: Fx, b: Fx) -> Fx {
    Fx(saturate(a.0 - b.0))
}

/// Saturating product: the exact product, floored back to 32 fractional bits.
pub open spec fn fx_mul(a: Fx, b: Fx) -> Fx {
    Fx(saturate((a.0 * b.0) / scale()))
}

/// Saturating quotient, rounded toward zero.
pub open spec fn fx_div(a: Fx, b: Fx) -> Fx {
    Fx(saturate(trunc_div(a.0 * scale(), b.0 as int)))
}

/// Saturating negation (`-MIN == MAX`).
pub open spec fn fx_neg(a: Fx) -> Fx {
    Fx(saturate(-a.0))
}

/// Saturating product with an integer.
pub open spec fn fx_mul_int(a: Fx, k: i32) -> Fx {
    Fx(saturate(a.0 * k))
}

/// Quotient by an integer, rounded toward zero.
pub open spec fn fx_div_int(a: Fx, k: i32) -> Fx {
    Fx(trunc_div(a.0 as int, k as int) as i64)
}

/// Saturating absolute value.
pub open spec fn fx_abs(a: Fx) -> Fx {
    Fx(saturate(abs_int(a.0 as int)))
}

/// `-1`, `0` or `1` matching the sign.
pub open spec fn fx_signum(a: Fx) -> Fx {
    if a.0 > 0 {
        Fx(4294967296)
    } else if a.0 < 0 {
        Fx(-4294967296i64)
    } else {
        Fx(0)
    }
}

/// The lesser of two values.
pub open spec fn fx_min(a: Fx, b: Fx) -> Fx {
    if a.0 < b.0 {
        a
    } else {
        b
    }
}

/// The greater of two values.
pub open spec fn fx_max(a: Fx, b: Fx) -> Fx {
    if a.0 > b.0 {
        a
    } else {
        b
    }
}

/// `v` constrained to `[lo, hi]`.
pub open spec fn fx_clamp(v: Fx, lo: Fx, hi: Fx) -> Fx {
    if v.0 < lo.0 {
        lo
    } else if v.0 > hi.0 {
        hi
    } else {
        v
    }
}

/// `a + (b - a) * t`.
pub open spec fn fx_lerp(a: Fx, b: Fx, t: Fx) -> Fx {
    fx_add(a, fx_mul(fx_sub(b, a), t))
}

/// The integer `n` as a fixed-point value.
pub open spec fn fx_int(n: int) -> Fx {
    Fx((n * scale()) as i64)
}

/// The exact fraction `n / d`, rounded toward zero.
pub open spec fn fx_ratio(n: int, d: int) -> Fx {
    Fx(trunc_div(n * scale(), d) as i64)
}

/// The fixed-point square root: the integer square root of the raw value
/// widened to 64 fractional bits.
pub open spec fn fx_sqrt(a: Fx) -> Fx {
    Fx(choose|r: i64| #[trigger] is_floor_sqrt(r as int, a.0 * scale()))
}

/// Largest integer not above the value.
pub open spec fn fx_floor_int(a: Fx) -> int {
    (a.0 as int) / scale()
}

/// The raw value of π.
pub open spec fn pi_raw() -> int {
    13_493_037_705
}

/// The raw value of τ = 2π.
pub open spec fn tau_raw() -> int {
    26_986_075_409
}

/// The raw value of π/2.
pub open spec fn half_pi_raw() -> int {
    6_746_518_852
}

/// The raw value of π/4.
pub open spec fn quarter_pi_raw() -> int {
    3_373_259_426
}

/// The sine polynomial `x - x³/3! + x⁵/5! - x⁷/7! + x⁹/9!` in saturating
/// fixed point, meant for arguments folded into `[0, π/2]`.
pub open spec fn sin_poly(x: Fx) -> Fx {
    let x2 = fx_mul(x, x);
    let x3 = fx_mul(x2, x);
    let x5 = fx_mul(x3, x2);
    let x7 = fx_mul(x5, x2);
    let x9 = fx_mul(x7, x2);
    fx_add(
        fx_sub(
            fx_add(fx_sub(x, fx_mul(x3, fx_ratio(1, 6))), fx_mul(x5, fx_ratio(1, 120))),
            fx_mul(x7, fx_ratio(1, 5040)),
        ),
        fx_mul(x9, fx_ratio(1, 362_880)),
    )
}

/// Sine: the argument is reduced modulo τ, folded into the first quadrant by
/// symmetry, and then evaluated by [`sin_poly`].
pub open spec fn fx_sin(a: Fx) -> Fx {
    let r = (a.0 as int) % tau_raw();
    let negate = r > pi_raw();
    let r1 = if negate { r - pi_raw() } else { r };
    let r2 = if r1 > half_pi_raw() { pi_raw() - r1 } else { r1 };
    let p = sin_poly(Fx(r2 as i64));
    if negate {
        fx_neg(p)
    } else {
        p
    }
}

/// Cosine, as `sin(x + π/2)`.
pub open spec fn fx_cos(a: Fx) -> Fx {
    fx_sin(fx_add(a, Fx(half_pi_raw() as i64)))
}

/// Tangent, saturating where the cosine is within 16 ulps of zero.
pub open spec fn fx_tan(a: Fx) -> Fx {
    let c = fx_cos(a);
    if -16 < c.0 < 16 {
        if fx_sin(a).0 < 0 {
            Fx(i64::MIN)
        } else {
            Fx(i64::MAX)
        }
    } else {
        fx_div(fx_sin(a), c)
    }
}

/// A step of at most `max_delta` from `a` towards `target`.
pub open spec fn fx_move_towards(a: Fx, target: Fx, max_delta: Fx) -> Fx {
    if fx_abs(fx_sub(target, a)).0 <= max_delta.0 {
        target
    } else {
        fx_add(a, fx_mul(fx_signum(fx_sub(target, a)), max_delta))
    }
}

/// Moving towards a target never passes it: for a non-negative step, the
/// result lies between the start and the target (where their distance fits
/// in the raw range).
pub proof fn lemma_move_towards_never_overshoots(a: Fx, target: Fx, max_delta: Fx)
    requires
        max_delta.0 >= 0,
        i64::MIN < target.0 - a.0 <= i64::MAX,
    ensures
        a.0 <= target.0 ==> a.0 <= fx_move_towards(a, target, max_delta).0 <= target.0,
        target.0 <= a.0 ==> target.0 <= fx_move_towards(a, target, max_delta).0 <= a.0,
{
    let d = max_delta.0 as int;
    assert(fx_mul(Fx(4294967296), max_delta).0 == d) by (nonlinear_arith)
        requires
            fx_mul(Fx(4294967296), max_delta).0 == saturate((4294967296 * d) / 4294967296),
            0 <= d <= i64::MAX,
    ;
    assert(fx_mul(Fx(-4294967296i64), max_delta).0 == -d) by (nonlinear_arith)
        requires
            fx_mul(Fx(-4294967296i64), max_delta).0 == saturate((-4294967296 * d) / 4294967296),
            0 <= d <= i64::MAX,
    ;
    assert(fx_mul(Fx(0), max_delta).0 == 0);
}

/// `offset - atan(r)` for a ratio `r` in `[-1, 1]`, with the arctangent
/// approximated by `π/4·r - r·(|r| - 1)·(0.2447 + 0.0663·|r|)`, whose error
/// is about `1.5e-3` radians: the fit used by [`Fx::atan2`].
pub open spec fn atan_fit(ratio: Fx, offset: Fx) -> Fx {
    let k1 = fx_ratio(2447, 10_000);
    let k2 = fx_ratio(663, 10_000);
    let a = fx_abs(ratio);
    let approx = fx_sub(
        fx_mul(Fx(quarter_pi_raw() as i64), ratio),
        fx_mul(fx_mul(ratio, fx_sub(a, Fx(4294967296))), fx_add(k1, fx_mul(k2, a))),
    );
    fx_sub(offset, approx)
}

/// Four-quadrant arctangent of `y / x`.
pub open spec fn fx_atan2(y: Fx, x: Fx) -> Fx {
    if x.0 == 0 && y.0 == 0 {
        Fx(0)
    } else {
        let abs_y = fx_abs(y);
        let angle = if x.0 >= 0 {
            atan_fit(fx_div(fx_sub(x, abs_y), fx_add(x, abs_y)), Fx(quarter_pi_raw() as i64))
        } else {
            atan_fit(
                fx_div(fx_add(x, abs_y), fx_sub(abs_y, x)),
                fx_mul_int(Fx(quarter_pi_raw() as i64), 3),
            )
        };
        if y.0 < 0 {
            fx_neg(angle)
        } else {
            angle
        }
    }
}

/// Clamps a 128-bit intermediate back into `i64` range.
fn saturate_i128(value: i128) -> (r: i64)
    ensures
        r == saturate(value as int),
{
    if value > i64::MAX as i128 {
        i64::MAX
    } else if value < i64::MIN as i128 {
        i64::MIN
    } else {
        value as i64
    }
}

/// The exact product of two `i64` values.
fn wide_mul(a: i64, b: i64) -> (r: i128)
    ensures
        r == a * b,
        -0x4000_0000_0000_0000_0000_0000_0000_0000 <= r <= 0x4000_0000_0000_0000_0000_0000_0000_0000,
{
    proof {
        let ai = a as int;
        let bi = b as int;
        assert(-0x8000_0000_0000_0000 <= ai <= 0x7fff_ffff_ffff_ffff);
        assert(-0x8000_0000_0000_0000 <= bi <= 0x7fff_ffff_ffff_ffff);
        assert(-0x4000_0000_0000_0000_0000_0000_0000_0000 <= ai * bi
            <= 0x4000_0000_0000_0000_0000_0000_0000_0000) by (nonlinear_arith)
            requires
                -0x8000_0000_0000_0000 <= ai <= 0x7fff_ffff_ffff_ffff,
                -0x8000_0000_0000_0000 <= bi <= 0x7fff_ffff_ffff_ffff,
        ;
    }
    (a as i128) * (b as i128)
}

/// Clamps a mathematical integer into the range of `i32`.
pub open spec fn saturate_i32(v: int) -> i32 {
    if v > i32::MAX {
        i32::MAX
    } else if v < i32::MIN {
        i32::MIN
    } else {
        v as i32
    }
}

/// A wide integer clamped into `i32`.
fn saturating_i32(v: i128) -> (r: i32)
    ensures
        r == saturate_i32(v as int),
{
    if v > i32::MAX as i128 {
        i32::MAX
    } else if v < i32::MIN as i128 {
        i32::MIN
    } else {
        v as i32
    }
}

/// Floor division by `2^32`, which is what an arithmetic right shift by 32 computes.
fn floor_div_scale(p: i128) -> (r: i128)
    requires
        -0x4000_0000_0000_0000_0000_0000_0000_0000 <= p <= 0x4000_0000_0000_0000_0000_0000_0000_0000,
    ensures
        r == (p as int) / scale(),
{
    if p >= 0 {
        let u = p as u128;
        (u / 4294967296u128) as i128
    } else {
        let n = (-p) as u128;
        let q = (n + 4294967295u128) / 4294967296u128;
        proof {
            let pi = p as int;
            let ni = n as int;
            assert(ni == -pi);
            let qq = q as int;
            assert(qq == (ni + 4294967295) / 4294967296);
            // q is the ceiling of n / 2^32, so -q is the floor of p / 2^32.
            assert(-qq * 4294967296 <= pi < (-qq + 1) * 4294967296);
            vstd::arithmetic::div_mod::lemma_fundamental_div_mod(pi, 4294967296);
        }
        -(q as i128)
    }
}

/// Truncating division of two `i128` magnitudes within the ranges Fx needs.
fn trunc_div_i128(x: i128, y: i128) -> (r: i128)
    requires
        y != 0,
        -0x4000_0000_0000_0000_0000_0000_0000_0000 <= x <= 0x4000_0000_0000_0000_0000_0000_0000_0000,
        -0x4000_0000_0000_0000_0000_0000_0000_0000 <= y <= 0x4000_0000_0000_0000_0000_0000_0000_0000,
    ensures
        r == trunc_div(x as int, y as int),
{
    let ux: u128 = if x >= 0 { x as u128 } else { (-x) as u128 };
    let uy: u128 = if y >= 0 { y as u128 } else { (-y) as u128 };
    let q = ux / uy;
    proof {
        assert(q as int <= ux as int) by (nonlinear_arith)
            requires
                uy >= 1,
                q == ux as int / uy as int,
        ;
    }
    if (x >= 0) == (y >= 0) {
        q as i128
    } else {
        -(q as i128)
    }
}

impl Fx {
    /// The value `0`.
    pub fn zero() -> (r: Fx)
        ensures
            r == Fx(0i64),
    {
        Fx(0)
    }

    /// The value `1`.
    pub fn one() -> (r: Fx)
        ensures
            r == Fx(4294967296i64),
    {
        Fx(4294967296)
    }

    /// The value `-1`.
    pub fn neg_one() -> (r: Fx)
        ensures
            r == Fx(-4294967296i64),
    {
        Fx(-4294967296)
    }

    /// The value `0.5`.
    pub fn half() -> (r: Fx)
        ensures
            r == Fx(2147483648i64),
    {
        Fx(2147483648)
    }

    /// The value `2`.
    pub fn two() -> (r: Fx)
        ensures
            r == Fx(8589934592i64),
    {
        Fx(8589934592)
    }

    /// The largest representable value.
    pub fn max_value() -> (r: Fx)
        ensures
            r == Fx(0x7fff_ffff_ffff_ffffi64),
    {
        Fx(0x7fff_ffff_ffff_ffff)
    }

    /// The smallest (most negative) representable value.
    pub fn min_value() -> (r: Fx)
        ensures
            r == Fx(-0x8000_0000_0000_0000i64),
    {
        Fx(-0x8000_0000_0000_0000)
    }

    /// The smallest positive value, `2^-32`.
    pub fn epsilon() -> (r: Fx)
        ensures
            r == Fx(1i64),
    {
        Fx(1)
    }

    /// π, correct to the full 32-bit fraction.
    pub fn pi() -> (r: Fx)
        ensures
            r == Fx(13_493_037_705i64),
    {
        Fx(13_493_037_705)
    }

    /// τ = 2π.
    pub fn tau() -> (r: Fx)
        ensures
            r == Fx(26_986_075_409i64),
    {
        Fx(26_986_075_409)
    }

    /// π/2.
    pub fn frac_pi_2() -> (r: Fx)
        ensures
            r == Fx(6_746_518_852i64),
    {
        Fx(6_746_518_852)
    }

    /// π/4.
    pub fn frac_pi_4() -> (r: Fx)
        ensures
            r == Fx(3_373_259_426i64),
    {
        Fx(3_373_259_426)
    }

    /// Euler's number, e.
    pub fn e() -> (r: Fx)
        ensures
            r == Fx(11_674_931_555i64),
    {
        Fx(11_674_931_555)
    }

    /// Reinterprets a raw Q32.32 integer, without scaling.
    pub fn from_raw(raw: i64) -> (r: Fx)
        ensures
            r.0 == raw,
    {
        Fx(raw)
    }

    /// The underlying Q32.32 integer.
    pub fn to_raw(self) -> (r: i64)
        ensures
            r == self.0,
    {
        self.0
    }

    /// Converts an integer to fixed point (always exact).
    pub fn from_num(value: i32) -> (r: Fx)
        ensures
            r == fx_int(value as int),
            r.0 == value * scale(),
    {
        Fx(value as i64 * 4294967296)
    }

    /// The fraction `numerator / denominator`, rounded toward zero.
    ///
    /// A zero `denominator` and `i32::MIN / -1` are left out.
    pub fn from_ratio(numerator: i32, denominator: i32) -> (r: Fx)
        requires
            denominator != 0,
            !(numerator == i32::MIN && denominator == -1),
        ensures
            r == fx_ratio(numerator as int, denominator as int),
    {
        let x = numerator as i128 * 4294967296i128;
        let q = trunc_div_i128(x, denominator as i128);
        proof {
            let xi = x as int;
            let di = denominator as int;
            assert(abs_int(xi) <= 0x80_0000_0000_0000_0000);
            assert(abs_int(xi) / abs_int(di) <= abs_int(xi)) by (nonlinear_arith)
                requires
                    abs_int(di) >= 1,
                    abs_int(xi) >= 0,
            ;
            if abs_int(di) == 1 {
                assert(abs_int(xi) / abs_int(di) == abs_int(xi));
                assert(xi != 0x80_0000_0000_0000_0000 || (xi >= 0) == (di >= 0));
            } else {
                assert(abs_int(xi) / abs_int(di) <= abs_int(xi) / 2) by (nonlinear_arith)
                    requires
                        abs_int(di) >= 2,
                        abs_int(xi) >= 0,
                ;
            }
        }
        Fx(q as i64)
    }

    /// Truncates toward zero and returns the integer part. The one value whose
    /// negation would overflow, [`Fx::min_value()`], gives `-2147483647`.
    pub fn to_int(self) -> (r: i32)
        ensures
            r == (if self.0 >= 0 {
                (self.0 as int) / scale()
            } else {
                -((saturate(-self.0) as int) / scale())
            }),
    {
        if self.0 >= 0 {
            (self.0 / 4294967296) as i32
        } else {
            let negated: i64 = if self.0 == i64::MIN { i64::MAX } else { -self.0 };
            -((negated / 4294967296) as i32)
        }
    }

    /// The largest integer not above this value.
    pub fn floor_int(self) -> (r: i32)
        ensures
            r == fx_floor_int(self),
    {
        let q = floor_div_scale(self.0 as i128);
        q as i32
    }

    /// The smallest integer not below this value, saturated into `i32`.
    pub fn ceil_int(self) -> (r: i32)
        ensures
            r == saturate_i32((self.0 + 4294967295) / scale()),
    {
        let q = floor_div_scale(self.0 as i128 + 4294967295);
        saturating_i32(q)
    }

    /// Rounds half away from zero to an integer, saturated into `i32`.
    pub fn round_int(self) -> (r: i32)
        ensures
            r == saturate_i32(
                if self.0 >= 0 {
                    (self.0 + 2147483648) / scale()
                } else {
                    -((-self.0 + 2147483648) / scale())
                },
            ),
    {
        let x = self.0 as i128;
        let q: i128 = if x >= 0 {
            (x + 2147483648) / 4294967296
        } else {
            -((-x + 2147483648) / 4294967296)
        };
        saturating_i32(q)
    }

    /// Rounds down to a whole value.
    pub fn floor(self) -> (r: Fx)
        ensures
            r.0 == fx_floor_int(self) * scale(),
            r.0 <= self.0 < r.0 + scale(),
    {
        let q = floor_div_scale(self.0 as i128);
        Fx(q as i64 * 4294967296)
    }

    /// Rounds up to a whole value. Values within one unit of [`Fx::max_value()`]
    /// overflow and are left out.
    pub fn ceil(self) -> (r: Fx)
        requires
            self.0 <= i64::MAX - 4294967295,
        ensures
            r.0 == ((self.0 + 4294967295) / scale()) * scale(),
            r.0 - scale() < self.0 <= r.0,
    {
        let q = floor_div_scale(self.0 as i128 + 4294967295);
        Fx(q as i64 * 4294967296)
    }

    /// Rounds to the nearest whole value, halves away from zero. Values within
    /// half a unit of the ends of the range overflow and are
    /// left out.
    pub fn round(self) -> (r: Fx)
        requires
            -(i64::MAX - 2147483648) <= self.0 <= i64::MAX - 2147483648,
        ensures
            r.0 == (if self.0 >= 0 {
                ((self.0 + 2147483648) / scale()) * scale()
            } else {
                -(((-self.0 + 2147483648) / scale()) * scale())
            }),
    {
        if self.0 >= 0 {
            let q = (self.0 + 2147483648) / 4294967296;
            Fx(q * 4294967296)
        } else {
            let q = (-self.0 + 2147483648) / 4294967296;
            Fx(-(q * 4294967296))
        }
    }

    /// The fractional part, always in `[0, 1)`, including for negative values.
    pub fn fract(self) -> (r: Fx)
        ensures
            r.0 == (self.0 as int) % scale(),
            0 <= r.0 < scale(),
            self.0 == fx_floor_int(self) * scale() + r.0,
    {
        let q = floor_div_scale(self.0 as i128);
        proof {
            vstd::arithmetic::div_mod::lemma_fundamental_div_mod(self.0 as int, scale());
        }
        Fx((self.0 as i128 - q * 4294967296) as i64)
    }

    /// Absolute value, saturating (`MIN.abs() == MAX`).
    pub fn abs(self) -> (r: Fx)
        ensures
            r == fx_abs(self),
    {
        if self.0 == i64::MIN {
            Fx(i64::MAX)
        } else if self.0 < 0 {
            Fx(-self.0)
        } else {
            self
        }
    }

    /// `-1`, `0` or `1` matching the sign of this value.
    pub fn signum(self) -> (r: Fx)
        ensures
            r == fx_signum(self),
    {
        if self.0 > 0 {
            Fx::one()
        } else if self.0 < 0 {
            Fx::neg_one()
        } else {
            Fx::zero()
        }
    }

    /// True when the value is exactly zero.
    pub fn is_zero(self) -> (r: bool)
        ensures
            r == (self.0 == 0),
    {
        self.0 == 0
    }

    /// True when the value is strictly negative.
    pub fn is_negative(self) -> (r: bool)
        ensures
            r == (self.0 < 0),
    {
        self.0 < 0
    }

    /// True when the value is strictly positive.
    pub fn is_positive(self) -> (r: bool)
        ensures
            r == (self.0 > 0),
    {
        self.0 > 0
    }

    /// The lesser of two values.
    pub fn min(self, other: Fx) -> (r: Fx)
        ensures
            r == fx_min(self, other),
    {
        if self.0 < other.0 {
            self
        } else {
            other
        }
    }

    /// The greater of two values.
    pub fn max(self, other: Fx) -> (r: Fx)
        ensures
            r == fx_max(self, other),
    {
        if self.0 > other.0 {
            self
        } else {
            other
        }
    }

    /// Constrains this value to `[min, max]`; `min` must not
    /// exceed `max`.
    pub fn clamp(self, min: Fx, max: Fx) -> (r: Fx)
        requires
            min.0 <= max.0,
        ensures
            r == fx_clamp(self, min, max),
            min.0 <= r.0 <= max.0,
    {
        if self.0 < min.0 {
            min
        } else if self.0 > max.0 {
            max
        } else {
            self
        }
    }

    /// Multiplication that reports overflow instead of saturating.
    pub fn checked_mul(self, other: Fx) -> (r: Option<Fx>)
        ensures
            r == (if i64::MIN <= (self.0 * other.0) / scale() <= i64::MAX {
                Some(Fx(((self.0 * other.0) / scale()) as i64))
            } else {
                None::<Fx>
            }),
    {
        let product = floor_div_scale(wide_mul(self.0, other.0));
        if i64::MIN as i128 <= product && product <= i64::MAX as i128 {
            Some(Fx(product as i64))
        } else {
            None
        }
    }

    /// Division that reports overflow and division by zero.
    pub fn checked_div(self, other: Fx) -> (r: Option<Fx>)
        ensures
            r == (if other.0 == 0 {
                None::<Fx>
            } else if i64::MIN <= trunc_div(self.0 * scale(), other.0 as int) <= i64::MAX {
                Some(Fx(trunc_div(self.0 * scale(), other.0 as int) as i64))
            } else {
                None::<Fx>
            }),
    {
        if other.0 == 0 {
            return None;
        }
        let quotient = trunc_div_i128(self.0 as i128 * 4294967296i128, other.0 as i128);
        if i64::MIN as i128 <= quotient && quotient <= i64::MAX as i128 {
            Some(Fx(quotient as i64))
        } else {
            None
        }
    }

    /// Linear interpolation `self + (target - self) * t`; `t` is not clamped.
    pub fn lerp(self, target: Fx, t: Fx) -> (r: Fx)
        ensures
            r == fx_lerp(self, target, t),
    {
        self + (target - self) * t
    }

    /// Moves toward `target` by at most `max_delta`, never overshooting.
    pub fn move_towards(self, target: Fx, max_delta: Fx) -> (r: Fx)
        ensures
            r == fx_move_towards(self, target, max_delta),
    {
        let diff = target - self;
        if diff.abs().0 <= max_delta.0 {
            target
        } else {
            self + diff.signum() * max_delta
        }
    }

    /// Square root: the exact integer square root of the Q64.64 widening of
    /// this value, so the result is the largest `r` with `r² ≤ self`. The
    /// value must not be negative.
    pub fn sqrt(self) -> (r: Fx)
        requires
            self.0 >= 0,
        ensures
            is_floor_sqrt(r.0 as int, self.0 * scale()),
            r == fx_sqrt(self),
    {
        if self.0 == 0 {
            proof {
                assert(is_floor_sqrt(0, 0));
                let c = choose|r: i64| #[trigger] is_floor_sqrt(r as int, self.0 * scale());
                assert(is_floor_sqrt(0i64 as int, self.0 * scale()));
                lemma_floor_sqrt_unique(c as int, 0, 0);
            }
            return Fx::zero();
        }
        let radicand: u128 = self.0 as u128 * 4294967296u128;
        let mut lo: u128 = 0;
        let mut hi: u128 = 0x1_0000_0000_0000;
        proof {
            assert(radicand < 0x8000_0000_0000_0000_0000_0000);
            assert(0x1_0000_0000_0000u128 * 0x1_0000_0000_0000u128 == 0x1_0000_0000_0000_0000_0000_0000u128);
        }
        while hi - lo > 1
            invariant
                lo < hi <= 0x1_0000_0000_0000,
                lo * lo <= radicand,
                radicand < hi * hi,
                radicand == self.0 * scale(),
            decreases hi - lo,
        {
            let mid = lo + (hi - lo) / 2;
            proof {
                assert(mid * mid <= 0x1_0000_0000_0000_0000_0000_0000) by (nonlinear_arith)
                    requires
                        mid <= 0x1_0000_0000_0000,
                ;
            }
            if mid * mid <= radicand {
                lo = mid;
            } else {
                hi = mid;
            }
        }
        proof {
            assert(hi == lo + 1);
            assert(lo < 0x1_0000_0000_0000);
            let w = lo as i64;
            assert(is_floor_sqrt(w as int, self.0 * scale()));
            let c = choose|r: i64| #[trigger] is_floor_sqrt(r as int, self.0 * scale());
            lemma_floor_sqrt_unique(c as int, w as int, self.0 * scale());
        }
        Fx(lo as i64)
    }

    /// Sine, from the ninth-order odd Taylor polynomial evaluated after the
    /// argument is folded into the first quadrant.
    pub fn sin(self) -> (r: Fx)
        ensures
            r == fx_sin(self),
    {
        let tau: i64 = 26_986_075_409;
        let mut x: i64 = if self.0 >= 0 {
            (self.0 as u64 % tau as u64) as i64
        } else {
            let m = ((-(self.0 as i128)) as u128 % tau as u128) as i64;
            if m == 0 {
                0
            } else {
                tau - m
            }
        };
        proof {
            let a = self.0 as int;
            if a < 0 {
                let n = -a;
                vstd::arithmetic::div_mod::lemma_fundamental_div_mod(n, tau_raw());
                vstd::arithmetic::div_mod::lemma_fundamental_div_mod(a, tau_raw());
                let q = n / tau_raw();
                let m = n % tau_raw();
                if m == 0 {
                    assert(a == (-q) * tau_raw());
                    vstd::arithmetic::div_mod::lemma_mod_multiples_basic(-q, tau_raw());
                } else {
                    assert(a == (-q - 1) * tau_raw() + (tau_raw() - m));
                    vstd::arithmetic::div_mod::lemma_mod_multiples_vanish(
                        -q - 1,
                        tau_raw() - m,
                        tau_raw(),
                    );
                    vstd::arithmetic::div_mod::lemma_small_mod(
                        (tau_raw() - m) as nat,
                        tau_raw() as nat,
                    );
                }
            }
            assert(x == a % tau_raw());
        }
        let mut negate = false;
        if x > 13_493_037_705 {
            x = x - 13_493_037_705;
            negate = true;
        }
        if x > 6_746_518_852 {
            x = 13_493_037_705 - x;
        }
        let x = Fx(x);
        let x2 = x * x;
        let x3 = x2 * x;
        let x5 = x3 * x2;
        let x7 = x5 * x2;
        let x9 = x7 * x2;
        let result = x - x3 * Fx::from_ratio(1, 6) + x5 * Fx::from_ratio(1, 120) - x7
            * Fx::from_ratio(1, 5040) + x9 * Fx::from_ratio(1, 362_880);
        if negate {
            result.neg()
        } else {
            result
        }
    }

    /// Cosine, defined as `sin(x + π/2)`.
    pub fn cos(self) -> (r: Fx)
        ensures
            r == fx_cos(self),
    {
        (self + Fx::frac_pi_2()).sin()
    }

    /// Tangent; saturates near the poles rather than dividing by zero.
    pub fn tan(self) -> (r: Fx)
        ensures
            r == fx_tan(self),
    {
        let cos = self.cos();
        if -16 < cos.0 && cos.0 < 16 {
            if self.sin().is_negative() {
                Fx::min_value()
            } else {
                Fx::max_value()
            }
        } else {
            self.sin() / cos
        }
    }

    /// Two-argument arctangent covering all four quadrants, in `(-π, π]`,
    /// from a fit in the normalised ratio `(x ∓ |y|) / (x ± |y|)`, which stays
    /// within `[-1, 1]`; its error is about `1.5e-3` radians.
    pub fn atan2(y: Fx, x: Fx) -> (r: Fx)
        ensures
            r == fx_atan2(y, x),
    {
        if x.is_zero() && y.is_zero() {
            return Fx::zero();
        }
        let abs_y = y.abs();
        let angle = if !x.is_negative() {
            let ratio = (x - abs_y) / (x + abs_y);
            Fx::frac_pi_4() - atan_of_ratio(ratio)
        } else {
            let ratio = (x + abs_y) / (abs_y - x);
            Fx::frac_pi_4() * 3 - atan_of_ratio(ratio)
        };
        if y.is_negative() {
            angle.neg()
        } else {
            angle
        }
    }
}

/// The arctangent fit of [`atan_fit`] for one ratio.
fn atan_of_ratio(ratio: Fx) -> (r: Fx)
    ensures
        r == fx_sub(
            fx_mul(Fx(quarter_pi_raw() as i64), ratio),
            fx_mul(
                fx_mul(ratio, fx_sub(fx_abs(ratio), Fx(4294967296))),
                fx_add(fx_ratio(2447, 10_000), fx_mul(fx_ratio(663, 10_000), fx_abs(ratio))),
            ),
        ),
{
    let k1 = Fx::from_ratio(2447, 10_000);
    let k2 = Fx::from_ratio(663, 10_000);
    let a = ratio.abs();
    Fx::frac_pi_4() * ratio - ratio * (a - Fx::one()) * (k1 + k2 * a)
}

/// The square root of a whole perfect square is exact.
pub proof fn lemma_sqrt_of_square_is_exact(k: int)
    requires
        0 <= k,
        k * k <= i32::MAX,
    ensures
        fx_sqrt(fx_int(k * k)) == fx_int(k),
{
    assert(k <= 46341) by (nonlinear_arith)
        requires
            0 <= k,
            k * k <= i32::MAX,
    ;
    let root = k * scale();
    let n = (k * k) * scale() * scale();
    assert(fx_int(k * k).0 == (k * k) * scale());
    assert(root * root == n) by (nonlinear_arith)
        requires
            root == k * 4294967296,
            n == (k * k) * 4294967296 * 4294967296,
    ;
    assert(n < (root + 1) * (root + 1)) by (nonlinear_arith)
        requires
            root >= 0,
            root * root == n,
    ;
    assert(0 <= root);
    assert(is_floor_sqrt((root as i64) as int, fx_int(k * k).0 * scale()));
    let c = choose|r: i64| #[trigger] is_floor_sqrt(r as int, fx_int(k * k).0 * scale());
    lemma_floor_sqrt_unique(c as int, root, n);
}

/// Shorthand for [`Fx::from_num`].
pub fn fx(value: i32) -> (r: Fx)
    ensures
        r == fx_int(value as int),
        r.0 == value * scale(),
{
    Fx::from_num(value)
}

impl Add for Fx {
    type Output = Fx;

    fn add(self, other: Fx) -> (r: Fx) {
        saturating_raw_add(self, other)
    }
}

/// The saturating sum behind `+`.
fn saturating_raw_add(a: Fx, b: Fx) -> (r: Fx)
    ensures
        r == fx_add(a, b),
{
    Fx(saturate_i128(a.0 as i128 + b.0 as i128))
}

/// The saturating difference behind `-`.
fn saturating_raw_sub(a: Fx, b: Fx) -> (r: Fx)
    ensures
        r == fx_sub(a, b),
{
    Fx(saturate_i128(a.0 as i128 - b.0 as i128))
}

/// The saturating product behind `*`.
fn saturating_raw_mul(a: Fx, b: Fx) -> (r: Fx)
    ensures
        r == fx_mul(a, b),
{
    Fx(saturate_i128(floor_div_scale(wide_mul(a.0, b.0))))
}

/// The saturating quotient behind `/`.
fn saturating_raw_div(a: Fx, b: Fx) -> (r: Fx)
    requires
        b.0 != 0,
    ensures
        r == fx_div(a, b),
{
    Fx(saturate_i128(trunc_div_i128(a.0 as i128 * 4294967296i128, b.0 as i128)))
}

impl vstd::std_specs::ops::AddSpecImpl for Fx {
    open spec fn obeys_add_spec() -> bool {
        true
    }

    open spec fn add_req(self, rhs: Fx) -> bool {
        true
    }

    open spec fn add_spec(self, rhs: Fx) -> Fx {
        fx_add(self, rhs)
    }
}

impl Sub for Fx {
    type Output = Fx;

    fn sub(self, other: Fx) -> (r: Fx) {
        saturating_raw_sub(self, other)
    }
}

impl vstd::std_specs::ops::SubSpecImpl for Fx {
    open spec fn obeys_sub_spec() -> bool {
        true
    }

    open spec fn sub_req(self, rhs: Fx) -> bool {
        true
    }

    open spec fn sub_spec(self, rhs: Fx) -> Fx {
        fx_sub(self, rhs)
    }
}

impl Mul for Fx {
    type Output = Fx;

    fn mul(self, other: Fx) -> (r: Fx) {
        saturating_raw_mul(self, other)
    }
}

impl vstd::std_specs::ops::MulSpecImpl for Fx {
    open spec fn obeys_mul_spec() -> bool {
        true
    }

    open spec fn mul_req(self, rhs: Fx) -> bool {
        true
    }

    open spec fn mul_spec(self, rhs: Fx) -> Fx {
        fx_mul(self, rhs)
    }
}

impl Div for Fx {
    type Output = Fx;

    /// Division by zero is a simulation bug and is left out.
    fn div(self, other: Fx) -> (r: Fx) {
        saturating_raw_div(self, other)
    }
}

impl vstd::std_specs::ops::DivSpecImpl for Fx {
    open spec fn obeys_div_spec() -> bool {
        true
    }

    open spec fn div_req(self, rhs: Fx) -> bool {
        rhs.0 != 0
    }

    open spec fn div_spec(self, rhs: Fx) -> Fx {
        fx_div(self, rhs)
    }
}

impl Rem for Fx {
    type Output = Fx;

    /// Remainder of the raw values, with the sign of `self`.
    fn rem(self, other: Fx) -> (r: Fx) {
        let a = self.0 as i128;
        let b = other.0 as i128;
        let ux: u128 = if a >= 0 { a as u128 } else { (-a) as u128 };
        let uy: u128 = if b >= 0 { b as u128 } else { (-b) as u128 };
        let m = ux % uy;
        proof {
            vstd::arithmetic::div_mod::lemma_fundamental_div_mod(ux as int, uy as int);
            let q = ux as int / uy as int;
            let ai = a as int;
            let bi = b as int;
            assert(ai - bi * trunc_div(ai, bi) == (if ai >= 0 { m as int } else { -(m as int) }))
                by (nonlinear_arith)
                requires
                    ux as int == abs_int(ai),
                    uy as int == abs_int(bi),
                    bi != 0,
                    ux as int == uy as int * q + m as int,
                    trunc_div(ai, bi) == (if (ai >= 0) == (bi >= 0) { q } else { -q }),
            ;
        }
        if a >= 0 {
            Fx(m as i64)
        } else {
            Fx(-(m as i64))
        }
    }
}

impl vstd::std_specs::ops::RemSpecImpl for Fx {
    open spec fn obeys_rem_spec() -> bool {
        true
    }

    open spec fn rem_req(self, rhs: Fx) -> bool {
        rhs.0 != 0 && !(self.0 == i64::MIN && rhs.0 == -1)
    }

    open spec fn rem_spec(self, rhs: Fx) -> Fx {
        Fx(trunc_rem(self.0 as int, rhs.0 as int) as i64)
    }
}

impl Neg for Fx {
    type Output = Fx;

    fn neg(self) -> (r: Fx) {
        if self.0 == i64::MIN {
            Fx(i64::MAX)
        } else {
            Fx(-self.0)
        }
    }
}

impl vstd::std_specs::ops::NegSpecImpl for Fx {
    open spec fn obeys_neg_spec() -> bool {
        true
    }

    open spec fn neg_req(self) -> bool {
        true
    }

    open spec fn neg_spec(self) -> Fx {
        fx_neg(self)
    }
}

impl Mul<i32> for Fx {
    type Output = Fx;

    fn mul(self, scalar: i32) -> (r: Fx) {
        Fx(saturate_i128(wide_mul(self.0, scalar as i64)))
    }
}

impl vstd::std_specs::ops::MulSpecImpl<i32> for Fx {
    open spec fn obeys_mul_spec() -> bool {
        true
    }

    open spec fn mul_req(self, rhs: i32) -> bool {
        true
    }

    open spec fn mul_spec(self, rhs: i32) -> Fx {
        fx_mul_int(self, rhs)
    }
}

impl Div<i32> for Fx {
    type Output = Fx;

    fn div(self, divisor: i32) -> (r: Fx) {
        Fx(trunc_div_i128(self.0 as i128, divisor as i128) as i64)
    }
}

impl vstd::std_specs::ops::DivSpecImpl<i32> for Fx {
    open spec fn obeys_div_spec() -> bool {
        true
    }

    open spec fn div_req(self, rhs: i32) -> bool {
        rhs != 0 && !(self.0 == i64::MIN && rhs == -1)
    }

    open spec fn div_spec(self, rhs: i32) -> Fx {
        fx_div_int(self, rhs)
    }
}

impl AddAssign for Fx {
    fn add_assign(&mut self, other: Fx) {
        *self = *self + other;
    }
}

impl SubAssign for Fx {
    fn sub_assign(&mut self, other: Fx) {
        *self = *self - other;
    }
}

impl MulAssign for Fx {
    fn mul_assign(&mut self, other: Fx) {
        *self = *self * other;
    }
}

impl From<i32> for Fx {
    fn from(value: i32) -> (r: Fx) {
        Fx::from_num(value)
    }
}

impl vstd::std_specs::convert::FromSpecImpl<i32> for Fx {
    open spec fn obeys_from_spec() -> bool {
        true
    }

    open spec fn from_spec(value: i32) -> Fx {
        fx_int(value as int)
    }
}

} // verus!
