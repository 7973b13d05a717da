//! How far the fixed-point sine polynomial strays from the unit interval over
//! the first quadrant, where the sine easing curves evaluate it.
//!
//! The polynomial is computed with floored products, so the bound is proved on
//! raw values: the floors cost at most a few units in the last place, and the
//! exact polynomial, written as `x` times a factor that falls as `x` grows, is
//! bounded piece by piece over `[0, π/2]`.
use crate::fixed::{fx_add, fx_cos, fx_sin, sin_poly, Fx};
use vstd::prelude::*;

verus! {

/// `2^32`, one in raw units.
pub open spec fn unit() -> int {
    4294967296
}

/// The raw value of π/2, the end of the first quadrant.
pub open spec fn quadrant_end() -> int {
    6_746_518_852
}

/// The largest raw value that `1.001` rounds to.
pub open spec fn sine_ceiling() -> int {
    4_299_262_263
}

/// The polynomial's floored square `x²`.
pub open spec fn sq_raw(x: int) -> int {
    (x * x) / 4294967296
}

/// The polynomial's floored `x³`.
pub open spec fn cube_raw(x: int) -> int {
    (sq_raw(x) * x) / 4294967296
}

/// The polynomial's floored `x⁵`.
pub open spec fn fifth_raw(x: int) -> int {
    (cube_raw(x) * sq_raw(x)) / 4294967296
}

/// The polynomial's floored `x⁷`.
pub open spec fn seventh_raw(x: int) -> int {
    (fifth_raw(x) * sq_raw(x)) / 4294967296
}

/// The polynomial's floored `x⁹`.
pub open spec fn ninth_raw(x: int) -> int {
    (seventh_raw(x) * sq_raw(x)) / 4294967296
}

/// [`sin_poly`] on a raw argument in the first quadrant, where nothing
/// saturates: `x - x³/6 + x⁵/120 - x⁷/5040 + x⁹/362880`, each term floored.
pub open spec fn sin_poly_raw(x: int) -> int {
    x - (cube_raw(x) * 715827882) / 4294967296 + (fifth_raw(x) * 35791394) / 4294967296 - (
    seventh_raw(x) * 852176) / 4294967296 + (ninth_raw(x) * 11835) / 4294967296
}

/// `2^160` times the factor `1 - w/6 + w²/120 - w³/5040 + w⁴/362880` at the
/// raw square `w`, with the polynomial's own coefficients.
pub open spec fn sine_factor(w: int) -> int {
    1461501637330902918203684832716283019655932542976 - 715827882
        * 79228162514264337593543950336 * w + 35791394 * 18446744073709551616 * (w * w) - 852176
        * 4294967296 * (w * w * w) + 11835 * (w * w * w * w)
}

/// A floored product lies within one unit below the exact one.
proof fn lemma_floor_product(a: int, b: int, q: int)
    requires
        0 <= a,
        0 <= b,
        q == (a * b) / 4294967296,
    ensures
        0 <= q,
        4294967296 * q <= a * b,
        a * b < 4294967296 * q + 4294967296,
{
    assert(0 <= q && 4294967296 * q <= a * b && a * b < 4294967296 * q + 4294967296)
        by (nonlinear_arith)
        requires
            0 <= a,
            0 <= b,
            q == (a * b) / 4294967296,
    ;
}

/// A floored product of bounded factors is bounded by the floored product
/// of the bounds.
proof fn lemma_floor_product_at_most(a: int, b: int, a_max: int, b_max: int, q: int, q_max: int)
    requires
        0 <= a <= a_max,
        0 <= b <= b_max,
        q == (a * b) / 4294967296,
        q_max == (a_max * b_max) / 4294967296,
    ensures
        0 <= q <= q_max,
{
    assert(0 <= q <= q_max) by (nonlinear_arith)
        requires
            0 <= a <= a_max,
            0 <= b <= b_max,
            q == (a * b) / 4294967296,
            q_max == (a_max * b_max) / 4294967296,
    ;
}

/// The floored powers over the first quadrant, with their largest values.
proof fn lemma_power_ranges(x: int)
    requires
        0 <= x <= quadrant_end(),
    ensures
        0 <= sq_raw(x) <= 10597407030,
        0 <= cube_raw(x) <= 16646368035,
        0 <= fifth_raw(x) <= 41073266798,
        0 <= seventh_raw(x) <= 101344223672,
        0 <= ninth_raw(x) <= 250056848952,
{
    assert((6746518852int * 6746518852) / 4294967296 == 10597407030) by (nonlinear_arith);
    assert((10597407030int * 6746518852) / 4294967296 == 16646368035) by (nonlinear_arith);
    assert((16646368035int * 10597407030) / 4294967296 == 41073266798) by (nonlinear_arith);
    assert((41073266798int * 10597407030) / 4294967296 == 101344223672) by (nonlinear_arith);
    assert((101344223672int * 10597407030) / 4294967296 == 250056848952) by (nonlinear_arith);
    lemma_floor_product_at_most(x, x, 6746518852, 6746518852, sq_raw(x), 10597407030);
    lemma_floor_product_at_most(
        sq_raw(x),
        x,
        10597407030,
        6746518852,
        cube_raw(x),
        16646368035,
    );
    lemma_floor_product_at_most(
        cube_raw(x),
        sq_raw(x),
        16646368035,
        10597407030,
        fifth_raw(x),
        41073266798,
    );
    lemma_floor_product_at_most(
        fifth_raw(x),
        sq_raw(x),
        41073266798,
        10597407030,
        seventh_raw(x),
        101344223672,
    );
    lemma_floor_product_at_most(
        seventh_raw(x),
        sq_raw(x),
        101344223672,
        10597407030,
        ninth_raw(x),
        250056848952,
    );
}

/// Over the first quadrant nothing saturates, and [`sin_poly`] is
/// [`sin_poly_raw`].
pub proof fn lemma_sin_poly_is_raw(x: int)
    requires
        0 <= x <= quadrant_end(),
    ensures
        sin_poly(Fx(x as i64)).0 == sin_poly_raw(x),
{
    lemma_power_ranges(x);
    assert(4294967296int / 6 == 715827882) by (nonlinear_arith);
    assert(4294967296int / 120 == 35791394) by (nonlinear_arith);
    assert(4294967296int / 5040 == 852176) by (nonlinear_arith);
    assert(4294967296int / 362880 == 11835) by (nonlinear_arith);
    lemma_floor_product_at_most(
        cube_raw(x),
        715827882,
        16646368035,
        715827882,
        (cube_raw(x) * 715827882) / 4294967296,
        (16646368035int * 715827882) / 4294967296,
    );
    lemma_floor_product_at_most(
        fifth_raw(x),
        35791394,
        41073266798,
        35791394,
        (fifth_raw(x) * 35791394) / 4294967296,
        (41073266798int * 35791394) / 4294967296,
    );
    lemma_floor_product_at_most(
        seventh_raw(x),
        852176,
        101344223672,
        852176,
        (seventh_raw(x) * 852176) / 4294967296,
        (101344223672int * 852176) / 4294967296,
    );
    lemma_floor_product_at_most(
        ninth_raw(x),
        11835,
        250056848952,
        11835,
        (ninth_raw(x) * 11835) / 4294967296,
        (250056848952int * 11835) / 4294967296,
    );
    assert((16646368035int * 715827882) / 4294967296 == 2774394669) by (nonlinear_arith);
    assert((41073266798int * 35791394) / 4294967296 == 342277222) by (nonlinear_arith);
    assert((101344223672int * 852176) / 4294967296 == 20107979) by (nonlinear_arith);
    assert((250056848952int * 11835) / 4294967296 == 689044) by (nonlinear_arith);
}

/// The factor falls as the raw square grows over the first quadrant.
proof fn lemma_sine_factor_falls(w1: int, w2: int)
    requires
        0 <= w1 <= w2 <= 10597407030,
    ensures
        sine_factor(w2) <= sine_factor(w1),
{
    let d = w2 - w1;
    let p = w2 * w2;
    let q = w1 * w1;
    assert(p - q <= d * 21194814060 && q <= p) by (nonlinear_arith)
        requires
            0 <= w1 <= w2 <= 10597407030,
            d == w2 - w1,
            p == w2 * w2,
            q == w1 * w1,
    ;
    assert(p + q <= 2 * (10597407030int * 10597407030)) by (nonlinear_arith)
        requires
            0 <= w1 <= w2 <= 10597407030,
            p == w2 * w2,
            q == w1 * w1,
    ;
    assert(w1 * w1 * w1 <= w2 * w2 * w2) by (nonlinear_arith)
        requires
            0 <= w1 <= w2,
    ;
    assert(w2 * w2 * w2 * w2 - w1 * w1 * w1 * w1 == (p - q) * (p + q)) by (nonlinear_arith)
        requires
            p == w2 * w2,
            q == w1 * w1,
    ;
    let quartic = (p - q) * (p + q);
    assert(quartic <= d * 4760568701848227871537635708000) by (nonlinear_arith)
        requires
            quartic == (p - q) * (p + q),
            0 <= p - q <= d * 21194814060,
            0 <= p + q <= 224610071518986841800,
    ;
    let cubic = w2 * w2 * w2 - w1 * w1 * w1;
    assert(sine_factor(w1) - sine_factor(w2) == 715827882 * 79228162514264337593543950336 * d
        - 35791394 * 18446744073709551616 * (p - q) + 852176 * 4294967296 * cubic - 11835
        * quartic) by (nonlinear_arith)
        requires
            d == w2 - w1,
            p == w2 * w2,
            q == w1 * w1,
            cubic == w2 * w2 * w2 - w1 * w1 * w1,
            quartic == w2 * w2 * w2 * w2 - w1 * w1 * w1 * w1,
    ;
    assert(0 <= d);
}


/// Over the first quadrant the polynomial is never negative.
proof fn lemma_sin_poly_raw_nonnegative(x: int)
    requires
        0 <= x <= quadrant_end(),
    ensures
        0 <= sin_poly_raw(x),
{
    lemma_power_ranges(x);
    let w = sq_raw(x);
    let c = cube_raw(x);
    let f = fifth_raw(x);
    let s = seventh_raw(x);
    let n = ninth_raw(x);
    let t3 = (c * 715827882) / 4294967296;
    let t5 = (f * 35791394) / 4294967296;
    let t7 = (s * 852176) / 4294967296;
    let t9 = (n * 11835) / 4294967296;
    lemma_floor_product(x, x, w);
    lemma_floor_product(w, x, c);
    lemma_floor_product(c, w, f);
    lemma_floor_product(f, w, s);
    lemma_floor_product(s, w, n);
    lemma_floor_product(c, 715827882, t3);
    lemma_floor_product(f, 35791394, t5);
    lemma_floor_product(s, 852176, t7);
    lemma_floor_product(n, 11835, t9);
    // t3 <= x w c6 / S², and x w <= x W.
    assert(4294967296 * 4294967296 * t3 <= 715827882 * (10597407030 * x)) by (nonlinear_arith)
        requires
            4294967296 * t3 <= c * 715827882,
            4294967296 * c <= w * x,
            0 <= w <= 10597407030,
            0 <= x,
    ;
    // t7 <= x w³ c5040 / S⁴, and x w³ <= x W³.
    assert(4294967296 * 4294967296 * 4294967296 * 4294967296 * t7 <= 852176 * (
    10597407030int * 10597407030 * 10597407030 * x)) by (nonlinear_arith)
        requires
            4294967296 * t7 <= s * 852176,
            4294967296 * s <= f * w,
            4294967296 * f <= c * w,
            4294967296 * c <= w * x,
            0 <= w <= 10597407030,
            0 <= x,
            0 <= c,
            0 <= f,
    ;
    assert(0 <= x - t3 - t7) by (nonlinear_arith)
        requires
            4294967296 * 4294967296 * t3 <= 715827882 * (10597407030 * x),
            4294967296 * 4294967296 * 4294967296 * 4294967296 * t7 <= 852176 * (
            10597407030int * 10597407030 * 10597407030 * x),
            0 <= x,
    ;
}

/// The floored `x³/6` against the exact product of `x`, its square and the
/// coefficient.
proof fn lemma_third_term(x: int, w: int, c: int, t3: int)
    by (nonlinear_arith)
    requires
        0 <= x,
        0 <= w,
        4294967296 * c <= w * x,
        w * x < 4294967296 * c + 4294967296,
        4294967296 * t3 <= c * 715827882,
        c * 715827882 < 4294967296 * t3 + 4294967296,
    ensures
        18446744073709551616 * t3 >= 715827882 * (x * w) - 2 * 18446744073709551616,
{
}

/// The floored `x⁵/120` is at most its exact counterpart.
proof fn lemma_fifth_term(x: int, w: int, c: int, f: int, t5: int)
    by (nonlinear_arith)
    requires
        0 <= x,
        0 <= w,
        0 <= c,
        4294967296 * c <= w * x,
        4294967296 * f <= c * w,
        4294967296 * t5 <= f * 35791394,
    ensures
        79228162514264337593543950336 * t5 <= 35791394 * (x * w * w),
{
    assert(4294967296 * (c * w) <= x * w * w);
}

/// The floored `x⁷/5040` falls short of its exact counterpart by less than
/// two units.
proof fn lemma_seventh_term(x: int, w: int, c: int, f: int, s: int, t7: int)
    by (nonlinear_arith)
    requires
        0 <= x,
        0 <= w <= 10597407030,
        w * x < 4294967296 * c + 4294967296,
        c * w < 4294967296 * f + 4294967296,
        f * w < 4294967296 * s + 4294967296,
        s * 852176 < 4294967296 * t7 + 4294967296,
    ensures
        340282366920938463463374607431768211456 * t7 >= 852176 * (x * w * w * w) - 2
            * 340282366920938463463374607431768211456,
{
    assert(x * w * w * w - 4294967296 * (w * w) <= 4294967296 * (c * w * w));
    assert(c * w * w - 4294967296 * w <= 4294967296 * (f * w));
    assert(w * w <= 10597407030 * w);
    assert(w * w <= 10597407030int * 10597407030);
}

/// The floored `x⁹/362880` is at most its exact counterpart.
proof fn lemma_ninth_term(x: int, w: int, c: int, f: int, s: int, n: int, t9: int)
    by (nonlinear_arith)
    requires
        0 <= x,
        0 <= w,
        0 <= c,
        0 <= f,
        0 <= s,
        4294967296 * c <= w * x,
        4294967296 * f <= c * w,
        4294967296 * s <= f * w,
        4294967296 * n <= s * w,
        4294967296 * t9 <= n * 11835,
    ensures
        1461501637330902918203684832716283019655932542976 * t9 <= 11835 * (x * w * w * w * w),
{
    assert(4294967296 * (s * w) <= f * w * w);
    assert(4294967296 * (f * w * w) <= c * w * w * w);
    assert(4294967296 * (c * w * w * w) <= x * w * w * w * w);
}

/// Distributing a product over the factor's five terms.
proof fn lemma_times_sum(x: int, a: int, b: int, c: int, d: int, e: int)
    by (nonlinear_arith)
    ensures
        x * (a - b + c - d + e) == x * a - x * b + x * c - x * d + x * e,
{
}

/// Moving a constant out of a product.
proof fn lemma_times_scaled(x: int, k: nat, m: int)
    by (nonlinear_arith)
    ensures
        x * (k * m) == k * (x * m),
{
}

/// A product with `2^160` written as five units.
proof fn lemma_times_unit_fifth(x: int)
    by (nonlinear_arith)
    ensures
        x * (unit() * unit() * unit() * unit() * unit())
            == 1461501637330902918203684832716283019655932542976 * x,
{
}

/// Regrouping a product with powers of `w`.
proof fn lemma_times_powers(x: int, w: int)
    by (nonlinear_arith)
    ensures
        x * (w * w) == x * w * w,
        x * (w * w * w) == x * w * w * w,
        x * (w * w * w * w) == x * w * w * w * w,
{
}

/// The four term bounds together.
proof fn lemma_terms_combined(x: int, w: int, t3: int, t5: int, t7: int, t9: int)
    requires
        18446744073709551616 * t3 >= 715827882 * (x * w) - 2 * 18446744073709551616,
        79228162514264337593543950336 * t5 <= 35791394 * (x * w * w),
        340282366920938463463374607431768211456 * t7 >= 852176 * (x * w * w * w) - 2
            * 340282366920938463463374607431768211456,
        1461501637330902918203684832716283019655932542976 * t9 <= 11835 * (x * w * w * w * w),
    ensures
        1461501637330902918203684832716283019655932542976 * (x - t3 + t5 - t7 + t9) <= x
            * sine_factor(w) + 4 * 1461501637330902918203684832716283019655932542976,
{
    lemma_times_sum(
        x,
        unit() * unit() * unit() * unit() * unit(),
        715827882 * 79228162514264337593543950336 * w,
        35791394 * 18446744073709551616 * (w * w),
        852176 * 4294967296 * (w * w * w),
        11835 * (w * w * w * w),
    );
    lemma_times_scaled(x, 715827882 * 79228162514264337593543950336, w);
    lemma_times_scaled(x, 35791394 * 18446744073709551616, w * w);
    lemma_times_scaled(x, 852176 * 4294967296, w * w * w);
    lemma_times_scaled(x, 11835, w * w * w * w);
    lemma_times_powers(x, w);
    lemma_times_unit_fifth(x);
}

/// `2^160` times the polynomial is at most `x` times the factor at its
/// floored square, give or take four units in the last place.
proof fn lemma_sin_poly_raw_below_factor(x: int)
    requires
        0 <= x <= quadrant_end(),
    ensures
        1461501637330902918203684832716283019655932542976 * sin_poly_raw(x) <= x * sine_factor(
            sq_raw(x),
        ) + 4 * 1461501637330902918203684832716283019655932542976,
{
    lemma_power_ranges(x);
    let w = sq_raw(x);
    let c = cube_raw(x);
    let f = fifth_raw(x);
    let s = seventh_raw(x);
    let n = ninth_raw(x);
    let t3 = (c * 715827882) / 4294967296;
    let t5 = (f * 35791394) / 4294967296;
    let t7 = (s * 852176) / 4294967296;
    let t9 = (n * 11835) / 4294967296;
    lemma_floor_product(w, x, c);
    lemma_floor_product(c, w, f);
    lemma_floor_product(f, w, s);
    lemma_floor_product(s, w, n);
    lemma_floor_product(c, 715827882, t3);
    lemma_floor_product(f, 35791394, t5);
    lemma_floor_product(s, 852176, t7);
    lemma_floor_product(n, 11835, t9);
    lemma_third_term(x, w, c, t3);
    lemma_fifth_term(x, w, c, f, t5);
    lemma_seventh_term(x, w, c, f, s, t7);
    lemma_ninth_term(x, w, c, f, s, n, t9);
    lemma_terms_combined(x, w, t3, t5, t7, t9);
}

/// On the piece `[a, b]`, with `wa` at most the floored `a²`, `b` times the
/// factor at `wa` keeps the polynomial under the ceiling.
pub open spec fn piece_fits(a: int, b: int, wa: int) -> bool {
    &&& wa * 4294967296 <= a * a
    &&& b * sine_factor(wa) + 4 * 1461501637330902918203684832716283019655932542976
        <= sine_ceiling() * 1461501637330902918203684832716283019655932542976
}

/// Over a piece `[a, b]` of the first quadrant, the polynomial is at most
/// `b` times the factor at a square no larger than `a²`; where that is
/// within the ceiling, so is the polynomial.
proof fn lemma_sin_poly_raw_on(x: int, a: int, b: int, wa: int)
    requires
        0 <= a <= x <= b <= quadrant_end(),
        0 <= wa,
        piece_fits(a, b, wa),
    ensures
        sin_poly_raw(x) <= sine_ceiling(),
{
    lemma_power_ranges(x);
    let w = sq_raw(x);
    lemma_floor_product(x, x, w);
    assert(a * a <= x * x) by (nonlinear_arith)
        requires
            0 <= a <= x,
    ;
    assert(wa <= w);
    lemma_sine_factor_falls(wa, w);
    lemma_sine_factor_falls(w, 10597407030);
    assert(0 < sine_factor(10597407030)) by (nonlinear_arith);
    let fw = sine_factor(w);
    let fa = sine_factor(wa);
    assert(x * fw <= b * fa) by (nonlinear_arith)
        requires
            0 <= x <= b,
            0 <= fw <= fa,
    ;
    lemma_sin_poly_raw_below_factor(x);
}

/// The first quadrant in pieces, each within the ceiling.
proof fn lemma_sin_poly_raw_pieces_0(x: int)
    requires
        0 <= x <= 5752835430,
    ensures
        sin_poly_raw(x) <= sine_ceiling(),
{
    if x <= 4299262259 {
        assert(piece_fits(0, 4299262259, 0)) by (nonlinear_arith);
        lemma_sin_poly_raw_on(x, 0, 4299262259, 0);
    } else if x <= 5111052081 {
        assert(piece_fits(4299262259, 5111052081, 4303561516)) by (nonlinear_arith);
        lemma_sin_poly_raw_on(x, 4299262259, 5111052081, 4303561516);
    } else if x <= 5510893657 {
        assert(piece_fits(5111052081, 5510893657, 6082200765)) by (nonlinear_arith);
        lemma_sin_poly_raw_on(x, 5111052081, 5510893657, 6082200765);
    } else {
        assert(piece_fits(5510893657, 5752835430, 7071054749)) by (nonlinear_arith);
        lemma_sin_poly_raw_on(x, 5510893657, 5752835430, 7071054749);
    }
}

proof fn lemma_sin_poly_raw_pieces_1(x: int)
    requires
        5752835430 <= x <= 6195498744,
    ensures
        sin_poly_raw(x) <= sine_ceiling(),
{
    if x <= 5916219594 {
        assert(piece_fits(5752835430, 5916219594, 7705557040)) by (nonlinear_arith);
        lemma_sin_poly_raw_on(x, 5752835430, 5916219594, 7705557040);
    } else if x <= 6034542318 {
        assert(piece_fits(5916219594, 6034542318, 8149457695)) by (nonlinear_arith);
        lemma_sin_poly_raw_on(x, 5916219594, 6034542318, 8149457695);
    } else if x <= 6124527996 {
        assert(piece_fits(6034542318, 6124527996, 8478691100)) by (nonlinear_arith);
        lemma_sin_poly_raw_on(x, 6034542318, 6124527996, 8478691100);
    } else {
        assert(piece_fits(6124527996, 6195498744, 8733440929)) by (nonlinear_arith);
        lemma_sin_poly_raw_on(x, 6124527996, 6195498744, 8733440929);
    }
}

proof fn lemma_sin_poly_raw_pieces_2(x: int)
    requires
        6195498744 <= x <= 6375947558,
    ensures
        sin_poly_raw(x) <= sine_ceiling(),
{
    if x <= 6253076098 {
        assert(piece_fits(6195498744, 6253076098, 8937019083)) by (nonlinear_arith);
        lemma_sin_poly_raw_on(x, 6195498744, 6253076098, 8937019083);
    } else if x <= 6300857512 {
        assert(piece_fits(6253076098, 6300857512, 9103901844)) by (nonlinear_arith);
        lemma_sin_poly_raw_on(x, 6253076098, 6300857512, 9103901844);
    } else if x <= 6341254954 {
        assert(piece_fits(6300857512, 6341254954, 9243564071)) by (nonlinear_arith);
        lemma_sin_poly_raw_on(x, 6300857512, 6341254954, 9243564071);
    } else {
        assert(piece_fits(6341254954, 6375947558, 9362472778)) by (nonlinear_arith);
        lemma_sin_poly_raw_on(x, 6341254954, 6375947558, 9362472778);
    }
}

proof fn lemma_sin_poly_raw_pieces_3(x: int)
    requires
        6375947558 <= x <= 6477585718,
    ensures
        sin_poly_raw(x) <= sine_ceiling(),
{
    if x <= 6406141153 {
        assert(piece_fits(6375947558, 6406141153, 9465195998)) by (nonlinear_arith);
        lemma_sin_poly_raw_on(x, 6375947558, 6406141153, 9465195998);
    } else if x <= 6432724589 {
        assert(piece_fits(6406141153, 6432724589, 9555054007)) by (nonlinear_arith);
        lemma_sin_poly_raw_on(x, 6406141153, 6432724589, 9555054007);
    } else if x <= 6456367837 {
        assert(piece_fits(6432724589, 6456367837, 9634519377)) by (nonlinear_arith);
        lemma_sin_poly_raw_on(x, 6432724589, 6456367837, 9634519377);
    } else {
        assert(piece_fits(6456367837, 6477585718, 9705472189)) by (nonlinear_arith);
        lemma_sin_poly_raw_on(x, 6456367837, 6477585718, 9705472189);
    }
}

proof fn lemma_sin_poly_raw_pieces_4(x: int)
    requires
        6477585718 <= x <= 6545120235,
    ensures
        sin_poly_raw(x) <= sine_ceiling(),
{
    if x <= 6496780569 {
        assert(piece_fits(6477585718, 6496780569, 9769368156)) by (nonlinear_arith);
        lemma_sin_poly_raw_on(x, 6477585718, 6496780569, 9769368156);
    } else if x <= 6514271540 {
        assert(piece_fits(6496780569, 6514271540, 9827352539)) by (nonlinear_arith);
        lemma_sin_poly_raw_on(x, 6496780569, 6514271540, 9827352539);
    } else if x <= 6530315188 {
        assert(piece_fits(6514271540, 6530315188, 9880339190)) by (nonlinear_arith);
        lemma_sin_poly_raw_on(x, 6514271540, 6530315188, 9880339190);
    } else {
        assert(piece_fits(6530315188, 6545120235, 9929066629)) by (nonlinear_arith);
        lemma_sin_poly_raw_on(x, 6530315188, 6545120235, 9929066629);
    }
}

proof fn lemma_sin_poly_raw_pieces_5(x: int)
    requires
        6545120235 <= x <= 6594986333,
    ensures
        sin_poly_raw(x) <= sine_ceiling(),
{
    if x <= 6558858346 {
        assert(piece_fits(6545120235, 6558858346, 9974138552)) by (nonlinear_arith);
        lemma_sin_poly_raw_on(x, 6545120235, 6558858346, 9974138552);
    } else if x <= 6571672117 {
        assert(piece_fits(6558858346, 6571672117, 10016053636)) by (nonlinear_arith);
        lemma_sin_poly_raw_on(x, 6558858346, 6571672117, 10016053636);
    } else if x <= 6583681088 {
        assert(piece_fits(6571672117, 6583681088, 10055227767)) by (nonlinear_arith);
        lemma_sin_poly_raw_on(x, 6571672117, 6583681088, 10055227767);
    } else {
        assert(piece_fits(6583681088, 6594986333, 10092010877)) by (nonlinear_arith);
        lemma_sin_poly_raw_on(x, 6583681088, 6594986333, 10092010877);
    }
}

proof fn lemma_sin_poly_raw_pieces_6(x: int)
    requires
        6594986333 <= x <= 6634723163,
    ensures
        sin_poly_raw(x) <= sine_ceiling(),
{
    if x <= 6605673999 {
        assert(piece_fits(6594986333, 6605673999, 10126699864)) by (nonlinear_arith);
        lemma_sin_poly_raw_on(x, 6594986333, 6605673999, 10126699864);
    } else if x <= 6615818068 {
        assert(piece_fits(6605673999, 6615818068, 10159548600)) by (nonlinear_arith);
        lemma_sin_poly_raw_on(x, 6605673999, 6615818068, 10159548600);
    } else if x <= 6625482539 {
        assert(piece_fits(6615818068, 6625482539, 10190775783)) by (nonlinear_arith);
        lemma_sin_poly_raw_on(x, 6615818068, 6625482539, 10190775783);
    } else {
        assert(piece_fits(6625482539, 6634723163, 10220571159)) by (nonlinear_arith);
        lemma_sin_poly_raw_on(x, 6625482539, 6634723163, 10220571159);
    }
}

proof fn lemma_sin_poly_raw_pieces_7(x: int)
    requires
        6634723163 <= x <= 6668344762,
    ensures
        sin_poly_raw(x) <= sine_ceiling(),
{
    if x <= 6643588840 {
        assert(piece_fits(6634723163, 6643588840, 10249100497)) by (nonlinear_arith);
        lemma_sin_poly_raw_on(x, 6634723163, 6643588840, 10249100497);
    } else if x <= 6652122748 {
        assert(piece_fits(6643588840, 6652122748, 10276509606)) by (nonlinear_arith);
        lemma_sin_poly_raw_on(x, 6643588840, 6652122748, 10276509606);
    } else if x <= 6660363272 {
        assert(piece_fits(6652122748, 6660363272, 10302927590)) by (nonlinear_arith);
        lemma_sin_poly_raw_on(x, 6652122748, 6660363272, 10302927590);
    } else {
        assert(piece_fits(6660363272, 6668344762, 10328469545)) by (nonlinear_arith);
        lemma_sin_poly_raw_on(x, 6660363272, 6668344762, 10328469545);
    }
}

proof fn lemma_sin_poly_raw_pieces_8(x: int)
    requires
        6668344762 <= x <= 6698259088,
    ensures
        sin_poly_raw(x) <= sine_ceiling(),
{
    if x <= 6676098173 {
        assert(piece_fits(6668344762, 6676098173, 10353238756)) by (nonlinear_arith);
        lemma_sin_poly_raw_on(x, 6668344762, 6676098173, 10353238756);
    } else if x <= 6683651590 {
        assert(piece_fits(6676098173, 6683651590, 10377328567)) by (nonlinear_arith);
        lemma_sin_poly_raw_on(x, 6676098173, 6683651590, 10377328567);
    } else if x <= 6691030683 {
        assert(piece_fits(6683651590, 6691030683, 10400823917)) by (nonlinear_arith);
        lemma_sin_poly_raw_on(x, 6683651590, 6691030683, 10400823917);
    } else {
        assert(piece_fits(6691030683, 6698259088, 10423802677)) by (nonlinear_arith);
        lemma_sin_poly_raw_on(x, 6691030683, 6698259088, 10423802677);
    }
}

proof fn lemma_sin_poly_raw_pieces_9(x: int)
    requires
        6698259088 <= x <= 6726084724,
    ensures
        sin_poly_raw(x) <= sine_ceiling(),
{
    if x <= 6705358737 {
        assert(piece_fits(6698259088, 6705358737, 10446336774)) by (nonlinear_arith);
        lemma_sin_poly_raw_on(x, 6698259088, 6705358737, 10446336774);
    } else if x <= 6712350146 {
        assert(piece_fits(6705358737, 6712350146, 10468493167)) by (nonlinear_arith);
        lemma_sin_poly_raw_on(x, 6705358737, 6712350146, 10468493167);
    } else if x <= 6719252669 {
        assert(piece_fits(6712350146, 6719252669, 10490334705)) by (nonlinear_arith);
        lemma_sin_poly_raw_on(x, 6712350146, 6719252669, 10490334705);
    } else {
        assert(piece_fits(6719252669, 6726084724, 10511920887)) by (nonlinear_arith);
        lemma_sin_poly_raw_on(x, 6719252669, 6726084724, 10511920887);
    }
}

proof fn lemma_sin_poly_raw_pieces_10(x: int)
    requires
        6726084724 <= x <= 6746518852,
    ensures
        sin_poly_raw(x) <= sine_ceiling(),
{
    if x <= 6732863996 {
        assert(piece_fits(6726084724, 6732863996, 10533308543)) by (nonlinear_arith);
        lemma_sin_poly_raw_on(x, 6726084724, 6732863996, 10533308543);
    } else if x <= 6739607629 {
        assert(piece_fits(6732863996, 6739607629, 10554552448)) by (nonlinear_arith);
        lemma_sin_poly_raw_on(x, 6732863996, 6739607629, 10554552448);
    } else if x <= 6746332398 {
        assert(piece_fits(6739607629, 6746332398, 10575705904)) by (nonlinear_arith);
        lemma_sin_poly_raw_on(x, 6739607629, 6746332398, 10575705904);
    } else {
        assert(piece_fits(6746332398, 6746518852, 10596821276)) by (nonlinear_arith);
        lemma_sin_poly_raw_on(x, 6746332398, 6746518852, 10596821276);
    }
}

/// Over the first quadrant the polynomial stays between 0 and 1.001.
pub proof fn lemma_sin_poly_raw_bounds(x: int)
    requires
        0 <= x <= quadrant_end(),
    ensures
        0 <= sin_poly_raw(x) <= sine_ceiling(),
{
    lemma_sin_poly_raw_nonnegative(x);
    if x <= 5752835430 {
        lemma_sin_poly_raw_pieces_0(x);
    } else if x <= 6195498744 {
        lemma_sin_poly_raw_pieces_1(x);
    } else if x <= 6375947558 {
        lemma_sin_poly_raw_pieces_2(x);
    } else if x <= 6477585718 {
        lemma_sin_poly_raw_pieces_3(x);
    } else if x <= 6545120235 {
        lemma_sin_poly_raw_pieces_4(x);
    } else if x <= 6594986333 {
        lemma_sin_poly_raw_pieces_5(x);
    } else if x <= 6634723163 {
        lemma_sin_poly_raw_pieces_6(x);
    } else if x <= 6668344762 {
        lemma_sin_poly_raw_pieces_7(x);
    } else if x <= 6698259088 {
        lemma_sin_poly_raw_pieces_8(x);
    } else if x <= 6726084724 {
        lemma_sin_poly_raw_pieces_9(x);
    } else {
        lemma_sin_poly_raw_pieces_10(x);
    }
}

/// [`sin_poly`] over the first quadrant stays between 0 and 1.001.
pub proof fn lemma_sin_poly_in_first_quadrant(x: int)
    requires
        0 <= x <= quadrant_end(),
    ensures
        0 <= sin_poly(Fx(x as i64)).0 <= sine_ceiling(),
{
    lemma_sin_poly_is_raw(x);
    lemma_sin_poly_raw_bounds(x);
}

/// The fixed-point sine, at any angle, stays within 1.001 of zero: the
/// argument is folded into the first quadrant, where the polynomial is
/// bounded.
pub proof fn lemma_sine_bounded(a: Fx)
    ensures
        -sine_ceiling() <= fx_sin(a).0 <= sine_ceiling(),
{
    let r = (a.0 as int) % 26_986_075_409;
    assert(0 <= r < 26_986_075_409);
    let r1 = if r > 13_493_037_705 { r - 13_493_037_705 } else { r };
    let r2 = if r1 > 6_746_518_852 { 13_493_037_705 - r1 } else { r1 };
    assert(0 <= r2 <= 6_746_518_852);
    lemma_sin_poly_in_first_quadrant(r2);
}

/// The fixed-point cosine stays within 1.001 of zero.
pub proof fn lemma_cosine_bounded(a: Fx)
    ensures
        -sine_ceiling() <= fx_cos(a).0 <= sine_ceiling(),
{
    lemma_sine_bounded(fx_add(a, Fx(6_746_518_852)));
}

} // verus!
