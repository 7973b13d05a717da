//! Easing curves for tweens, camera moves and UI transitions, in fixed point.
//!
//! Every curve maps `[0, 1]` to a value that starts at 0 and ends at 1; input
//! outside the unit interval is clamped first.
use crate::fixed::{
    fx_add, fx_clamp, fx_cos, fx_div, fx_div_int, fx_lerp, fx_max, fx_mul, fx_mul_int, fx_ratio,
    fx_sin, fx_sqrt, fx_sub, saturate, Fx,
};
use vstd::prelude::*;

verus! {

/// A named easing curve.
#[derive(Clone, Copy, PartialEq, Eq, Structural, Debug, Default, Hash)]
pub enum Easing {
    #[default]
    Linear,
    QuadIn,
    QuadOut,
    QuadInOut,
    CubicIn,
    CubicOut,
    CubicInOut,
    QuartIn,
    QuartOut,
    SineIn,
    SineOut,
    SineInOut,
    CircIn,
    CircOut,
    BackIn,
    BackOut,
    ElasticOut,
    BounceOut,
}

/// `1` in fixed point.
pub open spec fn one() -> Fx {
    Fx(4294967296)
}

/// `2` in fixed point.
pub open spec fn two() -> Fx {
    Fx(8589934592)
}

/// `½` in fixed point.
pub open spec fn half() -> Fx {
    Fx(2147483648)
}

/// The piecewise-parabolic bounce, from Robert Penner's equations.
pub open spec fn bounce_spec(t: Fx) -> Fx {
    let n1 = fx_add(fx_ratio(75, 10), fx_ratio(625, 10_000));
    let d1 = fx_ratio(275, 100);
    if t.0 < fx_div(one(), d1).0 {
        fx_mul(fx_mul(n1, t), t)
    } else if t.0 < fx_div(two(), d1).0 {
        let shifted = fx_sub(t, fx_div(fx_ratio(15, 10), d1));
        fx_add(fx_mul(fx_mul(n1, shifted), shifted), fx_ratio(75, 100))
    } else if t.0 < fx_div(fx_ratio(25, 10), d1).0 {
        let shifted = fx_sub(t, fx_div(fx_ratio(225, 100), d1));
        fx_add(fx_mul(fx_mul(n1, shifted), shifted), fx_ratio(9375, 10_000))
    } else {
        let shifted = fx_sub(t, fx_div(fx_ratio(2625, 1000), d1));
        fx_add(fx_mul(fx_mul(n1, shifted), shifted), fx_ratio(984_375, 1_000_000))
    }
}

/// The curve evaluated at an input already clamped into `[0, 1]`.
pub open spec fn ease_clamped(e: Easing, t: Fx) -> Fx {
    match e {
        Easing::Linear => t,
        Easing::QuadIn => fx_mul(t, t),
        Easing::QuadOut => {
            let inverse = fx_sub(one(), t);
            fx_sub(one(), fx_mul(inverse, inverse))
        },
        Easing::QuadInOut => {
            if t.0 < half().0 {
                fx_mul(fx_mul(t, t), two())
            } else {
                let shifted = fx_sub(fx_mul(t, two()), two());
                fx_sub(one(), fx_mul(fx_mul(shifted, shifted), half()))
            }
        },
        Easing::CubicIn => fx_mul(fx_mul(t, t), t),
        Easing::CubicOut => {
            let inverse = fx_sub(one(), t);
            fx_sub(one(), fx_mul(fx_mul(inverse, inverse), inverse))
        },
        Easing::CubicInOut => {
            if t.0 < half().0 {
                fx_mul_int(fx_mul(fx_mul(t, t), t), 4)
            } else {
                let shifted = fx_sub(fx_mul(t, two()), two());
                fx_add(one(), fx_mul(fx_mul(fx_mul(shifted, shifted), shifted), half()))
            }
        },
        Easing::QuartIn => {
            let squared = fx_mul(t, t);
            fx_mul(squared, squared)
        },
        Easing::QuartOut => {
            let inverse = fx_sub(one(), t);
            let squared = fx_mul(inverse, inverse);
            fx_sub(one(), fx_mul(squared, squared))
        },
        Easing::SineIn => fx_sub(one(), fx_cos(fx_mul(t, Fx(6_746_518_852)))),
        Easing::SineOut => fx_sin(fx_mul(t, Fx(6_746_518_852))),
        Easing::SineInOut => fx_mul(fx_sub(one(), fx_cos(fx_mul(t, Fx(13_493_037_705)))), half()),
        Easing::CircIn => fx_sub(one(), fx_sqrt(fx_max(fx_sub(one(), fx_mul(t, t)), Fx(0)))),
        Easing::CircOut => {
            let shifted = fx_sub(t, one());
            fx_sqrt(fx_max(fx_sub(one(), fx_mul(shifted, shifted)), Fx(0)))
        },
        Easing::BackIn => {
            let overshoot = fx_ratio(170_158, 100_000);
            fx_mul(fx_mul(t, t), fx_sub(fx_mul(fx_add(overshoot, one()), t), overshoot))
        },
        Easing::BackOut => {
            let overshoot = fx_ratio(170_158, 100_000);
            let shifted = fx_sub(t, one());
            fx_add(
                one(),
                fx_mul(
                    fx_mul(shifted, shifted),
                    fx_add(fx_mul(fx_add(overshoot, one()), shifted), overshoot),
                ),
            )
        },
        Easing::ElasticOut => {
            if t.0 == 0 {
                Fx(0)
            } else if t.0 >= one().0 {
                one()
            } else {
                let period = fx_ratio(3, 10);
                let phase = fx_div(
                    fx_mul(fx_sub(t, fx_div_int(period, 4)), Fx(26_986_075_409)),
                    period,
                );
                let inverse = fx_sub(one(), t);
                let squared = fx_mul(inverse, inverse);
                fx_sub(one(), fx_mul(fx_mul(squared, squared), fx_cos(phase)))
            }
        },
        Easing::BounceOut => bounce_spec(t),
    }
}

/// The curve at `t`, after clamping `t` into `[0, 1]`.
pub open spec fn ease(e: Easing, t: Fx) -> Fx {
    ease_clamped(e, fx_clamp(t, Fx(0), one()))
}

/// The bounce curve.
fn bounce_out(t: Fx) -> (r: Fx)
    ensures
        r == bounce_spec(t),
{
    let n1 = Fx::from_ratio(75, 10);
    let n1 = n1 + Fx::from_ratio(625, 10_000);
    let d1 = Fx::from_ratio(275, 100);
    assert(d1.0 == 11811160064) by {
        assert(1181116006400int / 100 == 11811160064) by (nonlinear_arith);
    }
    if t.0 < (Fx::one() / d1).0 {
        n1 * t * t
    } else if t.0 < (Fx::two() / d1).0 {
        let shifted = t - Fx::from_ratio(15, 10) / d1;
        n1 * shifted * shifted + Fx::from_ratio(75, 100)
    } else if t.0 < (Fx::from_ratio(25, 10) / d1).0 {
        let shifted = t - Fx::from_ratio(225, 100) / d1;
        n1 * shifted * shifted + Fx::from_ratio(9375, 10_000)
    } else {
        let shifted = t - Fx::from_ratio(2625, 1000) / d1;
        n1 * shifted * shifted + Fx::from_ratio(984_375, 1_000_000)
    }
}

impl Easing {
    /// Evaluates the curve at `t`, which is clamped into `[0, 1]` first.
    pub fn apply(self, t: Fx) -> (r: Fx)
        ensures
            r == ease(self, t),
    {
        let t = t.clamp(Fx::zero(), Fx::one());
        match self {
            Easing::Linear => t,
            Easing::QuadIn => t * t,
            Easing::QuadOut => {
                let inverse = Fx::one() - t;
                Fx::one() - inverse * inverse
            },
            Easing::QuadInOut => {
                if t.0 < Fx::half().0 {
                    t * t * Fx::two()
                } else {
                    let shifted = t * Fx::two() - Fx::two();
                    Fx::one() - shifted * shifted * Fx::half()
                }
            },
            Easing::CubicIn => t * t * t,
            Easing::CubicOut => {
                let inverse = Fx::one() - t;
                Fx::one() - inverse * inverse * inverse
            },
            Easing::CubicInOut => {
                if t.0 < Fx::half().0 {
                    t * t * t * 4
                } else {
                    let shifted = t * Fx::two() - Fx::two();
                    Fx::one() + shifted * shifted * shifted * Fx::half()
                }
            },
            Easing::QuartIn => {
                let squared = t * t;
                squared * squared
            },
            Easing::QuartOut => {
                let inverse = Fx::one() - t;
                let squared = inverse * inverse;
                Fx::one() - squared * squared
            },
            Easing::SineIn => Fx::one() - (t * Fx::frac_pi_2()).cos(),
            Easing::SineOut => (t * Fx::frac_pi_2()).sin(),
            Easing::SineInOut => (Fx::one() - (t * Fx::pi()).cos()) * Fx::half(),
            Easing::CircIn => {
                proof {
                    crate::vec2::lemma_square_nonnegative(t);
                }
                Fx::one() - (Fx::one() - t * t).max(Fx::zero()).sqrt()
            },
            Easing::CircOut => {
                let shifted = t - Fx::one();
                (Fx::one() - shifted * shifted).max(Fx::zero()).sqrt()
            },
            Easing::BackIn => {
                let overshoot = Fx::from_ratio(170_158, 100_000);
                t * t * ((overshoot + Fx::one()) * t - overshoot)
            },
            Easing::BackOut => {
                let overshoot = Fx::from_ratio(170_158, 100_000);
                let shifted = t - Fx::one();
                Fx::one() + shifted * shifted * ((overshoot + Fx::one()) * shifted + overshoot)
            },
            Easing::ElasticOut => {
                if t.is_zero() {
                    return Fx::zero();
                }
                if t.0 >= Fx::one().0 {
                    return Fx::one();
                }
                let period = Fx::from_ratio(3, 10);
                assert(period.0 == 1288490188) by {
                    assert(12884901888int / 10 == 1288490188) by (nonlinear_arith);
                }
                let phase = (t - period / 4) * Fx::tau() / period;
                let inverse = Fx::one() - t;
                let squared = inverse * inverse;
                Fx::one() - squared * squared * phase.cos()
            },
            Easing::BounceOut => bounce_out(t),
        }
    }

    /// Eases from `start` to `end`: exactly `start` at `t <= 0` and exactly
    /// `end` at `t >= 1`.
    pub fn interpolate(self, start: Fx, end: Fx, t: Fx) -> (r: Fx)
        ensures
            t.0 <= 0 ==> r == start,
            t.0 >= one().0 ==> r == end,
            0 < t.0 < one().0 ==> r == fx_lerp(start, end, ease(self, t)),
    {
        if t.0 <= 0 {
            return start;
        }
        if t.0 >= Fx::one().0 {
            return end;
        }
        start.lerp(end, self.apply(t))
    }
}

/// Input outside `[0, 1]` is clamped: every curve gives at any `t` what it
/// gives at the nearer end of the unit interval.
pub proof fn lemma_input_is_clamped(e: Easing, t: Fx)
    ensures
        t.0 <= 0 ==> ease(e, t) == ease(e, Fx(0)),
        t.0 >= one().0 ==> ease(e, t) == ease(e, one()),
{
}

/// The sine curves stay within a thousandth of the unit interval: the
/// fixed-point sine they evaluate overshoots 1 by at most that much near the
/// end of its quadrant, and never dips below 0 there.
pub proof fn lemma_sine_curves_stay_near_unit_interval(e: Easing, t: Fx)
    requires
        e is SineIn || e is SineOut || e is SineInOut,
    ensures
        fx_ratio(-1, 1000).0 <= ease(e, t).0 <= fx_ratio(1001, 1000).0,
{
    assert(fx_ratio(-1, 1000).0 == -4294967) by (nonlinear_arith);
    assert(fx_ratio(1001, 1000).0 == 4299262263) by (nonlinear_arith);
    let c = fx_clamp(t, Fx(0), one());
    assert(0 <= c.0 <= 4294967296);
    match e {
        Easing::SineOut => {
            let arg = fx_mul(c, Fx(6_746_518_852));
            assert(0 <= arg.0 <= 6_746_518_852) by (nonlinear_arith)
                requires
                    0 <= c.0 <= 4294967296,
                    arg.0 == saturate((c.0 * 6_746_518_852) / 4294967296),
            ;
            assert((arg.0 as int) % 26_986_075_409 == arg.0);
            crate::sine_bounds::lemma_sin_poly_in_first_quadrant(arg.0 as int);
        },
        Easing::SineIn => {
            let arg = fx_mul(c, Fx(6_746_518_852));
            assert(0 <= arg.0 <= 6_746_518_852) by (nonlinear_arith)
                requires
                    0 <= c.0 <= 4294967296,
                    arg.0 == saturate((c.0 * 6_746_518_852) / 4294967296),
            ;
            let turned = fx_add(arg, Fx(6_746_518_852));
            assert((turned.0 as int) % 26_986_075_409 == turned.0);
            let folded = if turned.0 > 6_746_518_852 {
                13_493_037_705 - turned.0
            } else {
                turned.0 as int
            };
            crate::sine_bounds::lemma_sin_poly_in_first_quadrant(folded);
        },
        _ => {
            let arg = fx_mul(c, Fx(13_493_037_705));
            assert(0 <= arg.0 <= 13_493_037_705) by (nonlinear_arith)
                requires
                    0 <= c.0 <= 4294967296,
                    arg.0 == saturate((c.0 * 13_493_037_705) / 4294967296),
            ;
            let turned = fx_add(arg, Fx(6_746_518_852));
            assert((turned.0 as int) % 26_986_075_409 == turned.0);
            let folded = if turned.0 > 13_493_037_705 {
                turned.0 - 13_493_037_705
            } else if turned.0 > 6_746_518_852 {
                13_493_037_705 - turned.0
            } else {
                turned.0 as int
            };
            crate::sine_bounds::lemma_sin_poly_in_first_quadrant(folded);
            let cosine = fx_cos(fx_mul(c, Fx(13_493_037_705)));
            assert(-4299262263 <= cosine.0 <= 4299262263);
            let lifted = fx_sub(one(), cosine);
            assert(fx_mul(lifted, half()).0 == (lifted.0 as int * 2147483648) / 4294967296);
            assert(-4294967 <= (lifted.0 as int * 2147483648) / 4294967296 <= 4299262263)
                by (nonlinear_arith)
                requires
                    -4294967 <= lifted.0 <= 8594229559,
            ;
        },
    }
}

/// ElasticOut swings past its target: somewhere strictly inside the unit
/// interval it rises above one (at `t = ½` it is about 1.054, where the
/// cosine of its phase is about -0.866), unlike the quartic curve whose
/// envelope it follows.
pub proof fn lemma_elastic_overshoots_one()
    ensures
        exists|t: Fx| 0 < t.0 < one().0 && #[trigger] ease(Easing::ElasticOut, t).0 > one().0,
{
    let t = Fx(2147483648);
    assert(fx_clamp(t, Fx(0), one()) == t);
    let period = fx_ratio(3, 10);
    assert(period.0 == 1288490188) by {
        assert(12884901888int / 10 == 1288490188) by (nonlinear_arith);
    }
    assert(fx_div_int(period, 4).0 == 322122547) by (nonlinear_arith)
        requires
            period.0 == 1288490188,
    ;
    let lead = fx_sub(t, fx_div_int(period, 4));
    assert(lead.0 == 1825361101);
    assert(fx_mul(lead, Fx(26_986_075_409)).0 == 11469082050) by (nonlinear_arith)
        requires
            lead.0 == 1825361101,
    ;
    let phase = fx_div(fx_mul(lead, Fx(26_986_075_409)), period);
    assert(phase.0 == 38230273523) by (nonlinear_arith)
        requires
            fx_mul(lead, Fx(26_986_075_409)).0 == 11469082050,
            period.0 == 1288490188,
            phase == fx_div(fx_mul(lead, Fx(26_986_075_409)), period),
    ;
    let turned = fx_add(phase, Fx(6_746_518_852));
    assert(turned.0 == 44976792375);
    assert((turned.0 as int) % 26_986_075_409 == 17990716966);
    let x = 4497679261int;
    crate::sine_bounds::lemma_sin_poly_is_raw(x);
    assert(crate::sine_bounds::sq_raw(x) == 4709958735) by (nonlinear_arith)
        requires
            x == 4497679261,
    ;
    assert(crate::sine_bounds::cube_raw(x) == 4932257282) by (nonlinear_arith)
        requires
            x == 4497679261,
            crate::sine_bounds::sq_raw(x) == 4709958735,
    ;
    assert(crate::sine_bounds::fifth_raw(x) == 5408825415) by (nonlinear_arith)
        requires
            x == 4497679261,
            crate::sine_bounds::sq_raw(x) == 4709958735,
            crate::sine_bounds::cube_raw(x) == 4932257282,
    ;
    assert(crate::sine_bounds::seventh_raw(x) == 5931440859) by (nonlinear_arith)
        requires
            x == 4497679261,
            crate::sine_bounds::sq_raw(x) == 4709958735,
            crate::sine_bounds::fifth_raw(x) == 5408825415,
    ;
    assert(crate::sine_bounds::ninth_raw(x) == 6504552831) by (nonlinear_arith)
        requires
            x == 4497679261,
            crate::sine_bounds::sq_raw(x) == 4709958735,
            crate::sine_bounds::seventh_raw(x) == 5931440859,
    ;
    assert(crate::sine_bounds::sin_poly_raw(x) == 3719550976) by (nonlinear_arith)
        requires
            x == 4497679261,
            crate::sine_bounds::cube_raw(x) == 4932257282,
            crate::sine_bounds::fifth_raw(x) == 5408825415,
            crate::sine_bounds::seventh_raw(x) == 5931440859,
            crate::sine_bounds::ninth_raw(x) == 6504552831,
    ;
    let cosine = fx_cos(phase);
    assert(cosine.0 == -3719550976);
    let inverse = fx_sub(one(), t);
    let squared = fx_mul(inverse, inverse);
    assert(squared.0 == 1073741824) by (nonlinear_arith)
        requires
            inverse.0 == 2147483648,
            squared == fx_mul(inverse, inverse),
    ;
    let fourth = fx_mul(squared, squared);
    assert(fourth.0 == 268435456) by (nonlinear_arith)
        requires
            squared.0 == 1073741824,
            fourth == fx_mul(squared, squared),
    ;
    assert(fx_mul(fourth, cosine).0 == -232471936) by (nonlinear_arith)
        requires
            fourth.0 == 268435456,
            cosine.0 == -3719550976,
    ;
    assert(ease(Easing::ElasticOut, t).0 == 4527439232);
}

/// ElasticOut never strays from its target further than the quartic curve
/// does, give or take the thousandth the fixed-point cosine may overshoot:
/// `|elastic(t) - 1| <= 1.001 * (1 - quart_out(t))`, plus one unit in the
/// last place. Its swings die away as the quartic closes in on one.
pub proof fn lemma_elastic_stays_within_the_quartic_envelope(t: Fx)
    ensures
        1000 * crate::fixed::abs_int(ease(Easing::ElasticOut, t).0 - 4294967296) <= 1001 * (
        4294967296 - ease(Easing::QuartOut, t).0) + 1000,
{
    let c = fx_clamp(t, Fx(0), one());
    let inverse = fx_sub(one(), c);
    assert(0 <= inverse.0 <= 4294967296);
    lemma_unit_product(inverse, inverse);
    let squared = fx_mul(inverse, inverse);
    lemma_unit_product(squared, squared);
    let fourth = fx_mul(squared, squared);
    assert(0 <= fourth.0 <= 4294967296);
    if c.0 != 0 && c.0 < one().0 {
        let period = fx_ratio(3, 10);
        let phase = fx_div(
            fx_mul(fx_sub(c, fx_div_int(period, 4)), Fx(26_986_075_409)),
            period,
        );
        crate::sine_bounds::lemma_cosine_bounded(phase);
        let cosine = fx_cos(phase);
        let m = (fourth.0 as int * cosine.0 as int) / 4294967296;
        assert(1000 * crate::fixed::abs_int(m) <= 1001 * fourth.0 + 1000) by (nonlinear_arith)
            requires
                0 <= fourth.0 <= 4294967296,
                -4299262263 <= cosine.0 <= 4299262263,
                m == (fourth.0 as int * cosine.0 as int) / 4294967296,
        ;
        assert(fx_mul(fourth, cosine).0 == m);
        assert(ease(Easing::ElasticOut, t).0 == 4294967296 - m);
        assert(ease(Easing::QuartOut, t).0 == 4294967296 - fourth.0);
    } else if c.0 == 0 {
        assert(fx_mul(one(), one()) == one()) by (nonlinear_arith);
        assert(ease(Easing::QuartOut, t).0 == 0);
    } else {
        assert(fx_mul(Fx(0), Fx(0)) == Fx(0)) by (nonlinear_arith);
        assert(ease(Easing::ElasticOut, t).0 == 4294967296);
    }
}

/// The linear curve is the identity on the unit interval.
pub proof fn lemma_linear_is_identity(t: Fx)
    requires
        0 <= t.0 <= one().0,
    ensures
        ease(Easing::Linear, t) == t,
{
}

/// The sine polynomial's coefficients in fixed point.
proof fn lemma_sine_coefficients()
    ensures
        fx_ratio(1, 6) == Fx(715_827_882),
        fx_ratio(1, 120) == Fx(35_791_394),
        fx_ratio(1, 5040) == Fx(852_176),
        fx_ratio(1, 362_880) == Fx(11_835),
{
    assert(4294967296int / 6 == 715_827_882) by (nonlinear_arith);
    assert(4294967296int / 120 == 35_791_394) by (nonlinear_arith);
    assert(4294967296int / 5040 == 852_176) by (nonlinear_arith);
    assert(4294967296int / 362_880 == 11_835) by (nonlinear_arith);
}

/// The bounce curve's constants and its value at both ends.
proof fn lemma_bounce_ends()
    ensures
        bounce_spec(Fx(0)) == Fx(0),
        bounce_spec(one()) == one(),
{
    assert(32212254720int / 10 == 3_221_225_472) by (nonlinear_arith);
    assert(fx_ratio(75, 10) == Fx(32_212_254_720)) by {
        assert(322122547200int / 10 == 32_212_254_720) by (nonlinear_arith);
    }
    assert(fx_ratio(625, 10_000) == Fx(268_435_456)) by {
        assert(2684354560000int / 10_000 == 268_435_456) by (nonlinear_arith);
    }
    assert(fx_ratio(275, 100) == Fx(11_811_160_064)) by {
        assert(1181116006400int / 100 == 11_811_160_064) by (nonlinear_arith);
    }
    assert(fx_ratio(25, 10) == Fx(10_737_418_240)) by {
        assert(107374182400int / 10 == 10_737_418_240) by (nonlinear_arith);
    }
    assert(fx_ratio(2625, 1000) == Fx(11_274_289_152)) by {
        assert(11274289152000int / 1000 == 11_274_289_152) by (nonlinear_arith);
    }
    assert(fx_ratio(984_375, 1_000_000) == Fx(4_227_858_432)) by {
        assert(4227858432000000int / 1_000_000 == 4_227_858_432) by (nonlinear_arith);
    }
    let n1 = Fx(32_480_690_176);
    let d1 = Fx(11_811_160_064);
    assert(fx_div(one(), d1) == Fx(1_561_806_289)) by {
        assert(18446744073709551616int / 11_811_160_064 == 1_561_806_289) by (nonlinear_arith);
    }
    assert(fx_div(Fx(10_737_418_240), d1) == Fx(3_904_515_723)) by {
        assert(46116860184273879040int / 11_811_160_064 == 3_904_515_723) by (nonlinear_arith);
    }
    assert(fx_div(Fx(11_274_289_152), d1) == Fx(4_099_741_509)) by {
        assert(48422703193487572992int / 11_811_160_064 == 4_099_741_509) by (nonlinear_arith);
    }
    assert(fx_div(two(), d1).0 == 3_123_612_578) by {
        assert(36893488147419103232int / 11_811_160_064 == 3_123_612_578) by (nonlinear_arith);
    }
    assert(fx_mul(fx_mul(n1, Fx(0)), Fx(0)) == Fx(0));
    assert(fx_mul(n1, Fx(195_225_787)) == Fx(1_476_395_014)) by {
        assert(32_480_690_176int * 195_225_787 / 4294967296 == 1_476_395_014) by (nonlinear_arith);
    }
    assert(fx_mul(Fx(1_476_395_014), Fx(195_225_787)) == Fx(67_108_864)) by {
        assert(1_476_395_014int * 195_225_787 / 4294967296 == 67_108_864) by (nonlinear_arith);
    }
}

/// The sine polynomial at a quarter turn and at one unit in the last place.
proof fn lemma_sin_poly_at_ends()
    ensures
        crate::fixed::sin_poly(Fx(6_746_518_852)) == Fx(4_294_982_470),
        crate::fixed::sin_poly(Fx(1)) == Fx(1),
        crate::fixed::sin_poly(Fx(0)) == Fx(0),
{
    let x = Fx(6_746_518_852);
    lemma_sine_coefficients();
    assert(fx_mul(x, x) == Fx(10_597_407_030));
    assert(fx_mul(Fx(10_597_407_030), x) == Fx(16_646_368_035));
    assert(fx_mul(Fx(16_646_368_035), Fx(10_597_407_030)) == Fx(41_073_266_798)) by (nonlinear_arith);
    assert(fx_mul(Fx(41_073_266_798), Fx(10_597_407_030)) == Fx(101_344_223_672)) by (nonlinear_arith);
    assert(fx_mul(Fx(101_344_223_672), Fx(10_597_407_030)) == Fx(250_056_848_952)) by (nonlinear_arith);
    assert(fx_mul(Fx(16_646_368_035), Fx(715_827_882)) == Fx(2_774_394_669)) by (nonlinear_arith);
    assert(fx_mul(Fx(41_073_266_798), Fx(35_791_394)) == Fx(342_277_222)) by (nonlinear_arith);
    assert(fx_mul(Fx(101_344_223_672), Fx(852_176)) == Fx(20_107_979)) by (nonlinear_arith);
    assert(fx_mul(Fx(250_056_848_952), Fx(11_835)) == Fx(689_044)) by (nonlinear_arith);
    let one_ulp = Fx(1);
    assert(fx_mul(one_ulp, one_ulp) == Fx(0));
    assert(fx_mul(Fx(0), one_ulp) == Fx(0));
    assert(fx_mul(Fx(0), Fx(0)) == Fx(0)) by (nonlinear_arith);
    assert(fx_mul(Fx(0), Fx(715_827_882)) == Fx(0)) by (nonlinear_arith);
    assert(fx_mul(Fx(0), Fx(35_791_394)) == Fx(0)) by (nonlinear_arith);
    assert(fx_mul(Fx(0), Fx(852_176)) == Fx(0)) by (nonlinear_arith);
    assert(fx_mul(Fx(0), Fx(11_835)) == Fx(0)) by (nonlinear_arith);
}

/// The sine curves at both ends.
proof fn lemma_sine_ends()
    ensures
        -4294967 <= ease_clamped(Easing::SineIn, Fx(0)).0 <= 4294967,
        4294967296 - 4294967 <= ease_clamped(Easing::SineIn, one()).0 <= 4294967296 + 4294967,
        -4294967 <= ease_clamped(Easing::SineOut, Fx(0)).0 <= 4294967,
        4294967296 - 4294967 <= ease_clamped(Easing::SineOut, one()).0 <= 4294967296 + 4294967,
        -4294967 <= ease_clamped(Easing::SineInOut, Fx(0)).0 <= 4294967,
        4294967296 - 4294967 <= ease_clamped(Easing::SineInOut, one()).0 <= 4294967296 + 4294967,
{
    lemma_sin_poly_at_ends();
    assert(fx_sin(Fx(6_746_518_852)) == Fx(4_294_982_470));
    assert(fx_sin(Fx(0)) == crate::fixed::sin_poly(Fx(0)));
    assert(fx_cos(Fx(0)) == Fx(4_294_982_470));
    assert(fx_add(Fx(6_746_518_852), Fx(crate::fixed::half_pi_raw() as i64)) == Fx(13_493_037_704));
    assert(fx_sin(Fx(13_493_037_704)) == crate::fixed::sin_poly(Fx(1)));
    assert(fx_cos(Fx(6_746_518_852)) == Fx(1));
    assert(fx_add(Fx(13_493_037_705), Fx(crate::fixed::half_pi_raw() as i64)) == Fx(20_239_556_557));
    assert(fx_sin(Fx(20_239_556_557)) == crate::fixed::fx_neg(crate::fixed::sin_poly(Fx(6_746_518_852))));
    assert(fx_cos(Fx(13_493_037_705)) == Fx(-4_294_982_470i64));
    assert(fx_mul(Fx(0), Fx(6_746_518_852)) == Fx(0));
    assert(fx_mul(one(), Fx(6_746_518_852)) == Fx(6_746_518_852));
    assert(fx_mul(Fx(0), Fx(13_493_037_705)) == Fx(0));
    assert(fx_mul(one(), Fx(13_493_037_705)) == Fx(13_493_037_705));
    assert(fx_mul(fx_sub(one(), Fx(4_294_982_470)), half()) == Fx(-7587i64));
    assert(fx_mul(fx_sub(one(), Fx(-4_294_982_470i64)), half()) == Fx(4_294_974_883));
}

/// The back curves at both ends.
proof fn lemma_back_ends()
    ensures
        ease_clamped(Easing::BackIn, Fx(0)) == Fx(0),
        ease_clamped(Easing::BackIn, one()) == one(),
        ease_clamped(Easing::BackOut, Fx(0)) == Fx(0),
        ease_clamped(Easing::BackOut, one()) == one(),
{
    assert(fx_ratio(170_158, 100_000) == Fx(7308230451)) by {
        assert(730823045152768int / 100_000 == 7308230451) by (nonlinear_arith);
    }
    let overshoot = Fx(7308230451);
    let lifted = fx_add(overshoot, one());
    assert(lifted == Fx(11603197747));
    assert(fx_mul(Fx(0), Fx(0)) == Fx(0));
    assert(fx_mul(one(), one()) == one());
    assert(fx_mul(lifted, Fx(0)) == Fx(0));
    assert(fx_mul(lifted, one()) == lifted);
    assert(fx_sub(lifted, overshoot) == one());
    assert(fx_mul(Fx(-4294967296i64), Fx(-4294967296i64)) == one());
    assert(fx_mul(lifted, Fx(-4294967296i64)) == Fx(-11603197747i64));
    assert(fx_add(Fx(-11603197747i64), overshoot) == Fx(-4294967296i64));
    assert(fx_mul(one(), Fx(-4294967296i64)) == Fx(-4294967296i64));
    assert(fx_sub(Fx(0), one()) == Fx(-4294967296i64));
    assert(fx_sub(one(), one()) == Fx(0));
}

/// The circular curves at both ends.
proof fn lemma_circle_ends()
    ensures
        ease_clamped(Easing::CircIn, Fx(0)) == Fx(0),
        ease_clamped(Easing::CircIn, one()) == one(),
        ease_clamped(Easing::CircOut, Fx(0)) == Fx(0),
        ease_clamped(Easing::CircOut, one()) == one(),
{
    crate::fixed::lemma_sqrt_of_square_is_exact(0);
    crate::fixed::lemma_sqrt_of_square_is_exact(1);
    assert(crate::fixed::fx_int(0) == Fx(0));
    assert(crate::fixed::fx_int(1) == one());
    assert(fx_mul(one(), one()) == one());
    assert(fx_mul(Fx(0), Fx(0)) == Fx(0));
    assert(fx_mul(Fx(-4294967296i64), Fx(-4294967296i64)) == one());
}

/// Every curve starts at zero and ends at one, to within a thousandth: the
/// sine curves to the precision of the fixed-point sine, the rest exactly.
pub proof fn lemma_curves_start_at_zero_and_end_at_one(e: Easing)
    ensures
        -4294967 <= ease(e, Fx(0)).0 <= 4294967,
        one().0 - 4294967 <= ease(e, one()).0 <= one().0 + 4294967,
{
    assert(fx_clamp(Fx(0), Fx(0), one()) == Fx(0));
    assert(fx_clamp(one(), Fx(0), one()) == one());
    match e {
        Easing::SineIn | Easing::SineOut | Easing::SineInOut => lemma_sine_ends(),
        Easing::BackIn | Easing::BackOut => lemma_back_ends(),
        Easing::CircIn | Easing::CircOut => lemma_circle_ends(),
        Easing::BounceOut => lemma_bounce_ends(),
        _ => {
            assert(fx_mul(Fx(0), Fx(0)) == Fx(0));
            assert(fx_mul(one(), one()) == one());
            assert(fx_mul(one(), two()) == two());
            assert(fx_mul(Fx(0), two()) == Fx(0));
            assert(fx_mul(Fx(-4294967296i64), Fx(-4294967296i64)) == one());
        },
    }
}

/// A product of two values in `[0, 1]` is in `[0, 1]` and no larger than
/// either factor.
proof fn lemma_unit_product(a: Fx, b: Fx)
    requires
        0 <= a.0 <= 4294967296,
        0 <= b.0 <= 4294967296,
    ensures
        0 <= fx_mul(a, b).0 <= a.0,
        fx_mul(a, b).0 <= b.0,
{
    let p = a.0 as int * b.0 as int;
    assert(0 <= p <= a.0 * 4294967296) by (nonlinear_arith)
        requires
            p == a.0 as int * b.0 as int,
            0 <= a.0,
            0 <= b.0 <= 4294967296,
    ;
    assert(p <= b.0 * 4294967296) by (nonlinear_arith)
        requires
            p == a.0 as int * b.0 as int,
            0 <= b.0,
            0 <= a.0 <= 4294967296,
    ;
    assert(p / 4294967296 <= a.0) by (nonlinear_arith)
        requires
            0 <= p <= a.0 * 4294967296,
    ;
    assert(p / 4294967296 <= b.0) by (nonlinear_arith)
        requires
            0 <= p <= b.0 * 4294967296,
    ;
    assert(0 <= p / 4294967296) by (nonlinear_arith)
        requires
            0 <= p,
    ;
}

/// A value in `[-1, 0]` times one in `[0, 1]` is in `[-1, 0]`.
proof fn lemma_signed_unit_product(a: Fx, b: Fx)
    requires
        -4294967296 <= a.0 <= 0,
        0 <= b.0 <= 4294967296,
    ensures
        -4294967296 <= fx_mul(a, b).0 <= 0,
{
    let p = a.0 as int * b.0 as int;
    assert(-4294967296 * 4294967296 <= p <= 0) by (nonlinear_arith)
        requires
            p == a.0 as int * b.0 as int,
            -4294967296 <= a.0 <= 0,
            0 <= b.0 <= 4294967296,
    ;
    assert(-4294967296 <= p / 4294967296 <= 0) by (nonlinear_arith)
        requires
            -4294967296 * 4294967296 <= p <= 0,
    ;
}

/// A square of a value in `[-1, 0]` is in `[0, 1]`.
proof fn lemma_negative_unit_square(a: Fx)
    requires
        -4294967296 <= a.0 <= 0,
    ensures
        0 <= fx_mul(a, a).0 <= 4294967296,
{
    let p = a.0 as int * a.0 as int;
    assert(0 <= p <= 4294967296 * 4294967296) by (nonlinear_arith)
        requires
            p == a.0 as int * a.0 as int,
            -4294967296 <= a.0 <= 0,
    ;
    assert(0 <= p / 4294967296 <= 4294967296) by (nonlinear_arith)
        requires
            0 <= p <= 4294967296 * 4294967296,
    ;
}

/// Every number from zero up has an integer square root.
proof fn lemma_floor_sqrt_exists(n: int)
    requires
        0 <= n,
    ensures
        exists|r: int| #[trigger] crate::fixed::is_floor_sqrt(r, n) && r <= n + 1,
    decreases n,
{
    if n == 0 {
        assert(crate::fixed::is_floor_sqrt(0, 0));
    } else {
        lemma_floor_sqrt_exists(n - 1);
        let r0 = choose|r: int| #[trigger] crate::fixed::is_floor_sqrt(r, n - 1) && r <= n;
        if (r0 + 1) * (r0 + 1) <= n {
            assert(n < (r0 + 2) * (r0 + 2)) by (nonlinear_arith)
                requires
                    n - 1 < (r0 + 1) * (r0 + 1),
                    0 <= r0,
            ;
            assert(r0 + 1 <= n + 1) by (nonlinear_arith)
                requires
                    (r0 + 1) * (r0 + 1) <= n,
                    0 <= r0,
            ;
            assert(crate::fixed::is_floor_sqrt(r0 + 1, n));
        } else {
            assert(crate::fixed::is_floor_sqrt(r0, n));
        }
    }
}

/// The square root of a value in `[0, 1]` is in `[0, 1]`.
proof fn lemma_unit_sqrt(a: Fx)
    requires
        0 <= a.0 <= 4294967296,
    ensures
        0 <= fx_sqrt(a).0 <= 4294967296,
{
    let n = a.0 * 4294967296;
    assert(0 <= n <= 4294967296 * 4294967296) by (nonlinear_arith)
        requires
            n == a.0 * 4294967296,
            0 <= a.0 <= 4294967296,
    ;
    lemma_floor_sqrt_exists(n);
    let r = choose|r: int| #[trigger] crate::fixed::is_floor_sqrt(r, n) && r <= n + 1;
    assert(r <= 4294967296) by (nonlinear_arith)
        requires
            0 <= r,
            r * r <= n,
            n <= 4294967296 * 4294967296,
    ;
    assert(crate::fixed::is_floor_sqrt((r as i64) as int, n));
    let chosen = fx_sqrt(a).0;
    assert(crate::fixed::is_floor_sqrt(chosen as int, n));
    crate::fixed::lemma_floor_sqrt_unique(chosen as int, r, n);
}

/// The polynomial and circular curves stay within the unit interval
/// everywhere. The sine curves, which go through the fixed-point sine, stay
/// within a thousandth of it (`lemma_sine_curves_stay_near_unit_interval`),
/// and the bounce stays within it (`lemma_bounce_stays_in_unit_interval`).
pub proof fn lemma_polynomial_and_circular_curves_stay_in_unit_interval(e: Easing, t: Fx)
    requires
        !(e is SineIn || e is SineOut || e is SineInOut || e is BackIn || e is BackOut
            || e is ElasticOut || e is BounceOut),
    ensures
        0 <= ease(e, t).0 <= one().0,
{
    let c = fx_clamp(t, Fx(0), one());
    assert(0 <= c.0 <= 4294967296);
    let inverse = fx_sub(one(), c);
    assert(0 <= inverse.0 <= 4294967296);
    lemma_unit_product(c, c);
    lemma_unit_product(inverse, inverse);
    match e {
        Easing::Linear | Easing::QuadIn | Easing::QuadOut => {},
        Easing::QuadInOut => {
            if c.0 < half().0 {
                let sq = fx_mul(c, c);
                assert(sq.0 <= 1073741824) by (nonlinear_arith)
                    requires
                        sq.0 == (c.0 as int * c.0 as int) / 4294967296,
                        0 <= c.0 < 2147483648,
                ;
                assert(fx_mul(sq, two()).0 == 2 * sq.0) by (nonlinear_arith)
                    requires
                        0 <= sq.0 <= 1073741824,
                        fx_mul(sq, two()).0 == (sq.0 as int * 8589934592) / 4294967296,
                ;
            } else {
                assert(fx_mul(c, two()).0 == 2 * c.0) by (nonlinear_arith)
                    requires
                        0 <= c.0 <= 4294967296,
                        fx_mul(c, two()).0 == (c.0 as int * 8589934592) / 4294967296,
                ;
                let shifted = fx_sub(fx_mul(c, two()), two());
                assert(-4294967296 <= shifted.0 <= 0);
                lemma_negative_unit_square(shifted);
                lemma_unit_product(fx_mul(shifted, shifted), half());
            }
        },
        Easing::CubicIn => {
            lemma_unit_product(fx_mul(c, c), c);
        },
        Easing::CubicOut => {
            lemma_unit_product(fx_mul(inverse, inverse), inverse);
        },
        Easing::CubicInOut => {
            if c.0 < half().0 {
                let sq = fx_mul(c, c);
                lemma_unit_product(sq, c);
                let cube = fx_mul(sq, c);
                assert(sq.0 <= 1073741824) by (nonlinear_arith)
                    requires
                        sq.0 == (c.0 as int * c.0 as int) / 4294967296,
                        0 <= c.0 < 2147483648,
                ;
                assert(cube.0 <= 536870912) by (nonlinear_arith)
                    requires
                        cube.0 == (sq.0 as int * c.0 as int) / 4294967296,
                        0 <= sq.0 <= 1073741824,
                        0 <= c.0 < 2147483648,
                ;
            } else {
                assert(fx_mul(c, two()).0 == 2 * c.0) by (nonlinear_arith)
                    requires
                        0 <= c.0 <= 4294967296,
                        fx_mul(c, two()).0 == (c.0 as int * 8589934592) / 4294967296,
                ;
                let shifted = fx_sub(fx_mul(c, two()), two());
                assert(-4294967296 <= shifted.0 <= 0);
                lemma_negative_unit_square(shifted);
                let sq = fx_mul(shifted, shifted);
                let cube = fx_mul(sq, shifted);
                assert(-4294967296 <= cube.0 <= 0) by {
                    lemma_signed_unit_product(shifted, sq);
                    assert(sq.0 as int * shifted.0 as int == shifted.0 as int * sq.0 as int)
                        by (nonlinear_arith);
                }
                let halved = fx_mul(cube, half());
                assert(-2147483648 <= halved.0 <= 0) by (nonlinear_arith)
                    requires
                        -4294967296 <= cube.0 <= 0,
                        halved.0 == (cube.0 as int * 2147483648) / 4294967296,
                ;
            }
        },
        Easing::QuartIn => {
            lemma_unit_product(fx_mul(c, c), fx_mul(c, c));
        },
        Easing::QuartOut => {
            lemma_unit_product(fx_mul(inverse, inverse), fx_mul(inverse, inverse));
        },
        Easing::CircIn => {
            lemma_unit_sqrt(fx_max(fx_sub(one(), fx_mul(c, c)), Fx(0)));
        },
        Easing::CircOut => {
            let shifted = fx_sub(c, one());
            assert(-4294967296 <= shifted.0 <= 0);
            lemma_negative_unit_square(shifted);
            lemma_unit_sqrt(fx_max(fx_sub(one(), fx_mul(shifted, shifted)), Fx(0)));
        },
        _ => {},
    }
}

/// Products of values in `[0, 1]` grow with their factors.
proof fn lemma_unit_product_monotone(a1: Fx, a2: Fx, b1: Fx, b2: Fx)
    requires
        0 <= a1.0 <= a2.0 <= 4294967296,
        0 <= b1.0 <= b2.0 <= 4294967296,
    ensures
        fx_mul(a1, b1).0 <= fx_mul(a2, b2).0,
{
    let p1 = a1.0 as int * b1.0 as int;
    let p2 = a2.0 as int * b2.0 as int;
    assert(0 <= p1 <= p2 <= 4294967296 * 4294967296) by (nonlinear_arith)
        requires
            p1 == a1.0 as int * b1.0 as int,
            p2 == a2.0 as int * b2.0 as int,
            0 <= a1.0 <= a2.0 <= 4294967296,
            0 <= b1.0 <= b2.0 <= 4294967296,
    ;
    assert(p1 / 4294967296 <= p2 / 4294967296) by (nonlinear_arith)
        requires
            0 <= p1 <= p2,
    ;
    assert(p2 / 4294967296 <= 4294967296) by (nonlinear_arith)
        requires
            0 <= p2 <= 4294967296 * 4294967296,
    ;
}

/// Squares of values in `[-1, 0]` shrink as the value rises towards zero.
proof fn lemma_negative_square_antitone(s1: Fx, s2: Fx)
    requires
        -4294967296 <= s1.0 <= s2.0 <= 0,
    ensures
        fx_mul(s2, s2).0 <= fx_mul(s1, s1).0,
{
    let p1 = s1.0 as int * s1.0 as int;
    let p2 = s2.0 as int * s2.0 as int;
    assert(0 <= p2 <= p1 <= 4294967296 * 4294967296) by (nonlinear_arith)
        requires
            p1 == s1.0 as int * s1.0 as int,
            p2 == s2.0 as int * s2.0 as int,
            -4294967296 <= s1.0 <= s2.0 <= 0,
    ;
    assert(p2 / 4294967296 <= p1 / 4294967296) by (nonlinear_arith)
        requires
            0 <= p2 <= p1,
    ;
    assert(p1 / 4294967296 <= 4294967296) by (nonlinear_arith)
        requires
            0 <= p1 <= 4294967296 * 4294967296,
    ;
}

/// A falling square times a rising value in `[-1, 0]` rises.
proof fn lemma_negative_cube_monotone(q1: Fx, q2: Fx, s1: Fx, s2: Fx)
    requires
        0 <= q2.0 <= q1.0 <= 4294967296,
        -4294967296 <= s1.0 <= s2.0 <= 0,
    ensures
        fx_mul(q1, s1).0 <= fx_mul(q2, s2).0,
        -4294967296 <= fx_mul(q1, s1).0,
        fx_mul(q2, s2).0 <= 0,
{
    let p1 = q1.0 as int * s1.0 as int;
    let p2 = q2.0 as int * s2.0 as int;
    assert(-4294967296 * 4294967296 <= p1 <= p2 <= 0) by (nonlinear_arith)
        requires
            p1 == q1.0 as int * s1.0 as int,
            p2 == q2.0 as int * s2.0 as int,
            0 <= q2.0 <= q1.0 <= 4294967296,
            -4294967296 <= s1.0 <= s2.0 <= 0,
    ;
    assert(p1 / 4294967296 <= p2 / 4294967296) by (nonlinear_arith)
        requires
            p1 <= p2,
    ;
    assert(-4294967296 <= p1 / 4294967296) by (nonlinear_arith)
        requires
            -4294967296 * 4294967296 <= p1,
    ;
    assert(p2 / 4294967296 <= 0) by (nonlinear_arith)
        requires
            p2 <= 0,
    ;
}

/// Multiplying by a non-negative constant keeps the order.
proof fn lemma_scale_monotone(a1: Fx, a2: Fx, k: Fx)
    requires
        -4294967296 <= a1.0 <= a2.0 <= 4294967296,
        0 <= k.0 <= 8589934592,
    ensures
        fx_mul(a1, k).0 <= fx_mul(a2, k).0,
{
    let p1 = a1.0 as int * k.0 as int;
    let p2 = a2.0 as int * k.0 as int;
    assert(p1 <= p2) by (nonlinear_arith)
        requires
            p1 == a1.0 as int * k.0 as int,
            p2 == a2.0 as int * k.0 as int,
            a1.0 <= a2.0,
            0 <= k.0,
    ;
    assert(-8589934592 * 4294967296 <= p1 && p2 <= 8589934592 * 4294967296) by (nonlinear_arith)
        requires
            p1 == a1.0 as int * k.0 as int,
            p2 == a2.0 as int * k.0 as int,
            -4294967296 <= a1.0 <= a2.0 <= 4294967296,
            0 <= k.0 <= 8589934592,
    ;
    assert(p1 / 4294967296 <= p2 / 4294967296) by (nonlinear_arith)
        requires
            p1 <= p2,
    ;
}

/// Integer square roots grow with their argument.
proof fn lemma_sqrt_monotone(a1: Fx, a2: Fx)
    requires
        0 <= a1.0 <= a2.0 <= 4294967296,
    ensures
        fx_sqrt(a1).0 <= fx_sqrt(a2).0,
{
    lemma_unit_sqrt(a1);
    lemma_unit_sqrt(a2);
    let n1 = a1.0 * 4294967296;
    let n2 = a2.0 * 4294967296;
    let r1 = fx_sqrt(a1).0 as int;
    let r2 = fx_sqrt(a2).0 as int;
    lemma_floor_sqrt_exists(n1);
    lemma_floor_sqrt_exists(n2);
    let w1 = choose|r: int| #[trigger] crate::fixed::is_floor_sqrt(r, n1) && r <= n1 + 1;
    let w2 = choose|r: int| #[trigger] crate::fixed::is_floor_sqrt(r, n2) && r <= n2 + 1;
    assert(crate::fixed::is_floor_sqrt(r1, n1)) by {
        assert(w1 <= 4294967296) by (nonlinear_arith)
            requires
                0 <= w1,
                w1 * w1 <= n1,
                n1 <= 4294967296 * 4294967296,
        ;
        assert(crate::fixed::is_floor_sqrt((w1 as i64) as int, n1));
    }
    assert(crate::fixed::is_floor_sqrt(r2, n2)) by {
        assert(w2 <= 4294967296) by (nonlinear_arith)
            requires
                0 <= w2,
                w2 * w2 <= n2,
                n2 <= 4294967296 * 4294967296,
        ;
        assert(crate::fixed::is_floor_sqrt((w2 as i64) as int, n2));
    }
    assert(n1 <= n2) by (nonlinear_arith)
        requires
            n1 == a1.0 * 4294967296,
            n2 == a2.0 * 4294967296,
            a1.0 <= a2.0,
    ;
    if r1 > r2 {
        assert((r2 + 1) * (r2 + 1) <= r1 * r1) by (nonlinear_arith)
            requires
                0 <= r2 + 1 <= r1,
        ;
    }
}

/// The polynomial and circular curves never decrease: a later input never
/// gives a smaller output.
pub proof fn lemma_polynomial_and_circular_curves_never_decrease(e: Easing, t1: Fx, t2: Fx)
    requires
        !(e is SineIn || e is SineOut || e is SineInOut || e is BackIn || e is BackOut
            || e is ElasticOut || e is BounceOut),
        t1.0 <= t2.0,
    ensures
        ease(e, t1).0 <= ease(e, t2).0,
{
    let c1 = fx_clamp(t1, Fx(0), one());
    let c2 = fx_clamp(t2, Fx(0), one());
    assert(0 <= c1.0 <= c2.0 <= 4294967296);
    let i1 = fx_sub(one(), c1);
    let i2 = fx_sub(one(), c2);
    assert(0 <= i2.0 <= i1.0 <= 4294967296);
    lemma_unit_product(c1, c1);
    lemma_unit_product(c2, c2);
    lemma_unit_product(i1, i1);
    lemma_unit_product(i2, i2);
    lemma_unit_product_monotone(c1, c2, c1, c2);
    lemma_unit_product_monotone(i2, i1, i2, i1);
    let q1 = fx_mul(c1, c1);
    let q2 = fx_mul(c2, c2);
    let j1 = fx_mul(i1, i1);
    let j2 = fx_mul(i2, i2);
    match e {
        Easing::Linear | Easing::QuadIn | Easing::QuadOut => {},
        Easing::CubicIn => {
            lemma_unit_product_monotone(q1, q2, c1, c2);
        },
        Easing::CubicOut => {
            lemma_unit_product_monotone(j2, j1, i2, i1);
            lemma_unit_product(j1, i1);
        },
        Easing::QuartIn => {
            lemma_unit_product_monotone(q1, q2, q1, q2);
        },
        Easing::QuartOut => {
            lemma_unit_product_monotone(j2, j1, j2, j1);
            lemma_unit_product(j1, j1);
        },
        Easing::QuadInOut | Easing::CubicInOut => {
            lemma_polynomial_and_circular_curves_stay_in_unit_interval(e, t1);
            lemma_polynomial_and_circular_curves_stay_in_unit_interval(e, t2);
            lemma_in_out_halves(e, c1);
            lemma_in_out_halves(e, c2);
            if c1.0 < half().0 && c2.0 < half().0 {
                lemma_scale_monotone(q1, q2, two());
                lemma_unit_product(q1, c1);
                lemma_unit_product(q2, c2);
                lemma_unit_product_monotone(q1, q2, c1, c2);
            } else if c1.0 >= half().0 && c2.0 >= half().0 {
                assert(fx_mul(c1, two()).0 == 2 * c1.0) by (nonlinear_arith)
                    requires
                        0 <= c1.0 <= 4294967296,
                        fx_mul(c1, two()).0 == (c1.0 as int * 8589934592) / 4294967296,
                ;
                assert(fx_mul(c2, two()).0 == 2 * c2.0) by (nonlinear_arith)
                    requires
                        0 <= c2.0 <= 4294967296,
                        fx_mul(c2, two()).0 == (c2.0 as int * 8589934592) / 4294967296,
                ;
                let s1 = fx_sub(fx_mul(c1, two()), two());
                let s2 = fx_sub(fx_mul(c2, two()), two());
                assert(-4294967296 <= s1.0 <= s2.0 <= 0);
                lemma_negative_square_antitone(s1, s2);
                lemma_negative_unit_square(s1);
                lemma_negative_unit_square(s2);
                let r1 = fx_mul(s1, s1);
                let r2 = fx_mul(s2, s2);
                lemma_scale_monotone(r2, r1, half());
                lemma_negative_cube_monotone(r1, r2, s1, s2);
                lemma_scale_monotone(fx_mul(r1, s1), fx_mul(r2, s2), half());
            }
        },
        Easing::CircIn => {
            let a1 = fx_max(fx_sub(one(), q1), Fx(0));
            let a2 = fx_max(fx_sub(one(), q2), Fx(0));
            lemma_sqrt_monotone(a2, a1);
            lemma_unit_sqrt(a1);
            lemma_unit_sqrt(a2);
        },
        Easing::CircOut => {
            let s1 = fx_sub(c1, one());
            let s2 = fx_sub(c2, one());
            lemma_negative_square_antitone(s1, s2);
            lemma_negative_unit_square(s1);
            lemma_negative_unit_square(s2);
            let a1 = fx_max(fx_sub(one(), fx_mul(s1, s1)), Fx(0));
            let a2 = fx_max(fx_sub(one(), fx_mul(s2, s2)), Fx(0));
            lemma_sqrt_monotone(a1, a2);
        },
        _ => {},
    }
}

/// The two in-out polynomial curves are at most a half before the midpoint
/// and at least a half from it on.
proof fn lemma_in_out_halves(e: Easing, c: Fx)
    requires
        e is QuadInOut || e is CubicInOut,
        0 <= c.0 <= 4294967296,
    ensures
        c.0 < half().0 ==> ease_clamped(e, c).0 <= half().0,
        c.0 >= half().0 ==> ease_clamped(e, c).0 >= half().0,
{
    let sq = fx_mul(c, c);
    lemma_unit_product(c, c);
    if c.0 < half().0 {
        assert(sq.0 <= 1073741824) by (nonlinear_arith)
            requires
                sq.0 == (c.0 as int * c.0 as int) / 4294967296,
                0 <= c.0 < 2147483648,
        ;
        assert(fx_mul(sq, two()).0 == 2 * sq.0) by (nonlinear_arith)
            requires
                0 <= sq.0 <= 1073741824,
                fx_mul(sq, two()).0 == (sq.0 as int * 8589934592) / 4294967296,
        ;
        let cube = fx_mul(sq, c);
        lemma_unit_product(sq, c);
        assert(cube.0 <= 536870912) by (nonlinear_arith)
            requires
                cube.0 == (sq.0 as int * c.0 as int) / 4294967296,
                0 <= sq.0 <= 1073741824,
                0 <= c.0 < 2147483648,
        ;
    } else {
        assert(fx_mul(c, two()).0 == 2 * c.0) by (nonlinear_arith)
            requires
                0 <= c.0 <= 4294967296,
                fx_mul(c, two()).0 == (c.0 as int * 8589934592) / 4294967296,
        ;
        let shifted = fx_sub(fx_mul(c, two()), two());
        assert(-4294967296 <= shifted.0 <= 0);
        lemma_negative_unit_square(shifted);
        let r = fx_mul(shifted, shifted);
        lemma_unit_product(r, half());
        lemma_signed_unit_product(shifted, r);
        assert(r.0 as int * shifted.0 as int == shifted.0 as int * r.0 as int) by (nonlinear_arith);
        let cube = fx_mul(r, shifted);
        assert(-2147483648 <= fx_mul(cube, half()).0) by (nonlinear_arith)
            requires
                -4294967296 <= cube.0 <= 0,
                fx_mul(cube, half()).0 == (cube.0 as int * 2147483648) / 4294967296,
        ;
    }
}

/// `n1·s·s` in fixed point, the bounce's parabola before its offset, lies
/// between zero and its larger value at the two ends of `[lo, hi]`.
proof fn lemma_parabola_between(s: int, lo: int, hi: int)
    requires
        -4294967296 <= lo <= s <= hi <= 4294967296,
        lo <= 0 <= hi,
    ensures
        0 <= (((32480690176 * s) / 4294967296) * s) / 4294967296,
        (((32480690176 * s) / 4294967296) * s) / 4294967296 <= (((32480690176 * hi) / 4294967296)
            * hi) / 4294967296 || (((32480690176 * s) / 4294967296) * s) / 4294967296 <= (((
        32480690176 * lo) / 4294967296) * lo) / 4294967296,
{
    let n: int = 32480690176;
    let m = (n * s) / 4294967296;
    if s >= 0 {
        let mh = (n * hi) / 4294967296;
        assert(0 <= n * s <= n * hi) by (nonlinear_arith)
            requires
                0 <= s <= hi,
                n == 32480690176,
        ;
        assert(0 <= m <= mh) by (nonlinear_arith)
            requires
                0 <= n * s <= n * hi,
                m == (n * s) / 4294967296,
                mh == (n * hi) / 4294967296,
        ;
        assert(0 <= m * s <= mh * hi) by (nonlinear_arith)
            requires
                0 <= m <= mh,
                0 <= s <= hi,
        ;
        assert(0 <= (m * s) / 4294967296 <= (mh * hi) / 4294967296) by (nonlinear_arith)
            requires
                0 <= m * s <= mh * hi,
        ;
    } else {
        let ml = (n * lo) / 4294967296;
        assert(n * lo <= n * s <= 0) by (nonlinear_arith)
            requires
                lo <= s < 0,
                n == 32480690176,
        ;
        assert(ml <= m <= 0) by (nonlinear_arith)
            requires
                n * lo <= n * s <= 0,
                m == (n * s) / 4294967296,
                ml == (n * lo) / 4294967296,
        ;
        assert(0 <= m * s <= ml * lo) by (nonlinear_arith)
            requires
                ml <= m <= 0,
                lo <= s < 0,
        ;
        assert(0 <= (m * s) / 4294967296 <= (ml * lo) / 4294967296) by (nonlinear_arith)
            requires
                0 <= m * s <= ml * lo,
        ;
    }
}

/// The bounce curve stays within the unit interval everywhere.
pub proof fn lemma_bounce_stays_in_unit_interval(t: Fx)
    ensures
        0 <= ease(Easing::BounceOut, t).0 <= one().0,
{
    lemma_bounce_ends();
    let c = fx_clamp(t, Fx(0), one());
    assert(0 <= c.0 <= 4294967296);
    let n1 = Fx(32_480_690_176);
    let d1 = Fx(11_811_160_064);
    assert(fx_ratio(75, 10) == Fx(32_212_254_720)) by {
        assert(322122547200int / 10 == 32_212_254_720) by (nonlinear_arith);
    }
    assert(fx_ratio(625, 10_000) == Fx(268_435_456)) by {
        assert(2684354560000int / 10_000 == 268_435_456) by (nonlinear_arith);
    }
    assert(fx_ratio(275, 100) == d1) by {
        assert(1181116006400int / 100 == 11_811_160_064) by (nonlinear_arith);
    }
    assert(fx_add(fx_ratio(75, 10), fx_ratio(625, 10_000)) == n1);
    assert(fx_div(one(), d1) == Fx(1_561_806_289)) by {
        assert(18446744073709551616int / 11_811_160_064 == 1_561_806_289) by (nonlinear_arith);
    }
    assert(fx_div(two(), d1) == Fx(3_123_612_578)) by {
        assert(36893488147419103232int / 11_811_160_064 == 3_123_612_578) by (nonlinear_arith);
    }
    assert(fx_ratio(25, 10) == Fx(10_737_418_240)) by {
        assert(107374182400int / 10 == 10_737_418_240) by (nonlinear_arith);
    }
    assert(fx_div(Fx(10_737_418_240), d1) == Fx(3_904_515_723)) by {
        assert(46116860184273879040int / 11_811_160_064 == 3_904_515_723) by (nonlinear_arith);
    }
    if c.0 < 1_561_806_289 {
        lemma_parabola_between(c.0 as int, 0, 1_561_806_288);
        assert((((32480690176 * 1_561_806_288int) / 4294967296) * 1_561_806_288) / 4294967296
            == 4294967288) by (nonlinear_arith);
        assert(fx_mul(n1, c).0 == (32480690176 * c.0) / 4294967296);
        assert(fx_mul(fx_mul(n1, c), c).0 == (((32480690176 * c.0) / 4294967296) * c.0)
            / 4294967296);
    } else if c.0 < 3_123_612_578 {
        assert(fx_ratio(15, 10) == Fx(6_442_450_944)) by {
            assert(64424509440int / 10 == 6_442_450_944) by (nonlinear_arith);
        }
        assert(fx_div(Fx(6_442_450_944), d1) == Fx(2_342_709_434)) by {
            assert(27670116110564327424int / 11_811_160_064 == 2_342_709_434) by (nonlinear_arith);
        }
        assert(fx_ratio(75, 100) == Fx(3_221_225_472)) by {
            assert(322122547200int / 100 == 3_221_225_472) by (nonlinear_arith);
        }
        let sh = c.0 - 2_342_709_434;
        lemma_parabola_between(sh, -780_903_145, 780_903_143);
        assert((((32480690176 * 780_903_143int) / 4294967296) * 780_903_143) / 4294967296
            == 1073741819) by (nonlinear_arith);
        assert((((32480690176 * (-780_903_145int)) / 4294967296) * (-780_903_145)) / 4294967296
            == 1073741824) by (nonlinear_arith);
        assert(fx_mul(n1, Fx(sh as i64)).0 == (32480690176 * sh) / 4294967296);
        assert(fx_mul(fx_mul(n1, Fx(sh as i64)), Fx(sh as i64)).0 == (((32480690176 * sh)
            / 4294967296) * sh) / 4294967296);
    } else if c.0 < 3_904_515_723 {
        assert(fx_ratio(225, 100) == Fx(9_663_676_416)) by {
            assert(966367641600int / 100 == 9_663_676_416) by (nonlinear_arith);
        }
        assert(fx_div(Fx(9_663_676_416), d1) == Fx(3_514_064_151)) by {
            assert(41505174165846491136int / 11_811_160_064 == 3_514_064_151) by (nonlinear_arith);
        }
        assert(fx_ratio(9375, 10_000) == Fx(4_026_531_840)) by {
            assert(40265318400000int / 10_000 == 4_026_531_840) by (nonlinear_arith);
        }
        let sh = c.0 - 3_514_064_151;
        lemma_parabola_between(sh, -390_451_573, 390_451_571);
        assert((((32480690176 * 390_451_571int) / 4294967296) * 390_451_571) / 4294967296
            == 268435454) by (nonlinear_arith);
        assert((((32480690176 * (-390_451_573int)) / 4294967296) * (-390_451_573)) / 4294967296
            == 268435456) by (nonlinear_arith);
        assert(fx_mul(n1, Fx(sh as i64)).0 == (32480690176 * sh) / 4294967296);
        assert(fx_mul(fx_mul(n1, Fx(sh as i64)), Fx(sh as i64)).0 == (((32480690176 * sh)
            / 4294967296) * sh) / 4294967296);
    } else {
        assert(fx_ratio(2625, 1000) == Fx(11_274_289_152)) by {
            assert(11274289152000int / 1000 == 11_274_289_152) by (nonlinear_arith);
        }
        assert(fx_div(Fx(11_274_289_152), d1) == Fx(4_099_741_509)) by {
            assert(48422703193487572992int / 11_811_160_064 == 4_099_741_509) by (nonlinear_arith);
        }
        assert(fx_ratio(984_375, 1_000_000) == Fx(4_227_858_432)) by {
            assert(4227858432000000int / 1_000_000 == 4_227_858_432) by (nonlinear_arith);
        }
        let sh = c.0 - 4_099_741_509;
        lemma_parabola_between(sh, -195_225_786, 195_225_787);
        assert((((32480690176 * 195_225_787int) / 4294967296) * 195_225_787) / 4294967296
            == 67108864) by (nonlinear_arith);
        assert((((32480690176 * (-195_225_786int)) / 4294967296) * (-195_225_786)) / 4294967296
            == 67108863) by (nonlinear_arith);
        assert(fx_mul(n1, Fx(sh as i64)).0 == (32480690176 * sh) / 4294967296);
        assert(fx_mul(fx_mul(n1, Fx(sh as i64)), Fx(sh as i64)).0 == (((32480690176 * sh)
            / 4294967296) * sh) / 4294967296);
    }
}

} // verus!
