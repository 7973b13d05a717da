//! Deterministic value noise for terrain and decoration placement.
//!
//! Noise here is a pure function of `(seed, x, y)`: it keeps no state and is
//! integer all the way down, so a world regenerated from its seed is identical
//! on every machine.
use crate::fixed::{
    abs_int, fx_abs, fx_add, fx_clamp, fx_div, fx_floor_int, fx_int, fx_lerp, fx_mul, fx_mul_int,
    fx_sub, scale, Fx,
};
use crate::vec2::Vec2;
use vstd::prelude::*;

verus! {

/// The lattice hash: a multiplicative mix of the coordinates and the seed.
pub open spec fn lattice_hash(seed: u32, x: i32, y: i32) -> u32 {
    let h0 = vstd::wrapping::u32_specs::wrapping_mul(x as u32, 0x1b87_3593);
    let h1 = h0 ^ vstd::wrapping::u32_specs::wrapping_mul(y as u32, 0xcc9e_2d51);
    let h2 = h1 ^ vstd::wrapping::u32_specs::wrapping_mul(seed, 0x85eb_ca6b);
    let h3 = h2 ^ (h2 >> 15u32);
    let h4 = vstd::wrapping::u32_specs::wrapping_mul(h3, 0x2545_f491);
    let h5 = h4 ^ (h4 >> 13u32);
    let h6 = vstd::wrapping::u32_specs::wrapping_mul(h5, 0xc2b2_ae35);
    h6 ^ (h6 >> 16u32)
}

/// The quintic smoothstep `6t⁵ - 15t⁴ + 10t³`.
pub open spec fn quintic_spec(t: Fx) -> Fx {
    let t3 = fx_mul(fx_mul(t, t), t);
    let t4 = fx_mul(t3, t);
    let t5 = fx_mul(t4, t);
    fx_add(fx_sub(fx_mul_int(t5, 6), fx_mul_int(t4, 15)), fx_mul_int(t3, 10))
}

/// A lattice corner's value: the hash read as a fraction in `[0, 1)`.
pub open spec fn lattice_spec(seed: u32, x: i32, y: i32) -> Fx {
    Fx(lattice_hash(seed, x, y) as i64)
}

/// The noise field: the four surrounding lattice values blended by the
/// smoothed fractional position, clamped into `[0, 1]`.
#[verifier::opaque]
pub open spec fn sample_spec(seed: u32, x: Fx, y: Fx) -> Fx {
    let cx = fx_floor_int(x) as i32;
    let cy = fx_floor_int(y) as i32;
    let cx1 = vstd::wrapping::i32_specs::wrapping_add(cx, 1);
    let cy1 = vstd::wrapping::i32_specs::wrapping_add(cy, 1);
    let u = quintic_spec(Fx(((x.0 as int) % scale()) as i64));
    let v = quintic_spec(Fx(((y.0 as int) % scale()) as i64));
    let top = fx_lerp(lattice_spec(seed, cx, cy), lattice_spec(seed, cx1, cy), u);
    let bottom = fx_lerp(lattice_spec(seed, cx, cy1), lattice_spec(seed, cx1, cy1), u);
    fx_clamp(fx_lerp(top, bottom, v), Fx(0), Fx(4294967296))
}

/// Seeded 2D value noise.
#[derive(Clone, Copy, PartialEq, Eq, Structural, Debug)]
pub struct ValueNoise {
    pub seed: u32,
}

/// The smoothstep used to blend lattice values.
pub fn quintic(t: Fx) -> (r: Fx)
    ensures
        r == quintic_spec(t),
{
    let t3 = t * t * t;
    let t4 = t3 * t;
    let t5 = t4 * t;
    t5 * 6 - t4 * 15 + t3 * 10
}

impl ValueNoise {
    /// A noise field for the given seed.
    pub fn new(seed: u32) -> (r: ValueNoise)
        ensures
            r.seed == seed,
    {
        ValueNoise { seed }
    }

    /// The value at an integer lattice point, in `[0, 1)`.
    pub fn lattice_value(self, x: i32, y: i32) -> (r: Fx)
        ensures
            r == lattice_spec(self.seed, x, y),
            0 <= r.0 < scale(),
    {
        let mut hash = (x as u32).wrapping_mul(0x1b87_3593);
        hash = hash ^ (y as u32).wrapping_mul(0xcc9e_2d51);
        hash = hash ^ self.seed.wrapping_mul(0x85eb_ca6b);
        hash = hash ^ (hash >> 15);
        hash = hash.wrapping_mul(0x2545_f491);
        hash = hash ^ (hash >> 13);
        hash = hash.wrapping_mul(0xc2b2_ae35);
        hash = hash ^ (hash >> 16);
        Fx::from_raw(hash as i64)
    }

    /// Samples the field at `(x, y)`; the result is always in `[0, 1]`.
    ///
    /// The neighbour of the cell at the top of the `i32` range wraps to the
    /// bottom, as the release build's arithmetic does.
    pub fn sample(self, x: Fx, y: Fx) -> (r: Fx)
        ensures
            r == sample_spec(self.seed, x, y),
            0 <= r.0 <= scale(),
    {
        let cell_x = x.floor_int();
        let cell_y = y.floor_int();
        let fx_frac = x.fract();
        let fy_frac = y.fract();
        let u = quintic(fx_frac);
        let v = quintic(fy_frac);
        let next_x = cell_x.wrapping_add(1);
        let next_y = cell_y.wrapping_add(1);
        let top_left = self.lattice_value(cell_x, cell_y);
        let top_right = self.lattice_value(next_x, cell_y);
        let bottom_left = self.lattice_value(cell_x, next_y);
        let bottom_right = self.lattice_value(next_x, next_y);
        let top = top_left.lerp(top_right, u);
        let bottom = bottom_left.lerp(bottom_right, u);
        proof {
            reveal(sample_spec);
        }
        top.lerp(bottom, v).clamp(Fx::zero(), Fx::one())
    }

    /// Samples the field at a point.
    pub fn sample_at(self, position: Vec2) -> (r: Fx)
        ensures
            r == sample_spec(self.seed, position.x, position.y),
    {
        self.sample(position.x, position.y)
    }

    /// Samples the field remapped to `[-1, 1]`.
    pub fn sample_signed(self, x: Fx, y: Fx) -> (r: Fx)
        ensures
            r == fx_sub(fx_mul(sample_spec(self.seed, x, y), fx_int(2)), fx_int(1)),
    {
        self.sample(x, y) * Fx::two() - Fx::one()
    }
}

/// Parameters for fractal (multi-octave) noise.
#[derive(Clone, Copy, PartialEq, Eq, Structural, Debug)]
pub struct FbmSettings {
    /// Number of layers summed.
    pub octaves: u32,
    /// Frequency multiplier between octaves.
    pub lacunarity: Fx,
    /// Amplitude multiplier between octaves.
    pub gain: Fx,
    /// Frequency of the first octave, in cycles per world unit.
    pub frequency: Fx,
}

impl Default for FbmSettings {
    /// Four octaves, lacunarity 2, gain ½, base frequency 1/32.
    fn default() -> (r: FbmSettings)
        ensures
            r == (FbmSettings {
                octaves: 4,
                lacunarity: fx_int(2),
                gain: Fx(2147483648),
                frequency: Fx(134217728),
            }),
    {
        FbmSettings {
            octaves: 4,
            lacunarity: Fx::two(),
            gain: Fx::half(),
            frequency: Fx::from_raw(134217728),
        }
    }
}

/// The running `(total, amplitude, total_amplitude, frequency)` of a fractal
/// sum after `n` octaves, where octave `i` samples at an offset of
/// `i * spacing` and contributes `layer(sample)`.
pub open spec fn octave_sum(
    noise: ValueNoise,
    x: Fx,
    y: Fx,
    settings: FbmSettings,
    spacing: int,
    ridge: bool,
    n: nat,
) -> (Fx, Fx, Fx, Fx)
    decreases n,
{
    if n == 0 {
        (Fx(0), Fx(4294967296), Fx(0), settings.frequency)
    } else {
        let (total, amplitude, total_amplitude, frequency) = octave_sum(
            noise,
            x,
            y,
            settings,
            spacing,
            ridge,
            (n - 1) as nat,
        );
        let offset = fx_int((n - 1) * spacing);
        let sample = sample_spec(
            noise.seed,
            fx_add(fx_mul(x, frequency), offset),
            fx_add(fx_mul(y, frequency), offset),
        );
        let layer = if ridge {
            fx_sub(Fx(4294967296), fx_abs(fx_sub(fx_mul(sample, fx_int(2)), fx_int(1))))
        } else {
            sample
        };
        (
            fx_add(total, fx_mul(layer, amplitude)),
            fx_mul(amplitude, settings.gain),
            fx_add(total_amplitude, amplitude),
            fx_mul(frequency, settings.lacunarity),
        )
    }
}

/// The sum of all octaves, normalised by the total amplitude and clamped to
/// `[0, 1]`, or `empty` when the amplitudes sum to zero.
pub open spec fn fractal_spec(
    noise: ValueNoise,
    x: Fx,
    y: Fx,
    settings: FbmSettings,
    spacing: int,
    ridge: bool,
    empty: Fx,
) -> Fx {
    let (total, _a, total_amplitude, _f) = octave_sum(
        noise,
        x,
        y,
        settings,
        spacing,
        ridge,
        settings.octaves as nat,
    );
    if total_amplitude.0 == 0 {
        empty
    } else {
        fx_clamp(fx_div(total, total_amplitude), Fx(0), Fx(4294967296))
    }
}

/// Sums `settings.octaves` layers, each offset by `spacing` lattice cells.
fn fractal(
    noise: ValueNoise,
    x: Fx,
    y: Fx,
    settings: FbmSettings,
    spacing: i32,
    ridge: bool,
    empty: Fx,
) -> (r: Fx)
    requires
        0 < spacing,
        settings.octaves * spacing <= i32::MAX,
    ensures
        r == fractal_spec(noise, x, y, settings, spacing as int, ridge, empty),
{
    let mut total = Fx::zero();
    let mut amplitude = Fx::one();
    let mut total_amplitude = Fx::zero();
    let mut frequency = settings.frequency;
    let mut octave: u32 = 0;
    while octave < settings.octaves
        invariant
            0 < spacing,
            octave <= settings.octaves,
            settings.octaves * spacing <= i32::MAX,
            (total, amplitude, total_amplitude, frequency) == octave_sum(
                noise,
                x,
                y,
                settings,
                spacing as int,
                ridge,
                octave as nat,
            ),
        decreases settings.octaves - octave,
    {
        proof {
            assert(octave * spacing <= settings.octaves * spacing) by (nonlinear_arith)
                requires
                    octave <= settings.octaves,
                    0 < spacing,
            ;
            assert(octave <= octave * spacing) by (nonlinear_arith)
                requires
                    0 < spacing,
            ;
        }
        let offset = Fx::from_num((octave as i32) * spacing);
        let sample = noise.sample(x * frequency + offset, y * frequency + offset);
        let layer = if ridge {
            Fx::one() - (sample * Fx::two() - Fx::one()).abs()
        } else {
            sample
        };
        total = total + layer * amplitude;
        total_amplitude = total_amplitude + amplitude;
        amplitude = amplitude * settings.gain;
        frequency = frequency * settings.lacunarity;
        octave = octave + 1;
    }
    if total_amplitude.is_zero() {
        empty
    } else {
        (total / total_amplitude).clamp(Fx::zero(), Fx::one())
    }
}

/// Fractal Brownian motion: octaves of value noise at rising frequency and
/// falling amplitude, normalised into `[0, 1]`; the midpoint when no octave
/// contributes. More than 15 673 octaves overflow and are left out.
pub fn fbm(noise: ValueNoise, x: Fx, y: Fx, settings: FbmSettings) -> (r: Fx)
    requires
        settings.octaves * 137 <= i32::MAX,
    ensures
        r == fractal_spec(noise, x, y, settings, 137, false, Fx(2147483648)),
{
    fractal(noise, x, y, settings, 137, false, Fx::half())
}

/// Ridged noise: each octave folded as `1 - |2n - 1|`, which turns the
/// field's midlines into sharp crests; zero when no octave contributes. More
/// than 11 243 octaves overflow and are left out.
pub fn ridged(noise: ValueNoise, x: Fx, y: Fx, settings: FbmSettings) -> (r: Fx)
    requires
        settings.octaves * 191 <= i32::MAX,
    ensures
        r == fractal_spec(noise, x, y, settings, 191, true, Fx(0)),
{
    fractal(noise, x, y, settings, 191, true, Fx::zero())
}

/// Fractal noise always lands in `[0, 1]`.
pub proof fn lemma_fractal_in_unit_range(
    noise: ValueNoise,
    x: Fx,
    y: Fx,
    settings: FbmSettings,
    spacing: int,
    ridge: bool,
    empty: Fx,
)
    requires
        0 <= empty.0 <= scale(),
    ensures
        0 <= fractal_spec(noise, x, y, settings, spacing, ridge, empty).0 <= scale(),
{
}

/// The field never leaves `[0, 1]`.
pub proof fn lemma_sample_in_unit_range(seed: u32, x: Fx, y: Fx)
    ensures
        0 <= sample_spec(seed, x, y).0 <= 4294967296,
{
    reveal(sample_spec);
}

/// One octave at the first offset: the sample at the scaled point, and the
/// state the next octave starts from.
proof fn lemma_first_octave(noise: ValueNoise, x: Fx, y: Fx, settings: FbmSettings, spacing: int, ridge: bool)
    ensures
        ({
            let s = sample_spec(
                noise.seed,
                fx_mul(x, settings.frequency),
                fx_mul(y, settings.frequency),
            );
            let layer = if ridge {
                fx_sub(Fx(4294967296), fx_abs(fx_sub(fx_mul(s, fx_int(2)), fx_int(1))))
            } else {
                s
            };
            &&& octave_sum(noise, x, y, settings, spacing, ridge, 1).0 == fx_mul(layer, Fx(4294967296))
            &&& octave_sum(noise, x, y, settings, spacing, ridge, 1).2 == Fx(4294967296)
        }),
{
    reveal_with_fuel(octave_sum, 2);
    let offset = fx_int(0 * spacing);
    assert(offset == Fx(0));
    assert(fx_add(fx_mul(x, settings.frequency), offset) == fx_mul(x, settings.frequency));
    assert(fx_add(fx_mul(y, settings.frequency), offset) == fx_mul(y, settings.frequency));
    let s = sample_spec(noise.seed, fx_mul(x, settings.frequency), fx_mul(y, settings.frequency));
    let layer = if ridge {
        fx_sub(Fx(4294967296), fx_abs(fx_sub(fx_mul(s, fx_int(2)), fx_int(1))))
    } else {
        s
    };
    assert(fx_add(Fx(0), fx_mul(layer, Fx(4294967296))) == fx_mul(layer, Fx(4294967296)));
}

/// A value in `[0, 1]` divided by one and clamped is itself.
proof fn lemma_unit_over_one(v: Fx)
    requires
        0 <= v.0 <= 4294967296,
    ensures
        fx_mul(v, Fx(4294967296)) == v,
        fx_clamp(fx_div(v, Fx(4294967296)), Fx(0), Fx(4294967296)) == v,
{
    assert((v.0 as int * 4294967296) / 4294967296 == v.0) by (nonlinear_arith)
        requires
            0 <= v.0 <= 4294967296,
    ;
    assert(crate::fixed::trunc_div(v.0 as int * 4294967296, 4294967296) == v.0) by (nonlinear_arith)
        requires
            0 <= v.0 <= 4294967296,
    ;
}

/// A single ridged octave folds the field about its midline: the result is
/// `1 - |2s - 1|` for the field's value `s` at the point scaled by the base
/// frequency, so it is 1 where the field crosses ½ and 0 where it reaches 0
/// or 1.
pub proof fn lemma_single_ridged_octave_folds_the_sample(
    noise: ValueNoise,
    x: Fx,
    y: Fx,
    settings: FbmSettings,
)
    requires
        settings.octaves == 1,
    ensures
        ({
            let s = sample_spec(
                noise.seed,
                fx_mul(x, settings.frequency),
                fx_mul(y, settings.frequency),
            );
            fractal_spec(noise, x, y, settings, 191, true, Fx(0)).0 == 4294967296 - abs_int(
                2 * s.0 - 4294967296,
            )
        }),
{
    let s = sample_spec(noise.seed, fx_mul(x, settings.frequency), fx_mul(y, settings.frequency));
    lemma_sample_in_unit_range(noise.seed, fx_mul(x, settings.frequency), fx_mul(y, settings.frequency));
    lemma_first_octave(noise, x, y, settings, 191, true);
    assert(fx_mul(s, fx_int(2)).0 == 2 * s.0) by (nonlinear_arith)
        requires
            0 <= s.0 <= 4294967296,
            fx_mul(s, fx_int(2)).0 == crate::fixed::saturate((s.0 * 8589934592) / 4294967296),
    ;
    let layer = fx_sub(Fx(4294967296), fx_abs(fx_sub(fx_mul(s, fx_int(2)), fx_int(1))));
    assert(layer.0 == 4294967296 - abs_int(2 * s.0 - 4294967296));
    lemma_unit_over_one(layer);
}

/// A single octave of fractal Brownian motion is the field itself at the
/// point scaled by the base frequency.
pub proof fn lemma_single_fbm_octave_is_the_sample(
    noise: ValueNoise,
    x: Fx,
    y: Fx,
    settings: FbmSettings,
)
    requires
        settings.octaves == 1,
    ensures
        fractal_spec(noise, x, y, settings, 137, false, Fx(2147483648)) == sample_spec(
            noise.seed,
            fx_mul(x, settings.frequency),
            fx_mul(y, settings.frequency),
        ),
{
    let s = sample_spec(noise.seed, fx_mul(x, settings.frequency), fx_mul(y, settings.frequency));
    lemma_sample_in_unit_range(noise.seed, fx_mul(x, settings.frequency), fx_mul(y, settings.frequency));
    lemma_first_octave(noise, x, y, settings, 137, false);
    lemma_unit_over_one(s);
}

} // verus!
