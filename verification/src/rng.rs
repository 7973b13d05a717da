//! A seekable, deterministic PCG-XSH-RR random number generator.
//!
//! Every random draw in the simulation comes from an [`Rng`] whose state is
//! part of saved and replayed state, so the same seed gives the same sequence
//! on every machine. [`Rng::derive`] makes named child streams, so adding a
//! system cannot shift another system's rolls.
use crate::fixed::{fx_add, fx_mul, fx_sub, Fx};
use crate::hasher::{fnv_extend, fnv_fold, FNV_OFFSET_BASIS};
use crate::vec2::{v2, v2_length_squared, Vec2};
use vstd::prelude::*;
use vstd::string::StringSliceAdditionalSpecFns;

verus! {

/// The PCG 64-bit LCG multiplier.
pub const PCG_MULTIPLIER: u64 = 6_364_136_223_846_793_005;

/// The increment used when no stream is chosen.
pub const PCG_DEFAULT_INCREMENT: u64 = 1_442_695_040_888_963_407;

/// The most draws a rejection loop makes before it gives up. A generator that
/// rejects this many candidates in a row does not occur in practice; the
/// bound is what makes every call return.
pub const MAX_ATTEMPTS: u64 = 0xffff_ffff_ffff_ffff;

/// One LCG step: `state * MULTIPLIER + increment`, modulo 2^64.
#[verifier::opaque]
pub open spec fn pcg_step(state: u64, inc: u64) -> u64 {
    vstd::wrapping::u64_specs::wrapping_add(
        vstd::wrapping::u64_specs::wrapping_mul(state, PCG_MULTIPLIER),
        inc,
    )
}

/// `state` advanced by `k` steps.
pub open spec fn pcg_advance(state: u64, inc: u64, k: nat) -> u64
    decreases k,
{
    if k == 0 {
        state
    } else {
        pcg_step(pcg_advance(state, inc, (k - 1) as nat), inc)
    }
}

/// A 32-bit rotate right.
pub open spec fn rotr32(x: u32, r: u32) -> u32 {
    if r == 0 {
        x
    } else {
        (x >> r) | (x << ((32 - r) as u32))
    }
}

/// The XSH-RR output function applied to the state before a step.
pub open spec fn pcg_output(prev: u64) -> u32 {
    rotr32((((prev >> 18u64) ^ prev) >> 27u64) as u32, (prev >> 59u64) as u32)
}

/// The `k`-th 32-bit output from `state`.
pub open spec fn pcg_nth(state: u64, inc: u64, k: nat) -> u32 {
    pcg_output(pcg_advance(state, inc, k))
}

/// The increment a stream number selects: always odd.
pub open spec fn stream_increment(stream: u64) -> u64 {
    ((stream << 1u64) | 1u64) as u64
}

/// The state [`Rng::with_stream`] starts from.
pub open spec fn seeded_state(seed: u64, inc: u64) -> u64 {
    pcg_step(vstd::wrapping::u64_specs::wrapping_add(pcg_step(0, inc), seed), inc)
}

/// The rejection threshold of [`Rng::below`]: `2^32 mod bound`, below which a
/// candidate would bias the result.
pub open spec fn below_threshold(bound: u32) -> u32 {
    ((0x1_0000_0000 - bound as int) % (bound as int)) as u32
}

/// Draw `k` is where the rejection loop of [`Rng::below`] stops: every earlier
/// candidate was rejected, and this one is accepted (or the attempt bound was
/// reached).
pub open spec fn below_stops_at(state: u64, inc: u64, bound: u32, k: nat) -> bool {
    &&& k <= MAX_ATTEMPTS
    &&& forall|j: nat| j < k ==> #[trigger] pcg_nth(state, inc, j) < below_threshold(bound)
    &&& (pcg_nth(state, inc, k) >= below_threshold(bound) || k == MAX_ATTEMPTS)
}

/// The number of rejected draws before [`Rng::below`] accepts one.
pub open spec fn below_attempts(state: u64, inc: u64, bound: u32) -> nat {
    choose|k: nat| below_stops_at(state, inc, bound, k)
}

/// The value [`Rng::below`] returns from `state`.
pub open spec fn below_value(state: u64, inc: u64, bound: u32) -> u32 {
    (pcg_nth(state, inc, below_attempts(state, inc, bound)) % bound) as u32
}

/// The state [`Rng::below`] leaves behind.
pub open spec fn below_state(state: u64, inc: u64, bound: u32) -> u64 {
    pcg_advance(state, inc, below_attempts(state, inc, bound) + 1)
}

/// The items after the Fisher–Yates passes of [`Rng::shuffle`] at positions
/// `index` down to 1, from generator state `(st, inc)`, and the state after
/// them: each pass swaps position `index` with one drawn below `index + 1`.
pub open spec fn shuffled<T>(st: u64, inc: u64, items: Seq<T>, index: int) -> (Seq<T>, u64)
    decreases index,
{
    if index < 1 || index >= items.len() {
        (items, st)
    } else {
        let bound: u32 = if index >= u32::MAX {
            u32::MAX
        } else {
            (index + 1) as u32
        };
        let j = below_value(st, inc, bound) as int;
        shuffled(
            below_state(st, inc, bound),
            inc,
            items.update(index, items[j]).update(j, items[index]),
            index - 1,
        )
    }
}

/// Restoring a captured state gives back the generator it was captured
/// from: a captured increment is odd, so forcing it odd changes nothing.
pub proof fn lemma_restore_round_trips(captured: (u64, u64))
    requires
        captured.1 % 2 == 1,
    ensures
        (captured.0, captured.1 | 1u64) == captured,
{
    let inc = captured.1;
    assert(inc % 2 == 1 ==> inc | 1u64 == inc) by (bit_vector);
}

/// The stopping point of the rejection loop is unique.
pub proof fn lemma_below_stops_unique(state: u64, inc: u64, bound: u32, k1: nat, k2: nat)
    requires
        below_stops_at(state, inc, bound, k1),
        below_stops_at(state, inc, bound, k2),
    ensures
        k1 == k2,
{
    if k1 < k2 {
        assert(pcg_nth(state, inc, k1) < below_threshold(bound));
    } else if k2 < k1 {
        assert(pcg_nth(state, inc, k2) < below_threshold(bound));
    }
}

/// The sum of a sequence of weights.
pub open spec fn weight_sum(weights: Seq<u32>) -> int
    decreases weights.len(),
{
    if weights.len() == 0 {
        0
    } else {
        weight_sum(weights.drop_last()) + weights.last()
    }
}

/// The fixed-point value in `[0, 1)` that a 32-bit draw maps to.
pub open spec fn unit_of(draw: u32) -> Fx {
    Fx(draw as i64)
}

/// The candidate point of the `j`-th attempt of [`Rng::unit_circle`]: two
/// draws mapped into `[-1, 1)`.
pub open spec fn circle_candidate(state: u64, inc: u64, j: nat) -> Vec2 {
    let lo = Fx(-4294967296i64);
    let span = fx_sub(Fx(4294967296), lo);
    v2(
        fx_add(lo, fx_mul(span, unit_of(pcg_nth(state, inc, 2 * j)))),
        fx_add(lo, fx_mul(span, unit_of(pcg_nth(state, inc, 2 * j + 1)))),
    )
}

/// Attempt `k` is where [`Rng::unit_circle`] stops.
pub open spec fn circle_stops_at(state: u64, inc: u64, k: nat) -> bool {
    &&& k <= MAX_ATTEMPTS
    &&& forall|j: nat|
        j < k ==> #[trigger] v2_length_squared(circle_candidate(state, inc, j)).0 > 4294967296
    &&& (v2_length_squared(circle_candidate(state, inc, k)).0 <= 4294967296 || k == MAX_ATTEMPTS)
}

/// A seeded PCG-XSH-RR generator.
#[derive(PartialEq, Eq, Structural, Debug)]
pub struct Rng {
    state: u64,
    increment: u64,
}

impl View for Rng {
    /// `(state, increment)`.
    type V = (u64, u64);

    closed spec fn view(&self) -> (u64, u64) {
        (self.state, self.increment)
    }
}

/// The 32-bit rotate right.
fn rotate_right_u32(x: u32, r: u32) -> (out: u32)
    requires
        r < 32,
    ensures
        out == rotr32(x, r),
{
    if r == 0 {
        x
    } else {
        (x >> r) | (x << (32 - r))
    }
}

impl Rng {
    /// The increment is odd, which is what gives the LCG its full period.
    #[verifier::type_invariant]
    spec fn increment_is_odd(self) -> bool {
        self.increment % 2 == 1
    }

    /// A generator on the default stream.
    pub fn new(seed: u64) -> (r: Rng)
        ensures
            r@ == (seeded_state(seed, PCG_DEFAULT_INCREMENT), PCG_DEFAULT_INCREMENT),
    {
        proof {
            assert(stream_increment(721_347_520_444_481_703) == PCG_DEFAULT_INCREMENT)
                by (bit_vector);
        }
        Rng::with_stream(seed, 721_347_520_444_481_703)
    }

    /// A generator on an explicit stream. Two generators with the same seed but
    /// different streams produce unrelated sequences.
    pub fn with_stream(seed: u64, stream: u64) -> (r: Rng)
        ensures
            r@ == (seeded_state(seed, stream_increment(stream)), stream_increment(stream)),
    {
        let increment = (stream << 1) | 1;
        assert(increment % 2 == 1) by (bit_vector)
            requires
                increment == (stream << 1) | 1,
        ;
        let mut rng = Rng { state: 0, increment };
        rng.next_u32();
        rng.state = rng.state.wrapping_add(seed);
        rng.next_u32();
        rng
    }

    /// A child generator for a named purpose, without advancing this one: the
    /// label's FNV-1a hash picks the child's stream and perturbs its seed.
    pub fn derive(&self, label: &str) -> (r: Rng)
        ensures
            r@ == ({
                let hash = fnv_fold(FNV_OFFSET_BASIS, label.spec_bytes());
                let inc = stream_increment(hash | 1u64);
                (seeded_state(self@.0 ^ hash, inc), inc)
            }),
    {
        let hash = fnv_extend(FNV_OFFSET_BASIS, label.as_bytes());
        Rng::with_stream(self.state ^ hash, hash | 1)
    }

    /// The next 32 bits of output.
    pub fn next_u32(&mut self) -> (r: u32)
        ensures
            final(self)@ == (pcg_step(old(self)@.0, old(self)@.1), old(self)@.1),
            r == pcg_output(old(self)@.0),
    {
        let previous = self.state;
        proof {
            use_type_invariant(&*self);
            reveal(pcg_step);
        }
        self.state = previous.wrapping_mul(PCG_MULTIPLIER).wrapping_add(self.increment);
        let xorshifted = (((previous >> 18) ^ previous) >> 27) as u32;
        let rotation = (previous >> 59) as u32;
        proof {
            assert(previous >> 59u64 < 32) by (bit_vector);
        }
        rotate_right_u32(xorshifted, rotation)
    }

    /// The next 64 bits of output: two 32-bit draws, high word first.
    pub fn next_u64(&mut self) -> (r: u64)
        ensures
            final(self)@ == (pcg_advance(old(self)@.0, old(self)@.1, 2), old(self)@.1),
            r == pcg_nth(old(self)@.0, old(self)@.1, 0) as u64 * 0x1_0000_0000 + pcg_nth(
                old(self)@.0,
                old(self)@.1,
                1,
            ) as u64,
    {
        proof {
            reveal_with_fuel(pcg_advance, 3);
        }
        let high = self.next_u32() as u64;
        let low = self.next_u32() as u64;
        proof {
            assert((high << 32u64) | low == high * 0x1_0000_0000 + low) by (bit_vector)
                requires
                    high < 0x1_0000_0000,
                    low < 0x1_0000_0000,
            ;
        }
        (high << 32) | low
    }

    /// A uniform value in `[0, bound)`, by rejection sampling so that no value
    /// is favoured. The bound must not be zero.
    pub fn below(&mut self, bound: u32) -> (r: u32)
        requires
            bound > 0,
        ensures
            r < bound,
            r == below_value(old(self)@.0, old(self)@.1, bound),
            final(self)@ == (below_state(old(self)@.0, old(self)@.1, bound), old(self)@.1),
    {
        let threshold = ((0x1_0000_0000u64 - bound as u64) % bound as u64) as u32;
        let ghost start = self@.0;
        let ghost inc = self@.1;
        let mut attempts: u64 = 0;
        loop
            invariant
                start == old(self)@.0,
                inc == old(self)@.1,
                bound > 0,
                threshold == below_threshold(bound),
                attempts <= MAX_ATTEMPTS,
                self@ == (pcg_advance(start, inc, attempts as nat), inc),
                forall|j: nat| j < attempts ==> #[trigger] pcg_nth(start, inc, j) < threshold,
            decreases MAX_ATTEMPTS - attempts,
        {
            let candidate = self.next_u32();
            proof {
                assert(candidate == pcg_nth(start, inc, attempts as nat));
            }
            if candidate >= threshold || attempts == MAX_ATTEMPTS {
                proof {
                    assert(below_stops_at(start, inc, bound, attempts as nat));
                    let k = below_attempts(start, inc, bound);
                    lemma_below_stops_unique(start, inc, bound, k, attempts as nat);
                }
                return candidate % bound;
            }
            attempts = attempts + 1;
        }
    }

    /// A uniform value in `[min, max]`, inclusive at both ends. `min` must not
    /// exceed `max`.
    pub fn range(&mut self, min: i32, max: i32) -> (r: i32)
        requires
            min <= max,
        ensures
            min <= r <= max || (min == i32::MIN && max == i32::MAX),
            max - min + 1 <= u32::MAX ==> r == min + below_value(
                old(self)@.0,
                old(self)@.1,
                (max - min + 1) as u32,
            ),
            max - min + 1 > u32::MAX ==> r == vstd::wrapping::i32_specs::wrapping_add(
                min,
                pcg_output(old(self)@.0) as i32,
            ),
            max - min + 1 <= u32::MAX ==> final(self)@ == (
                below_state(old(self)@.0, old(self)@.1, (max - min + 1) as u32),
                old(self)@.1,
            ),
            max - min + 1 > u32::MAX ==> final(self)@ == (
                pcg_step(old(self)@.0, old(self)@.1),
                old(self)@.1,
            ),
    {
        let span = (max as i64 - min as i64 + 1) as u64;
        if span > u32::MAX as u64 {
            return min.wrapping_add(self.next_u32() as i32);
        }
        assert(span == max - min + 1);
        let offset = self.below(span as u32);
        assert(offset < max - min + 1);
        (min as i64 + offset as i64) as i32
    }

    /// A fixed-point value in `[0, 1)`, from one 32-bit draw used as the
    /// fraction.
    pub fn unit(&mut self) -> (r: Fx)
        ensures
            r == unit_of(pcg_output(old(self)@.0)),
            0 <= r.0 < 4294967296,
            final(self)@ == (pcg_step(old(self)@.0, old(self)@.1), old(self)@.1),
    {
        Fx::from_raw(self.next_u32() as i64)
    }

    /// A fixed-point value in `[min, max)`: `min + (max - min) * unit()`.
    pub fn range_fx(&mut self, min: Fx, max: Fx) -> (r: Fx)
        ensures
            r == fx_add(min, fx_mul(fx_sub(max, min), unit_of(pcg_output(old(self)@.0)))),
            final(self)@ == (pcg_step(old(self)@.0, old(self)@.1), old(self)@.1),
    {
        min + (max - min) * self.unit()
    }

    /// True with probability `numerator / denominator`. The denominator
    /// must not be zero.
    pub fn chance(&mut self, numerator: u32, denominator: u32) -> (r: bool)
        requires
            denominator > 0,
        ensures
            r == (below_value(old(self)@.0, old(self)@.1, denominator) < numerator),
            final(self)@ == (below_state(old(self)@.0, old(self)@.1, denominator), old(self)@.1),
    {
        self.below(denominator) < numerator
    }

    /// A fair coin: the low bit of one draw.
    pub fn coin_flip(&mut self) -> (r: bool)
        ensures
            r == (pcg_output(old(self)@.0) & 1 == 1),
            final(self)@ == (pcg_step(old(self)@.0, old(self)@.1), old(self)@.1),
    {
        self.next_u32() & 1 == 1
    }

    /// A uniformly chosen element, or `None` for an empty slice.
    pub fn pick<'a, T>(&mut self, items: &'a [T]) -> (r: Option<&'a T>)
        ensures
            items@.len() == 0 ==> r.is_none() && final(self)@ == old(self)@,
            items@.len() > 0 ==> ({
                let bound = if items@.len() > u32::MAX { u32::MAX } else { items@.len() as u32 };
                &&& r == Some(&items@[below_value(old(self)@.0, old(self)@.1, bound) as int])
                &&& final(self)@ == (below_state(old(self)@.0, old(self)@.1, bound), old(self)@.1)
            }),
    {
        if items.len() == 0 {
            return None;
        }
        let bound: u32 = if items.len() > u32::MAX as usize {
            u32::MAX
        } else {
            items.len() as u32
        };
        let index = self.below(bound);
        Some(&items[index as usize])
    }

    /// An index chosen with probability proportional to its weight, or `None`
    /// when every weight is zero. Zero-weight entries are never chosen. The
    /// weights must sum to at most `u32::MAX`.
    pub fn pick_weighted(&mut self, weights: &[u32]) -> (r: Option<usize>)
        requires
            weight_sum(weights@) <= u32::MAX,
        ensures
            weight_sum(weights@) == 0 ==> r.is_none() && final(self)@ == old(self)@,
            weight_sum(weights@) > 0 ==> ({
                let roll = below_value(old(self)@.0, old(self)@.1, weight_sum(weights@) as u32);
                &&& final(self)@ == (
                    below_state(old(self)@.0, old(self)@.1, weight_sum(weights@) as u32),
                    old(self)@.1,
                )
                &&& r matches Some(i) && i < weights@.len() && weights@[i as int] > 0
                    && weight_sum(weights@.take(i as int)) <= roll < weight_sum(
                    weights@.take(i as int + 1),
                )
            }),
    {
        let mut total: u32 = 0;
        let mut i: usize = 0;
        while i < weights.len()
            invariant
                i <= weights@.len(),
                total == weight_sum(weights@.take(i as int)),
                weight_sum(weights@) <= u32::MAX,
            decreases weights@.len() - i,
        {
            proof {
                assert(weights@.take(i + 1).drop_last() =~= weights@.take(i as int));
                lemma_weight_sum_prefix_bound(weights@, i as int + 1);
            }
            total = total + weights[i];
            i = i + 1;
        }
        proof {
            assert(weights@.take(i as int) =~= weights@);
        }
        if total == 0 {
            return None;
        }
        let roll = self.below(total);
        let mut index: usize = 0;
        let mut passed: u32 = 0;
        while index < weights.len()
            invariant
                roll == below_value(old(self)@.0, old(self)@.1, weight_sum(weights@) as u32),
                self@ == (
                    below_state(old(self)@.0, old(self)@.1, weight_sum(weights@) as u32),
                    old(self)@.1,
                ),
                index <= weights@.len(),
                passed == weight_sum(weights@.take(index as int)),
                passed <= roll < total,
                total == weight_sum(weights@),
            decreases weights@.len() - index,
        {
            proof {
                assert(weights@.take(index + 1).drop_last() =~= weights@.take(index as int));
                assert(weights@.take(index + 1).last() == weights@[index as int]);
            }
            proof {
                lemma_weight_sum_prefix_bound(weights@, index as int + 1);
            }
            if roll - passed < weights[index] {
                return Some(index);
            }
            passed = passed + weights[index];
            index = index + 1;
        }
        proof {
            assert(weights@.take(index as int) =~= weights@);
        }
        None
    }

    /// Shuffles in place with a Fisher–Yates pass from the back. The result is
    /// a permutation of the input.
    pub fn shuffle<T>(&mut self, items: &mut [T])
        ensures
            final(items)@.to_multiset() == old(items)@.to_multiset(),
            final(items)@.len() == old(items)@.len(),
            (final(items)@, final(self)@.0) == shuffled(
                old(self)@.0,
                old(self)@.1,
                old(items)@,
                old(items)@.len() - 1,
            ),
            final(self)@.1 == old(self)@.1,
    {
        if items.len() < 2 {
            return;
        }
        let ghost inc = self@.1;
        let ghost whole = shuffled(self@.0, inc, items@, items@.len() - 1);
        let mut index = items.len() - 1;
        while index >= 1
            invariant
                index < items@.len(),
                items@.len() == old(items)@.len(),
                items@.to_multiset() == old(items)@.to_multiset(),
                self@.1 == inc,
                shuffled(self@.0, inc, items@, index as int) == whole,
            decreases index,
        {
            let bound: u32 = if index >= u32::MAX as usize {
                u32::MAX
            } else {
                (index + 1) as u32
            };
            let swap_with = self.below(bound) as usize;
            let ghost before = items@;
            swap_elements(items, index, swap_with);
            proof {
                lemma_swap_preserves_multiset(before, index as int, swap_with as int);
            }
            index = index - 1;
        }
    }

    /// A uniformly distributed point inside the unit circle, by rejection from
    /// the enclosing square.
    pub fn unit_circle(&mut self) -> (r: Vec2)
        ensures
            v2_length_squared(r).0 <= 4294967296 || r == circle_candidate(
                old(self)@.0,
                old(self)@.1,
                MAX_ATTEMPTS as nat,
            ),
            exists|k: nat|
                #[trigger] circle_stops_at(old(self)@.0, old(self)@.1, k) && r == circle_candidate(
                    old(self)@.0,
                    old(self)@.1,
                    k,
                ) && final(self)@ == (pcg_advance(old(self)@.0, old(self)@.1, 2 * k + 2), old(self)@.1),
    {
        let ghost start = self@.0;
        let ghost inc = self@.1;
        let mut attempts: u64 = 0;
        loop
            invariant
                start == old(self)@.0,
                inc == old(self)@.1,
                attempts <= MAX_ATTEMPTS,
                self@ == (pcg_advance(start, inc, 2 * attempts as nat), inc),
                forall|j: nat|
                    j < attempts ==> #[trigger] v2_length_squared(circle_candidate(start, inc, j)).0
                        > 4294967296,
            decreases MAX_ATTEMPTS - attempts,
        {
            proof {
                reveal_with_fuel(pcg_advance, 2);
                assert(pcg_advance(start, inc, 2 * attempts as nat + 1) == pcg_step(
                    pcg_advance(start, inc, 2 * attempts as nat),
                    inc,
                ));
                assert(pcg_advance(start, inc, 2 * attempts as nat + 2) == pcg_step(
                    pcg_advance(start, inc, 2 * attempts as nat + 1),
                    inc,
                ));
            }
            let x = self.range_fx(Fx::neg_one(), Fx::one());
            let y = self.range_fx(Fx::neg_one(), Fx::one());
            let point = Vec2::new(x, y);
            proof {
                assert(point == circle_candidate(start, inc, attempts as nat));
            }
            if point.length_squared().0 <= Fx::one().0 || attempts == MAX_ATTEMPTS {
                proof {
                    assert(circle_stops_at(start, inc, attempts as nat));
                }
                return point;
            }
            attempts = attempts + 1;
        }
    }

    /// The full generator state, `(state, increment)`, for snapshots.
    pub fn state(&self) -> (r: (u64, u64))
        ensures
            r == self@,
            r.1 % 2 == 1,
    {
        proof {
            use_type_invariant(self);
        }
        (self.state, self.increment)
    }

    /// Restores a state captured by [`Rng::state`]. The increment is forced
    /// odd, as the LCG requires.
    pub fn restore(&mut self, state: (u64, u64))
        ensures
            final(self)@ == (state.0, state.1 | 1u64),
    {
        let requested = state.1;
        let increment = requested | 1;
        assert(increment % 2 == 1) by (bit_vector)
            requires
                increment == requested | 1,
        ;
        *self = Rng { state: state.0, increment };
    }
}

impl Clone for Rng {
    fn clone(&self) -> (r: Rng)
        ensures
            r == *self,
    {
        proof {
            use_type_invariant(self);
        }
        Rng { state: self.state, increment: self.increment }
    }
}

impl Default for Rng {
    fn default() -> (r: Rng)
        ensures
            r@ == (seeded_state(0x5eed_1234_5678_9abc, PCG_DEFAULT_INCREMENT), PCG_DEFAULT_INCREMENT),
    {
        Rng::new(0x5eed_1234_5678_9abc)
    }
}

/// Every prefix of the weights sums to no more than the whole.
proof fn lemma_weight_sum_prefix_bound(weights: Seq<u32>, n: int)
    requires
        0 <= n <= weights.len(),
    ensures
        weight_sum(weights.take(n)) <= weight_sum(weights),
        weight_sum(weights.take(n)) >= 0,
    decreases weights.len(),
{
    if weights.len() == 0 {
        assert(weights.take(n) =~= weights);
    } else if n == weights.len() {
        assert(weights.take(n) =~= weights);
        lemma_weight_sum_prefix_bound(weights.drop_last(), n - 1);
        assert(weights.drop_last().take(n - 1) =~= weights.drop_last());
    } else {
        lemma_weight_sum_prefix_bound(weights.drop_last(), n);
        assert(weights.drop_last().take(n) =~= weights.take(n));
    }
}

/// Exchanging two elements keeps the same multiset of elements.
pub(crate) proof fn lemma_swap_preserves_multiset<T>(s: Seq<T>, a: int, b: int)
    requires
        0 <= a < s.len(),
        0 <= b < s.len(),
    ensures
        s.update(a, s[b]).update(b, s[a]).to_multiset() == s.to_multiset(),
{
    broadcast use vstd::seq_lib::to_multiset_update;
    broadcast use vstd::multiset::group_multiset_axioms;

    broadcast use vstd::multiset::group_multiset_properties;
    broadcast use vstd::seq_lib::to_multiset_contains;

    if a == b {
        assert(s.update(a, s[b]).update(b, s[a]) =~= s);
    } else {
        let m = s.to_multiset();
        let s1 = s.update(a, s[b]);
        assert(s1[b] == s[b]);
        assert(s1.to_multiset() == m.insert(s[b]).remove(s[a]));
        assert(s1.update(b, s[a]).to_multiset() == s1.to_multiset().insert(s[a]).remove(s[b]));
        assert(s.contains(s[a]));
        assert(s.contains(s[b]));
        assert(m.count(s[a]) > 0);
        assert(m.count(s[b]) > 0);
        assert(s1.update(b, s[a]).to_multiset() =~= m);
    }
}

/// Swaps two elements of a slice.
#[verifier::external_body]
fn swap_elements<T>(items: &mut [T], a: usize, b: usize)
    requires
        a < old(items)@.len(),
        b < old(items)@.len(),
    ensures
        final(items)@ == old(items)@.update(a as int, old(items)@[b as int]).update(
            b as int,
            old(items)@[a as int],
        ),
{
    items.swap(a, b);
}

} // verus!
