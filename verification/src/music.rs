//! Procedural music: scales, chords, and the note plan of a composed piece.
//!
//! Melodies are drawn from a scale over a chord progression, so every note is
//! consonant with what is under it by construction. Everything is a function
//! of a seed. Times are counted in half beats, the finest unit the composer
//! uses, so the plan is exact; turning it into seconds is left to whoever
//! renders it.
use crate::hasher::{fnv_fold, FNV_OFFSET_BASIS};
use crate::rng::{below_state, below_value, seeded_state, stream_increment, Rng, PCG_DEFAULT_INCREMENT};
use vstd::string::StringSliceAdditionalSpecFns;
use vstd::prelude::*;

verus! {

/// A scale, as semitone offsets from its root.
#[derive(Clone, Copy, PartialEq, Eq, Structural, Debug, Hash)]
pub enum Scale {
    /// Bright and settled.
    Major,
    /// Darker; the natural minor.
    Minor,
    /// Minor with a raised sixth.
    Dorian,
    /// Five notes, no semitone clashes at all.
    Pentatonic,
    /// Major without the fourth and seventh.
    MajorPentatonic,
}

/// The semitone offsets of a scale's degrees.
pub open spec fn degrees_of(scale: Scale) -> Seq<i32> {
    match scale {
        Scale::Major => seq![0, 2, 4, 5, 7, 9, 11],
        Scale::Minor => seq![0, 2, 3, 5, 7, 8, 10],
        Scale::Dorian => seq![0, 2, 3, 5, 7, 9, 10],
        Scale::Pentatonic => seq![0, 3, 5, 7, 10],
        Scale::MajorPentatonic => seq![0, 2, 4, 7, 9],
    }
}

/// The unclamped semitone count of a degree above a root: the degree wraps
/// into octaves, Euclidean style, so negative degrees go down.
pub open spec fn semitones(scale: Scale, root: u8, degree: i32) -> int {
    let count = degrees_of(scale).len() as int;
    let d = degree as int;
    root + degrees_of(scale)[d % count] + (d / count) * 12
}

/// The MIDI pitch of a degree: its semitone count clamped to `0..=127`.
pub open spec fn pitch_of(scale: Scale, root: u8, degree: i32) -> u8 {
    let s = semitones(scale, root, degree);
    if s < 0 {
        0
    } else if s > 127 {
        127
    } else {
        s as u8
    }
}

/// The octave arithmetic of a degree fits in 32 bits.
pub open spec fn pitch_fits(scale: Scale, root: u8, degree: i32) -> bool {
    let count = degrees_of(scale).len() as int;
    let d = degree as int;
    i32::MIN <= (d / count) * 12 && root + 11 + (d / count) * 12 <= i32::MAX
}

/// Degrees of modest size always fit.
pub proof fn lemma_small_degrees_fit(scale: Scale, root: u8, degree: i32)
    requires
        -1000 <= degree <= 1000,
    ensures
        pitch_fits(scale, root, degree),
{
    let n = degrees_of(scale).len() as int;
    assert(n == 5 || n == 7);
    let d = degree as int;
    if n == 5 {
        assert(-201 <= d / 5 <= 200);
    } else {
        assert(-143 <= d / 7 <= 143);
    }
}

/// Degree zero of every scale is its root.
pub proof fn lemma_degree_zero_is_the_root(scale: Scale, root: u8)
    requires
        root <= 127,
    ensures
        pitch_of(scale, root, 0) == root,
{
}

/// A degree one scale-length higher is the same note an octave up.
pub proof fn lemma_degrees_wrap_by_octaves(scale: Scale, root: u8, degree: i32)
    requires
        degree + degrees_of(scale).len() <= i32::MAX,
    ensures
        semitones(scale, root, (degree + degrees_of(scale).len()) as i32) == semitones(
            scale,
            root,
            degree,
        ) + 12,
{
    let n = degrees_of(scale).len() as int;
    let d = degree as int;
    vstd::arithmetic::div_mod::lemma_mod_add_multiples_vanish(d, n);
    vstd::arithmetic::div_mod::lemma_div_plus_one(d, n);
}

/// Pitches rise strictly with their degree, before clamping to the MIDI
/// range, and never fall after it.
pub proof fn lemma_pitches_rise(scale: Scale, root: u8, degree: i32)
    requires
        degree < i32::MAX,
    ensures
        semitones(scale, root, degree) < semitones(scale, root, (degree + 1) as i32),
        pitch_of(scale, root, degree) <= pitch_of(scale, root, (degree + 1) as i32),
{
    let n = degrees_of(scale).len() as int;
    let d = degree as int;
    let s = degrees_of(scale);
    assert(n == 5 || n == 7);
    vstd::arithmetic::div_mod::lemma_fundamental_div_mod(d, n);
    vstd::arithmetic::div_mod::lemma_fundamental_div_mod(d + 1, n);
    vstd::arithmetic::div_mod::lemma_mod_bound(d, n);
    vstd::arithmetic::div_mod::lemma_mod_bound(d + 1, n);
    if d % n < n - 1 {
        assert((d + 1) % n == d % n + 1 && (d + 1) / n == d / n) by {
            vstd::arithmetic::div_mod::lemma_fundamental_div_mod_converse(
                d + 1,
                n,
                d / n,
                d % n + 1,
            );
        }
        assert(s[d % n] < s[d % n + 1]);
    } else {
        assert((d + 1) % n == 0 && (d + 1) / n == d / n + 1) by {
            assert(n * (d / n) + n == n * (d / n + 1)) by (nonlinear_arith);
            vstd::arithmetic::div_mod::lemma_fundamental_div_mod_converse(d + 1, n, d / n + 1, 0);
        }
        assert(s[n - 1] < s[0] + 12);
    }
}

impl Scale {
    /// Every scale, for iteration.
    pub fn all() -> (r: [Scale; 5])
        ensures
            r@ == seq![
                Scale::Major,
                Scale::Minor,
                Scale::Dorian,
                Scale::Pentatonic,
                Scale::MajorPentatonic,
            ],
    {
        let r = [Scale::Major, Scale::Minor, Scale::Dorian, Scale::Pentatonic, Scale::MajorPentatonic];
        assert(r@ =~= seq![
            Scale::Major,
            Scale::Minor,
            Scale::Dorian,
            Scale::Pentatonic,
            Scale::MajorPentatonic,
        ]);
        r
    }

    /// The semitone offsets of its degrees.
    pub fn degrees(self) -> (r: Vec<i32>)
        ensures
            r@ == degrees_of(self),
    {
        let r = match self {
            Scale::Major => vec![0, 2, 4, 5, 7, 9, 11],
            Scale::Minor => vec![0, 2, 3, 5, 7, 8, 10],
            Scale::Dorian => vec![0, 2, 3, 5, 7, 9, 10],
            Scale::Pentatonic => vec![0, 3, 5, 7, 10],
            Scale::MajorPentatonic => vec![0, 2, 4, 7, 9],
        };
        assert(r@ =~= degrees_of(self));
        r
    }

    /// Its name, for display.
    pub fn name(self) -> (r: &'static str)
        ensures
            r@ == match self {
                Scale::Major => "major"@,
                Scale::Minor => "minor"@,
                Scale::Dorian => "dorian"@,
                Scale::Pentatonic => "pentatonic"@,
                Scale::MajorPentatonic => "major pentatonic"@,
            },
    {
        match self {
            Scale::Major => "major",
            Scale::Minor => "minor",
            Scale::Dorian => "dorian",
            Scale::Pentatonic => "pentatonic",
            Scale::MajorPentatonic => "major pentatonic",
        }
    }

    /// The MIDI pitch of a scale degree above a root. Degrees past the end
    /// of the scale wrap into higher octaves and negative ones into lower
    /// octaves; the result is clamped to the MIDI range. Degrees so extreme
    /// that the octave arithmetic overflows are left out.
    pub fn pitch(self, root: u8, degree: i32) -> (r: u8)
        requires
            pitch_fits(self, root, degree),
        ensures
            r == pitch_of(self, root, degree),
    {
        let steps = self.degrees();
        let count: i32 = steps.len() as i32;
        let octave = if degree >= 0 {
            degree / count
        } else {
            -((-(degree as i64) + (count as i64) - 1) / (count as i64)) as i32
        };
        proof {
            let n = count as int;
            let d = degree as int;
            assert(n == degrees_of(self).len());
            assert(n == 5 || n == 7);
            if d < 0 {
                let q = d / n;
                let rem = d % n;
                assert(d == q * n + rem && 0 <= rem < n) by {
                    vstd::arithmetic::div_mod::lemma_fundamental_div_mod(d, n);
                    vstd::arithmetic::div_mod::lemma_mod_bound(d, n);
                    assert(n * q == q * n) by (nonlinear_arith);
                }
                let m = -d + n - 1;
                assert(m == (-q) * n + (n - 1 - rem)) by (nonlinear_arith)
                    requires
                        d == q * n + rem,
                        m == -d + n - 1,
                ;
                vstd::arithmetic::div_mod::lemma_fundamental_div_mod_converse(m, n, -q, n - 1 - rem);
                assert(octave as int == q);
            } else {
                assert(octave as int == d / n);
            }
            vstd::arithmetic::div_mod::lemma_fundamental_div_mod(d, n);
            vstd::arithmetic::div_mod::lemma_mod_bound(d, n);
            assert(n * (d / n) == (d / n) * n) by (nonlinear_arith);
            assert(0 <= d - (d / n) * n < n);
            assert(-(d / n) * n <= 2147483648 + n) by (nonlinear_arith)
                requires
                    0 <= d - (d / n) * n < n,
                    -2147483648 <= d,
            ;
            assert((d / n) * n <= 2147483647) by (nonlinear_arith)
                requires
                    0 <= d - (d / n) * n < n,
                    d <= 2147483647,
            ;
        }
        let index = (degree as i64 - octave as i64 * count as i64) as usize;
        assert(index as int == (degree as int) % (count as int));
        let semitones: i32 = root as i32 + steps[index as usize] + octave * 12;
        if semitones < 0 {
            0
        } else if semitones > 127 {
            127
        } else {
            semitones as u8
        }
    }
}

/// A chord, as a scale degree above the key's root.
#[derive(Clone, Copy, PartialEq, Eq, Structural, Debug)]
pub struct Chord {
    /// The chord's root, as a scale degree.
    pub root: i32,
}

impl Chord {
    /// The triad built on this chord's root: stacked thirds within the
    /// scale. Roots whose fifth overflows are left out.
    pub fn triad(self) -> (r: [i32; 3])
        requires
            self.root <= i32::MAX - 4,
        ensures
            r@ == seq![self.root, (self.root + 2) as i32, (self.root + 4) as i32],
    {
        let r = [self.root, self.root + 2, self.root + 4];
        assert(r@ =~= seq![self.root, (self.root + 2) as i32, (self.root + 4) as i32]);
        r
    }
}

/// The four chord progressions, one chord per bar, as degrees.
pub open spec fn progressions_of() -> Seq<Seq<i32>> {
    seq![seq![0, 5, 3, 4], seq![0, 3, 4, 0], seq![5, 3, 0, 4], seq![0, 4, 5, 3]]
}

/// The four progressions almost all popular music is built from, each of
/// which loops without a seam.
pub fn progressions() -> (r: [[i32; 4]; 4])
    ensures
        forall|p: int, b: int| 0 <= p < 4 && 0 <= b < 4 ==> r@[p]@[b] == progressions_of()[p][b],
{
    [[0, 5, 3, 4], [0, 3, 4, 0], [5, 3, 0, 4], [0, 4, 5, 3]]
}

/// One note of a composed piece: which bar it is in, where it starts within
/// the bar and how long it lasts, both in half beats.
#[derive(Clone, Copy, PartialEq, Eq, Structural, Debug)]
pub struct PlannedNote {
    /// The MIDI pitch.
    pub pitch: u8,
    /// The bar the note is in.
    pub bar: u32,
    /// Where in the bar it starts, in half beats.
    pub offset: u64,
    /// How long it lasts, in half beats.
    pub length: u64,
}

/// A composed piece as its three parts.
#[derive(Clone, Debug)]
pub struct ScorePlan {
    /// The tune.
    pub melody: Vec<PlannedNote>,
    /// The chords under it, three notes per bar.
    pub harmony: Vec<PlannedNote>,
    /// The bass line, one note per bar.
    pub bass: Vec<PlannedNote>,
}

/// The bass note of bar `bar` over chord root `chord`: the chord's root an
/// octave down, held for two beats.
pub open spec fn bass_note(scale: Scale, root: u8, chord: i32, bar: u32) -> PlannedNote {
    PlannedNote { pitch: pitch_of(scale, root, (chord - 7) as i32), bar, offset: 0, length: 4 }
}

/// Member `m` of the triad held across bar `bar`.
pub open spec fn harmony_note(
    scale: Scale,
    root: u8,
    chord: i32,
    m: int,
    bar: u32,
    beats_per_bar: u32,
) -> PlannedNote {
    PlannedNote {
        pitch: pitch_of(scale, root, (chord + 2 * m) as i32),
        bar,
        offset: 0,
        length: (2 * beats_per_bar) as u64,
    }
}

/// A melody note stays in its bar, lasts at least half a beat, and sits on
/// one of the scale degrees four to thirteen.
pub open spec fn melody_note_ok(
    n: PlannedNote,
    scale: Scale,
    root: u8,
    bars: u32,
    beats_per_bar: u32,
) -> bool {
    &&& n.bar < bars
    &&& n.length >= 1
    &&& n.offset + n.length <= 2 * beats_per_bar
    &&& exists|d: i32| 4 <= d <= 13 && n.pitch == #[trigger] pitch_of(scale, root, d)
}

/// The bass and harmony of `plan` follow `progression`, one chord per bar.
pub open spec fn plays_progression(
    plan: ScorePlan,
    progression: Seq<i32>,
    scale: Scale,
    root: u8,
    bars: u32,
    beats_per_bar: u32,
) -> bool {
    &&& plan.bass@.len() == bars
    &&& forall|b: int|
        0 <= b < bars ==> #[trigger] plan.bass@[b] == bass_note(
            scale,
            root,
            progression[b % 4],
            b as u32,
        )
    &&& plan.harmony@.len() == 3 * bars
    &&& forall|b: int, m: int|
        0 <= b < bars && 0 <= m < 3 ==> #[trigger] plan.harmony@[3 * b + m] == harmony_note(
            scale,
            root,
            progression[b % 4],
            m,
            b as u32,
            beats_per_bar,
        )
}

/// The length, in half beats, that a roll of `0..=9` gives a melody note:
/// half a beat on four rolls in ten, a beat on four, two beats on two.
pub open spec fn length_for_roll(roll: u32) -> int {
    if roll <= 3 {
        1
    } else if roll <= 7 {
        2
    } else {
        4
    }
}

/// A degree kept to the melody's range, four to thirteen.
pub open spec fn clamp_degree(d: int) -> int {
    if d < 4 {
        4
    } else if d > 13 {
        13
    } else {
        d
    }
}

/// The degree a sounding melody note moves to from `degree`, before it is
/// kept in range, and the generator state after the draws: on the first
/// half beat of a bar a chord tone an octave up; elsewhere a step up or down
/// three times in four, else a leap of up to three degrees.
pub open spec fn next_degree(st: u64, inc: u64, degree: int, chord: int, position: int) -> (
    int,
    u64,
) {
    if position == 0 {
        (chord + 2 * below_value(st, inc, 3) + 7, below_state(st, inc, 3))
    } else {
        let s1 = below_state(st, inc, 4);
        if below_value(st, inc, 4) < 3 {
            (
                if below_value(s1, inc, 2) < 1 {
                    degree + 1
                } else {
                    degree - 1
                },
                below_state(s1, inc, 2),
            )
        } else {
            (degree - 3 + below_value(s1, inc, 7), below_state(s1, inc, 7))
        }
    }
}

/// The melody notes the composer writes from generator state `(st, inc)`,
/// standing at half beat `position` of bar `bar` with the tune last on
/// `degree`: per step a length is drawn (cut at the bar line), then one roll
/// in six is a rest, and otherwise a note sounds on the next degree.
pub open spec fn melody_from(
    st: u64,
    inc: u64,
    degree: int,
    bar: int,
    position: int,
    bars: int,
    halves: int,
    progression: Seq<i32>,
    scale: Scale,
    root: u8,
) -> Seq<PlannedNote>
    decreases bars - bar, halves - position,
{
    if bar >= bars {
        Seq::empty()
    } else if position >= halves {
        melody_from(st, inc, degree, bar + 1, 0, bars, halves, progression, scale, root)
    } else {
        let roll = below_value(st, inc, 10);
        let s1 = below_state(st, inc, 10);
        let drawn = length_for_roll(roll);
        let length = if drawn > halves - position {
            halves - position
        } else {
            drawn
        };
        let s2 = below_state(s1, inc, 6);
        if below_value(s1, inc, 6) < 1 {
            melody_from(s2, inc, degree, bar, position + length, bars, halves, progression, scale, root)
        } else {
            let moved = next_degree(s2, inc, degree, progression[bar % 4] as int, position);
            let d = clamp_degree(moved.0);
            let note = PlannedNote {
                pitch: pitch_of(scale, root, d as i32),
                bar: bar as u32,
                offset: position as u64,
                length: length as u64,
            };
            seq![note] + melody_from(
                moved.1,
                inc,
                d,
                bar,
                position + length,
                bars,
                halves,
                progression,
                scale,
                root,
            )
        }
    }
}

/// The generator state the composer starts from: the seed's default stream,
/// forked under the label "compose".
pub open spec fn compose_stream(seed: u64) -> (u64, u64) {
    let hash = fnv_fold(FNV_OFFSET_BASIS, "compose".spec_bytes());
    let inc = stream_increment(hash | 1u64);
    (seeded_state(seeded_state(seed, PCG_DEFAULT_INCREMENT) ^ hash, inc), inc)
}

fn choose_length(rng: &mut Rng) -> (r: u64)
    ensures
        r == length_for_roll(below_value(old(rng)@.0, old(rng)@.1, 10)),
        final(rng)@ == (below_state(old(rng)@.0, old(rng)@.1, 10), old(rng)@.1),
{
    let roll = rng.range(0, 9);
    if roll <= 3 {
        1
    } else if roll <= 7 {
        2
    } else {
        4
    }
}

/// Composes a piece from a seed: a progression drawn from the four, a bass
/// note and a triad per bar, and a melody that moves by step far more often
/// than it leaps, lands on a chord tone at the start of each bar and keeps
/// to degrees four to thirteen.
pub fn compose(root: u8, scale: Scale, bars: u32, beats_per_bar: u32, seed: u64) -> (r: ScorePlan)
    ensures
        ({
            let st = compose_stream(seed);
            let p = below_value(st.0, st.1, 4) as int;
            &&& p < 4
            &&& plays_progression(r, progressions_of()[p], scale, root, bars, beats_per_bar)
            &&& r.melody@ == melody_from(
                below_state(st.0, st.1, 4),
                st.1,
                0,
                0,
                0,
                bars as int,
                2 * beats_per_bar,
                progressions_of()[p],
                scale,
                root,
            )
        }),
        forall|k: int|
            0 <= k < r.melody@.len() ==> melody_note_ok(
                #[trigger] r.melody@[k],
                scale,
                root,
                bars,
                beats_per_bar,
            ),
{
    let mut rng = Rng::new(seed).derive("compose");
    let ghost inc = rng@.1;
    assert(rng@ == compose_stream(seed));
    let table = progressions();
    let pick = rng.range(0, 3);
    let ghost p = pick as int;
    let progression = table[pick as usize];
    let ghost prog = progressions_of()[p];
    let bar_halves: u64 = 2 * beats_per_bar as u64;
    let ghost whole = melody_from(rng@.0, inc, 0, 0, 0, bars as int, bar_halves as int, prog, scale, root);
    let mut melody: Vec<PlannedNote> = Vec::new();
    let mut harmony: Vec<PlannedNote> = Vec::new();
    let mut bass: Vec<PlannedNote> = Vec::new();
    let mut degree: i32 = 0;
    let mut bar: u32 = 0;
    assert(melody@ + whole =~= whole);
    while bar < bars
        invariant
            0 <= p < 4,
            prog == progressions_of()[p],
            forall|b: int| 0 <= b < 4 ==> progression@[b] == progressions_of()[p][b],
            bar <= bars,
            bar_halves == 2 * beats_per_bar,
            rng@.1 == inc,
            melody@ + melody_from(rng@.0, inc, degree as int, bar as int, 0, bars as int, bar_halves as int, prog, scale, root) == whole,
            bass@.len() == bar,
            forall|b: int|
                0 <= b < bar ==> #[trigger] bass@[b] == bass_note(
                    scale,
                    root,
                    progressions_of()[p][b % 4],
                    b as u32,
                ),
            harmony@.len() == 3 * bar,
            forall|b: int, m: int|
                0 <= b < bar && 0 <= m < 3 ==> #[trigger] harmony@[3 * b + m] == harmony_note(
                    scale,
                    root,
                    progressions_of()[p][b % 4],
                    m,
                    b as u32,
                    beats_per_bar,
                ),
            forall|k: int|
                0 <= k < melody@.len() ==> melody_note_ok(
                    #[trigger] melody@[k],
                    scale,
                    root,
                    bars,
                    beats_per_bar,
                ),
            -3 <= degree <= 13,
        decreases bars - bar,
    {
        let chord = Chord { root: progression[(bar % 4) as usize] };
        let ghost c = progressions_of()[p][bar as int % 4];
        assert(0 <= c <= 5);
        proof {
            lemma_small_degrees_fit(scale, root, (chord.root - 7) as i32);
        }
        let bass_pitch = scale.pitch(root, chord.root - 7);
        bass.push(PlannedNote { pitch: bass_pitch, bar, offset: 0, length: 4 });
        let triad = chord.triad();
        let mut m: usize = 0;
        while m < 3
            invariant
                0 <= p < 4,
                forall|b: int| 0 <= b < 4 ==> progression@[b] == progressions_of()[p][b],
                chord.root == c,
                0 <= c <= 5,
                c == progressions_of()[p][bar as int % 4],
                triad@ == seq![chord.root, (chord.root + 2) as i32, (chord.root + 4) as i32],
                bar < bars,
                m <= 3,
                harmony@.len() == 3 * bar + m,
                forall|b: int, mm: int|
                    0 <= b < bar && 0 <= mm < 3 ==> #[trigger] harmony@[3 * b + mm]
                        == harmony_note(
                        scale,
                        root,
                        progressions_of()[p][b % 4],
                        mm,
                        b as u32,
                        beats_per_bar,
                    ),
                forall|mm: int|
                    0 <= mm < m ==> #[trigger] harmony@[3 * bar + mm] == harmony_note(
                        scale,
                        root,
                        c,
                        mm,
                        bar,
                        beats_per_bar,
                    ),
            decreases 3 - m,
        {
            proof {
                lemma_small_degrees_fit(scale, root, triad[m as int]);
            }
            let pitch = scale.pitch(root, triad[m]);
            harmony.push(PlannedNote { pitch, bar, offset: 0, length: 2 * beats_per_bar as u64 });
            m = m + 1;
        }
        let mut position: u64 = 0;
        while position < bar_halves
            invariant
                0 <= p < 4,
                prog == progressions_of()[p],
                chord.root == c,
                0 <= c <= 5,
                c == prog[bar as int % 4],
                triad@ == seq![chord.root, (chord.root + 2) as i32, (chord.root + 4) as i32],
                bar < bars,
                bar_halves == 2 * beats_per_bar,
                position <= bar_halves,
                rng@.1 == inc,
                melody@ + melody_from(rng@.0, inc, degree as int, bar as int, position as int, bars as int, bar_halves as int, prog, scale, root) == whole,
                forall|k: int|
                    0 <= k < melody@.len() ==> melody_note_ok(
                        #[trigger] melody@[k],
                        scale,
                        root,
                        bars,
                        beats_per_bar,
                    ),
                -3 <= degree <= 13,
            decreases bar_halves - position,
        {
            let ghost s0 = rng@.0;
            let ghost d0 = degree as int;
            let ghost prefix = melody@;
            let mut length = choose_length(&mut rng);
            if length > bar_halves - position {
                length = bar_halves - position;
            }
            let ghost s1 = rng@.0;
            if rng.chance(1, 6) {
                position = position + length;
                assert(melody_from(s0, inc, d0, bar as int, (position - length) as int, bars as int, bar_halves as int, prog, scale, root)
                    == melody_from(rng@.0, inc, d0, bar as int, position as int, bars as int, bar_halves as int, prog, scale, root));
            } else {
                let ghost s2 = rng@.0;
                degree = if position == 0 {
                    let member = rng.range(0, 2);
                    triad[member as usize] + 7
                } else if rng.chance(3, 4) {
                    if rng.chance(1, 2) {
                        degree + 1
                    } else {
                        degree - 1
                    }
                } else {
                    let leap = rng.range(-3, 3);
                    degree + leap
                };
                assert(next_degree(s2, inc, d0, c as int, position as int) == (degree as int, rng@.0));
                if degree < 4 {
                    degree = 4;
                }
                if degree > 13 {
                    degree = 13;
                }
                proof {
                    lemma_small_degrees_fit(scale, root, degree);
                }
                let pitch = scale.pitch(root, degree);
                let note = PlannedNote { pitch, bar, offset: position, length };
                assert(melody_note_ok(note, scale, root, bars, beats_per_bar));
                melody.push(note);
                let ghost before = position;
                position = position + length;
                assert(melody_from(s0, inc, d0, bar as int, before as int, bars as int, bar_halves as int, prog, scale, root)
                    == seq![note] + melody_from(rng@.0, inc, degree as int, bar as int, position as int, bars as int, bar_halves as int, prog, scale, root));
                assert(melody@ =~= prefix + seq![note]);
            }
        }
        assert(melody_from(rng@.0, inc, degree as int, bar as int, position as int, bars as int, bar_halves as int, prog, scale, root)
            == melody_from(rng@.0, inc, degree as int, bar + 1, 0, bars as int, bar_halves as int, prog, scale, root));
        proof {
            assert forall|b: int, mm: int| 0 <= b < bar + 1 && 0 <= mm < 3 implies #[trigger] harmony@[
                3 * b + mm
            ] == harmony_note(
                scale,
                root,
                progressions_of()[p][b % 4],
                mm,
                b as u32,
                beats_per_bar,
            ) by {
                if b == bar {
                    assert(harmony@[3 * bar + mm] == harmony_note(
                        scale,
                        root,
                        c,
                        mm,
                        bar,
                        beats_per_bar,
                    ));
                }
            }
        }
        bar = bar + 1;
    }
    assert(melody_from(rng@.0, inc, degree as int, bar as int, 0, bars as int, bar_halves as int, prog, scale, root) =~= Seq::<PlannedNote>::empty());
    assert(melody@ =~= whole);
    let plan = ScorePlan { melody, harmony, bass };
    assert(plays_progression(plan, progressions_of()[p], scale, root, bars, beats_per_bar));
    plan
}

} // verus!
