//! The parts of the audio engine that are bookkeeping rather than signal:
//! waveform and bus names, the mixer's voice slots and their handles, and
//! the output errors.
//!
//! A voice handle carries a generation beside its slot, so stopping a
//! finished voice cannot silence whatever took its place: the same recycling
//! problem entity handles solve, and the same solution.
use vstd::prelude::*;

verus! {

/// The shape of an oscillator.
#[derive(Clone, Copy, PartialEq, Eq, Structural, Debug, Hash, Default)]
pub enum Waveform {
    /// A pure tone.
    #[default]
    Sine,
    /// Hollow and reedy; the classic chiptune lead.
    Square,
    /// Softer than a square, brighter than a sine.
    Triangle,
    /// Buzzy and rich in harmonics.
    Saw,
    /// A square with a quarter duty cycle.
    Pulse,
    /// White noise, for percussion, wind and rain.
    Noise,
}

impl Waveform {
    /// Every waveform, for iteration in tests and editors.
    pub fn all() -> (r: [Waveform; 6])
        ensures
            r@ == seq![
                Waveform::Sine,
                Waveform::Square,
                Waveform::Triangle,
                Waveform::Saw,
                Waveform::Pulse,
                Waveform::Noise,
            ],
    {
        let r = [
            Waveform::Sine,
            Waveform::Square,
            Waveform::Triangle,
            Waveform::Saw,
            Waveform::Pulse,
            Waveform::Noise,
        ];
        assert(r@ =~= seq![
            Waveform::Sine,
            Waveform::Square,
            Waveform::Triangle,
            Waveform::Saw,
            Waveform::Pulse,
            Waveform::Noise,
        ]);
        r
    }

    /// Its name, for display.
    pub fn name(self) -> (r: &'static str)
        ensures
            r@ == waveform_name(self),
    {
        proof {
            reveal_strlit("sine");
            reveal_strlit("square");
            reveal_strlit("triangle");
            reveal_strlit("saw");
            reveal_strlit("pulse");
            reveal_strlit("noise");
        }
        match self {
            Waveform::Sine => "sine",
            Waveform::Square => "square",
            Waveform::Triangle => "triangle",
            Waveform::Saw => "saw",
            Waveform::Pulse => "pulse",
            Waveform::Noise => "noise",
        }
    }

    /// True when the waveform draws on the random stream.
    pub fn is_random(self) -> (r: bool)
        ensures
            r == (self == Waveform::Noise),
    {
        match self {
            Waveform::Noise => true,
            _ => false,
        }
    }
}

/// The name of each waveform.
pub open spec fn waveform_name(w: Waveform) -> Seq<char> {
    match w {
        Waveform::Sine => seq!['s', 'i', 'n', 'e'],
        Waveform::Square => seq!['s', 'q', 'u', 'a', 'r', 'e'],
        Waveform::Triangle => seq!['t', 'r', 'i', 'a', 'n', 'g', 'l', 'e'],
        Waveform::Saw => seq!['s', 'a', 'w'],
        Waveform::Pulse => seq!['p', 'u', 'l', 's', 'e'],
        Waveform::Noise => seq!['n', 'o', 'i', 's', 'e'],
    }
}

/// Which group a sound belongs to, for independent volume control.
#[derive(Clone, Copy, PartialEq, Eq, Structural, Debug, Hash)]
pub enum Bus {
    /// Background music.
    Music,
    /// One-shot effects.
    Effects,
    /// Ambience: rain, wind, the river.
    Ambience,
}

/// The name of each bus.
pub open spec fn bus_name(b: Bus) -> Seq<char> {
    match b {
        Bus::Music => seq!['m', 'u', 's', 'i', 'c'],
        Bus::Effects => seq!['e', 'f', 'f', 'e', 'c', 't', 's'],
        Bus::Ambience => seq!['a', 'm', 'b', 'i', 'e', 'n', 'c', 'e'],
    }
}

impl Bus {
    /// Every bus, for iteration in a settings screen.
    pub fn all() -> (r: [Bus; 3])
        ensures
            r@ == seq![Bus::Music, Bus::Effects, Bus::Ambience],
    {
        let r = [Bus::Music, Bus::Effects, Bus::Ambience];
        assert(r@ =~= seq![Bus::Music, Bus::Effects, Bus::Ambience]);
        r
    }

    /// Its name, for display and configuration files.
    pub fn name(self) -> (r: &'static str)
        ensures
            r@ == bus_name(self),
    {
        proof {
            reveal_strlit("music");
            reveal_strlit("effects");
            reveal_strlit("ambience");
        }
        match self {
            Bus::Music => "music",
            Bus::Effects => "effects",
            Bus::Ambience => "ambience",
        }
    }

    /// Its index into the mixer's gain array.
    pub fn index(self) -> (r: usize)
        ensures
            r < 3,
            r == match self {
                Bus::Music => 0usize,
                Bus::Effects => 1usize,
                Bus::Ambience => 2usize,
            },
    {
        match self {
            Bus::Music => 0,
            Bus::Effects => 1,
            Bus::Ambience => 2,
        }
    }
}

/// A handle to a playing voice: its slot and the slot's generation when the
/// voice started.
#[derive(Clone, Copy, PartialEq, Eq, Structural, Debug, Hash)]
pub struct VoiceId {
    slot: usize,
    generation: u32,
}

impl VoiceId {
    /// The slot the voice plays in.
    pub closed spec fn slot_spec(self) -> usize {
        self.slot
    }

    /// The generation the handle was issued for.
    pub closed spec fn generation_spec(self) -> u32 {
        self.generation
    }

    /// The slot the voice plays in.
    pub fn slot(self) -> (r: usize)
        ensures
            r == self.slot_spec(),
    {
        self.slot
    }
}

/// How many voices a mixer allows by default: a cap, so that a bug that
/// plays a sound every frame is a missing sound rather than a wall of noise.
pub const DEFAULT_VOICE_LIMIT: usize = 64;

/// One voice slot: what it plays, on which bus, its generation, and whether
/// it is sounding.
#[derive(Clone, Debug)]
pub struct VoiceSlot<P> {
    pub payload: P,
    pub bus: Bus,
    pub generation: u32,
    pub active: bool,
}

/// The mixer's voices: slots reused once finished, handles that go stale
/// when their slot is reused, and a cap on how many may play.
#[derive(Clone, Debug)]
pub struct VoicePool<P> {
    slots: Vec<VoiceSlot<P>>,
    voice_limit: usize,
    dropped: u64,
}

/// The index of the first silent slot.
pub open spec fn first_inactive<P>(slots: Seq<VoiceSlot<P>>, n: int) -> Option<int>
    decreases n,
{
    if n <= 0 {
        None
    } else {
        match first_inactive(slots, n - 1) {
            Some(i) => Some(i),
            None => if !slots[n - 1].active {
                Some(n - 1)
            } else {
                None
            },
        }
    }
}

/// How many of the first `n` slots are sounding.
pub open spec fn active_count<P>(slots: Seq<VoiceSlot<P>>, n: int) -> nat
    decreases n,
{
    if n <= 0 {
        0
    } else if slots[n - 1].active {
        active_count(slots, n - 1) + 1
    } else {
        active_count(slots, n - 1)
    }
}

/// The handle names the voice now sounding in its slot.
pub open spec fn plays<P>(slots: Seq<VoiceSlot<P>>, id: VoiceId) -> bool {
    &&& id.slot_spec() < slots.len()
    &&& slots[id.slot_spec() as int].active
    &&& slots[id.slot_spec() as int].generation == id.generation_spec()
}

impl<P> VoicePool<P> {
    /// The slots, in order.
    pub closed spec fn slots_spec(&self) -> Seq<VoiceSlot<P>> {
        self.slots@
    }

    /// How many voices may play at once.
    pub closed spec fn limit_spec(&self) -> usize {
        self.voice_limit
    }

    /// How many starts were refused for want of a slot.
    pub closed spec fn dropped_spec(&self) -> u64 {
        self.dropped
    }

    /// No voices, the default limit.
    pub fn new() -> (r: VoicePool<P>)
        ensures
            r.slots_spec() == Seq::<VoiceSlot<P>>::empty(),
            r.limit_spec() == DEFAULT_VOICE_LIMIT,
            r.dropped_spec() == 0,
    {
        VoicePool { slots: Vec::new(), voice_limit: DEFAULT_VOICE_LIMIT, dropped: 0 }
    }

    /// Sets how many voices may play at once.
    pub fn set_voice_limit(&mut self, limit: usize)
        ensures
            final(self).limit_spec() == limit,
            final(self).slots_spec() == old(self).slots_spec(),
            final(self).dropped_spec() == old(self).dropped_spec(),
    {
        self.voice_limit = limit;
    }

    /// Starts a voice, returning its handle. An empty sound is refused. A
    /// finished slot is reused first, under its next generation; otherwise a
    /// new slot is added, unless the limit is reached, in which case the
    /// start is refused and counted.
    pub fn play(&mut self, payload: P, bus: Bus, empty: bool) -> (r: Option<VoiceId>)
        requires
            old(self).dropped_spec() < u64::MAX,
        ensures
            empty ==> r is None && final(self).slots_spec() == old(self).slots_spec()
                && final(self).dropped_spec() == old(self).dropped_spec(),
            !empty ==> (first_inactive(old(self).slots_spec(), old(self).slots_spec().len() as int)
                matches Some(i) ==> {
                &&& r is Some
                &&& r->0.slot_spec() == i
                &&& r->0.generation_spec() == vstd::wrapping::u32_specs::wrapping_add(
                    old(self).slots_spec()[i].generation,
                    1,
                )
                &&& final(self).slots_spec() == old(self).slots_spec().update(
                    i,
                    VoiceSlot {
                        payload,
                        bus,
                        generation: vstd::wrapping::u32_specs::wrapping_add(
                            old(self).slots_spec()[i].generation,
                            1,
                        ),
                        active: true,
                    },
                )
                &&& final(self).dropped_spec() == old(self).dropped_spec()
            }),
            !empty && first_inactive(old(self).slots_spec(), old(self).slots_spec().len() as int)
                is None && old(self).slots_spec().len() >= old(self).limit_spec() ==> {
                &&& r is None
                &&& final(self).slots_spec() == old(self).slots_spec()
                &&& final(self).dropped_spec() == old(self).dropped_spec() + 1
            },
            !empty && first_inactive(old(self).slots_spec(), old(self).slots_spec().len() as int)
                is None && old(self).slots_spec().len() < old(self).limit_spec() ==> {
                &&& r is Some
                &&& r->0.slot_spec() == old(self).slots_spec().len()
                &&& r->0.generation_spec() == 0
                &&& final(self).slots_spec() == old(self).slots_spec().push(
                    VoiceSlot { payload, bus, generation: 0, active: true },
                )
                &&& final(self).dropped_spec() == old(self).dropped_spec()
            },
            final(self).limit_spec() == old(self).limit_spec(),
    {
        if empty {
            return None;
        }
        let mut i: usize = 0;
        while i < self.slots.len()
            invariant
                !empty,
                i <= self.slots@.len(),
                self.slots@ == old(self).slots@,
                self.voice_limit == old(self).voice_limit,
                self.dropped == old(self).dropped,
                first_inactive(self.slots@, i as int) is None,
            decreases self.slots@.len() - i,
        {
            if !self.slots[i].active {
                let generation = self.slots[i].generation.wrapping_add(1);
                self.slots.set(i, VoiceSlot { payload, bus, generation, active: true });
                proof {
                    assert(first_inactive(old(self).slots@, i + 1) == Some(i as int));
                    lemma_first_inactive_stable(old(self).slots@, i + 1, old(self).slots@.len() as int);
                }
                return Some(VoiceId { slot: i, generation });
            }
            i = i + 1;
        }
        if self.slots.len() >= self.voice_limit {
            self.dropped = self.dropped + 1;
            return None;
        }
        self.slots.push(VoiceSlot { payload, bus, generation: 0, active: true });
        Some(VoiceId { slot: self.slots.len() - 1, generation: 0 })
    }

    /// Stops a voice; a stale handle is ignored, which is what makes it safe
    /// to hold one for as long as you like.
    pub fn stop(&mut self, id: VoiceId)
        ensures
            final(self).slots_spec() == if id.slot_spec() < old(self).slots_spec().len()
                && old(self).slots_spec()[id.slot_spec() as int].generation == id.generation_spec() {
                old(self).slots_spec().update(
                    id.slot_spec() as int,
                    VoiceSlot { active: false, ..old(self).slots_spec()[id.slot_spec() as int] },
                )
            } else {
                old(self).slots_spec()
            },
            final(self).limit_spec() == old(self).limit_spec(),
            final(self).dropped_spec() == old(self).dropped_spec(),
    {
        if id.slot < self.slots.len() && self.slots[id.slot].generation == id.generation {
            self.slots[id.slot].active = false;
        }
    }

    /// Stops every voice on a bus.
    pub fn stop_bus(&mut self, bus: Bus)
        ensures
            final(self).slots_spec().len() == old(self).slots_spec().len(),
            forall|i: int|
                0 <= i < old(self).slots_spec().len() ==> #[trigger] final(self).slots_spec()[i]
                    == if old(self).slots_spec()[i].bus == bus {
                    VoiceSlot { active: false, ..old(self).slots_spec()[i] }
                } else {
                    old(self).slots_spec()[i]
                },
            final(self).limit_spec() == old(self).limit_spec(),
            final(self).dropped_spec() == old(self).dropped_spec(),
    {
        let mut i: usize = 0;
        while i < self.slots.len()
            invariant
                i <= self.slots@.len(),
                self.slots@.len() == old(self).slots@.len(),
                self.voice_limit == old(self).voice_limit,
                self.dropped == old(self).dropped,
                forall|k: int|
                    0 <= k < self.slots@.len() ==> #[trigger] self.slots@[k] == if k < i
                        && old(self).slots@[k].bus == bus {
                        VoiceSlot { active: false, ..old(self).slots@[k] }
                    } else {
                        old(self).slots@[k]
                    },
            decreases self.slots@.len() - i,
        {
            if self.slots[i].bus == bus {
                self.slots[i].active = false;
            }
            i = i + 1;
        }
    }

    /// Stops everything.
    pub fn stop_all(&mut self)
        ensures
            final(self).slots_spec().len() == old(self).slots_spec().len(),
            forall|i: int|
                0 <= i < old(self).slots_spec().len() ==> #[trigger] final(self).slots_spec()[i]
                    == (VoiceSlot { active: false, ..old(self).slots_spec()[i] }),
            final(self).limit_spec() == old(self).limit_spec(),
            final(self).dropped_spec() == old(self).dropped_spec(),
    {
        let mut i: usize = 0;
        while i < self.slots.len()
            invariant
                i <= self.slots@.len(),
                self.slots@.len() == old(self).slots@.len(),
                self.voice_limit == old(self).voice_limit,
                self.dropped == old(self).dropped,
                forall|k: int|
                    0 <= k < self.slots@.len() ==> #[trigger] self.slots@[k] == if k < i {
                        VoiceSlot { active: false, ..old(self).slots@[k] }
                    } else {
                        old(self).slots@[k]
                    },
            decreases self.slots@.len() - i,
        {
            self.slots[i].active = false;
            i = i + 1;
        }
    }

    /// True when the handle still names a sounding voice.
    pub fn is_playing(&self, id: VoiceId) -> (r: bool)
        ensures
            r == plays(self.slots_spec(), id),
    {
        id.slot < self.slots.len() && self.slots[id.slot].active && self.slots[id.slot].generation
            == id.generation
    }

    /// How many voices are sounding.
    pub fn active_voices(&self) -> (r: usize)
        ensures
            r == active_count(self.slots_spec(), self.slots_spec().len() as int),
    {
        let mut count: usize = 0;
        let mut i: usize = 0;
        while i < self.slots.len()
            invariant
                i <= self.slots@.len(),
                count == active_count(self.slots@, i as int),
                count <= i,
            decreases self.slots@.len() - i,
        {
            if self.slots[i].active {
                count = count + 1;
            }
            i = i + 1;
        }
        count
    }

    /// How many starts were refused for want of a voice.
    pub fn dropped_voices(&self) -> (r: u64)
        ensures
            r == self.dropped_spec(),
    {
        self.dropped
    }

    /// How many slots there are, sounding or not.
    pub fn len(&self) -> (r: usize)
        ensures
            r == self.slots_spec().len(),
    {
        self.slots.len()
    }

    /// True when there are no slots.
    pub fn is_empty(&self) -> (r: bool)
        ensures
            r == (self.slots_spec().len() == 0),
    {
        self.slots.len() == 0
    }

    /// The slot at `index`, for the mixing loop to read.
    pub fn slot(&self, index: usize) -> (r: &VoiceSlot<P>)
        requires
            index < self.slots_spec().len(),
        ensures
            *r == self.slots_spec()[index as int],
    {
        &self.slots[index]
    }

    /// What the slot at `index` plays, for the mixing loop to advance.
    pub fn payload_mut(&mut self, index: usize) -> (r: &mut P)
        requires
            index < old(self).slots_spec().len(),
        ensures
            *r == old(self).slots_spec()[index as int].payload,
            final(self).slots_spec() == old(self).slots_spec().update(
                index as int,
                VoiceSlot { payload: *final(r), ..old(self).slots_spec()[index as int] },
            ),
            final(self).limit_spec() == old(self).limit_spec(),
            final(self).dropped_spec() == old(self).dropped_spec(),
    {
        &mut self.slots[index].payload
    }

    /// Silences the slot at `index`, when its sound has run out.
    pub fn retire(&mut self, index: usize)
        requires
            index < old(self).slots_spec().len(),
        ensures
            final(self).slots_spec() == old(self).slots_spec().update(
                index as int,
                VoiceSlot { active: false, ..old(self).slots_spec()[index as int] },
            ),
            final(self).limit_spec() == old(self).limit_spec(),
            final(self).dropped_spec() == old(self).dropped_spec(),
    {
        self.slots[index].active = false;
    }

    /// Removes the finished voices, freeing what they held; the sounding
    /// ones keep their order.
    pub fn collect(&mut self)
        ensures
            final(self).slots_spec() == old(self).slots_spec().filter(|v: VoiceSlot<P>| v.active),
            final(self).limit_spec() == old(self).limit_spec(),
            final(self).dropped_spec() == old(self).dropped_spec(),
    {
        let mut kept: Vec<VoiceSlot<P>> = Vec::new();
        let mut source: Vec<VoiceSlot<P>> = Vec::new();
        std::mem::swap(&mut source, &mut self.slots);
        let ghost all = source@;
        let count = source.len();
        assert(all.len() == count);
        let mut rest: Vec<VoiceSlot<P>> = Vec::new();
        while source.len() > 0
            invariant
                all.len() <= usize::MAX,
                source@.len() + rest@.len() == all.len(),
                source@ == all.take(source@.len() as int),
                forall|k: int| 0 <= k < rest@.len() ==> #[trigger] rest@[k] == all[all.len() - 1 - k],
            decreases source@.len(),
        {
            let ghost before = source@;
            let voice = source.pop().unwrap();
            proof {
                assert(voice == all[before.len() - 1]);
                assert(source@ =~= all.take(source@.len() as int));
            }
            rest.push(voice);
        }
        let mut i: usize = 0;
        proof {
            assert(all.take(0).filter(|v: VoiceSlot<P>| v.active) =~= Seq::<VoiceSlot<P>>::empty());
        }
        while rest.len() > 0
            invariant
                all.len() <= usize::MAX,
                i + rest@.len() == all.len(),
                forall|k: int| 0 <= k < rest@.len() ==> #[trigger] rest@[k] == all[all.len() - 1 - k],
                kept@ == all.take(i as int).filter(|v: VoiceSlot<P>| v.active),
            decreases rest@.len(),
        {
            let voice = rest.pop().unwrap();
            proof {
                assert(voice == all[i as int]);
                reveal(Seq::filter);
                assert(all.take(i + 1).drop_last() =~= all.take(i as int));
                assert(all.take(i + 1).last() == voice);
            }
            if voice.active {
                kept.push(voice);
            }
            i = i + 1;
        }
        proof {
            assert(all.take(i as int) =~= all);
        }
        self.slots = kept;
    }
}

/// Once found among the first `m` slots, the first silent slot stays the
/// first among more.
proof fn lemma_first_inactive_stable<P>(slots: Seq<VoiceSlot<P>>, m: int, n: int)
    requires
        0 <= m <= n,
        first_inactive(slots, m) is Some,
    ensures
        first_inactive(slots, n) == first_inactive(slots, m),
    decreases n - m,
{
    if m < n {
        lemma_first_inactive_stable(slots, m, n - 1);
    }
}

/// Why audio output could not be started.
#[derive(Debug, Clone, PartialEq, Eq)]
pub enum AudioError {
    /// The platform reported no output device.
    NoDevice,
    /// A device exists but would not accept a stream configuration.
    Unsupported(String),
    /// The stream was created but would not start.
    Stream(String),
}

impl AudioError {
    /// The message shown for the error.
    pub fn message(&self) -> (r: String)
        ensures
            r@ == match self {
                AudioError::NoDevice => "no audio output device is available"@,
                AudioError::Unsupported(detail) => "no supported output configuration: "@ + detail@,
                AudioError::Stream(detail) => "the audio stream failed: "@ + detail@,
            },
    {
        match self {
            AudioError::NoDevice => "no audio output device is available".to_owned(),
            AudioError::Unsupported(detail) => {
                let mut m = "no supported output configuration: ".to_owned();
                m.append(detail.as_str());
                m
            },
            AudioError::Stream(detail) => {
                let mut m = "the audio stream failed: ".to_owned();
                m.append(detail.as_str());
                m
            },
        }
    }
}

} // verus!
