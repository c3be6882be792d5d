//! Sharing a fixed set of voices among the notes played.
//!
//! A voice sounds one note at a time. When a note is played, the manager
//! picks the voice that can best be spared: one that sounds this very note
//! already, else one that is off, else one that was released, else the one
//! that was played longest ago.

use crate::account::Account;
use crate::borrow::AudioBlock;
use crate::midi::{MidiEvent, TimedMidiEvent};
use crate::note::Note;
use vstd::prelude::*;

verus! {

/// One call of a voice: what it was handed and what it answered.
pub enum VoiceCall {
    /// The voice was told the sample rate.
    SetSampleRate { sample_rate: u32 },
    /// A note was started on the voice.
    Trigger { note: Note, velocity: u8 },
    /// The note of the voice was let go.
    Release,
    /// The voice was told the bend of the pitch.
    SetPitchBend { bend: u16, max_cents: usize },
    /// The voice was asked for the samples `from..to` of a block, and
    /// answered whether it still sounds.
    Process { from: usize, to: usize, active: bool },
}

/// A synthesiser voice.
///
/// A voice keeps account of its calls: every call is added to the account
/// with what it was handed and what it answered, and nothing else is.
pub trait Voice<T: Copy> {
    /// Every call of the voice so far, oldest first.
    spec fn calls(&self) -> Account<VoiceCall>;

    /// Tells the voice the sample rate, in samples per second.
    fn set_sample_rate(&mut self, sample_rate: u32)
        ensures
            final(self).calls() == old(self).calls().push(VoiceCall::SetSampleRate { sample_rate }),
    ;

    /// Starts a note.
    fn trigger(&mut self, note: Note, velocity: u8)
        ensures
            final(self).calls() == old(self).calls().push(VoiceCall::Trigger { note, velocity }),
    ;

    /// Lets the note die away.
    fn release(&mut self)
        ensures
            final(self).calls() == old(self).calls().push(VoiceCall::Release),
    ;

    /// Bends the pitch. `bend` is the bend as it arrives, 8192 being none;
    /// `max_cents` is the bend in cents that its extremes stand for.
    fn set_pitch_bend(&mut self, bend: u16, max_cents: usize)
        ensures
            final(self).calls() == old(self).calls().push(
                VoiceCall::SetPitchBend { bend, max_cents },
            ),
    ;

    /// Adds the voice's sound to the samples `from..to` of the output
    /// channels of `audio`, and leaves the rest of the block as it is.
    /// Returns `false` when the voice has died away and will stay silent
    /// until it is started again.
    fn process(&mut self, audio: &mut AudioBlock<'_, T>, from: usize, to: usize) -> (active: bool)
        requires
            from <= to <= old(audio).block_len(),
        ensures
            final(self).calls() == old(self).calls().push(VoiceCall::Process { from, to, active }),
            old(audio).same_inputs(final(audio)),
    ;
}

/// What a voice is doing.
#[derive(Copy, Clone, PartialEq, Eq, Structural, Debug)]
pub enum VoicePhase {
    /// The note sounds and is held.
    On(Note),
    /// The note was let go and dies away.
    Released(Note),
    /// The voice is silent.
    Off,
}

/// The largest count of events that the order of the voices goes by.
/// Events beyond it all count as the latest.
pub open spec fn counter_limit() -> usize {
    (usize::MAX / 2 - 3) as usize
}

/// A count of events, held within the limit.
pub open spec fn limited(counter: usize) -> usize {
    if counter < counter_limit() {
        counter
    } else {
        counter_limit()
    }
}

/// How much a voice is needed where it is, for a note `note` that asks for
/// a voice: the lower, the sooner the voice is taken.
///
/// A voice that holds this very note is taken first, then a voice that is
/// off, then one that dies away on this note, then the one that has died
/// away longest, and last the one that has been held longest.
pub open spec fn priority_of(phase: VoicePhase, counter: usize, note: Note) -> usize {
    match phase {
        VoicePhase::On(n) => if n == note {
            0
        } else {
            (usize::MAX / 2 + limited(counter)) as usize
        },
        VoicePhase::Off => 1,
        VoicePhase::Released(n) => if n == note {
            2
        } else {
            (3 + limited(counter)) as usize
        },
    }
}

/// A voice with what the manager knows of it.
pub struct VoiceHandle<V> {
    voice: V,
    phase: VoicePhase,
    counter: usize,
}

impl<V> VoiceHandle<V> {
    /// What the voice is doing.
    pub closed spec fn phase(&self) -> VoicePhase {
        self.phase
    }

    /// The count of the event that last started or released the voice.
    pub closed spec fn counter(&self) -> usize {
        self.counter
    }

    /// The voice itself.
    pub closed spec fn voice(&self) -> V {
        self.voice
    }
}

impl<V> VoiceHandle<V> {
    /// Wraps a voice that is off.
    pub fn new(voice: V) -> (handle: Self)
        ensures
            handle.phase() == VoicePhase::Off,
            handle.counter() == 0,
            handle.voice() == voice,
    {
        VoiceHandle { voice, phase: VoicePhase::Off, counter: 0 }
    }

    /// Whether the voice sounds.
    pub fn active(&self) -> (active: bool)
        ensures
            active == (self.phase() != VoicePhase::Off),
    {
        match self.phase {
            VoicePhase::Off => false,
            _ => true,
        }
    }

    /// The note that the voice holds, if it holds one.
    pub fn on_note(&self) -> (note: Option<Note>)
        ensures
            note == (match self.phase() {
                VoicePhase::On(n) => Some(n),
                _ => None,
            }),
    {
        match self.phase {
            VoicePhase::On(n) => Some(n),
            _ => None,
        }
    }

    /// How much the voice is needed where it is; see [`priority_of`].
    pub fn priority(&self, note: Note) -> (priority: usize)
        ensures
            priority == priority_of(self.phase(), self.counter(), note),
    {
        let limit = usize::MAX / 2 - 3;
        let counter = if self.counter < limit {
            self.counter
        } else {
            limit
        };
        match self.phase {
            VoicePhase::On(n) => if n == note {
                0
            } else {
                usize::MAX / 2 + counter
            },
            VoicePhase::Off => 1,
            VoicePhase::Released(n) => if n == note {
                2
            } else {
                3 + counter
            },
        }
    }
}

/// The count of the event after the one counted `counter`.
pub open spec fn next_count(counter: usize) -> usize {
    if counter < counter_limit() {
        (counter + 1) as usize
    } else {
        counter
    }
}

/// The phase of a voice that is let go: a voice that is off stays off.
pub open spec fn let_go(phase: VoicePhase) -> VoicePhase {
    match phase {
        VoicePhase::On(n) => VoicePhase::Released(n),
        VoicePhase::Released(n) => VoicePhase::Released(n),
        VoicePhase::Off => VoicePhase::Off,
    }
}

impl<V> VoiceHandle<V> {
    /// Starts `note` on the voice, as the event counted `counter`.
    pub fn trigger<T: Copy>(&mut self, note: Note, velocity: u8, counter: usize) where V: Voice<T>
        ensures
            final(self).phase() == VoicePhase::On(note),
            final(self).counter() == counter,
            final(self).voice().calls() == old(self).voice().calls().push(
                VoiceCall::Trigger { note, velocity },
            ),
    {
        self.voice.trigger(note, velocity);
        self.phase = VoicePhase::On(note);
        self.counter = counter;
    }

    /// Lets the note of the voice go, as the event counted `counter`. A
    /// voice that is off is left alone.
    pub fn release<T: Copy>(&mut self, counter: usize) where V: Voice<T>
        ensures
            final(self).phase() == let_go(old(self).phase()),
            final(self).counter() == (if old(self).phase() == VoicePhase::Off {
                old(self).counter()
            } else {
                counter
            }),
            final(self).voice().calls() == (if old(self).phase() == VoicePhase::Off {
                old(self).voice().calls()
            } else {
                old(self).voice().calls().push(VoiceCall::Release)
            }),
    {
        let note = match self.phase {
            VoicePhase::On(n) => n,
            VoicePhase::Released(n) => n,
            VoicePhase::Off => {
                return ;
            },
        };
        self.voice.release();
        self.phase = VoicePhase::Released(note);
        self.counter = counter;
    }

    /// Tells the voice the sample rate. What the voice is doing stays as
    /// it is.
    pub fn set_sample_rate<T: Copy>(&mut self, sample_rate: u32) where V: Voice<T>
        ensures
            final(self).voice().calls() == old(self).voice().calls().push(
                VoiceCall::SetSampleRate { sample_rate },
            ),
            final(self).phase() == old(self).phase(),
            final(self).counter() == old(self).counter(),
    {
        self.voice.set_sample_rate(sample_rate);
    }

    /// Tells the voice the bend of the pitch, and the bend in cents that
    /// the extremes of the bend stand for. What the voice is doing stays as
    /// it is.
    pub fn set_pitch_bend<T: Copy>(&mut self, bend: u16, max_cents: usize) where V: Voice<T>
        ensures
            final(self).voice().calls() == old(self).voice().calls().push(
                VoiceCall::SetPitchBend { bend, max_cents },
            ),
            final(self).phase() == old(self).phase(),
            final(self).counter() == old(self).counter(),
    {
        self.voice.set_pitch_bend(bend, max_cents);
    }

    /// Lets the voice add its sound to the samples `from..to` of the output
    /// channels, if it sounds. A voice that reports that it has died away
    /// is off from then on. Returns whether the voice still sounds.
    pub fn process<T: Copy>(&mut self, audio: &mut AudioBlock<'_, T>, from: usize, to: usize) -> (active:
        bool) where V: Voice<T>
        requires
            from <= to <= old(audio).block_len(),
        ensures
            old(self).phase() == VoicePhase::Off ==> !active && *final(audio) == *old(audio),
            final(self).phase() == (if active {
                old(self).phase()
            } else {
                VoicePhase::Off
            }),
            final(self).counter() == old(self).counter(),
            final(self).voice().calls() == (if old(self).phase() == VoicePhase::Off {
                old(self).voice().calls()
            } else {
                old(self).voice().calls().push(VoiceCall::Process { from, to, active })
            }),
            old(audio).same_inputs(final(audio)),
    {
        match self.phase {
            VoicePhase::Off => {
                return false;
            },
            _ => {},
        }
        let active = self.voice.process(audio, from, to);
        if !active {
            self.phase = VoicePhase::Off;
        }
        active
    }
}

/// The first position at which `priorities` is lowest.
pub open spec fn first_lowest(priorities: Seq<usize>) -> int
    decreases priorities.len(),
{
    if priorities.len() <= 1 {
        0
    } else {
        let before = first_lowest(priorities.drop_last());
        if priorities.last() < priorities[before] {
            priorities.len() - 1
        } else {
            before
        }
    }
}

/// No priority is lower than the one at the first lowest position, and none
/// before that position is as low.
proof fn lemma_first_lowest(priorities: Seq<usize>)
    requires
        priorities.len() > 0,
    ensures
        0 <= first_lowest(priorities) < priorities.len(),
        forall|i: int|
            0 <= i < priorities.len() ==> priorities[first_lowest(priorities)]
                <= #[trigger] priorities[i],
        forall|i: int|
            0 <= i < first_lowest(priorities) ==> priorities[first_lowest(priorities)]
                < #[trigger] priorities[i],
    decreases priorities.len(),
{
    if priorities.len() > 1 {
        lemma_first_lowest(priorities.drop_last());
        let before = first_lowest(priorities.drop_last());
        assert(priorities.drop_last()[before] == priorities[before]);
        assert forall|i: int| 0 <= i < priorities.len() - 1 implies priorities.drop_last()[i]
            == priorities[i] by {}
    }
}

/// The first position from `from` on at which a voice holds `note`, or the
/// number of voices where none does.
pub open spec fn first_holding(phases: Seq<VoicePhase>, note: Note, from: int) -> int
    decreases phases.len() - from,
{
    if from < 0 || from >= phases.len() {
        phases.len() as int
    } else if phases[from] == VoicePhase::On(note) {
        from
    } else {
        first_holding(phases, note, from + 1)
    }
}

/// The voices as the contracts see them.
pub struct VoicesView {
    /// What each voice is doing.
    pub phases: Seq<VoicePhase>,
    /// For each voice, the count of the event that last started or
    /// released it.
    pub counters: Seq<usize>,
    /// The count of the next event.
    pub counter: usize,
    /// The bend, in cents, that the extremes of the pitch wheel stand for.
    pub max_pitch_bend: usize,
    /// The account of each voice: every call of it, oldest first.
    pub calls: Seq<Seq<VoiceCall>>,
}

impl VoicesView {
    /// How much each voice is needed where it is, for a note `note`.
    pub open spec fn priorities(self, note: Note) -> Seq<usize> {
        Seq::new(self.phases.len(), |i: int| priority_of(self.phases[i], self.counters[i], note))
    }

    /// The voices after `note` was played with `velocity`: the voice that
    /// is needed least where it is was started on the note and holds it
    /// now. Without voices nothing happens.
    pub open spec fn triggered(self, note: Note, velocity: u8) -> VoicesView {
        if self.phases.len() == 0 {
            self
        } else {
            let chosen = first_lowest(self.priorities(note));
            VoicesView {
                phases: self.phases.update(chosen, VoicePhase::On(note)),
                counters: self.counters.update(chosen, self.counter),
                counter: next_count(self.counter),
                calls: self.calls.update(
                    chosen,
                    self.calls[chosen].push(VoiceCall::Trigger { note, velocity }),
                ),
                ..self
            }
        }
    }

    /// The voices after `note` was let go: the first voice that holds it
    /// was let go and dies away. Where no voice holds it nothing happens.
    pub open spec fn released(self, note: Note) -> VoicesView {
        let chosen = first_holding(self.phases, note, 0);
        if chosen < self.phases.len() {
            VoicesView {
                phases: self.phases.update(chosen, VoicePhase::Released(note)),
                counters: self.counters.update(chosen, self.counter),
                counter: next_count(self.counter),
                calls: self.calls.update(chosen, self.calls[chosen].push(VoiceCall::Release)),
                ..self
            }
        } else {
            self
        }
    }

    /// Whether `after` is what these voices have become by sounding over
    /// the samples `from..to` of a block: every voice that was not off
    /// was asked for these samples, and is off now if it answered that it
    /// has died away; a voice that was off was left alone.
    pub open spec fn processed(self, after: VoicesView, from: usize, to: usize) -> bool {
        &&& after.phases.len() == self.phases.len()
        &&& after.calls.len() == self.calls.len()
        &&& after.counters == self.counters
        &&& after.counter == self.counter
        &&& after.max_pitch_bend == self.max_pitch_bend
        &&& forall|i: int|
            #![trigger after.phases[i]]
            0 <= i < self.phases.len() ==> if self.phases[i] == VoicePhase::Off {
                after.phases[i] == VoicePhase::Off && after.calls[i] == self.calls[i]
            } else {
                &&& after.calls[i] == self.calls[i].push(after.calls[i].last())
                &&& after.calls[i].last() is Process
                &&& after.calls[i].last()->from == from
                &&& after.calls[i].last()->to == to
                &&& after.phases[i] == (if after.calls[i].last()->active {
                    self.phases[i]
                } else {
                    VoicePhase::Off
                })
            }
    }

    /// The voices after every one of them was told the sample rate
    /// `sample_rate`.
    pub open spec fn told_sample_rate(self, sample_rate: u32) -> VoicesView {
        VoicesView {
            calls: Seq::new(
                self.calls.len(),
                |i: int| self.calls[i].push(VoiceCall::SetSampleRate { sample_rate }),
            ),
            ..self
        }
    }

    /// The voices after every one of them was told the bend `bend`, with
    /// the bend in cents that the extremes of the bend stand for.
    pub open spec fn bent(self, bend: u16) -> VoicesView {
        VoicesView {
            calls: Seq::new(
                self.calls.len(),
                |i: int|
                    self.calls[i].push(
                        VoiceCall::SetPitchBend { bend, max_cents: self.max_pitch_bend },
                    ),
            ),
            ..self
        }
    }

    /// The voices after one event arrived. Notes are played and let go,
    /// and the pitch is bent, on whatever channel the event arrives; other
    /// events change nothing here.
    pub open spec fn after_event(self, event: MidiEvent) -> VoicesView {
        match event {
            MidiEvent::NoteOn { note, velocity, .. } => self.triggered(note, velocity),
            MidiEvent::NoteOff { note, .. } => self.released(note),
            MidiEvent::PitchBend { value, .. } => self.bent(value),
            _ => self,
        }
    }
}

/// The offset into the block that the voices have sounded up to once the
/// first `upto` events of `events` have taken effect: the offset of the last
/// of them, or an earlier offset where that lies further on.
pub open spec fn offset_after(events: Seq<TimedMidiEvent>, upto: int) -> usize
    decreases upto,
{
    if upto <= 0 {
        0
    } else {
        let before = offset_after(events, upto - 1);
        let time = events[upto - 1].time as usize;
        if time < before {
            before
        } else {
            time
        }
    }
}

/// Whether `after` is what the voices `before` have become by sounding
/// over the samples `from..to` of a block of `len` samples: over an empty
/// stretch nothing happens, and a stretch that reaches beyond the block is
/// cut at its end; see [`VoicesView::processed`].
pub open spec fn stretch_played(
    before: VoicesView,
    after: VoicesView,
    from: usize,
    to: usize,
    len: usize,
) -> bool {
    if from >= to {
        after == before
    } else {
        before.processed(
            after,
            if from < len {
                from
            } else {
                len
            },
            if to < len {
                to
            } else {
                len
            },
        )
    }
}

/// Whether `after` is what the voices `before` have become over the first
/// `upto` events of `events`, in a block of `len` samples: before each event
/// the voices sound up to its offset, and some may die away; then the event
/// takes effect.
pub open spec fn played(
    before: VoicesView,
    events: Seq<TimedMidiEvent>,
    len: usize,
    upto: int,
    after: VoicesView,
) -> bool
    decreases upto,
{
    if upto <= 0 {
        after == before
    } else {
        exists|reached: VoicesView, sounded: VoicesView|
            played(before, events, len, upto - 1, reached) && #[trigger] stretch_played(
                reached,
                sounded,
                offset_after(events, upto - 1),
                offset_after(events, upto),
                len,
            ) && after == sounded.after_event(events[upto - 1].event)
    }
}

/// A fixed set of voices and the order in which they were last used.
pub struct VoiceManager<T, V> {
    max_pitch_bend: usize,
    voices: Vec<VoiceHandle<V>>,
    counter: usize,
    silence: T,
}

impl<T, V> VoiceManager<T, V> {
    /// The sample that an output holds where no voice sounds.
    pub closed spec fn silence(&self) -> T {
        self.silence
    }
}

impl<T: Copy, V: Voice<T>> View for VoiceManager<T, V> {
    type V = VoicesView;

    closed spec fn view(&self) -> VoicesView {
        VoicesView {
            phases: Seq::new(self.voices@.len(), |i: int| self.voices@[i].phase()),
            counters: Seq::new(self.voices@.len(), |i: int| self.voices@[i].counter()),
            counter: self.counter,
            max_pitch_bend: self.max_pitch_bend,
            calls: Seq::new(self.voices@.len(), |i: int| self.voices@[i].voice().calls()),
        }
    }
}

impl<T: Copy, V: Voice<T> + Clone> VoiceManager<T, V> {
    /// Makes a manager of `num_voices` voices, all of them copies of
    /// `voice` and off. `silence` is the sample that an output holds before
    /// the voices add to it.
    pub fn new(num_voices: usize, voice: V, silence: T) -> (manager: Self)
        ensures
            manager@.phases == Seq::new(num_voices as nat, |i: int| VoicePhase::Off),
            manager@.counters == Seq::new(num_voices as nat, |i: int| 0usize),
            manager@.counter == 0,
            manager@.max_pitch_bend == 100,
            manager@.calls.len() == num_voices,
            manager.silence() == silence,
    {
        let mut voices: Vec<VoiceHandle<V>> = Vec::new();
        while voices.len() < num_voices
            invariant
                voices@.len() <= num_voices,
                forall|i: int|
                    0 <= i < voices@.len() ==> (#[trigger] voices@[i]).phase() == VoicePhase::Off
                        && voices@[i].counter() == 0,
            decreases num_voices - voices@.len(),
        {
            voices.push(VoiceHandle::new(voice.clone()));
        }
        let manager = VoiceManager { max_pitch_bend: 100, voices, counter: 0, silence };
        assert(manager@.phases =~= Seq::new(num_voices as nat, |i: int| VoicePhase::Off));
        assert(manager@.counters =~= Seq::new(num_voices as nat, |i: int| 0usize));
        manager
    }

    /// The count of the event after this one.
    fn advance(&mut self)
        ensures
            final(self).counter == next_count(old(self).counter),
            final(self).voices == old(self).voices,
            final(self).max_pitch_bend == old(self).max_pitch_bend,
            final(self).silence == old(self).silence,
    {
        if self.counter < usize::MAX / 2 - 3 {
            self.counter = self.counter + 1;
        }
    }

    /// Tells every voice the sample rate. What the voices are doing stays
    /// as it is.
    pub fn set_sample_rate(&mut self, sample_rate: u32)
        ensures
            final(self)@ == old(self)@.told_sample_rate(sample_rate),
            final(self).silence() == old(self).silence(),
    {
        let mut i: usize = 0;
        while i < self.voices.len()
            invariant
                i <= self.voices@.len(),
                self.silence == old(self).silence,
                self@ == (VoicesView { calls: self@.calls, ..old(self)@ }),
                self@.calls.len() == old(self)@.calls.len(),
                forall|j: int|
                    0 <= j < i ==> self@.calls[j] == old(self)@.calls[j].push(
                        VoiceCall::SetSampleRate { sample_rate },
                    ),
                forall|j: int| i <= j < self@.calls.len() ==> self@.calls[j] == old(self)@.calls[j],
            decreases self.voices@.len() - i,
        {
            let ghost before = self@;
            self.voices[i].set_sample_rate(sample_rate);
            assert(self@.phases =~= before.phases);
            assert(self@.counters =~= before.counters);
            assert(self@.calls =~= before.calls.update(
                i as int,
                before.calls[i as int].push(VoiceCall::SetSampleRate { sample_rate }),
            ));
            i += 1;
        }
        assert(self@.calls =~= old(self)@.told_sample_rate(sample_rate).calls);
    }

    /// Tells every voice the bend of the pitch, with the bend in cents
    /// that the extremes of the bend stand for. What the voices are doing
    /// stays as it is.
    pub fn set_pitch_bend(&mut self, bend: u16)
        ensures
            final(self)@ == old(self)@.bent(bend),
            final(self).silence() == old(self).silence(),
    {
        let mut i: usize = 0;
        while i < self.voices.len()
            invariant
                i <= self.voices@.len(),
                self.silence == old(self).silence,
                self@ == (VoicesView { calls: self@.calls, ..old(self)@ }),
                self@.calls.len() == old(self)@.calls.len(),
                forall|j: int|
                    0 <= j < i ==> self@.calls[j] == old(self)@.calls[j].push(
                        VoiceCall::SetPitchBend { bend, max_cents: old(self)@.max_pitch_bend },
                    ),
                forall|j: int| i <= j < self@.calls.len() ==> self@.calls[j] == old(self)@.calls[j],
            decreases self.voices@.len() - i,
        {
            let ghost before = self@;
            let max_cents = self.max_pitch_bend;
            self.voices[i].set_pitch_bend(bend, max_cents);
            assert(self@.phases =~= before.phases);
            assert(self@.counters =~= before.counters);
            assert(self@.calls =~= before.calls.update(
                i as int,
                before.calls[i as int].push(VoiceCall::SetPitchBend { bend, max_cents }),
            ));
            i += 1;
        }
        assert(self@.calls =~= old(self)@.bent(bend).calls);
    }

    /// Plays `note` with `velocity` on the voice that is needed least
    /// where it is.
    pub fn trigger(&mut self, note: Note, velocity: u8)
        ensures
            final(self)@ == old(self)@.triggered(note, velocity),
            final(self)@.phases.len() == old(self)@.phases.len(),
            final(self).silence() == old(self).silence(),
            old(self)@.phases.len() > 0 ==> {
                let priorities = old(self)@.priorities(note);
                let chosen = first_lowest(priorities);
                &&& 0 <= chosen < priorities.len()
                &&& forall|i: int|
                    0 <= i < priorities.len() ==> priorities[chosen] <= #[trigger] priorities[i]
                &&& forall|i: int| 0 <= i < chosen ==> priorities[chosen] < #[trigger] priorities[i]
            },
    {
        if self.voices.len() == 0 {
            return ;
        }
        proof {
            lemma_first_lowest(self@.priorities(note));
        }
        let mut chosen: usize = 0;
        let mut lowest = self.voices[0].priority(note);
        let mut i: usize = 1;
        let ghost priorities = self@.priorities(note);
        assert(priorities.take(1).drop_last() =~= Seq::<usize>::empty());
        while i < self.voices.len()
            invariant
                1 <= i <= self.voices@.len(),
                *self == *old(self),
                priorities == self@.priorities(note),
                chosen == first_lowest(priorities.take(i as int)),
                chosen < i,
                lowest == priorities[chosen as int],
            decreases self.voices@.len() - i,
        {
            let priority = self.voices[i].priority(note);
            proof {
                assert(priorities.take(i + 1).drop_last() =~= priorities.take(i as int));
                assert(priorities.take(i + 1).last() == priority);
            }
            if priority < lowest {
                chosen = i;
                lowest = priority;
            }
            i += 1;
        }
        assert(priorities.take(self.voices@.len() as int) =~= priorities);
        let counter = self.counter;
        self.voices[chosen].trigger(note, velocity, counter);
        self.advance();
        proof {
            let expected = old(self)@.triggered(note, velocity);
            assert(self@.phases =~= expected.phases);
            assert(self@.counters =~= expected.counters);
            assert(self@.calls =~= expected.calls);
        }
    }

    /// Lets `note` go on the first voice that holds it.
    pub fn release(&mut self, note: Note)
        ensures
            final(self)@ == old(self)@.released(note),
            final(self)@.phases.len() == old(self)@.phases.len(),
            final(self).silence() == old(self).silence(),
    {
        let mut i: usize = 0;
        while i < self.voices.len()
            invariant
                i <= self.voices@.len(),
                *self == *old(self),
                first_holding(self@.phases, note, 0) == first_holding(self@.phases, note, i as int),
            decreases self.voices@.len() - i,
        {
            let held = self.voices[i].on_note();
            let found = match held {
                Some(n) => n == note,
                None => false,
            };
            if found {
                let counter = self.counter;
                self.voices[i].release(counter);
                self.advance();
                proof {
                    let expected = old(self)@.released(note);
                    assert(self@.phases =~= expected.phases);
                    assert(self@.counters =~= expected.counters);
                    assert(self@.calls =~= expected.calls);
                }
                return ;
            }
            i += 1;
        }
    }

    /// Makes the samples `from..to` of the output channels: silence, and on
    /// top of it the sound of every voice that sounds, each asked in turn.
    /// An empty stretch is left alone, and so are the voices. A stretch
    /// that reaches beyond the block is cut at its end.
    pub fn process(&mut self, audio: &mut AudioBlock<'_, T>, from: usize, to: usize)
        ensures
            stretch_played(old(self)@, final(self)@, from, to, old(audio).block_len()),
            old(audio).same_inputs(final(audio)),
            final(self).silence() == old(self).silence(),
            from >= to ==> *final(audio) == *old(audio),
            from < to <= old(audio).block_len() && (forall|i: int|
                0 <= i < old(self)@.phases.len() ==> old(self)@.phases[i] == VoicePhase::Off) ==> {
                &&& final(self)@ == old(self)@
                &&& forall|ch: int, i: int|
                    0 <= ch < old(audio).out_slots().len() && 0 <= i < old(audio).block_len()
                        ==> #[trigger] final(audio).output(ch)[i] == (if from <= i < to {
                        old(self).silence()
                    } else {
                        old(audio).output(ch)[i]
                    })
            },
    {
        if from >= to {
            return ;
        }
        let len = audio.samples();
        let to = if to < len {
            to
        } else {
            len
        };
        let from = if from < to {
            from
        } else {
            to
        };
        let ghost all_off = forall|i: int|
            0 <= i < old(self)@.phases.len() ==> old(self)@.phases[i] == VoicePhase::Off;
        clear_outputs(audio, from, to, self.silence);
        let ghost cleared = *audio;
        let mut i: usize = 0;
        while i < self.voices.len()
            invariant
                i <= self.voices@.len(),
                from <= to <= audio.block_len(),
                self.silence == old(self).silence,
                old(audio).same_inputs(audio),
                self@.phases.len() == old(self)@.phases.len(),
                self@.calls.len() == old(self)@.calls.len(),
                self@.counters == old(self)@.counters,
                self@.counter == old(self)@.counter,
                self@.max_pitch_bend == old(self)@.max_pitch_bend,
                forall|j: int|
                    i <= j < self@.phases.len() ==> self@.phases[j] == old(self)@.phases[j]
                        && self@.calls[j] == old(self)@.calls[j],
                forall|j: int|
                    #![trigger self@.phases[j]]
                    0 <= j < i ==> if old(self)@.phases[j] == VoicePhase::Off {
                        self@.phases[j] == VoicePhase::Off && self@.calls[j] == old(self)@.calls[j]
                    } else {
                        &&& self@.calls[j] == old(self)@.calls[j].push(self@.calls[j].last())
                        &&& self@.calls[j].last() is Process
                        &&& self@.calls[j].last()->from == from
                        &&& self@.calls[j].last()->to == to
                        &&& self@.phases[j] == (if self@.calls[j].last()->active {
                            old(self)@.phases[j]
                        } else {
                            VoicePhase::Off
                        })
                    },
                all_off ==> *audio == cleared,
                all_off ==> forall|j: int|
                    0 <= j < old(self)@.phases.len() ==> old(self)@.phases[j] == VoicePhase::Off,
            decreases self.voices@.len() - i,
        {
            let ghost before = self@;
            let ghost held = *audio;
            let active = self.voices[i].process(audio, from, to);
            proof {
                assert(self@.calls[i as int] == self.voices@[i as int].voice().calls());
                assert(self@.phases[i as int] == self.voices@[i as int].phase());
                assert(self@.counters =~= before.counters);
                assert forall|j: int| 0 <= j < before.phases.len() && j != i implies self@.phases[j]
                    == before.phases[j] && self@.calls[j] == before.calls[j] by {}
                assert(before.phases[i as int] == old(self)@.phases[i as int]);
                assert(before.calls[i as int] == old(self)@.calls[i as int]);
                if all_off {
                    assert(old(self)@.phases[i as int] == VoicePhase::Off);
                }
                if before.phases[i as int] != VoicePhase::Off {
                    let call = VoiceCall::Process { from, to, active };
                    assert(self@.calls[i as int] == before.calls[i as int].push(call));
                    assert(self@.calls[i as int].last() == call);
                }
                assert forall|j: int|
                    #![trigger self@.phases[j]]
                    0 <= j < i + 1 implies if old(self)@.phases[j] == VoicePhase::Off {
                    self@.phases[j] == VoicePhase::Off && self@.calls[j] == old(self)@.calls[j]
                } else {
                    &&& self@.calls[j] == old(self)@.calls[j].push(self@.calls[j].last())
                    &&& self@.calls[j].last() is Process
                    &&& self@.calls[j].last()->from == from
                    &&& self@.calls[j].last()->to == to
                    &&& self@.phases[j] == (if self@.calls[j].last()->active {
                        old(self)@.phases[j]
                    } else {
                        VoicePhase::Off
                    })
                } by {
                    if j < i {
                        assert(self@.phases[j] == before.phases[j]);
                        assert(self@.calls[j] == before.calls[j]);
                    } else {
                        assert(j == i);
                    }
                }
                assert(old(audio).same_inputs(audio)) by {
                    assert forall|c: int| 0 <= c < old(audio).in_slots().len() implies audio.input(c)
                        == old(audio).input(c) by {
                        assert(held.input(c) == old(audio).input(c));
                    }
                }
            }
            i += 1;
        }
        proof {
            assert(old(self)@.processed(self@, from, to));
            if all_off {
                assert forall|j: int| 0 <= j < self@.phases.len() implies self@.phases[j] == old(
                    self,
                )@.phases[j] && self@.calls[j] == old(self)@.calls[j] by {
                    assert(old(self)@.phases[j] == VoicePhase::Off);
                    assert(self@.phases[j] == VoicePhase::Off);
                }
                assert(self@.phases =~= old(self)@.phases);
                assert(self@.calls =~= old(self)@.calls);
            }
        }
    }

    /// Makes one block: the voices sound from event to event, and each
    /// event takes effect at its offset into the block; behind the last
    /// event the voices sound to the end of the block. An offset that lies
    /// before the one before it, or behind the end of the block, is taken
    /// for the nearest offset that does not.
    pub fn process_midi(&mut self, midi_in: &[TimedMidiEvent], audio: &mut AudioBlock<'_, T>)
        ensures
            exists|reached: VoicesView|
                played(
                    old(self)@,
                    midi_in@,
                    old(audio).block_len(),
                    midi_in@.len() as int,
                    reached,
                ) && #[trigger] stretch_played(
                    reached,
                    final(self)@,
                    offset_after(midi_in@, midi_in@.len() as int),
                    old(audio).block_len(),
                    old(audio).block_len(),
                ),
            final(self)@.phases.len() == old(self)@.phases.len(),
            final(self)@.max_pitch_bend == old(self)@.max_pitch_bend,
            final(self).silence() == old(self).silence(),
            old(audio).same_inputs(final(audio)),
    {
        let mut at: usize = 0;
        let mut k: usize = 0;
        let ghost len = audio.block_len();
        while k < midi_in.len()
            invariant
                k <= midi_in@.len(),
                at == offset_after(midi_in@, k as int),
                len == audio.block_len(),
                len == old(audio).block_len(),
                old(audio).same_inputs(audio),
                played(old(self)@, midi_in@, len, k as int, self@),
                self@.phases.len() == old(self)@.phases.len(),
                self@.max_pitch_bend == old(self)@.max_pitch_bend,
                self.silence() == old(self).silence(),
            decreases midi_in@.len() - k,
        {
            let ghost reached = self@;
            let ghost held = *audio;
            let event = midi_in[k];
            let time = event.time as usize;
            let until = if time < at {
                at
            } else {
                time
            };
            self.process(audio, at, until);
            let ghost sounded = self@;
            proof {
                assert(stretch_played(reached, sounded, at, until, len));
                assert forall|c: int| 0 <= c < old(audio).in_slots().len() implies audio.input(c)
                    == old(audio).input(c) by {
                    assert(held.input(c) == old(audio).input(c));
                }
            }
            at = until;
            match event.event {
                MidiEvent::NoteOn { channel, note, velocity } => {
                    self.trigger(note, velocity);
                },
                MidiEvent::NoteOff { channel, note, velocity } => {
                    self.release(note);
                },
                MidiEvent::PitchBend { channel, value } => {
                    self.set_pitch_bend(value);
                },
                _ => {},
            }
            proof {
                assert(self@ == sounded.after_event(midi_in@[k as int].event));
                assert(until == offset_after(midi_in@, k + 1));
                assert(stretch_played(
                    reached,
                    sounded,
                    offset_after(midi_in@, k as int),
                    offset_after(midi_in@, k + 1),
                    len,
                ));
                assert(played(old(self)@, midi_in@, len, k + 1, self@));
            }
            k += 1;
        }
        let ghost reached = self@;
        let ghost held = *audio;
        let len = audio.samples();
        self.process(audio, at, len);
        proof {
            assert(stretch_played(reached, self@, at, len, len));
            assert forall|c: int| 0 <= c < old(audio).in_slots().len() implies audio.input(c)
                == old(audio).input(c) by {
                assert(held.input(c) == old(audio).input(c));
            }
        }
    }
}

/// Silences the samples `from..to` of every output channel.
pub fn clear_outputs<T: Copy>(audio: &mut AudioBlock<'_, T>, from: usize, to: usize, silence: T)
    requires
        from <= to <= old(audio).block_len(),
    ensures
        final(audio).wf(),
        old(audio).same_inputs(final(audio)),
        forall|ch: int, i: int|
            0 <= ch < old(audio).out_slots().len() && 0 <= i < old(audio).block_len()
                ==> #[trigger] final(audio).output(ch)[i] == (if from <= i < to {
                silence
            } else {
                old(audio).output(ch)[i]
            }),
{
    let channels = audio.num_outputs();
    proof {
        audio.lemma_channel_len();
    }
    let mut ch: usize = 0;
    while ch < channels
        invariant
            ch <= channels,
            channels == audio.out_slots().len(),
            audio.wf(),
            from <= to <= audio.block_len(),
            old(audio).same_inputs(audio),
            forall|c: int, i: int|
                0 <= c < channels && 0 <= i < audio.block_len() ==> #[trigger] audio.output(c)[i]
                    == (if c < ch && from <= i < to {
                    silence
                } else {
                    old(audio).output(c)[i]
                }),
        decreases channels - ch,
    {
        let mut i: usize = from;
        while i < to
            invariant
                ch < channels,
                channels == audio.out_slots().len(),
                audio.wf(),
                from <= i <= to <= audio.block_len(),
                old(audio).same_inputs(audio),
                forall|c: int, j: int|
                    0 <= c < channels && 0 <= j < audio.block_len() ==> #[trigger] audio.output(c)[j]
                        == (if (c < ch && from <= j < to) || (c == ch && from <= j < i) {
                        silence
                    } else {
                        old(audio).output(c)[j]
                    }),
            decreases to - i,
        {
            let ghost before = *audio;
            audio.set_output_sample(ch, i, silence);
            proof {
                before.lemma_channel_len();
                audio.lemma_channel_len();
                old(audio).lemma_channel_len();
                assert forall|c: int, j: int|
                    0 <= c < channels && 0 <= j < audio.block_len() implies #[trigger] audio.output(
                    c,
                )[j] == (if (c < ch && from <= j < to) || (c == ch && from <= j < i + 1) {
                    silence
                } else {
                    old(audio).output(c)[j]
                }) by {
                    if c != ch {
                        assert(audio.output(c) == before.output(c));
                    }
                }
                assert forall|c: int| 0 <= c < audio.in_slots().len() implies audio.input(c) == old(
                    audio,
                ).input(c) by {
                    assert(before.input(c) == old(audio).input(c));
                }
            }
            i += 1;
        }
        ch += 1;
    }
}

} // verus!
