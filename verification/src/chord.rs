//! A chord maker: every note played on its channel is answered by a chord
//! built on that note.

use crate::midi::MidiEvent;
use crate::note::{transpose_spec, Note};
use vstd::prelude::*;

verus! {

/// A note that the chord maker sounds, with the played note it answers.
#[derive(Copy, Clone, Debug)]
pub struct GeneratedNote {
    pub src: Note,
    pub dst: Note,
}

/// The chord maker as the contracts see it.
pub struct ChordView {
    /// The channel that the chord maker listens to.
    pub channel: u8,
    /// The intervals of the chord, in semitones above the played note: bit
    /// `i` stands for the interval `i`.
    pub chord: u64,
    /// The notes that sound, in the order in which they were started.
    pub notes: Seq<GeneratedNote>,
}

/// Whether the chord `chord` holds the interval `interval`.
pub open spec fn has_interval(chord: u64, interval: u64) -> bool {
    (chord >> interval) & 1 == 1
}

/// The intervals below `upto` that the chord holds, in rising order.
pub open spec fn intervals(chord: u64, upto: int) -> Seq<i8>
    decreases upto,
{
    if upto <= 0 {
        Seq::empty()
    } else {
        let below = intervals(chord, upto - 1);
        if has_interval(chord, (upto - 1) as u64) {
            below.push((upto - 1) as i8)
        } else {
            below
        }
    }
}

/// The notes of the chord built on `note`.
pub open spec fn chord_on(note: Note, offsets: Seq<i8>) -> Seq<GeneratedNote> {
    Seq::new(
        offsets.len(),
        |i: int| GeneratedNote { src: note, dst: Note(transpose_spec(note.0, offsets[i])) },
    )
}

/// The sounding notes without those that answer `note`.
pub open spec fn released(notes: Seq<GeneratedNote>, note: Note) -> Seq<GeneratedNote> {
    notes.filter(|n: GeneratedNote| n.src != note)
}

/// The note numbers that sound. Numbers above 127 are no notes that could
/// be sent, and do not count.
pub open spec fn sounding(notes: Seq<GeneratedNote>) -> Set<int> {
    Set::new(
        |number: int|
            0 <= number < 128 && exists|i: int|
                0 <= i < notes.len() && (#[trigger] notes[i]).dst.0 == number,
    )
}

/// The events that turn the notes `prev` into the notes `next`, for the
/// note numbers below `upto` in rising order: a note that starts is
/// switched on with `velocity`, a note that ends is switched off.
pub open spec fn changes(
    prev: Set<int>,
    next: Set<int>,
    upto: int,
    time: u32,
    channel: u8,
    velocity: u8,
) -> Seq<(u32, MidiEvent)>
    decreases upto,
{
    if upto <= 0 {
        Seq::empty()
    } else {
        let below = changes(prev, next, upto - 1, time, channel, velocity);
        let number = upto - 1;
        if !prev.contains(number) && next.contains(number) {
            below.push((time, MidiEvent::NoteOn { channel, note: Note(number as u8), velocity }))
        } else if prev.contains(number) && !next.contains(number) {
            below.push((time, MidiEvent::NoteOff { channel, note: Note(number as u8), velocity: 0 }))
        } else {
            below
        }
    }
}

/// What one incoming event does: the notes that sound afterwards, and the
/// events sent.
///
/// A note switched on on the chord maker's channel ends what answered that
/// note before and starts the chord on it. A note switched off on the
/// channel ends what answered it. In both cases the events sent are the
/// changes in what sounds. Every other event is passed on as it is.
pub open spec fn step(view: ChordView, input: (u32, MidiEvent)) -> (ChordView, Seq<(u32, MidiEvent)>) {
    match input.1 {
        MidiEvent::NoteOn { channel, note, velocity } => if channel == view.channel {
            let notes = released(view.notes, note) + chord_on(note, intervals(view.chord, 64));
            (
                ChordView { notes, ..view },
                changes(sounding(view.notes), sounding(notes), 128, input.0, channel, velocity),
            )
        } else {
            (view, seq![input])
        },
        MidiEvent::NoteOff { channel, note, velocity } => if channel == view.channel {
            let notes = released(view.notes, note);
            (
                ChordView { notes, ..view },
                changes(sounding(view.notes), sounding(notes), 128, input.0, channel, 0),
            )
        } else {
            (view, seq![input])
        },
        _ => (view, seq![input]),
    }
}

/// The chord maker after the first `upto` events of `events`.
pub open spec fn state_after(view: ChordView, events: Seq<(u32, MidiEvent)>, upto: int) -> ChordView
    decreases upto,
{
    if upto <= 0 {
        view
    } else {
        step(state_after(view, events, upto - 1), events[upto - 1]).0
    }
}

/// The events sent for the first `upto` events of `events`.
pub open spec fn sent_after(view: ChordView, events: Seq<(u32, MidiEvent)>, upto: int) -> Seq<
    (u32, MidiEvent),
>
    decreases upto,
{
    if upto <= 0 {
        Seq::empty()
    } else {
        sent_after(view, events, upto - 1) + step(
            state_after(view, events, upto - 1),
            events[upto - 1],
        ).1
    }
}

/// Whether bit `number` of `mask` is set.
pub open spec fn mask_bit(mask: u128, number: u128) -> bool {
    (mask >> number) & 1 == 1
}

/// The note numbers that a mask marks.
pub open spec fn mask_notes(mask: u128) -> Set<int> {
    Set::new(|number: int| 0 <= number < 128 && mask_bit(mask, number as u128))
}

proof fn lemma_mask_insert(mask: u128, number: u128)
    requires
        number < 128,
    ensures
        mask_notes(mask | (1u128 << number)) == mask_notes(mask).insert(number as int),
{
    assert forall|other: int| #![auto]
        mask_notes(mask | (1u128 << number)).contains(other) == mask_notes(mask).insert(
            number as int,
        ).contains(other) by {
        if 0 <= other < 128 {
            let o = other as u128;
            assert(((mask | (1u128 << number)) >> o) & 1 == 1 <==> ((mask >> o) & 1 == 1 || o
                == number)) by (bit_vector)
                requires
                    number < 128,
                    o < 128,
            ;
        }
    }
    assert(mask_notes(mask | (1u128 << number)) =~= mask_notes(mask).insert(number as int));
}

proof fn lemma_mask_empty()
    ensures
        mask_notes(0) == Set::<int>::empty(),
{
    assert forall|number: u128| number < 128 implies !mask_bit(0u128, number) by {
        assert((0u128 >> number) & 1 != 1) by (bit_vector);
    }
    assert(mask_notes(0) =~= Set::<int>::empty());
}

proof fn lemma_sounding_push(notes: Seq<GeneratedNote>, note: GeneratedNote)
    ensures
        sounding(notes.push(note)) == (if note.dst.0 < 128 {
            sounding(notes).insert(note.dst.0 as int)
        } else {
            sounding(notes)
        }),
{
    let more = notes.push(note);
    let expected = if note.dst.0 < 128 {
        sounding(notes).insert(note.dst.0 as int)
    } else {
        sounding(notes)
    };
    assert forall|number: int| sounding(more).contains(number) == expected.contains(number) by {
        if sounding(more).contains(number) {
            let i = choose|i: int| 0 <= i < more.len() && (#[trigger] more[i]).dst.0 == number;
            if i < notes.len() {
                assert(notes[i].dst.0 == number);
            }
        }
        if sounding(notes).contains(number) {
            let i = choose|i: int| 0 <= i < notes.len() && (#[trigger] notes[i]).dst.0 == number;
            assert(more[i].dst.0 == number);
        }
        if note.dst.0 < 128 && number == note.dst.0 {
            assert(more[notes.len() as int].dst.0 == number);
        }
    }
    assert(sounding(more) =~= expected);
}

/// The mask of the note numbers that sound.
pub fn to_mask(notes: &[GeneratedNote]) -> (mask: u128)
    ensures
        mask_notes(mask) == sounding(notes@),
{
    let mut out: u128 = 0;
    let mut k: usize = 0;
    proof {
        lemma_mask_empty();
        assert(sounding(notes@.take(0)) =~= Set::<int>::empty());
    }
    while k < notes.len()
        invariant
            k <= notes@.len(),
            mask_notes(out) == sounding(notes@.take(k as int)),
        decreases notes@.len() - k,
    {
        let number = notes[k].dst.0;
        proof {
            assert(notes@.take(k + 1) =~= notes@.take(k as int).push(notes@[k as int]));
            lemma_sounding_push(notes@.take(k as int), notes@[k as int]);
        }
        if number < 128 {
            proof {
                lemma_mask_insert(out, number as u128);
            }
            out = out | (1u128 << (number as u128));
        }
        k += 1;
    }
    assert(notes@.take(notes@.len() as int) =~= notes@);
    out
}

/// Sends the events that turn the notes of the mask `prev` into those of
/// the mask `next`.
pub fn diff_masks(
    prev: u128,
    next: u128,
    time: u32,
    channel: u8,
    velocity: u8,
    midi_out: &mut Vec<(u32, MidiEvent)>,
)
    ensures
        final(midi_out)@ == old(midi_out)@ + changes(
            mask_notes(prev),
            mask_notes(next),
            128,
            time,
            channel,
            velocity,
        ),
{
    let mut number: u8 = 0;
    assert(midi_out@ =~= old(midi_out)@ + changes(
        mask_notes(prev),
        mask_notes(next),
        0,
        time,
        channel,
        velocity,
    ));
    while number < 128
        invariant
            number <= 128,
            midi_out@ == old(midi_out)@ + changes(
                mask_notes(prev),
                mask_notes(next),
                number as int,
                time,
                channel,
                velocity,
            ),
        decreases 128 - number,
    {
        let sounded = (prev >> (number as u128)) & 1 == 1;
        let sounds = (next >> (number as u128)) & 1 == 1;
        let ghost below = changes(
            mask_notes(prev),
            mask_notes(next),
            number as int,
            time,
            channel,
            velocity,
        );
        assert(sounded == mask_notes(prev).contains(number as int));
        assert(sounds == mask_notes(next).contains(number as int));
        if !sounded && sounds {
            midi_out.push((time, MidiEvent::NoteOn { channel, note: Note(number), velocity }));
            assert(midi_out@ =~= old(midi_out)@ + below.push(
                (time, MidiEvent::NoteOn { channel, note: Note(number), velocity }),
            ));
        } else if sounded && !sounds {
            midi_out.push((time, MidiEvent::NoteOff { channel, note: Note(number), velocity: 0 }));
            assert(midi_out@ =~= old(midi_out)@ + below.push(
                (time, MidiEvent::NoteOff { channel, note: Note(number), velocity: 0 }),
            ));
        }
        number += 1;
    }
}

/// A chord maker.
pub struct Chord {
    channel: u8,
    chord: u64,
    notes: Vec<GeneratedNote>,
}

impl View for Chord {
    type V = ChordView;

    closed spec fn view(&self) -> ChordView {
        ChordView { channel: self.channel, chord: self.chord, notes: self.notes@ }
    }
}

impl Chord {
    /// Makes a chord maker for channel 0 whose chord is the played note
    /// alone.
    pub fn new() -> (chord: Chord)
        ensures
            chord@ == (ChordView { channel: 0, chord: 1, notes: Seq::empty() }),
    {
        Chord { channel: 0, chord: 1, notes: Vec::new() }
    }

    /// Sets the channel that the chord maker listens to.
    pub fn set_channel(&mut self, channel: u8)
        ensures
            final(self)@ == (ChordView { channel, ..old(self)@ }),
    {
        self.channel = channel;
    }

    /// Sets the intervals of the chord.
    pub fn set_chord(&mut self, chord: u64)
        ensures
            final(self)@ == (ChordView { chord, ..old(self)@ }),
    {
        self.chord = chord;
    }

    /// The intervals of the chord, in rising order.
    pub fn chord_notes(&self) -> (offsets: Vec<i8>)
        ensures
            offsets@ == intervals(self@.chord, 64),
    {
        let mut offsets: Vec<i8> = Vec::new();
        let mut interval: u8 = 0;
        while interval < 64
            invariant
                interval <= 64,
                offsets@ == intervals(self.chord, interval as int),
            decreases 64 - interval,
        {
            if (self.chord >> (interval as u64)) & 1 == 1 {
                offsets.push(interval as i8);
            }
            interval += 1;
        }
        offsets
    }

    /// The mask of the note numbers that sound.
    pub fn get_mask(&self) -> (mask: u128)
        ensures
            mask_notes(mask) == sounding(self@.notes),
    {
        to_mask(self.notes.as_slice())
    }

    /// Ends the notes that answer `note`.
    fn release(&mut self, note: Note)
        ensures
            final(self)@ == (ChordView { notes: released(old(self)@.notes, note), ..old(self)@ }),
    {
        let mut kept: Vec<GeneratedNote> = Vec::new();
        let mut k: usize = 0;
        let ghost keep = |n: GeneratedNote| n.src != note;
        proof {
            reveal(Seq::filter);
            assert(self.notes@.take(0) =~= Seq::<GeneratedNote>::empty());
        }
        while k < self.notes.len()
            invariant
                k <= self.notes@.len(),
                *self == *old(self),
                keep == |n: GeneratedNote| n.src != note,
                kept@ == self.notes@.take(k as int).filter(keep),
            decreases self.notes@.len() - k,
        {
            let generated = self.notes[k];
            proof {
                reveal(Seq::filter);
                let prefix = self.notes@.take(k + 1);
                assert(prefix.drop_last() =~= self.notes@.take(k as int));
                assert(prefix.last() == generated);
            }
            if generated.src != note {
                kept.push(generated);
            }
            k += 1;
        }
        assert(self.notes@.take(self.notes@.len() as int) =~= self.notes@);
        self.notes = kept;
    }

    /// Starts the chord on `note`.
    fn trigger(&mut self, note: Note)
        ensures
            final(self)@ == (ChordView {
                notes: old(self)@.notes + chord_on(note, intervals(old(self)@.chord, 64)),
                ..old(self)@
            }),
    {
        let offsets = self.chord_notes();
        let mut k: usize = 0;
        while k < offsets.len()
            invariant
                k <= offsets@.len(),
                offsets@ == intervals(old(self)@.chord, 64),
                self.channel == old(self).channel,
                self.chord == old(self).chord,
                self.notes@ == old(self).notes@ + chord_on(note, offsets@).take(k as int),
            decreases offsets@.len() - k,
        {
            self.notes.push(GeneratedNote { src: note, dst: note.transpose(offsets[k]) });
            assert(self.notes@ =~= old(self).notes@ + chord_on(note, offsets@).take(k + 1));
            k += 1;
        }
        assert(chord_on(note, offsets@).take(offsets@.len() as int) =~= chord_on(note, offsets@));
    }

    /// Answers the events `midi_in`, one after the other, and appends what
    /// is sent to `midi_out`.
    pub fn process(&mut self, midi_in: &[(u32, MidiEvent)], midi_out: &mut Vec<(u32, MidiEvent)>)
        ensures
            final(self)@ == state_after(old(self)@, midi_in@, midi_in@.len() as int),
            final(midi_out)@ == old(midi_out)@ + sent_after(
                old(self)@,
                midi_in@,
                midi_in@.len() as int,
            ),
    {
        let mut k: usize = 0;
        assert(midi_out@ =~= old(midi_out)@ + sent_after(old(self)@, midi_in@, 0));
        while k < midi_in.len()
            invariant
                k <= midi_in@.len(),
                self@ == state_after(old(self)@, midi_in@, k as int),
                midi_out@ == old(midi_out)@ + sent_after(old(self)@, midi_in@, k as int),
            decreases midi_in@.len() - k,
        {
            let (time, event) = midi_in[k];
            let ghost before = self@;
            let ghost sent = midi_out@;
            let own = self.channel;
            match event {
                MidiEvent::NoteOn { channel, note, velocity } => {
                    if channel == own {
                        let prev = self.get_mask();
                        self.release(note);
                        self.trigger(note);
                        let next = self.get_mask();
                        diff_masks(prev, next, time, channel, velocity, midi_out);
                    } else {
                        midi_out.push((time, event));
                    }
                },
                MidiEvent::NoteOff { channel, note, velocity } => {
                    if channel == own {
                        let prev = self.get_mask();
                        self.release(note);
                        let next = self.get_mask();
                        diff_masks(prev, next, time, channel, 0, midi_out);
                    } else {
                        midi_out.push((time, event));
                    }
                },
                _ => {
                    midi_out.push((time, event));
                },
            }
            proof {
                assert(midi_in@[k as int] == (time, event));
                assert(self@ == step(before, (time, event)).0);
                assert(midi_out@ =~= sent + step(before, (time, event)).1);
            }
            k += 1;
        }
    }
}

} // verus!
