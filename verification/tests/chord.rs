use audio_engine::chord::{diff_masks, to_mask, Chord, GeneratedNote};
use audio_engine::midi::MidiEvent;
use audio_engine::note::Note;

fn on(channel: u8, note: u8, velocity: u8) -> MidiEvent {
    MidiEvent::NoteOn {
        channel,
        note: Note(note),
        velocity,
    }
}

fn off(channel: u8, note: u8, velocity: u8) -> MidiEvent {
    MidiEvent::NoteOff {
        channel,
        note: Note(note),
        velocity,
    }
}

#[test]
fn new_chord_passes_notes_through() {
    let mut chord = Chord::new();
    let mut out = vec![];
    chord.process(&[(0, on(0, 60, 100)), (7, off(0, 60, 30))], &mut out);
    assert_eq!(out, vec![(0, on(0, 60, 100)), (7, off(0, 60, 0))]);
}

#[test]
fn major_triad_is_built_on_the_note() {
    let mut chord = Chord::new();
    chord.set_chord(0b1001_0001);
    assert_eq!(chord.chord_notes(), vec![0, 4, 7]);
    let mut out = vec![];
    chord.process(&[(3, on(0, 60, 90))], &mut out);
    assert_eq!(
        out,
        vec![(3, on(0, 60, 90)), (3, on(0, 64, 90)), (3, on(0, 67, 90))]
    );
    assert_eq!(chord.get_mask(), (1 << 60) | (1 << 64) | (1 << 67));
    chord.process(&[(9, off(0, 60, 11))], &mut out);
    assert_eq!(
        &out[3..],
        &[(9, off(0, 60, 0)), (9, off(0, 64, 0)), (9, off(0, 67, 0))]
    );
    assert_eq!(chord.get_mask(), 0);
}

#[test]
fn shared_notes_are_not_sent_twice() {
    let mut chord = Chord::new();
    chord.set_chord(0b1001_0001);
    let mut out = vec![];
    chord.process(&[(0, on(0, 60, 90)), (1, on(0, 64, 80))], &mut out);
    // The second chord is 64 68 71; 64 sounds already.
    assert_eq!(
        &out[3..],
        &[(1, on(0, 68, 80)), (1, on(0, 71, 80))]
    );
    out.clear();
    chord.process(&[(2, off(0, 60, 0))], &mut out);
    // 64 answers the second note too and goes on.
    assert_eq!(out, vec![(2, off(0, 60, 0)), (2, off(0, 67, 0))]);
}

#[test]
fn other_channels_and_events_pass() {
    let mut chord = Chord::new();
    chord.set_channel(2);
    chord.set_chord(0b11);
    let bend = MidiEvent::PitchBend {
        channel: 2,
        value: 100,
    };
    let mut out = vec![(99, MidiEvent::Invalid)];
    chord.process(
        &[(0, on(0, 60, 90)), (1, bend), (2, on(2, 10, 5)), (3, off(1, 10, 5))],
        &mut out,
    );
    assert_eq!(
        out,
        vec![
            (99, MidiEvent::Invalid),
            (0, on(0, 60, 90)),
            (1, bend),
            (2, on(2, 10, 5)),
            (2, on(2, 11, 5)),
            (3, off(1, 10, 5)),
        ]
    );
}

#[test]
fn retrigger_restarts_the_chord() {
    let mut chord = Chord::new();
    chord.set_chord(0b101);
    let mut out = vec![];
    chord.process(&[(0, on(0, 50, 90)), (1, on(0, 50, 70))], &mut out);
    // Nothing changes in what sounds, so nothing is sent the second time.
    assert_eq!(out, vec![(0, on(0, 50, 90)), (0, on(0, 52, 90))]);
}

#[test]
fn notes_above_the_range_do_not_sound() {
    let mut chord = Chord::new();
    chord.set_chord(0b1_0000_0001);
    let mut out = vec![];
    chord.process(&[(0, on(0, 125, 90))], &mut out);
    assert_eq!(out, vec![(0, on(0, 125, 90))]);
}

#[test]
fn masks_and_their_differences() {
    let notes = [
        GeneratedNote {
            src: Note(1),
            dst: Note(1),
        },
        GeneratedNote {
            src: Note(1),
            dst: Note(127),
        },
        GeneratedNote {
            src: Note(1),
            dst: Note(200),
        },
    ];
    assert_eq!(to_mask(&notes), (1 << 1) | (1 << 127));
    assert_eq!(to_mask(&[]), 0);
    let mut out = vec![];
    diff_masks(0b0110, 0b1100, 4, 9, 33, &mut out);
    assert_eq!(out, vec![(4, off(9, 1, 0)), (4, on(9, 3, 33))]);
}
