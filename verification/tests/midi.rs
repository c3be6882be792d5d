use audio_engine::midi::{MidiEvent, TimedMidiEvent};
use audio_engine::note::{note_name, Note};

#[test]
fn from_raw_decodes_note_off() {
    assert_eq!(
        MidiEvent::from_raw(&[0x80, 60, 0]),
        MidiEvent::NoteOff {
            channel: 0,
            note: Note(60),
            velocity: 0
        }
    );
    assert_eq!(
        MidiEvent::from_raw(&[0x8f, 127, 64]),
        MidiEvent::NoteOff {
            channel: 15,
            note: Note(127),
            velocity: 64
        }
    );
}

#[test]
fn from_raw_decodes_note_on() {
    assert_eq!(
        MidiEvent::from_raw(&[0x93, 60, 100]),
        MidiEvent::NoteOn {
            channel: 3,
            note: Note(60),
            velocity: 100
        }
    );
}

#[test]
fn from_raw_decodes_control_change() {
    assert_eq!(
        MidiEvent::from_raw(&[0xb1, 7, 99]),
        MidiEvent::ControlChange {
            channel: 1,
            control: 7,
            value: 99
        }
    );
}

#[test]
fn from_raw_decodes_pitch_bend() {
    assert_eq!(
        MidiEvent::from_raw(&[0xe2, 0x00, 0x40]),
        MidiEvent::PitchBend {
            channel: 2,
            value: 8192
        }
    );
    assert_eq!(
        MidiEvent::from_raw(&[0xe0, 0x7f, 0x7f]),
        MidiEvent::PitchBend {
            channel: 0,
            value: 16383
        }
    );
    assert_eq!(
        MidiEvent::from_raw(&[0xe0, 0x01, 0x00]),
        MidiEvent::PitchBend {
            channel: 0,
            value: 1
        }
    );
}

#[test]
fn from_raw_rejects_other_messages() {
    assert_eq!(MidiEvent::from_raw(&[]), MidiEvent::Invalid);
    assert_eq!(MidiEvent::from_raw(&[0x90, 60]), MidiEvent::Invalid);
    assert_eq!(MidiEvent::from_raw(&[0x90, 60, 1, 2]), MidiEvent::Invalid);
    assert_eq!(MidiEvent::from_raw(&[0x7f, 60, 1]), MidiEvent::Invalid);
    assert_eq!(MidiEvent::from_raw(&[0xa0, 60, 1]), MidiEvent::Invalid);
    assert_eq!(MidiEvent::from_raw(&[0xc0, 60, 1]), MidiEvent::Invalid);
    assert_eq!(MidiEvent::from_raw(&[0xf8, 0, 0]), MidiEvent::Invalid);
}

#[test]
fn is_invalid_tells_invalid_apart() {
    assert!(MidiEvent::Invalid.is_invalid());
    assert!(MidiEvent::from_raw(&[0x01]).is_invalid());
    assert!(!MidiEvent::from_raw(&[0x90, 1, 1]).is_invalid());
}

#[test]
fn timed_events_compare_by_time_and_event() {
    let a = TimedMidiEvent {
        time: 3,
        event: MidiEvent::Invalid,
    };
    let b = TimedMidiEvent {
        time: 4,
        event: MidiEvent::Invalid,
    };
    assert_eq!(a, a);
    assert_ne!(a, b);
}

#[test]
fn note_names_follow_pitch_and_octave() {
    assert_eq!(Note::middle_c().name(), "C4");
    assert_eq!(Note(0).name(), "C-1");
    assert_eq!(Note(1).name(), "C#-1");
    assert_eq!(Note(11).name(), "B-1");
    assert_eq!(Note(12).name(), "C0");
    assert_eq!(Note(69).name(), "A4");
    assert_eq!(Note(127).name(), "G9");
    assert_eq!(note_name(66), "F#4");
}

#[test]
fn middle_c_is_sixty() {
    assert_eq!(Note::middle_c(), Note(60));
    assert_eq!(Note::from(60u8), Note::middle_c());
}

#[test]
fn transpose_moves_and_saturates() {
    assert_eq!(Note(60).transpose(4), Note(64));
    assert_eq!(Note(60).transpose(-12), Note(48));
    assert_eq!(Note(3).transpose(-4), Note(0));
    assert_eq!(Note(250).transpose(100), Note(255));
    assert_eq!(Note(0).transpose(-128), Note(0));
    assert_eq!(Note(255).transpose(127), Note(255));
    assert_eq!(Note(128).transpose(127), Note(255));
}
