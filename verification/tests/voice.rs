use audio_engine::account::Account;
use audio_engine::borrow::{borrow_buffers, AudioBlock};
use audio_engine::midi::{MidiEvent, TimedMidiEvent};
use audio_engine::note::Note;
use audio_engine::voice::{clear_outputs, Voice, VoiceCall, VoiceHandle, VoiceManager, VoicePhase};

/// Adds its note number to every sample while its note is held, and has
/// died away as soon as the note is let go.
#[derive(Clone)]
struct Beep {
    level: f32,
    held: bool,
    bend: u16,
    rate: u32,
}

impl Beep {
    fn new() -> Self {
        Beep {
            level: 0.0,
            held: false,
            bend: 8192,
            rate: 0,
        }
    }
}

impl Voice<f32> for Beep {
    // The account is for proofs; nothing calls it.
    fn calls(&self) -> Account<VoiceCall> {
        unreachable!()
    }

    fn set_sample_rate(&mut self, sample_rate: u32) {
        self.rate = sample_rate;
    }

    fn trigger(&mut self, note: Note, _velocity: u8) {
        self.level = note.0 as f32;
        self.held = true;
    }

    fn release(&mut self) {
        self.held = false;
    }

    fn set_pitch_bend(&mut self, bend: u16, _max_cents: usize) {
        self.bend = bend;
    }

    fn process(&mut self, audio: &mut AudioBlock<'_, f32>, from: usize, to: usize) -> bool {
        if !self.held {
            return false;
        }
        for ch in 0..audio.num_outputs() {
            for i in from..to {
                let sample = audio.output_sample(ch, i);
                audio.set_output_sample(ch, i, sample + self.level);
            }
        }
        self.held
    }
}

fn on(time: u32, note: u8) -> TimedMidiEvent {
    TimedMidiEvent {
        time,
        event: MidiEvent::NoteOn {
            channel: 0,
            note: Note(note),
            velocity: 100,
        },
    }
}

fn off(time: u32, note: u8) -> TimedMidiEvent {
    TimedMidiEvent {
        time,
        event: MidiEvent::NoteOff {
            channel: 0,
            note: Note(note),
            velocity: 0,
        },
    }
}

/// Runs one block of eight samples and returns the left output.
fn run(manager: &mut VoiceManager<f32, Beep>, events: &[TimedMidiEvent]) -> Vec<f32> {
    let store = vec![9.0f32; 16];
    let outs = [0usize, 1];
    let mut block = borrow_buffers(store, 8, &[], &outs);
    manager.process_midi(events, &mut block);
    let store = block.into_store();
    assert_eq!(&store[..8], &store[8..]);
    store[..8].to_vec()
}

#[test]
fn handle_priorities_order_the_voices() {
    let mut handle = VoiceHandle::new(Beep::new());
    assert!(!handle.active());
    assert_eq!(handle.on_note(), None);
    assert_eq!(handle.priority(Note(60)), 1);
    handle.trigger(Note(60), 100, 7);
    assert!(handle.active());
    assert_eq!(handle.on_note(), Some(Note(60)));
    assert_eq!(handle.priority(Note(60)), 0);
    assert_eq!(handle.priority(Note(61)), usize::MAX / 2 + 7);
    handle.release(9);
    assert!(handle.active());
    assert_eq!(handle.on_note(), None);
    assert_eq!(handle.priority(Note(60)), 2);
    assert_eq!(handle.priority(Note(61)), 3 + 9);
    // A count beyond the limit counts as the limit.
    handle.release(usize::MAX);
    assert_eq!(handle.priority(Note(61)), usize::MAX / 2);
}

#[test]
fn handle_turns_off_when_the_voice_has_died_away() {
    let mut handle = VoiceHandle::new(Beep::new());
    let store = vec![0.0f32; 4];
    let outs = [0usize];
    let mut block = borrow_buffers(store, 4, &[], &outs);
    assert!(!handle.process(&mut block, 0, 4));
    handle.trigger(Note(3), 1, 0);
    assert!(handle.process(&mut block, 0, 2));
    handle.release(1);
    assert!(!handle.process(&mut block, 2, 4));
    assert!(!handle.active());
    // Releasing a voice that is off does nothing.
    handle.release(2);
    assert!(!handle.active());
    assert_eq!(block.into_store(), vec![3.0, 3.0, 0.0, 0.0]);
}

#[test]
fn events_take_effect_at_their_offsets() {
    let mut manager = VoiceManager::new(4, Beep::new(), 0.0f32);
    manager.set_sample_rate(48000);
    let out = run(&mut manager, &[on(2, 10), on(5, 1)]);
    assert_eq!(out, vec![0.0, 0.0, 10.0, 10.0, 10.0, 11.0, 11.0, 11.0]);
    // The notes are held into the next block.
    let out = run(&mut manager, &[off(4, 10)]);
    assert_eq!(out, vec![11.0, 11.0, 11.0, 11.0, 1.0, 1.0, 1.0, 1.0]);
}

#[test]
fn offsets_out_of_order_or_range_are_pulled_in() {
    let mut manager = VoiceManager::new(2, Beep::new(), 0.0f32);
    let out = run(&mut manager, &[on(6, 1), on(3, 2), on(100, 4)]);
    assert_eq!(out, vec![0.0, 0.0, 0.0, 0.0, 0.0, 0.0, 3.0, 3.0]);
}

#[test]
fn the_voice_longest_held_is_taken_when_all_are_busy() {
    let mut manager = VoiceManager::new(2, Beep::new(), 0.0f32);
    manager.trigger(Note(1), 100);
    manager.trigger(Note(2), 100);
    manager.trigger(Note(4), 100);
    // The voice of note 1 was taken for note 4.
    let out = run(&mut manager, &[]);
    assert_eq!(out, vec![6.0; 8]);
    manager.release(Note(1));
    let out = run(&mut manager, &[]);
    assert_eq!(out, vec![6.0; 8]);
    manager.release(Note(2));
    let out = run(&mut manager, &[]);
    assert_eq!(out, vec![4.0; 8]);
    // The voice of note 2 has died away and is taken first.
    manager.trigger(Note(8), 100);
    let out = run(&mut manager, &[]);
    assert_eq!(out, vec![12.0; 8]);
}

#[test]
fn a_note_played_again_keeps_its_voice() {
    let mut manager = VoiceManager::new(3, Beep::new(), 0.0f32);
    manager.trigger(Note(10), 100);
    manager.trigger(Note(10), 100);
    manager.trigger(Note(10), 100);
    let out = run(&mut manager, &[]);
    assert_eq!(out, vec![10.0; 8]);
}

#[test]
fn a_manager_without_voices_plays_silence() {
    let mut manager = VoiceManager::new(0, Beep::new(), 0.0f32);
    manager.trigger(Note(10), 100);
    manager.release(Note(10));
    manager.set_pitch_bend(0);
    let out = run(&mut manager, &[on(0, 5)]);
    assert_eq!(out, vec![0.0; 8]);
}

#[test]
fn clear_outputs_silences_a_stretch() {
    let store: Vec<f32> = (0..8).map(|i| i as f32).collect();
    let ins = [0usize];
    let outs = [1usize];
    let mut block = borrow_buffers(store, 4, &ins, &outs);
    clear_outputs(&mut block, 1, 3, -1.0);
    assert_eq!(
        block.into_store(),
        vec![0.0, 1.0, 2.0, 3.0, 4.0, -1.0, -1.0, 7.0]
    );
}

#[test]
fn phases_compare() {
    assert_eq!(VoicePhase::On(Note(1)), VoicePhase::On(Note(1)));
    assert_ne!(VoicePhase::On(Note(1)), VoicePhase::Released(Note(1)));
    assert_ne!(VoicePhase::Off, VoicePhase::Released(Note(1)));
}
