use audio_engine::account::Account;
use audio_engine::borrow::BorrowError;
use audio_engine::engine::AudioEngine;
use audio_engine::graph::{EngineError, NUM_BUFFERS};
use audio_engine::handle::DeviceId;
use audio_engine::midi::{MidiEvent, TimedMidiEvent};
use audio_engine::note::Note;
use audio_engine::processor::{NodeCall, Processor, ProcessorData, ProcessorDescription};

/// The nodes that the tests wire together.
enum Node {
    /// Writes a constant to both of its outputs.
    Constant { value: f32, rate: u32 },
    /// Writes twice its inputs to its outputs.
    Doubler,
    /// Copies its first input to its only output.
    Copier,
    /// Has two outputs and no slots of its own.
    TwoOutputs,
    /// Declares more inputs at least than at most.
    Broken,
    /// Sends one note per block.
    Sender { note: u8 },
    /// Sends on the events that arrive.
    Echo,
    /// Writes the first note that arrives, and its time, into its output.
    Gauge,
    /// Remembers the parameter it was given.
    Knob { value: f32 },
}

impl Processor<f32> for Node {
    // The account is for proofs; nothing calls it.
    fn calls(&self) -> Account<NodeCall<f32>> {
        unreachable!()
    }

    fn description(&self) -> ProcessorDescription {
        let (min_audio_ins, max_audio_ins, num_audio_outs) = match self {
            Node::Constant { .. } => (0, 0, 2),
            Node::Doubler => (2, 2, 2),
            Node::Copier => (1, 2, 1),
            Node::TwoOutputs => (0, 0, 2),
            Node::Broken => (3, 1, 0),
            Node::Sender { .. } => (0, 0, 0),
            Node::Echo => (0, 0, 0),
            Node::Gauge => (0, 0, 1),
            Node::Knob { .. } => (0, 0, 0),
        };
        ProcessorDescription {
            min_audio_ins,
            max_audio_ins,
            num_audio_outs,
        }
    }

    fn set_sample_rate(&mut self, sample_rate: u32) {
        if let Node::Constant { rate, .. } = self {
            *rate = sample_rate;
        }
    }

    fn set_parameter(&mut self, _param_id: usize, new_value: f32) {
        if let Node::Knob { value } = self {
            *value = new_value;
        }
        if let Node::Constant { value, .. } = self {
            *value = new_value;
        }
    }

    fn process(&mut self, data: ProcessorData<'_, '_, f32>) {
        let len = data.samples;
        match self {
            Node::Constant { value, .. } => {
                for ch in 0..data.audio.num_outputs() {
                    for i in 0..len {
                        data.audio.set_output_sample(ch, i, *value);
                    }
                }
            }
            Node::Doubler => {
                for ch in 0..2 {
                    for i in 0..len {
                        let sample = data.audio.input_sample(ch, i);
                        data.audio.set_output_sample(ch, i, 2.0 * sample);
                    }
                }
            }
            Node::Copier => {
                for i in 0..len {
                    let sample = data.audio.input_sample(0, i);
                    data.audio.set_output_sample(0, i, sample);
                }
            }
            Node::TwoOutputs | Node::Broken | Node::Knob { .. } => {}
            Node::Sender { note } => {
                data.midi_out.push(TimedMidiEvent {
                    time: 5,
                    event: MidiEvent::NoteOn {
                        channel: 0,
                        note: Note(*note),
                        velocity: 100,
                    },
                });
                *note += 1;
            }
            Node::Echo => {
                data.midi_out.extend_from_slice(data.midi_in);
            }
            Node::Gauge => {
                let (number, time) = match data.midi_in.first() {
                    Some(TimedMidiEvent {
                        time,
                        event: MidiEvent::NoteOn { note, .. },
                    }) => (note.0 as f32, *time as f32),
                    _ => (-1.0, -1.0),
                };
                data.audio.set_output_sample(0, 0, number);
                data.audio.set_output_sample(0, 1, time);
            }
        }
    }
}

fn constant(value: f32) -> Node {
    Node::Constant { value, rate: 0 }
}

#[test]
fn chain_passes_audio_within_one_cycle() {
    let mut engine = AudioEngine::new(0.0f32);
    engine.set_sample_rate(48000);
    let a = engine.add_device(constant(1.0));
    let b = engine.add_device(Node::Doubler);
    let c = engine.add_device(Node::Copier);
    engine.test_connect(&[a, b, c]);
    assert_eq!(engine.device_order(), &[a, b, c]);
    assert_eq!(engine.process(8), Ok(()));
    // The constant wrote slots 1 and 2, the doubler slots 3 and 4, and the
    // copier, last in the chain, slot 1 again. Slot 0 stays silent.
    assert_eq!(engine.audio_slot(0, 8), Some(&[0.0f32; 8][..]));
    assert_eq!(engine.audio_slot(1, 8), Some(&[2.0f32; 8][..]));
    assert_eq!(engine.audio_slot(2, 8), Some(&[1.0f32; 8][..]));
    assert_eq!(engine.audio_slot(3, 8), Some(&[2.0f32; 8][..]));
    assert_eq!(engine.audio_slot(4, 8), Some(&[2.0f32; 8][..]));
    assert_eq!(engine.audio_slot(5, 8), Some(&[0.0f32; 8][..]));
    assert_eq!(engine.audio_slot(NUM_BUFFERS, 8), None);
    // A second cycle gives the same.
    assert_eq!(engine.process(8), Ok(()));
    assert_eq!(engine.audio_slot(0, 8), Some(&[0.0f32; 8][..]));
    assert_eq!(engine.audio_slot(1, 8), Some(&[2.0f32; 8][..]));
}

#[test]
fn cycle_follows_a_change_of_the_source_at_once() {
    let mut engine = AudioEngine::new(0.0f32);
    engine.set_sample_rate(44100);
    let a = engine.add_device(constant(1.0));
    let b = engine.add_device(Node::Doubler);
    let c = engine.add_device(Node::Copier);
    engine.test_connect(&[a, b, c]);
    assert_eq!(engine.process(4), Ok(()));
    assert!(engine.set_parameter(a, 0, 3.0));
    assert_eq!(engine.process(4), Ok(()));
    assert_eq!(engine.audio_slot(1, 4), Some(&[6.0f32; 4][..]));
}

#[test]
fn sample_rate_is_set_before_the_first_cycle() {
    let mut engine: AudioEngine<f32, Node> = AudioEngine::new(0.0);
    // Without a sample rate no cycle may be run; the rate tells.
    assert_eq!(engine.sample_rate(), 0);
    engine.set_sample_rate(48000);
    assert_eq!(engine.sample_rate(), 48000);
    assert_eq!(engine.process(16), Ok(()));
    assert_eq!(engine.audio_slot(15, 16), Some(&[0.0f32; 16][..]));
}

#[test]
fn new_device_is_told_the_sample_rate() {
    let mut engine = AudioEngine::new(0.0f32);
    let before = engine.add_device(constant(1.0));
    engine.set_sample_rate(96000);
    let after = engine.add_device(constant(1.0));
    assert!(engine.contains(before));
    assert!(engine.contains(after));
    assert_ne!(before, after);
    assert_eq!(engine.device_count(), 2);
    for handle in [before, after] {
        match engine.get_device_mut(handle) {
            Some(Node::Constant { rate, .. }) => assert_eq!(*rate, 96000),
            _ => panic!("the handle names the constant"),
        }
    }
    // A node that is added while no rate is set is told none.
    let mut silent: AudioEngine<f32, Node> = AudioEngine::new(0.0);
    let untold = silent.add_device(constant(1.0));
    match silent.get_device_mut(untold) {
        Some(Node::Constant { rate, .. }) => assert_eq!(*rate, 0),
        _ => panic!("the handle names the constant"),
    }
}

#[test]
fn chain_of_one_node_keeps_slot_zero_silent() {
    let mut engine = AudioEngine::new(0.0f32);
    engine.set_sample_rate(48000);
    let a = engine.add_device(constant(7.0));
    engine.test_connect(&[a]);
    assert_eq!(engine.process(4), Ok(()));
    assert_eq!(engine.audio_slot(0, 4), Some(&[0.0f32; 4][..]));
    assert_eq!(engine.audio_slot(1, 4), Some(&[7.0f32; 4][..]));
    assert_eq!(engine.audio_slot(2, 4), Some(&[7.0f32; 4][..]));
    assert_eq!(engine.audio_slot(3, 4), Some(&[0.0f32; 4][..]));
}

#[test]
fn duplicate_output_slots_stop_the_cycle() {
    let mut engine = AudioEngine::new(0.0f32);
    engine.set_sample_rate(48000);
    let a = engine.add_device(constant(1.0));
    let last = engine.add_device(Node::TwoOutputs);
    // A node without slots of its own has both of its outputs on slot 0.
    engine.set_device_order(&[a, last]);
    engine.set_audio_slot(a, 0, 1);
    engine.set_audio_slot(a, 1, 2);
    assert_eq!(
        engine.process(8),
        Err(EngineError::Borrow(BorrowError::AlreadyBorrowed {
            index: 0
        }))
    );
    // The node before it has run.
    assert_eq!(engine.audio_slot(1, 8), Some(&[1.0f32; 8][..]));
}

#[test]
fn empty_block_stops_at_the_first_node() {
    let mut engine = AudioEngine::new(0.0f32);
    engine.set_sample_rate(48000);
    assert_eq!(engine.process(0), Ok(()));
    let a = engine.add_device(constant(1.0));
    engine.test_connect(&[a]);
    assert_eq!(
        engine.process(0),
        Err(EngineError::Borrow(BorrowError::EmptyBlock))
    );
}

#[test]
fn broken_description_stops_the_cycle() {
    let mut engine = AudioEngine::new(0.0f32);
    engine.set_sample_rate(48000);
    let broken = engine.add_device(Node::Broken);
    engine.test_connect(&[broken]);
    assert_eq!(engine.process(8), Err(EngineError::InvalidDescription));
}

/// Wires `a` to `b` to `c`, with slots that leave slot 0 alone.
fn wire_three(engine: &mut AudioEngine<f32, Node>, a: DeviceId, b: DeviceId, c: DeviceId) {
    engine.set_device_order(&[a, b, c]);
    engine.set_audio_slot(a, 0, 1);
    engine.set_audio_slot(a, 1, 2);
    engine.set_audio_slot(b, 0, 3);
    engine.set_audio_slot(b, 1, 4);
    engine.set_audio_slot(c, 0, 5);
    engine.set_audio_input(a, 0, b, 0);
    engine.set_audio_input(a, 1, b, 1);
    engine.set_audio_input(b, 0, c, 0);
}

#[test]
fn removed_device_is_passed_over_and_reads_as_silence() {
    let mut engine = AudioEngine::new(0.0f32);
    engine.set_sample_rate(48000);
    let a = engine.add_device(constant(1.0));
    let b = engine.add_device(Node::Doubler);
    let c = engine.add_device(Node::Copier);
    wire_three(&mut engine, a, b, c);
    assert_eq!(engine.process(8), Ok(()));
    assert_eq!(engine.audio_slot(5, 8), Some(&[2.0f32; 8][..]));
    engine.remove_device(b);
    assert!(!engine.contains(b));
    assert_eq!(engine.device_count(), 2);
    assert_eq!(engine.process(8), Ok(()));
    // The copier's source is gone, so it reads slot 0, which is silent.
    assert_eq!(engine.audio_slot(5, 8), Some(&[0.0f32; 8][..]));
    // The doubler did not run: its slots are as the cycle before left them.
    assert_eq!(engine.audio_slot(3, 8), Some(&[2.0f32; 8][..]));
    // Removing twice changes nothing.
    engine.remove_device(b);
    assert_eq!(engine.device_count(), 2);
}

#[test]
fn stale_handle_names_nothing() {
    let mut engine = AudioEngine::new(0.0f32);
    let first = engine.add_device(constant(1.0));
    engine.remove_device(first);
    let second = engine.add_device(constant(2.0));
    assert_ne!(first, second);
    assert!(!engine.contains(first));
    assert!(engine.contains(second));
    assert!(!engine.set_parameter(first, 0, 1.0));
    assert!(!engine.contains(DeviceId::null()));
    assert!(DeviceId::null().is_null());
    assert!(!second.is_null());
}

#[test]
fn unwired_inputs_read_silence() {
    let mut engine = AudioEngine::new(0.0f32);
    engine.set_sample_rate(48000);
    let a = engine.add_device(constant(5.0));
    let b = engine.add_device(Node::Doubler);
    let c = engine.add_device(Node::Copier);
    wire_three(&mut engine, a, b, c);
    assert_eq!(engine.process(4), Ok(()));
    assert_eq!(engine.audio_slot(5, 4), Some(&[10.0f32; 4][..]));
    engine.remove_audio_input(b, 0);
    // A channel that the wiring does not reach is left alone.
    engine.remove_audio_input(b, 7);
    assert_eq!(engine.process(4), Ok(()));
    assert_eq!(engine.audio_slot(3, 4), Some(&[0.0f32; 4][..]));
    assert_eq!(engine.audio_slot(4, 4), Some(&[10.0f32; 4][..]));
    assert_eq!(engine.audio_slot(5, 4), Some(&[0.0f32; 4][..]));
}

#[test]
fn inputs_are_held_within_what_the_node_accepts() {
    let mut engine = AudioEngine::new(0.0f32);
    engine.set_sample_rate(48000);
    let a = engine.add_device(constant(4.0));
    let b = engine.add_device(Node::Doubler);
    let c = engine.add_device(Node::Copier);
    wire_three(&mut engine, a, b, c);
    // The copier accepts two inputs at most: a wiring of five channels is
    // cut to two. The doubler needs two inputs: a wiring of none is filled
    // up with silence.
    engine.set_audio_input(a, 1, c, 4);
    engine.remove_audio_input(b, 0);
    engine.remove_audio_input(b, 1);
    assert_eq!(engine.process(4), Ok(()));
    assert_eq!(engine.audio_slot(3, 4), Some(&[0.0f32; 4][..]));
    assert_eq!(engine.audio_slot(5, 4), Some(&[0.0f32; 4][..]));
}

#[test]
fn slot_zero_is_never_written() {
    let mut engine = AudioEngine::new(0.0f32);
    engine.set_sample_rate(48000);
    let a = engine.add_device(constant(1.0));
    let c = engine.add_device(Node::Copier);
    // The constant is given slot 0 for its first output: the cycle stops
    // there, and slot 0 stays silent.
    engine.set_device_order(&[a, c]);
    engine.set_audio_slot(a, 0, 0);
    engine.set_audio_slot(a, 1, 1);
    engine.set_audio_slot(c, 0, 5);
    assert_eq!(
        engine.process(4),
        Err(EngineError::Borrow(BorrowError::AlreadyBorrowed {
            index: 0
        }))
    );
    assert_eq!(engine.audio_slot(0, 4), Some(&[0.0f32; 4][..]));
    assert_eq!(engine.audio_slot(1, 4), Some(&[0.0f32; 4][..]));
    // So does a node with one output and no slot for it.
    engine.set_device_order(&[c]);
    engine.set_audio_slot(c, 0, 0);
    assert_eq!(
        engine.process(4),
        Err(EngineError::Borrow(BorrowError::AlreadyBorrowed {
            index: 0
        }))
    );
}

#[test]
fn unfed_input_hears_silence_whatever_was_written() {
    let mut engine = AudioEngine::new(0.0f32);
    engine.set_sample_rate(48000);
    let a = engine.add_device(constant(1.0));
    let c = engine.add_device(Node::Copier);
    // The constant writes slots 1 and 2; the copier is fed by nothing and
    // writes slot 5.
    engine.set_device_order(&[a, c]);
    engine.set_audio_slot(a, 0, 1);
    engine.set_audio_slot(a, 1, 2);
    engine.set_audio_slot(c, 0, 5);
    assert_eq!(engine.process(4), Ok(()));
    assert_eq!(engine.audio_slot(1, 4), Some(&[1.0f32; 4][..]));
    assert_eq!(engine.audio_slot(5, 4), Some(&[0.0f32; 4][..]));
    // Fed by the constant it hears the constant, in the same cycle.
    engine.set_audio_input(a, 1, c, 0);
    assert_eq!(engine.process(4), Ok(()));
    assert_eq!(engine.audio_slot(5, 4), Some(&[1.0f32; 4][..]));
    // With the constant gone it hears silence again, though slot 2 still
    // holds what the constant wrote.
    engine.remove_device(a);
    assert_eq!(engine.process(4), Ok(()));
    assert_eq!(engine.audio_slot(2, 4), Some(&[1.0f32; 4][..]));
    assert_eq!(engine.audio_slot(5, 4), Some(&[0.0f32; 4][..]));
}

#[test]
fn cycle_without_slots_asks_for_no_room() {
    let mut engine = AudioEngine::new(0.0f32);
    engine.set_sample_rate(48000);
    // An empty order, and an order of nodes without channels.
    assert_eq!(engine.process(8), Ok(()));
    let sender = engine.add_device(Node::Sender { note: 60 });
    let echo = engine.add_device(Node::Echo);
    engine.set_device_order(&[sender, echo, sender]);
    engine.set_midi_input(sender, echo);
    assert_eq!(engine.process(8), Ok(()));
    assert_eq!(engine.audio_slot(0, 8), Some(&[0.0f32; 8][..]));
}

#[test]
fn midi_reaches_the_node_behind() {
    let mut engine = AudioEngine::new(0.0f32);
    engine.set_sample_rate(48000);
    let sender = engine.add_device(Node::Sender { note: 60 });
    let echo = engine.add_device(Node::Echo);
    let gauge = engine.add_device(Node::Gauge);
    engine.set_device_order(&[sender, echo, gauge]);
    engine.set_audio_slot(gauge, 0, 1);
    engine.set_midi_input(sender, echo);
    engine.set_midi_input(echo, gauge);
    assert_eq!(engine.process(2), Ok(()));
    // The gauge writes the note number and the time of the event it got,
    // which the sender sent in this very cycle.
    assert_eq!(engine.audio_slot(1, 2), Some(&[60.0f32, 5.0][..]));
    assert_eq!(engine.process(2), Ok(()));
    assert_eq!(engine.audio_slot(1, 2), Some(&[61.0f32, 5.0][..]));
    // A node that runs before its source gets what the source sent in the
    // cycle before.
    engine.set_device_order(&[gauge, sender, echo]);
    assert_eq!(engine.process(2), Ok(()));
    assert_eq!(engine.audio_slot(1, 2), Some(&[61.0f32, 5.0][..]));
    assert_eq!(engine.process(2), Ok(()));
    assert_eq!(engine.audio_slot(1, 2), Some(&[62.0f32, 5.0][..]));
    // Without a source nothing arrives.
    engine.remove_midi_input(gauge);
    assert_eq!(engine.process(2), Ok(()));
    assert_eq!(engine.audio_slot(1, 2), Some(&[-1.0f32, -1.0][..]));
    // Nor from a source that was removed.
    engine.set_midi_input(echo, gauge);
    engine.remove_device(echo);
    assert_eq!(engine.process(2), Ok(()));
    assert_eq!(engine.audio_slot(1, 2), Some(&[-1.0f32, -1.0][..]));
}

#[test]
fn cycle_needs_room_for_the_slots_of_every_node() {
    let mut engine = AudioEngine::new(0.0f32);
    engine.set_sample_rate(48000);
    let a = engine.add_device(constant(1.0));
    let b = engine.add_device(Node::Doubler);
    let c = engine.add_device(Node::Copier);
    wire_three(&mut engine, a, b, c);
    // The doubler reads two slots and writes two.
    let mut scratch = [0usize; 3];
    assert_eq!(
        engine.process_with(4, &mut scratch),
        Err(EngineError::OutOfMemory)
    );
    // The constant has run by then.
    assert_eq!(engine.audio_slot(1, 4), Some(&[1.0f32; 4][..]));
    assert_eq!(engine.audio_slot(3, 4), Some(&[0.0f32; 4][..]));
    let mut scratch = [0usize; 4];
    assert_eq!(engine.process_with(4, &mut scratch), Ok(()));
    assert_eq!(engine.audio_slot(5, 4), Some(&[2.0f32; 4][..]));
    // An empty order needs no room at all.
    let mut idle: AudioEngine<f32, Node> = AudioEngine::new(0.0);
    idle.set_sample_rate(1);
    assert_eq!(idle.process_with(4, &mut []), Ok(()));
}

#[test]
fn nodes_can_be_changed_in_place() {
    let mut engine = AudioEngine::new(0.0f32);
    engine.set_sample_rate(48000);
    let a = match engine.try_add_device(constant(1.0)) {
        Some(a) => a,
        None => panic!("the engine is empty"),
    };
    engine.set_device_order(&[a]);
    engine.set_audio_slot(a, 0, 1);
    engine.set_audio_slot(a, 1, 2);
    match engine.get_device_mut(a) {
        Some(Node::Constant { value, rate }) => {
            assert_eq!(*rate, 48000);
            *value = 7.0;
        }
        _ => panic!("the node is registered"),
    }
    assert_eq!(engine.process(2), Ok(()));
    assert_eq!(engine.audio_slot(2, 2), Some(&[7.0f32; 2][..]));
    engine.remove_device(a);
    assert!(engine.get_device_mut(a).is_none());
    assert!(engine.get_device_mut(DeviceId::null()).is_none());
}

#[test]
fn handle_of_a_removed_node_is_not_given_again() {
    let mut engine = AudioEngine::new(0.0f32);
    let kept = engine.add_device(constant(0.0));
    let mut given = vec![kept];
    for round in 0..200 {
        let handle = engine.add_device(constant(round as f32));
        assert!(!given.contains(&handle));
        assert!(engine.contains(handle));
        given.push(handle);
        engine.remove_device(handle);
        assert!(!engine.contains(handle));
        // Removing it once more changes nothing.
        engine.remove_device(handle);
        assert_eq!(engine.device_count(), 1);
    }
    assert!(engine.contains(kept));
    for handle in &given[1..] {
        assert!(!engine.contains(*handle));
        assert!(engine.get_device_mut(*handle).is_none());
    }
}
