use audio_engine::account::Account;
use audio_engine::borrow::borrow_buffers;
use audio_engine::engine::AudioEngine;
use audio_engine::midi::{MidiEvent, TimedMidiEvent};
use audio_engine::pipeline::{copy_or_clear, Pipeline};
use audio_engine::processor::{NodeCall, Processor, ProcessorData, ProcessorDescription};

/// Adds a constant to both channels and counts the events that pass.
struct Add {
    amount: f32,
    rate: u32,
}

impl Processor<f32> for Add {
    // The account is for proofs; nothing calls it.
    fn calls(&self) -> Account<NodeCall<f32>> {
        unreachable!()
    }

    fn description(&self) -> ProcessorDescription {
        ProcessorDescription {
            min_audio_ins: 2,
            max_audio_ins: 2,
            num_audio_outs: 2,
        }
    }

    fn set_sample_rate(&mut self, sample_rate: u32) {
        self.rate = sample_rate;
    }

    fn set_parameter(&mut self, _param_id: usize, value: f32) {
        self.amount = value;
    }

    fn process(&mut self, data: ProcessorData<'_, '_, f32>) {
        for ch in 0..2 {
            for i in 0..data.samples {
                let sample = data.audio.input_sample(ch, i);
                data.audio.set_output_sample(ch, i, sample + self.amount);
            }
        }
        for event in data.midi_in {
            data.midi_out.push(TimedMidiEvent {
                time: event.time + 1,
                event: event.event,
            });
        }
    }
}

fn add(amount: f32) -> Add {
    Add { amount, rate: 0 }
}

/// Runs the row on a block of four samples whose inputs are slots 0 and 1
/// and whose outputs are slots 2 and 3, and returns the store.
fn run(pipeline: &mut Pipeline<f32, Add>, events: &[TimedMidiEvent]) -> (Vec<f32>, Vec<TimedMidiEvent>) {
    let store: Vec<f32> = (0..16).map(|i| i as f32).collect();
    let ins = [0usize, 1];
    let outs = [2usize, 3];
    let mut block = borrow_buffers(store, 4, &ins, &outs);
    let mut sent = vec![];
    pipeline.run(events, &mut sent, &mut block);
    (block.into_store(), sent)
}

#[test]
fn empty_row_hands_its_inputs_on() {
    let mut pipeline = Pipeline::new(vec![], 0.0f32);
    let event = TimedMidiEvent {
        time: 3,
        event: MidiEvent::Invalid,
    };
    let (store, sent) = run(&mut pipeline, &[event]);
    assert_eq!(&store[8..12], &[0.0, 1.0, 2.0, 3.0]);
    assert_eq!(&store[12..16], &[4.0, 5.0, 6.0, 7.0]);
    assert_eq!(&store[0..8], &[0.0, 1.0, 2.0, 3.0, 4.0, 5.0, 6.0, 7.0]);
    assert_eq!(sent, vec![event]);
}

#[test]
fn row_runs_its_nodes_in_order() {
    let mut pipeline = Pipeline::new(vec![add(1.0), add(10.0), add(100.0)], 0.0f32);
    let event = TimedMidiEvent {
        time: 3,
        event: MidiEvent::Invalid,
    };
    let (store, sent) = run(&mut pipeline, &[event]);
    assert_eq!(&store[8..12], &[111.0, 112.0, 113.0, 114.0]);
    assert_eq!(&store[12..16], &[115.0, 116.0, 117.0, 118.0]);
    assert_eq!(
        sent,
        vec![TimedMidiEvent {
            time: 6,
            event: MidiEvent::Invalid
        }]
    );
    let mut pipeline = Pipeline::new(vec![add(1.0), add(10.0)], 0.0f32);
    let (store, _) = run(&mut pipeline, &[]);
    assert_eq!(&store[8..12], &[11.0, 12.0, 13.0, 14.0]);
}

#[test]
fn missing_inputs_are_silent() {
    let mut pipeline = Pipeline::new(vec![add(1.0)], 0.5f32);
    let store = vec![7.0f32; 6];
    let ins = [0usize];
    let outs = [1usize, 2];
    let mut block = borrow_buffers(store, 2, &ins, &outs);
    let mut sent = vec![];
    pipeline.run(&[], &mut sent, &mut block);
    assert_eq!(block.into_store(), vec![7.0, 7.0, 8.0, 8.0, 1.5, 1.5]);
}

#[test]
fn row_is_a_node() {
    let mut engine = AudioEngine::new(0.0f32);
    engine.set_sample_rate(48000);
    let row = engine.add_device(Pipeline::new(vec![add(2.0), add(3.0)], 0.0f32));
    engine.set_device_order(&[row]);
    engine.set_audio_slot(row, 0, 1);
    engine.set_audio_slot(row, 1, 2);
    assert_eq!(engine.process(4), Ok(()));
    assert_eq!(engine.audio_slot(1, 4), Some(&[5.0f32; 4][..]));
    assert_eq!(engine.audio_slot(2, 4), Some(&[5.0f32; 4][..]));
    assert!(engine.set_parameter(row, 0, 1.0));
}

#[test]
fn copy_or_clear_copies_or_clears() {
    let mut dst = [1u8, 2, 3];
    copy_or_clear(Some(&[4u8, 5, 6][..]), &mut dst, 0);
    assert_eq!(dst, [4, 5, 6]);
    copy_or_clear(None, &mut dst, 9);
    assert_eq!(dst, [9, 9, 9]);
}
