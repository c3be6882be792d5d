use audio_engine::account::Account;
use audio_engine::adapter::{BatchSource, FixedOutputAdapter};

/// Counts up, four samples to a batch.
struct Counter {
    next: u32,
    batches: usize,
}

impl BatchSource<u32, 4> for Counter {
    // The account is for proofs; nothing calls it.
    fn produced(&self) -> Account<u32> {
        unreachable!()
    }

    fn next_batch(&mut self, batch: &mut [u32; 4]) {
        for sample in batch.iter_mut() {
            *sample = self.next;
            self.next += 1;
        }
        self.batches += 1;
    }
}

#[test]
fn new_adapter_has_nothing_at_hand() {
    let mut adapter: FixedOutputAdapter<u32, 4> = FixedOutputAdapter::new(0);
    assert_eq!(adapter.available(), 0);
    let mut out = [7u32; 3];
    assert_eq!(adapter.read(&mut out), 0);
    assert_eq!(out, [7, 7, 7]);
}

#[test]
fn fill_fetches_batches_as_needed() {
    let mut adapter: FixedOutputAdapter<u32, 4> = FixedOutputAdapter::new(0);
    let mut source = Counter {
        next: 0,
        batches: 0,
    };
    let mut out = [0u32; 6];
    adapter.fill(&mut out, &mut source);
    assert_eq!(out, [0, 1, 2, 3, 4, 5]);
    assert_eq!(source.batches, 2);
    assert_eq!(adapter.available(), 2);
    // The rest of the last batch comes first the next time.
    let mut out = [0u32; 2];
    adapter.fill(&mut out, &mut source);
    assert_eq!(out, [6, 7]);
    assert_eq!(source.batches, 2);
    assert_eq!(adapter.available(), 0);
    let mut out = [0u32; 9];
    adapter.fill(&mut out, &mut source);
    assert_eq!(out, [8, 9, 10, 11, 12, 13, 14, 15, 16]);
    assert_eq!(source.batches, 5);
    assert_eq!(adapter.available(), 3);
    let mut out: [u32; 0] = [];
    adapter.fill(&mut out, &mut source);
    assert_eq!(source.batches, 5);
}

#[test]
fn read_hands_out_what_is_at_hand() {
    let mut adapter: FixedOutputAdapter<u32, 4> = FixedOutputAdapter::new(0);
    adapter.load([1, 2, 3, 4]);
    assert_eq!(adapter.available(), 4);
    let mut out = [0u32; 3];
    assert_eq!(adapter.read(&mut out), 3);
    assert_eq!(out, [1, 2, 3]);
    let mut out = [9u32; 3];
    assert_eq!(adapter.read(&mut out), 1);
    assert_eq!(out, [4, 9, 9]);
    assert_eq!(adapter.read(&mut out), 0);
}

#[test]
fn read_at_writes_behind_a_position() {
    let mut adapter: FixedOutputAdapter<u32, 4> = FixedOutputAdapter::new(0);
    adapter.load([1, 2, 3, 4]);
    let mut out = [9u32; 5];
    assert_eq!(adapter.read_at(&mut out, 2), 3);
    assert_eq!(out, [9, 9, 1, 2, 3]);
    assert_eq!(adapter.read_at(&mut out, 5), 0);
    assert_eq!(adapter.available(), 1);
}

#[test]
fn write_silence_puts_a_silent_batch_at_hand() {
    let mut adapter: FixedOutputAdapter<f32, 4> = FixedOutputAdapter::new(1.0);
    adapter.load([1.0, 2.0, 3.0, 4.0]);
    let mut out = [0.0f32; 1];
    adapter.read(&mut out);
    adapter.write_silence(0.0);
    assert_eq!(adapter.available(), 4);
    let mut out = [5.0f32; 4];
    assert_eq!(adapter.read(&mut out), 4);
    assert_eq!(out, [0.0; 4]);
}

#[test]
fn successive_fills_hand_out_the_batches_in_order() {
    let mut adapter: FixedOutputAdapter<u32, 4> = FixedOutputAdapter::new(0);
    let mut source = Counter {
        next: 0,
        batches: 0,
    };
    let mut handed = Vec::new();
    for len in [4usize, 6, 3, 1, 0, 11] {
        let mut out = vec![99u32; len];
        adapter.fill(&mut out, &mut source);
        handed.extend_from_slice(&out);
    }
    // No sample is lost and none comes twice, whatever the lengths asked
    // for.
    let expected: Vec<u32> = (0..25).collect();
    assert_eq!(handed, expected);
    // What was fetched and not handed out is at hand.
    assert_eq!(source.batches, 7);
    assert_eq!(adapter.available(), 3);
}
