use audio_engine::account::Account;
use audio_engine::delay_line::{BatchPlan, DelayLine, Glide, GlideCall, Steady, OUTPUT_SIZE};

/// Plays back at the speed of recording: every batch is the oldest samples
/// held, as they are.
struct Unity;

impl Glide<f32> for Unity {
    // The account is for proofs; nothing calls it.
    fn calls(&self) -> Account<GlideCall<f32>> {
        unreachable!()
    }

    fn set_sample_rate(&mut self, _sample_rate: u32) {}

    fn reset(&mut self) -> usize {
        0
    }

    fn plan(&mut self, _delay: usize, _target: usize, batch: usize) -> BatchPlan {
        BatchPlan {
            seek: None,
            input_size: batch,
        }
    }

    fn render(
        &mut self,
        input: &[f32],
        output: &mut [f32; OUTPUT_SIZE],
        _silence: f32,
    ) -> usize {
        output.copy_from_slice(&input[..OUTPUT_SIZE]);
        OUTPUT_SIZE
    }
}

const OMEGA: f32 = 8.0;
const EPSILON: f32 = 0.01;
const WINDOW: usize = 1;

/// Glides to the delay aimed at like a critically damped spring, and makes
/// the samples in between by cubic interpolation.
struct CubicGlide {
    position: f32,
    warp: f32,
    ratio: f32,
    sample_rate: f32,
}

impl CubicGlide {
    fn new() -> Self {
        CubicGlide {
            position: WINDOW as f32,
            warp: 0.0,
            ratio: 1.0,
            sample_rate: 0.0,
        }
    }
}

fn interpolate(t: f32, samples: &[f32]) -> f32 {
    let a0 = samples[1];
    let a1 = -(1.0 / 3.0) * samples[0] - 0.5 * samples[1] + samples[2] - (1.0 / 6.0) * samples[3];
    let a2 = 0.5 * (samples[0] + samples[2]) - samples[1];
    let a3 = 0.5 * (samples[1] - samples[2]) + (1.0 / 6.0) * (samples[3] - samples[0]);
    a0 + t * (a1 + t * (a2 + t * a3))
}

impl Glide<f32> for CubicGlide {
    // The account is for proofs; nothing calls it.
    fn calls(&self) -> Account<GlideCall<f32>> {
        unreachable!()
    }

    fn set_sample_rate(&mut self, sample_rate: u32) {
        self.sample_rate = sample_rate as f32;
    }

    fn reset(&mut self) -> usize {
        self.position = WINDOW as f32;
        WINDOW
    }

    fn plan(&mut self, delay: usize, target: usize, batch: usize) -> BatchPlan {
        let current = delay as f32 - self.position;
        let error = current - target as f32;
        let mut seek = None;
        if error.abs() < EPSILON {
            self.warp = 0.0;
            self.position = WINDOW as f32;
            seek = Some(target + WINDOW);
        } else {
            let acceleration = OMEGA * OMEGA * error - 2.0 * OMEGA * self.warp;
            self.warp += acceleration * (batch as f32 / self.sample_rate);
        }
        self.ratio = (self.warp / self.sample_rate + 1.0).max(0.0);
        let end = self.position + self.ratio * batch as f32;
        BatchPlan {
            seek,
            input_size: end.floor() as usize + 2 + WINDOW,
        }
    }

    fn render(
        &mut self,
        input: &[f32],
        output: &mut [f32; OUTPUT_SIZE],
        _silence: f32,
    ) -> usize {
        let count = output.len();
        if self.position.fract() == 0.0 && self.ratio == 1.0 {
            let start = self.position as usize;
            output.copy_from_slice(&input[start..start + count]);
            let offset = count + start - WINDOW;
            self.position = WINDOW as f32;
            return offset;
        }
        let start = self.position;
        let end = start + self.ratio * count as f32;
        for (i, sample) in output.iter_mut().enumerate() {
            let x = start + self.ratio * i as f32;
            let idx = x.floor() as usize - WINDOW;
            *sample = interpolate(x.fract(), &input[idx..]);
        }
        let offset = end.floor() - WINDOW as f32;
        self.position = end - offset;
        offset as usize
    }
}

#[test]
fn read_before_any_write_is_silence() {
    let mut line = DelayLine::new(0.0f32, CubicGlide::new());
    line.set_sample_rate(48000, 48000);
    let mut out = [1.0f32; 100];
    line.read(&mut out);
    assert!(out.iter().all(|sample| *sample == 0.0));
    // Also after a jump into the history that was never written.
    line.seek(4800);
    let mut out = [1.0f32; 100];
    line.read(&mut out);
    assert!(out.iter().all(|sample| *sample == 0.0));
}

#[test]
fn line_without_history_plays_silence() {
    let mut line = DelayLine::new(0.0f32, Unity);
    assert_eq!(line.delay(), 0);
    line.write(&[1.0, 2.0, 3.0]);
    assert_eq!(line.delay(), 0);
    let mut out = [1.0f32; 40];
    line.read(&mut out);
    assert_eq!(out, [0.0; 40]);
}

#[test]
fn underrun_plays_silence_and_keeps_the_history() {
    let mut line = DelayLine::new(0.0f32, Unity);
    line.set_sample_rate(48000, 64);
    let few: Vec<f32> = (1..=20).map(|i| i as f32).collect();
    line.write(&few);
    assert_eq!(line.delay(), 20);
    // A batch needs 32 samples; 20 are held.
    let mut out = [9.0f32; 32];
    line.read(&mut out);
    assert_eq!(out, [0.0; 32]);
    assert_eq!(line.delay(), 20);
    let more: Vec<f32> = (21..=40).map(|i| i as f32).collect();
    line.write(&more);
    line.read(&mut out);
    let expected: Vec<f32> = (1..=32).map(|i| i as f32).collect();
    assert_eq!(&out[..], &expected[..]);
    assert_eq!(line.delay(), 8);
}

#[test]
fn read_planned_tells_whether_it_played() {
    let mut line = DelayLine::new(-1.0f32, Unity);
    line.set_sample_rate(48000, 128);
    let samples: Vec<f32> = (0..100).map(|i| i as f32).collect();
    line.write(&samples);
    let mut batch = [0.0f32; OUTPUT_SIZE];
    let played = line.read_planned(
        BatchPlan {
            seek: Some(10),
            input_size: 32,
        },
        &mut batch,
    );
    assert!(!played);
    assert_eq!(batch, [-1.0; OUTPUT_SIZE]);
    assert_eq!(line.delay(), 10);
    let played = line.read_planned(
        BatchPlan {
            seek: Some(50),
            input_size: 32,
        },
        &mut batch,
    );
    assert!(played);
    let expected: Vec<f32> = (50..82).map(|i| i as f32).collect();
    assert_eq!(&batch[..], &expected[..]);
    assert_eq!(line.delay(), 18);
}

#[test]
fn reads_of_any_length_go_through_whole_batches() {
    let mut line = DelayLine::new(0.0f32, Unity);
    line.set_sample_rate(48000, 256);
    let samples: Vec<f32> = (0..200).map(|i| i as f32).collect();
    line.write(&samples);
    let mut first = [0.0f32; 5];
    line.read(&mut first);
    assert_eq!(first, [0.0, 1.0, 2.0, 3.0, 4.0]);
    // A whole batch was taken from the history.
    assert_eq!(line.delay(), 200 - 32);
    let mut second = [0.0f32; 40];
    line.read(&mut second);
    let expected: Vec<f32> = (5..45).map(|i| i as f32).collect();
    assert_eq!(&second[..], &expected[..]);
    assert_eq!(line.delay(), 200 - 64);
}

#[test]
fn target_delay_is_kept() {
    let mut line = DelayLine::new(0.0f32, Unity);
    line.set_target_delay(77);
    assert_eq!(line.target_delay(), 77);
    line.set_sample_rate(48000, 100);
    assert_eq!(line.delay(), 77);
    line.set_sample_rate(48000, 50);
    assert_eq!(line.delay(), 27);
    line.seek(12);
    assert_eq!(line.target_delay(), 12);
    assert_eq!(line.delay(), 12);
    line.seek_with_window(5, 2);
    assert_eq!(line.target_delay(), 5);
    assert_eq!(line.delay(), 7);
}

#[test]
fn steady_line_delays_by_the_target_exactly() {
    let mut line = DelayLine::new(0.0f32, CubicGlide::new());
    line.set_sample_rate(48000, 4096);
    line.seek_with_window(100, WINDOW);
    let mut played = Vec::new();
    for block in 0..20 {
        let mut out = [0.0f32; 32];
        line.read(&mut out);
        played.extend_from_slice(&out);
        let input: Vec<f32> = (0..32).map(|i| (block * 32 + i + 1) as f32).collect();
        line.write(&input);
    }
    for (n, sample) in played.iter().enumerate() {
        let expected = if n < 100 { 0.0 } else { (n - 100 + 1) as f32 };
        assert_eq!(*sample, expected);
    }
}

#[test]
fn delay_glides_to_the_target_without_overshoot() {
    let mut line = DelayLine::new(0.0f32, CubicGlide::new());
    line.set_sample_rate(48000, 48000);
    line.seek(4800);
    let target = 9600;
    line.set_target_delay(target);
    let mut longest = 0;
    let mut last = 0.0f32;
    let mut written = 0usize;
    for _ in 0..6000 {
        longest = longest.max(line.delay());
        let mut out = [0.0f32; 32];
        line.read(&mut out);
        // The input is a ramp, so the output rises from sample to sample,
        // and never faster than the input at its highest speed.
        for sample in out {
            assert!(sample >= last - 1.0e-3);
            assert!(sample <= last + 2.0e-3);
            last = sample;
        }
        let input: Vec<f32> = (0..32).map(|i| (written + i) as f32 * 1.0e-3).collect();
        written += 32;
        line.write(&input);
    }
    // The delay is counted up to the place of the next sample, which lies
    // one window in front of the delay heard.
    let reached = line.delay();
    assert!(reached >= target && reached <= target + 2);
    assert!(longest <= target + 4);
}

#[test]
fn delay_glides_down_to_the_target() {
    let mut line = DelayLine::new(0.0f32, CubicGlide::new());
    line.set_sample_rate(48000, 48000);
    line.seek(9600);
    let target = 2400;
    line.set_target_delay(target);
    let mut shortest = usize::MAX;
    for block in 0..6000 {
        shortest = shortest.min(line.delay());
        let mut out = [0.0f32; 32];
        line.read(&mut out);
        let input = [block as f32; 32];
        line.write(&input);
    }
    let reached = line.delay();
    assert!(reached >= target && reached <= target + 2);
    assert!(shortest + 2 >= target);
}

#[test]
fn seek_puts_the_read_cursor_exactly_that_far_behind() {
    let mut line = DelayLine::new(0.0f32, CubicGlide::new());
    line.set_sample_rate(48000, 4096);
    line.seek(100);
    assert_eq!(line.delay(), 100);
    assert_eq!(line.target_delay(), 100);
    line.write(&[1.0; 10]);
    assert_eq!(line.delay(), 110);
    line.seek(0);
    assert_eq!(line.delay(), 0);
    // A jump over more than the history comes round.
    line.seek(4096 + 5);
    assert_eq!(line.delay(), 5);
}

#[test]
fn line_without_glide_plays_the_history_sample_for_sample() {
    let mut line = DelayLine::new(0.0f32, Steady::new());
    line.set_sample_rate(48000, 4096);
    line.seek(100);
    let mut played = Vec::new();
    for block in 0..20 {
        let mut out = [9.0f32; 32];
        line.read(&mut out);
        played.extend_from_slice(&out);
        let input: Vec<f32> = (0..32).map(|i| (block * 32 + i + 1) as f32).collect();
        line.write(&input);
    }
    for (n, sample) in played.iter().enumerate() {
        let expected = if n < 100 { 0.0 } else { (n - 100 + 1) as f32 };
        assert_eq!(*sample, expected);
    }
    assert_eq!(line.delay(), 100);
}

#[test]
fn line_without_glide_is_silent_where_the_history_is_short() {
    let mut line = DelayLine::new(0.0f32, Steady::new());
    line.set_sample_rate(48000, 64);
    line.write(&[5.0; 31]);
    let mut out = [9.0f32; 32];
    line.read(&mut out);
    assert_eq!(out, [0.0f32; 32]);
    assert_eq!(line.delay(), 31);
    line.write(&[6.0; 1]);
    line.read(&mut out);
    let mut expected = [5.0f32; 32];
    expected[31] = 6.0;
    assert_eq!(out, expected);
    assert_eq!(line.delay(), 0);
}

#[test]
fn reads_of_odd_lengths_hand_out_the_batches_in_order() {
    let mut line = DelayLine::new(0.0f32, Steady::new());
    line.set_sample_rate(48000, 1024);
    let input: Vec<f32> = (0..256).map(|i| i as f32).collect();
    line.write(&input);
    let mut played = Vec::new();
    for len in [5usize, 40, 1, 0, 64, 18] {
        let mut out = vec![-1.0f32; len];
        line.read(&mut out);
        played.extend_from_slice(&out);
    }
    let expected: Vec<f32> = (0..128).map(|i| i as f32).collect();
    assert_eq!(played, expected);
    // Four batches were played back; all of them were handed out.
    assert_eq!(line.delay(), 128);
}
