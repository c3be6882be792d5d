use audio_engine::buffer::StereoChannel;
use audio_engine::convert::{
    copy_samples, interleave_stereo, mono_to_leftright, resize_samples, uninterleave_stereo,
};

#[test]
fn both_channels_left_first() {
    assert_eq!(
        StereoChannel::both(),
        [StereoChannel::Left, StereoChannel::Right]
    );
    assert_eq!(StereoChannel::Left.index(), 0);
    assert_eq!(StereoChannel::Right.index(), 1);
}

#[test]
fn interleave_and_back() {
    let left = [1.0f32, 2.0, 3.0];
    let right = [-1.0f32, -2.0, -3.0];
    let mut frames = [9.0f32; 7];
    interleave_stereo(&left, &right, &mut frames);
    assert_eq!(frames, [1.0, -1.0, 2.0, -2.0, 3.0, -3.0, 9.0]);
    let mut l = [0.0f32; 4];
    let mut r = [0.0f32; 4];
    uninterleave_stereo(&frames, &mut l, &mut r);
    assert_eq!(l, [1.0, 2.0, 3.0, 0.0]);
    assert_eq!(r, [-1.0, -2.0, -3.0, 0.0]);
}

#[test]
fn interleave_stops_at_the_shorter_channel() {
    let mut frames = [0u8; 4];
    interleave_stereo(&[1, 2, 3], &[4, 5], &mut frames);
    assert_eq!(frames, [1, 4, 2, 5]);
}

#[test]
fn mono_goes_to_both_channels() {
    let mut l = [0u8; 3];
    let mut r = [0u8; 3];
    mono_to_leftright(&[7, 8, 9], &mut l, &mut r);
    assert_eq!(l, [7, 8, 9]);
    assert_eq!(r, [7, 8, 9]);
}

#[test]
fn copy_samples_copies() {
    let mut buffer = [0.5f32; 3];
    copy_samples(&mut buffer, &[1.0, 2.0, 3.0]);
    assert_eq!(buffer, [1.0, 2.0, 3.0]);
}

#[test]
fn resize_samples_cuts_or_fills() {
    let mut samples = vec![1u8, 2, 3];
    resize_samples(&mut samples, 5, 9);
    assert_eq!(samples, vec![1, 2, 3, 9, 9]);
    resize_samples(&mut samples, 2, 7);
    assert_eq!(samples, vec![1, 2]);
    resize_samples(&mut samples, 2, 7);
    assert_eq!(samples, vec![1, 2]);
    resize_samples(&mut samples, 0, 7);
    assert!(samples.is_empty());
}
