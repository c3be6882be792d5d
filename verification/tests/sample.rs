use audio_engine::sample::{max_sample_value, AudioSample, ChannelFormat, ReadAudioClipError};

#[test]
fn mono_clip_has_one_channel() {
    let clip = AudioSample::new_mono(44100, &[1.0f32, 2.0, 3.0]);
    assert_eq!(clip.sample_rate(), 44100);
    assert_eq!(clip.channels(), 1);
    assert_eq!(clip.length(), 3);
    assert_eq!(clip.data(0), &[1.0, 2.0, 3.0]);
    let (left, right) = clip.stereo_data();
    assert_eq!(left, &[1.0, 2.0, 3.0]);
    assert_eq!(right, &[1.0, 2.0, 3.0]);
}

#[test]
fn stereo_clip_has_two_channels() {
    let clip = AudioSample::new_stereo(48000, &[1u8, 2], &[3u8, 4]);
    assert_eq!(clip.channels(), 2);
    assert_eq!(clip.length(), 2);
    assert_eq!(clip.data(0), &[1, 2]);
    assert_eq!(clip.data(1), &[3, 4]);
    let (left, right) = clip.stereo_data();
    assert_eq!(left, &[1, 2]);
    assert_eq!(right, &[3, 4]);
}

#[test]
fn trim_cuts_every_channel() {
    let clip = AudioSample::new_stereo(48000, &[1u8, 2, 3, 4, 5], &[6u8, 7, 8, 9, 10]);
    let part = clip.trim(1, 4);
    assert_eq!(part.sample_rate(), 48000);
    assert_eq!(part.length(), 3);
    assert_eq!(part.data(0), &[2, 3, 4]);
    assert_eq!(part.data(1), &[7, 8, 9]);
    // Bounds outside the clip are pulled in.
    let part = clip.trim(3, 100);
    assert_eq!(part.data(0), &[4, 5]);
    let part = clip.trim(4, 2);
    assert_eq!(part.length(), 0);
    let part = clip.trim(9, 12);
    assert_eq!(part.length(), 0);
    let mono = AudioSample::new_mono(8000, &[1u8, 2, 3]).trim(0, 2);
    assert_eq!(mono.channels(), 1);
    assert_eq!(mono.data(0), &[1, 2]);
}

#[test]
fn decoded_audio_becomes_a_clip() {
    let mono = match AudioSample::from_interleaved(8000, 1, 3, vec![1u8, 2, 3]) {
        Ok(clip) => clip,
        Err(_) => panic!("the audio is mono"),
    };
    assert_eq!(mono.channels(), 1);
    assert_eq!(mono.data(0), &[1, 2, 3]);
    let stereo = match AudioSample::from_interleaved(8000, 2, 3, vec![1u8, 2, 3, 4, 5, 6]) {
        Ok(clip) => clip,
        Err(_) => panic!("the audio is stereo"),
    };
    assert_eq!(stereo.channels(), 2);
    assert_eq!(stereo.length(), 3);
    assert_eq!(stereo.data(0), &[1, 3, 5]);
    assert_eq!(stereo.data(1), &[2, 4, 6]);
}

#[test]
fn decoded_audio_of_a_wrong_size_is_refused() {
    assert!(matches!(
        AudioSample::from_interleaved(8000, 2, 3, vec![1u8, 2, 3, 4, 5]),
        Err(ReadAudioClipError::UnexpectedError)
    ));
    assert!(matches!(
        AudioSample::from_interleaved(8000, 2, usize::MAX, vec![1u8, 2]),
        Err(ReadAudioClipError::UnexpectedError)
    ));
}

#[test]
fn decoded_audio_of_many_channels_is_refused() {
    assert!(matches!(
        AudioSample::from_interleaved(8000, 3, 1, vec![1u8, 2, 3]),
        Err(ReadAudioClipError::BadFormat("Unsupported number of channels"))
    ));
    assert!(matches!(
        AudioSample::from_interleaved(8000, 0, 5, Vec::<u8>::new()),
        Err(ReadAudioClipError::BadFormat("Unsupported number of channels"))
    ));
}

#[test]
fn full_scale_by_width() {
    assert!(matches!(max_sample_value(8), Ok(0x7f)));
    assert!(matches!(max_sample_value(16), Ok(0x7fff)));
    assert!(matches!(max_sample_value(24), Ok(0x7f_ffff)));
    assert!(matches!(max_sample_value(32), Ok(0x7fff_ffff)));
    assert!(matches!(
        max_sample_value(12),
        Err(ReadAudioClipError::UnexpectedError)
    ));
    assert!(matches!(
        max_sample_value(0),
        Err(ReadAudioClipError::UnexpectedError)
    ));
}

#[test]
fn looping_clip_follows_itself() {
    let clip = AudioSample::new_stereo(8000, &[1u8, 2, 3], &[4u8, 5, 6]);
    let mut left = [0u8; 8];
    let mut right = [0u8; 8];
    clip.fill_buffers(1, &mut left, &mut right, false, 0);
    assert_eq!(left, [2, 3, 1, 2, 3, 1, 2, 3]);
    assert_eq!(right, [5, 6, 4, 5, 6, 4, 5, 6]);
    clip.fill_buffers(3, &mut left, &mut right, false, 0);
    assert_eq!(left, [1, 2, 3, 1, 2, 3, 1, 2]);
}

#[test]
fn clip_played_once_is_followed_by_silence() {
    let clip = AudioSample::new_mono(8000, &[1u8, 2, 3]);
    let mut left = [9u8; 5];
    let mut right = [9u8; 5];
    clip.fill_buffers(1, &mut left, &mut right, true, 0);
    assert_eq!(left, [2, 3, 0, 0, 0]);
    assert_eq!(right, [2, 3, 0, 0, 0]);
    clip.fill_buffers(3, &mut left, &mut right, true, 7);
    assert_eq!(left, [7; 5]);
    let empty = AudioSample::new_mono(8000, &[] as &[u8]);
    empty.fill_buffers(0, &mut left, &mut right, true, 0);
    assert_eq!(right, [0; 5]);
}

#[test]
fn channel_formats_compare() {
    assert_eq!(ChannelFormat::Mono, ChannelFormat::Mono);
    assert_ne!(ChannelFormat::Mono, ChannelFormat::Stereo);
}
