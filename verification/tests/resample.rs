use audio_engine::resample::resample_unity;

#[test]
fn unity_resampling_copies_the_input() {
    let input = [0.5f32, 1.5, 2.5, 3.5, 4.5, 5.5];
    let mut output = [0.0f32; 3];
    // The input is read from position 1 on, one sample behind its start,
    // which is the window.
    assert_eq!(resample_unity(&input, &mut output, 1, 1), 3);
    assert_eq!(output, [1.5, 2.5, 3.5]);
    assert_eq!(resample_unity(&input, &mut output, 3, 1), 5);
    assert_eq!(output, [3.5, 4.5, 5.5]);
    let mut none: [f32; 0] = [];
    assert_eq!(resample_unity(&input, &mut none, 2, 2), 0);
}
