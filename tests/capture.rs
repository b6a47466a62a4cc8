use nayru::capture::mix_to_mono;

#[test]
fn test_mix_to_mono_passthrough() {
    let input = vec![100, 200, 300];
    assert_eq!(mix_to_mono(&input, 1), vec![100, 200, 300]);
}

#[test]
fn test_mix_to_mono_stereo() {
    let input = vec![100, 200, 300, 400];
    assert_eq!(mix_to_mono(&input, 2), vec![150, 350]);
}

#[test]
fn mix_to_mono_rounds_toward_zero_and_drops_partial_frame() {
    let input = vec![-3, -4, 5, 6, 9];
    assert_eq!(mix_to_mono(&input, 2), vec![-3, 5]);
    assert_eq!(mix_to_mono(&[-32768, -32768, -32768], 3), vec![-32768]);
}
