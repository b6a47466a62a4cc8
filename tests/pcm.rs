use nayru::pcm::bytes_to_i16;

#[test]
fn bytes_to_i16_basic() {
    let bytes = [0x01, 0x00, 0xFF, 0x7F];
    let (samples, lo) = bytes_to_i16(&bytes, None);
    assert_eq!(samples, vec![1, 32767]);
    assert_eq!(lo, None);
}

#[test]
fn bytes_to_i16_with_leftover() {
    let bytes = [0x01, 0x00, 0xFF];
    let (samples, lo) = bytes_to_i16(&bytes, None);
    assert_eq!(samples, vec![1]);
    assert_eq!(lo, Some(0xFF));
}

#[test]
fn bytes_to_i16_carry_leftover() {
    let bytes = [0x7F, 0x01, 0x00];
    let (samples, lo) = bytes_to_i16(&bytes, Some(0xFF));
    assert_eq!(samples, vec![32767, 1]);
    assert_eq!(lo, None);
}

#[test]
fn bytes_to_i16_empty() {
    let (samples, lo) = bytes_to_i16(&[], None);
    assert!(samples.is_empty());
    assert_eq!(lo, None);
}

#[test]
fn bytes_to_i16_single_byte() {
    let (samples, lo) = bytes_to_i16(&[0x42], None);
    assert!(samples.is_empty());
    assert_eq!(lo, Some(0x42));
}

#[test]
fn bytes_to_i16_negative_samples() {
    let (samples, lo) = bytes_to_i16(&[0x00, 0x80, 0xFF, 0xFF, 0x07], None);
    assert_eq!(samples, vec![-32768, -1]);
    assert_eq!(lo, Some(0x07));
}
