use nayru::wav::{fix_wav_sizes, parse_wav_header, validate_stt_model, write_wav};

#[test]
fn write_wav_produces_valid_header() {
    let samples = vec![0i16; 100];
    let wav = write_wav(&samples, 16000);
    assert_eq!(&wav[0..4], b"RIFF");
    assert_eq!(&wav[8..12], b"WAVE");
    assert_eq!(&wav[12..16], b"fmt ");
    assert_eq!(wav.len(), 44 + 200);
}

#[test]
fn write_wav_exact_bytes() {
    let wav = write_wav(&[1, -2], 24000);
    assert_eq!(&wav[4..8], &40u32.to_le_bytes());
    assert_eq!(&wav[24..28], &24000u32.to_le_bytes());
    assert_eq!(&wav[28..32], &48000u32.to_le_bytes());
    assert_eq!(&wav[36..40], b"data");
    assert_eq!(&wav[40..44], &4u32.to_le_bytes());
    assert_eq!(&wav[44..48], &[0x01, 0x00, 0xFE, 0xFF]);
}

#[test]
fn validate_stt_model_valid() {
    assert!(validate_stt_model("tiny").is_ok());
    assert!(validate_stt_model("base").is_ok());
    assert!(validate_stt_model("large").is_ok());
}

#[test]
fn validate_stt_model_invalid() {
    assert!(validate_stt_model("huge").is_err());
    assert!(validate_stt_model("").is_err());
}

#[test]
fn validate_stt_model_message() {
    assert_eq!(
        validate_stt_model("huge"),
        Err("invalid STT model 'huge'; valid models: tiny, base, small, medium, large".to_string())
    );
}

#[test]
fn fix_wav_sizes_patches_sentinel() {
    let mut wav = write_wav(&vec![0i16; 50], 16000);
    wav[4..8].copy_from_slice(&0xFFFFFFFFu32.to_le_bytes());
    let fixed = fix_wav_sizes(wav.clone());
    let riff_size = u32::from_le_bytes([fixed[4], fixed[5], fixed[6], fixed[7]]);
    assert_eq!(riff_size, (fixed.len() - 8) as u32);
}

#[test]
fn fix_wav_sizes_noop_on_good_wav() {
    let wav = write_wav(&vec![0i16; 50], 16000);
    let fixed = fix_wav_sizes(wav.clone());
    assert_eq!(wav, fixed);
}

#[test]
fn fix_wav_sizes_patches_data_size() {
    let mut wav = write_wav(&vec![3i16; 10], 8000);
    wav[40..44].copy_from_slice(&0xFFFFFFFFu32.to_le_bytes());
    let fixed = fix_wav_sizes(wav);
    assert_eq!(&fixed[40..44], &20u32.to_le_bytes());
}

#[test]
fn fix_wav_sizes_leaves_short_buffer() {
    let short = vec![0u8; 20];
    assert_eq!(fix_wav_sizes(short.clone()), short);
}

#[test]
fn parse_wav_header_basic() {
    let wav = write_wav(&vec![0i16; 50], 24000);
    let hdr = parse_wav_header(&wav).unwrap();
    assert_eq!(hdr.channels, 1);
    assert_eq!(hdr.sample_rate, 24000);
    assert_eq!(hdr.bits_per_sample, 16);
    assert_eq!(hdr.data_offset, 44);
}

#[test]
fn parse_wav_header_sentinel_sizes() {
    let mut wav = write_wav(&vec![0i16; 50], 24000);
    wav[4..8].copy_from_slice(&0xFFFFFFFFu32.to_le_bytes());
    wav[40..44].copy_from_slice(&0xFFFFFFFFu32.to_le_bytes());
    let hdr = parse_wav_header(&wav).unwrap();
    assert_eq!(hdr.channels, 1);
    assert_eq!(hdr.sample_rate, 24000);
    assert_eq!(hdr.data_offset, 44);
}

#[test]
fn parse_wav_header_too_short() {
    assert!(parse_wav_header(b"RIFF").is_err());
}

#[test]
fn parse_wav_header_not_riff() {
    let mut wav = write_wav(&vec![0i16; 10], 16000);
    wav[0..4].copy_from_slice(b"NOPE");
    assert!(parse_wav_header(&wav).is_err());
}

#[test]
fn parse_wav_header_errors() {
    let mut wav = write_wav(&vec![0i16; 4], 16000);
    wav[8..12].copy_from_slice(b"WAVX");
    assert_eq!(parse_wav_header(&wav), Err("missing WAVE tag"));
    let mut wav = write_wav(&vec![0i16; 4], 16000);
    wav[20] = 3;
    assert_eq!(parse_wav_header(&wav), Err("not PCM format"));
    let wav = write_wav(&vec![0i16; 4], 16000);
    assert_eq!(parse_wav_header(&wav[..30]), Err("fmt chunk truncated"));
    assert_eq!(parse_wav_header(&wav[..36]), Err("data chunk not found"));
    let mut data_first = Vec::new();
    data_first.extend_from_slice(b"RIFF\0\0\0\0WAVEdata\0\0\0\0");
    assert_eq!(parse_wav_header(&data_first), Err("data chunk before fmt chunk"));
}

#[test]
fn parse_wav_header_skips_unknown_chunk() {
    let wav = write_wav(&vec![0i16; 4], 22050);
    let mut with_list = Vec::new();
    with_list.extend_from_slice(&wav[..36]);
    with_list.extend_from_slice(b"LIST");
    with_list.extend_from_slice(&4u32.to_le_bytes());
    with_list.extend_from_slice(b"abcd");
    with_list.extend_from_slice(&wav[36..]);
    let hdr = parse_wav_header(&with_list).unwrap();
    assert_eq!(hdr.sample_rate, 22050);
    assert_eq!(hdr.data_offset, 56);
}

#[test]
fn encoded_files_round_trip() {
    for (samples, rate) in [(vec![], 8000u32), (vec![5i16, -5, 32767, -32768], 24000), (vec![0; 50], 24000)] {
        let wav = write_wav(&samples, rate);
        assert_eq!(fix_wav_sizes(wav.clone()), wav);
        let hdr = parse_wav_header(&wav).unwrap();
        assert_eq!((hdr.channels, hdr.sample_rate, hdr.bits_per_sample, hdr.data_offset), (1, rate, 16, 44));
    }
}

#[test]
fn parse_wav_header_stops_at_unknown_chunk_of_unknown_size() {
    let wav = write_wav(&vec![0i16; 4], 22050);
    let mut buf = Vec::new();
    buf.extend_from_slice(&wav[..36]);
    buf.extend_from_slice(b"LIST");
    buf.extend_from_slice(&0xFFFFFFFFu32.to_le_bytes());
    buf.extend_from_slice(&wav[36..]);
    assert_eq!(parse_wav_header(&buf), Err("data chunk not found"));
    // Patching finds no data chunk either, so only the RIFF size changes.
    let fixed = fix_wav_sizes(buf.clone());
    assert_eq!(&fixed[4..8], &((buf.len() - 8) as u32).to_le_bytes());
    assert_eq!(&fixed[8..], &buf[8..]);
}

#[test]
fn fix_wav_sizes_walks_past_fmt_of_unknown_size() {
    let mut wav = write_wav(&vec![1i16; 6], 24000);
    wav[16..20].copy_from_slice(&0xFFFFFFFFu32.to_le_bytes());
    wav[40..44].copy_from_slice(&0xFFFFFFFFu32.to_le_bytes());
    let fixed = fix_wav_sizes(wav);
    assert_eq!(&fixed[40..44], &12u32.to_le_bytes());
    assert_eq!(parse_wav_header(&fixed).unwrap().data_offset, 44);
}
