//! WAV framing: a fixed 16-bit mono header on write, a tolerant chunk scan on
//! read, and size patching for streamed files whose sizes were left unknown.
use vstd::prelude::*;
use vstd::string::StringExecFns;

use crate::text_prep::same_text;

verus! {

/// Default sample rate for speech capture (16 kHz mono).
pub const SAMPLE_RATE: u32 = 16000;

/// The chunk size that a streaming encoder writes when the length is unknown.
pub const SIZE_SENTINEL: u32 = 0xFFFF_FFFF;

/// Format fields of a WAV stream, and where its PCM payload begins.
#[derive(Debug, Clone, PartialEq, Eq)]
pub struct WavHeader {
    pub channels: u16,
    pub sample_rate: u32,
    pub bits_per_sample: u16,
    /// Byte offset in the buffer where raw PCM data begins.
    pub data_offset: usize,
}

/// Whether `model` names one of the speech-to-text models.
pub open spec fn is_stt_model(model: Seq<char>) -> bool {
    model == "tiny"@ || model == "base"@ || model == "small"@ || model == "medium"@ || model
        == "large"@
}

/// The message for an unknown model name.
pub open spec fn invalid_model_message(model: Seq<char>) -> Seq<char> {
    "invalid STT model '"@ + model + "'; valid models: tiny, base, small, medium, large"@
}

/// Check a speech-to-text model name.
pub fn validate_stt_model(model: &str) -> (r: Result<(), String>)
    ensures
        r is Ok <==> is_stt_model(model@),
        r matches Err(e) ==> e@ == invalid_model_message(model@),
{
    if same_text(model, "tiny") || same_text(model, "base") || same_text(model, "small")
        || same_text(model, "medium") || same_text(model, "large") {
        Ok(())
    } else {
        let mut msg = String::from_str("invalid STT model '");
        msg.append(model);
        msg.append("'; valid models: tiny, base, small, medium, large");
        Err(msg)
    }
}

// ---------------------------------------------------------------------------
// Byte-level model
// ---------------------------------------------------------------------------

/// Little-endian bytes of a 16-bit value.
pub open spec fn le16_bytes(v: u16) -> Seq<u8> {
    seq![(v % 256) as u8, (v / 256) as u8]
}

/// Little-endian bytes of a 32-bit value.
pub open spec fn le32_bytes(v: u32) -> Seq<u8> {
    seq![(v % 256) as u8, (v / 256 % 256) as u8, (v / 65536 % 256) as u8, (v / 16777216) as u8]
}

/// The 16-bit little-endian value stored at `pos`.
pub open spec fn le16_at(b: Seq<u8>, pos: int) -> u16 {
    (b[pos] + b[pos + 1] * 256) as u16
}

/// The 32-bit little-endian value stored at `pos`.
pub open spec fn le32_at(b: Seq<u8>, pos: int) -> u32 {
    (b[pos] + b[pos + 1] * 256 + b[pos + 2] * 65536 + b[pos + 3] * 16777216) as u32
}

pub open spec fn tag_riff() -> Seq<u8> {
    seq![0x52u8, 0x49, 0x46, 0x46]
}

pub open spec fn tag_wave() -> Seq<u8> {
    seq![0x57u8, 0x41, 0x56, 0x45]
}

pub open spec fn tag_fmt() -> Seq<u8> {
    seq![0x66u8, 0x6d, 0x74, 0x20]
}

pub open spec fn tag_data() -> Seq<u8> {
    seq![0x64u8, 0x61, 0x74, 0x61]
}

/// The four bytes at `pos` spell `tag`.
pub open spec fn has_tag(b: Seq<u8>, pos: int, tag: Seq<u8>) -> bool {
    0 <= pos && pos + 4 <= b.len() && b.subrange(pos, pos + 4) == tag
}

/// Samples as consecutive little-endian 16-bit words.
pub open spec fn pcm_bytes(samples: Seq<i16>) -> Seq<u8>
    decreases samples.len(),
{
    if samples.len() == 0 {
        seq![]
    } else {
        pcm_bytes(samples.drop_last()) + le16_bytes(samples.last() as u16)
    }
}

/// The canonical 44-byte header of a 16-bit mono PCM file holding `n` samples.
pub open spec fn wav_header_bytes(n: nat, rate: u32) -> Seq<u8> {
    tag_riff() + le32_bytes((36 + 2 * n) as u32) + tag_wave()
        + tag_fmt() + le32_bytes(16) + le16_bytes(1) + le16_bytes(1)
        + le32_bytes(rate) + le32_bytes(((2 * rate) % 0x1_0000_0000) as u32)
        + le16_bytes(2) + le16_bytes(16)
        + tag_data() + le32_bytes((2 * n) as u32)
}

/// A complete 16-bit mono PCM file.
pub open spec fn wav_file(samples: Seq<i16>, rate: u32) -> Seq<u8> {
    wav_header_bytes(samples.len(), rate) + pcm_bytes(samples)
}

/// The files whose sizes fit the 32-bit fields of the header.
pub open spec fn wav_fits(n: nat) -> bool {
    36 + 2 * n <= 0xFFFF_FFFF
}

/// How far the `fmt ` chunk's declared size moves the scan.
pub open spec fn skip_fmt(size: u32) -> int {
    if size == 0xFFFF_FFFF { 16 } else { size as int }
}

/// The result of scanning chunks from `pos`, with the format fields seen so far.
pub open spec fn scan_header(b: Seq<u8>, pos: int, fmt: Option<(u16, u32, u16)>) -> Result<WavHeader, &'static str>
    decreases b.len() - pos,
{
    if pos < 12 || pos + 8 > b.len() {
        Err("data chunk not found")
    } else if has_tag(b, pos, tag_fmt()) {
        if pos + 24 > b.len() {
            Err("fmt chunk truncated")
        } else if le16_at(b, pos + 8) != 1 {
            Err("not PCM format")
        } else {
            let next = pos + 8 + skip_fmt(le32_at(b, pos + 4));
            if next > b.len() {
                Err("data chunk not found")
            } else {
                scan_header(
                    b,
                    next,
                    Some((le16_at(b, pos + 10), le32_at(b, pos + 12), le16_at(b, pos + 22))),
                )
            }
        }
    } else if has_tag(b, pos, tag_data()) {
        match fmt {
            None => Err("data chunk before fmt chunk"),
            Some(f) => Ok(WavHeader {
                channels: f.0,
                sample_rate: f.1,
                bits_per_sample: f.2,
                data_offset: (pos + 8) as usize,
            }),
        }
    } else if le32_at(b, pos + 4) == 0xFFFF_FFFF {
        Err("data chunk not found")
    } else {
        let next = pos + 8 + le32_at(b, pos + 4);
        if next > b.len() {
            Err("data chunk not found")
        } else {
            scan_header(b, next, fmt)
        }
    }
}

/// What a header parse yields for the buffer `b`.
pub open spec fn parse_header_spec(b: Seq<u8>) -> Result<WavHeader, &'static str> {
    if b.len() < 12 {
        Err("too short for RIFF header")
    } else if !has_tag(b, 0, tag_riff()) {
        Err("missing RIFF tag")
    } else if !has_tag(b, 8, tag_wave()) {
        Err("missing WAVE tag")
    } else {
        scan_header(b, 12, None)
    }
}

/// Position of the first `data` chunk header found by walking chunks from
/// `pos`, as `scan_header` walks them: a `fmt ` chunk of unknown size is taken
/// to hold the standard 16 bytes, and the walk stops at any other chunk of
/// unknown size.
pub open spec fn find_data(b: Seq<u8>, pos: int) -> Option<int>
    decreases b.len() - pos,
{
    if pos < 12 || pos + 8 > b.len() {
        None
    } else if has_tag(b, pos, tag_data()) {
        Some(pos)
    } else if has_tag(b, pos, tag_fmt()) {
        let next = pos + 8 + skip_fmt(le32_at(b, pos + 4));
        if next > b.len() {
            None
        } else {
            find_data(b, next)
        }
    } else if le32_at(b, pos + 4) == 0xFFFF_FFFF {
        None
    } else {
        let next = pos + 8 + le32_at(b, pos + 4);
        if next > b.len() {
            None
        } else {
            find_data(b, next)
        }
    }
}

/// `b` with the four bytes at `pos` replaced by `v` in little-endian order.
pub open spec fn put_le32(b: Seq<u8>, pos: int, v: u32) -> Seq<u8> {
    b.subrange(0, pos) + le32_bytes(v) + b.subrange(pos + 4, b.len() as int)
}

/// The buffer after its RIFF size and its `data` size are rewritten from its length.
pub open spec fn patched_sizes(b: Seq<u8>) -> Seq<u8> {
    if b.len() < 44 || !has_tag(b, 0, tag_riff()) {
        b
    } else {
        let riff = put_le32(b, 4, ((b.len() - 8) % 0x1_0000_0000) as u32);
        match find_data(b, 12) {
            None => riff,
            Some(p) => put_le32(riff, p + 4, ((b.len() - p - 8) % 0x1_0000_0000) as u32),
        }
    }
}

// ---------------------------------------------------------------------------
// Executable code
// ---------------------------------------------------------------------------

fn push_u16_le(buf: &mut Vec<u8>, v: u16)
    ensures
        final(buf)@ == old(buf)@ + le16_bytes(v),
{
    buf.push((v % 256) as u8);
    buf.push((v / 256) as u8);
    assert(final(buf)@ =~= old(buf)@ + le16_bytes(v));
}

fn push_u32_le(buf: &mut Vec<u8>, v: u32)
    ensures
        final(buf)@ == old(buf)@ + le32_bytes(v),
{
    buf.push((v % 256) as u8);
    buf.push((v / 256 % 256) as u8);
    buf.push((v / 65536 % 256) as u8);
    buf.push((v / 16777216) as u8);
    assert(final(buf)@ =~= old(buf)@ + le32_bytes(v));
}

fn push_tag(buf: &mut Vec<u8>, a: u8, b: u8, c: u8, d: u8)
    ensures
        final(buf)@ == old(buf)@ + seq![a, b, c, d],
{
    buf.push(a);
    buf.push(b);
    buf.push(c);
    buf.push(d);
    assert(final(buf)@ =~= old(buf)@ + seq![a, b, c, d]);
}

fn read_u16_le(b: &[u8], pos: usize) -> (r: u16)
    requires
        pos + 2 <= b@.len(),
    ensures
        r == le16_at(b@, pos as int),
{
    (b[pos] as u16) + (b[pos + 1] as u16) * 256
}

fn read_u32_le(b: &[u8], pos: usize) -> (r: u32)
    requires
        pos + 4 <= b@.len(),
    ensures
        r == le32_at(b@, pos as int),
{
    (b[pos] as u32) + (b[pos + 1] as u32) * 256 + (b[pos + 2] as u32) * 65536
        + (b[pos + 3] as u32) * 16777216
}

fn tag_at(b: &[u8], pos: usize, t0: u8, t1: u8, t2: u8, t3: u8) -> (r: bool)
    requires
        pos + 4 <= b@.len(),
    ensures
        r == (b@.subrange(pos as int, pos + 4) == seq![t0, t1, t2, t3]),
{
    let r = b[pos] == t0 && b[pos + 1] == t1 && b[pos + 2] == t2 && b[pos + 3] == t3;
    proof {
        if r {
            assert(b@.subrange(pos as int, pos + 4) =~= seq![t0, t1, t2, t3]);
        } else {
            if b@.subrange(pos as int, pos + 4) == seq![t0, t1, t2, t3] {
                assert(b@.subrange(pos as int, pos + 4)[0] == t0);
                assert(b@.subrange(pos as int, pos + 4)[1] == t1);
                assert(b@.subrange(pos as int, pos + 4)[2] == t2);
                assert(b@.subrange(pos as int, pos + 4)[3] == t3);
            }
        }
    }
    r
}

fn write_u32_le(buf: &mut Vec<u8>, pos: usize, v: u32)
    requires
        pos + 4 <= old(buf)@.len(),
    ensures
        final(buf)@ == put_le32(old(buf)@, pos as int, v),
{
    let n = buf.len();
    assert(pos + 3 < n);
    buf.set(pos, (v % 256) as u8);
    buf.set(pos + 1, (v / 256 % 256) as u8);
    buf.set(pos + 2, (v / 65536 % 256) as u8);
    buf.set(pos + 3, (v / 16777216) as u8);
    assert(final(buf)@ =~= put_le32(old(buf)@, pos as int, v));
}

/// Write a minimal WAV file (16-bit mono PCM) from raw samples.
pub fn write_wav(samples: &[i16], sample_rate: u32) -> (r: Vec<u8>)
    requires
        wav_fits(samples@.len()),
    ensures
        r@ == wav_file(samples@, sample_rate),
{
    let data_len: u32 = (samples.len() * 2) as u32;
    let file_len: u32 = 36 + data_len;
    let mut buf: Vec<u8> = Vec::new();

    push_tag(&mut buf, 0x52, 0x49, 0x46, 0x46);
    push_u32_le(&mut buf, file_len);
    push_tag(&mut buf, 0x57, 0x41, 0x56, 0x45);

    push_tag(&mut buf, 0x66, 0x6d, 0x74, 0x20);
    push_u32_le(&mut buf, 16);
    push_u16_le(&mut buf, 1);
    push_u16_le(&mut buf, 1);
    push_u32_le(&mut buf, sample_rate);
    push_u32_le(&mut buf, ((sample_rate as u64 * 2) % 0x1_0000_0000) as u32);
    push_u16_le(&mut buf, 2);
    push_u16_le(&mut buf, 16);

    push_tag(&mut buf, 0x64, 0x61, 0x74, 0x61);
    push_u32_le(&mut buf, data_len);
    assert(buf@ =~= wav_header_bytes(samples@.len(), sample_rate));

    let ghost head = buf@;
    let mut i: usize = 0;
    while i < samples.len()
        invariant
            i <= samples@.len(),
            head == wav_header_bytes(samples@.len(), sample_rate),
            buf@ == head + pcm_bytes(samples@.subrange(0, i as int)),
        decreases samples@.len() - i,
    {
        push_u16_le(&mut buf, samples[i] as u16);
        proof {
            let s = samples@.subrange(0, i + 1);
            assert(s.drop_last() =~= samples@.subrange(0, i as int));
            assert(s.last() == samples@[i as int]);
        }
        i += 1;
    }
    assert(samples@.subrange(0, samples@.len() as int) =~= samples@);
    buf
}

/// Parse a WAV header from a byte buffer.
///
/// Returns the audio format parameters and the byte offset where PCM data
/// starts. A chunk size of `0xFFFFFFFF` is what a streaming encoder writes when
/// the length is unknown: for `fmt ` the standard 16-byte payload is skipped,
/// for a `data` chunk the size is not needed, and at any other chunk the scan
/// stops, since where that chunk ends cannot be known.
pub fn parse_wav_header(buf: &[u8]) -> (r: Result<WavHeader, &'static str>)
    ensures
        r == parse_header_spec(buf@),
{
    if buf.len() < 12 {
        return Err("too short for RIFF header");
    }
    if !tag_at(buf, 0, 0x52, 0x49, 0x46, 0x46) {
        return Err("missing RIFF tag");
    }
    if !tag_at(buf, 8, 0x57, 0x41, 0x56, 0x45) {
        return Err("missing WAVE tag");
    }

    let mut pos: usize = 12;
    let mut fmt: Option<(u16, u32, u16)> = None;

    while buf.len() - pos >= 8
        invariant
            12 <= pos <= buf@.len(),
            parse_header_spec(buf@) == scan_header(buf@, pos as int, fmt),
        decreases buf@.len() - pos,
    {
        let chunk_size = read_u32_le(buf, pos + 4);

        if tag_at(buf, pos, 0x66, 0x6d, 0x74, 0x20) {
            if buf.len() - pos < 24 {
                return Err("fmt chunk truncated");
            }
            let audio_format = read_u16_le(buf, pos + 8);
            if audio_format != 1 {
                return Err("not PCM format");
            }
            let channels = read_u16_le(buf, pos + 10);
            let sample_rate = read_u32_le(buf, pos + 12);
            let bits_per_sample = read_u16_le(buf, pos + 22);
            fmt = Some((channels, sample_rate, bits_per_sample));

            let skip: usize = if chunk_size == SIZE_SENTINEL { 16 } else { chunk_size as usize };
            if skip > buf.len() - pos - 8 {
                    return Err("data chunk not found");
            }
            pos = pos + 8 + skip;
            continue;
        }

        if tag_at(buf, pos, 0x64, 0x61, 0x74, 0x61) {
            return match fmt {
                None => Err("data chunk before fmt chunk"),
                Some(f) => Ok(WavHeader {
                    channels: f.0,
                    sample_rate: f.1,
                    bits_per_sample: f.2,
                    data_offset: pos + 8,
                }),
            };
        }

        if chunk_size == SIZE_SENTINEL {
            return Err("data chunk not found");
        }
        let skip: usize = chunk_size as usize;
        if skip > buf.len() - pos - 8 {
            return Err("data chunk not found");
        }
        pos = pos + 8 + skip;
    }
    assert(scan_header(buf@, pos as int, fmt) == Err::<WavHeader, &'static str>("data chunk not found"));
    Err("data chunk not found")
}

/// Walk the chunk headers from offset 12 to the first `data` chunk.
fn locate_data_chunk(b: &[u8]) -> (r: Option<usize>)
    ensures
        r is None <==> find_data(b@, 12) is None,
        r matches Some(p) ==> find_data(b@, 12) == Some(p as int) && 12 <= p && p + 8 <= b@.len(),
{
    if b.len() < 12 {
        return None;
    }
    let mut pos: usize = 12;
    while b.len() - pos >= 8
        invariant
            12 <= pos <= b@.len(),
            find_data(b@, 12) == find_data(b@, pos as int),
        decreases b@.len() - pos,
    {
        if tag_at(b, pos, 0x64, 0x61, 0x74, 0x61) {
            return Some(pos);
        }
        let chunk_size = read_u32_le(b, pos + 4);
        let is_fmt = tag_at(b, pos, 0x66, 0x6d, 0x74, 0x20);
        if chunk_size == SIZE_SENTINEL && !is_fmt {
            return None;
        }
        let skip: usize = if chunk_size == SIZE_SENTINEL { 16 } else { chunk_size as usize };
        if skip > b.len() - pos - 8 {
            return None;
        }
        pos = pos + 8 + skip;
    }
    None
}

/// Fix WAV buffers with indeterminate sizes (`0xFFFFFFFF`).
///
/// The RIFF size becomes `len - 8` and the size of the first `data` chunk
/// becomes the number of bytes after its header (the walk to it stops at a
/// chunk of unknown size, as in `parse_wav_header`). Buffers shorter than a
/// canonical header, or without the RIFF tag, come back unchanged.
pub fn fix_wav_sizes(wav: Vec<u8>) -> (r: Vec<u8>)
    ensures
        r@ == patched_sizes(wav@),
{
    let mut wav = wav;
    if wav.len() < 44 {
        return wav;
    }
    if !tag_at(wav.as_slice(), 0, 0x52, 0x49, 0x46, 0x46) {
        return wav;
    }
    let data_pos = locate_data_chunk(wav.as_slice());
    let ghost orig = wav@;
    let riff_size: u32 = ((wav.len() - 8) as u64 % 0x1_0000_0000) as u32;
    write_u32_le(&mut wav, 4, riff_size);
    if let Some(pos) = data_pos {
        let data_size: u32 = ((wav.len() - pos - 8) as u64 % 0x1_0000_0000) as u32;
        write_u32_le(&mut wav, pos + 4, data_size);
        assert(find_data(orig, 12) == Some(pos as int));
    }
    wav
}

// ---------------------------------------------------------------------------
// Laws
// ---------------------------------------------------------------------------

proof fn lemma_pcm_len(samples: Seq<i16>)
    ensures
        pcm_bytes(samples).len() == 2 * samples.len(),
    decreases samples.len(),
{
    if samples.len() > 0 {
        lemma_pcm_len(samples.drop_last());
    }
}

proof fn lemma_le32_round_trip(v: u32)
    ensures
        le32_at(le32_bytes(v), 0) == v,
{
    assert((v % 256) + (v / 256 % 256) * 256 + (v / 65536 % 256) * 65536 + (v / 16777216) * 16777216 == v)
        by (bit_vector);
    assert(v / 16777216 < 256) by (bit_vector);
}

proof fn lemma_le16_round_trip(v: u16)
    ensures
        le16_at(le16_bytes(v), 0) == v,
{
    assert((v % 256) + (v / 256) * 256 == v) by (bit_vector);
    assert(v / 256 < 256) by (bit_vector);
}

/// The canonical header, byte by byte.
proof fn lemma_header_bytes(n: nat, rate: u32)
    requires
        wav_fits(n),
    ensures
        ({
            let h = wav_header_bytes(n, rate);
            &&& h.len() == 44
            &&& h.subrange(0, 4) == tag_riff()
            &&& h.subrange(4, 8) == le32_bytes((36 + 2 * n) as u32)
            &&& h.subrange(8, 12) == tag_wave()
            &&& h.subrange(12, 16) == tag_fmt()
            &&& h.subrange(16, 20) == le32_bytes(16)
            &&& h.subrange(20, 22) == le16_bytes(1)
            &&& h.subrange(22, 24) == le16_bytes(1)
            &&& h.subrange(24, 28) == le32_bytes(rate)
            &&& h.subrange(34, 36) == le16_bytes(16)
            &&& h.subrange(36, 40) == tag_data()
            &&& h.subrange(40, 44) == le32_bytes((2 * n) as u32)
        }),
{
    let h = wav_header_bytes(n, rate);
    assert(h.subrange(0, 4) =~= tag_riff());
    assert(h.subrange(4, 8) =~= le32_bytes((36 + 2 * n) as u32));
    assert(h.subrange(8, 12) =~= tag_wave());
    assert(h.subrange(12, 16) =~= tag_fmt());
    assert(h.subrange(16, 20) =~= le32_bytes(16));
    assert(h.subrange(20, 22) =~= le16_bytes(1));
    assert(h.subrange(22, 24) =~= le16_bytes(1));
    assert(h.subrange(24, 28) =~= le32_bytes(rate));
    assert(h.subrange(34, 36) =~= le16_bytes(16));
    assert(h.subrange(36, 40) =~= tag_data());
    assert(h.subrange(40, 44) =~= le32_bytes((2 * n) as u32));
}

/// Reading a field of `b` only looks at the four bytes it names.
proof fn lemma_le32_window(b: Seq<u8>, pos: int, v: u32)
    requires
        0 <= pos,
        pos + 4 <= b.len(),
        b.subrange(pos, pos + 4) == le32_bytes(v),
    ensures
        le32_at(b, pos) == v,
{
    lemma_le32_round_trip(v);
    assert(b[pos] == b.subrange(pos, pos + 4)[0]);
    assert(b[pos + 1] == b.subrange(pos, pos + 4)[1]);
    assert(b[pos + 2] == b.subrange(pos, pos + 4)[2]);
    assert(b[pos + 3] == b.subrange(pos, pos + 4)[3]);
}

proof fn lemma_le16_window(b: Seq<u8>, pos: int, v: u16)
    requires
        0 <= pos,
        pos + 2 <= b.len(),
        b.subrange(pos, pos + 2) == le16_bytes(v),
    ensures
        le16_at(b, pos) == v,
{
    lemma_le16_round_trip(v);
    assert(b[pos] == b.subrange(pos, pos + 2)[0]);
    assert(b[pos + 1] == b.subrange(pos, pos + 2)[1]);
}

/// Facts about a complete encoded file that the two laws below share.
proof fn lemma_wav_file_layout(samples: Seq<i16>, rate: u32)
    requires
        wav_fits(samples.len()),
    ensures
        ({
            let b = wav_file(samples, rate);
            &&& b.len() == 44 + 2 * samples.len()
            &&& has_tag(b, 0, tag_riff())
            &&& has_tag(b, 8, tag_wave())
            &&& has_tag(b, 12, tag_fmt())
            &&& !has_tag(b, 12, tag_data())
            &&& has_tag(b, 36, tag_data())
            &&& !has_tag(b, 36, tag_fmt())
            &&& b.subrange(4, 8) == le32_bytes((36 + 2 * samples.len()) as u32)
            &&& b.subrange(40, 44) == le32_bytes((2 * samples.len()) as u32)
            &&& le32_at(b, 16) == 16
            &&& le16_at(b, 20) == 1
            &&& le16_at(b, 22) == 1
            &&& le32_at(b, 24) == rate
            &&& le16_at(b, 34) == 16
        }),
{
    let n = samples.len();
    let h = wav_header_bytes(n, rate);
    let b = wav_file(samples, rate);
    lemma_pcm_len(samples);
    lemma_header_bytes(n, rate);
    assert forall|i: int, j: int| 0 <= i <= j <= 44 implies b.subrange(i, j) == h.subrange(i, j) by {
        assert(b.subrange(i, j) =~= h.subrange(i, j));
    }
    assert(b.subrange(12, 16)[0] != tag_data()[0]);
    assert(b.subrange(36, 40)[0] != tag_fmt()[0]);
    lemma_le32_window(b, 16, 16);
    lemma_le16_window(b, 20, 1);
    lemma_le16_window(b, 22, 1);
    lemma_le32_window(b, 24, rate);
    lemma_le16_window(b, 34, 16);
}

proof fn lemma_put_le32_same(b: Seq<u8>, pos: int, v: u32)
    requires
        0 <= pos,
        pos + 4 <= b.len(),
        b.subrange(pos, pos + 4) == le32_bytes(v),
    ensures
        put_le32(b, pos, v) == b,
{
    assert(put_le32(b, pos, v) =~= b);
}

/// Patching is the identity on a buffer whose size fields already hold its
/// true sizes, with `fmt ` at 12 and `data` at 36.
proof fn lemma_patch_canonical(b: Seq<u8>, n: nat)
    requires
        wav_fits(n),
        b.len() == 44 + 2 * n,
        has_tag(b, 0, tag_riff()),
        !has_tag(b, 12, tag_data()),
        has_tag(b, 36, tag_data()),
        le32_at(b, 16) == 16,
        b.subrange(4, 8) == le32_bytes((36 + 2 * n) as u32),
        b.subrange(40, 44) == le32_bytes((2 * n) as u32),
    ensures
        patched_sizes(b) == b,
{
    assert(find_data(b, 36) == Some(36int));
    assert(find_data(b, 12) == Some(36int));
    assert(((b.len() - 8) % 0x1_0000_0000) as u32 == (36 + 2 * n) as u32);
    assert(((b.len() - 36 - 8) % 0x1_0000_0000) as u32 == (2 * n) as u32);
    lemma_put_le32_same(b, 4, (36 + 2 * n) as u32);
    lemma_put_le32_same(b, 40, (2 * n) as u32);
}

/// Patching the sizes of a file that `write_wav` produced changes nothing.
pub proof fn lemma_patch_sizes_idempotent_on_encoded(samples: Seq<i16>, rate: u32)
    requires
        wav_fits(samples.len()),
    ensures
        patched_sizes(wav_file(samples, rate)) == wav_file(samples, rate),
{
    lemma_wav_file_layout(samples, rate);
    lemma_patch_canonical(wav_file(samples, rate), samples.len());
}

/// Parsing a file that `write_wav` produced gives back one channel, the
/// sample rate, 16 bits per sample, and the payload right after the 44-byte header.
pub proof fn lemma_parse_encoded_header(samples: Seq<i16>, rate: u32)
    requires
        wav_fits(samples.len()),
    ensures
        parse_header_spec(wav_file(samples, rate)) == Ok::<WavHeader, &'static str>(
            WavHeader { channels: 1, sample_rate: rate, bits_per_sample: 16, data_offset: 44 },
        ),
{
    let b = wav_file(samples, rate);
    lemma_wav_file_layout(samples, rate);
    assert(scan_header(b, 36, Some((1u16, rate, 16u16))) == Ok::<WavHeader, &'static str>(
        WavHeader { channels: 1, sample_rate: rate, bits_per_sample: 16, data_offset: 44 },
    ));
}

} // verus!
