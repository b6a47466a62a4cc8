//! Decoding of raw 16-bit little-endian PCM that arrives in byte chunks of
//! any size.
use vstd::prelude::*;

verus! {

/// The signed 16-bit sample whose little-endian bytes are `lo`, `hi`.
pub open spec fn sample_of(lo: u8, hi: u8) -> i16 {
    if hi < 128 {
        (lo + hi * 256) as i16
    } else {
        (lo + hi * 256 - 65536) as i16
    }
}

/// A carried odd byte, followed by the new bytes.
pub open spec fn with_leftover(bytes: Seq<u8>, leftover: Option<u8>) -> Seq<u8> {
    match leftover {
        Some(b) => seq![b] + bytes,
        None => bytes,
    }
}

/// The samples held by the complete byte pairs of `d`.
pub open spec fn samples_of(d: Seq<u8>) -> Seq<i16> {
    Seq::new(d.len() / 2, |k: int| sample_of(d[2 * k], d[2 * k + 1]))
}

/// The last byte of `d` when `d` has odd length.
pub open spec fn odd_tail(d: Seq<u8>) -> Option<u8> {
    if d.len() % 2 == 1 {
        Some(d.last())
    } else {
        None
    }
}

fn sample_from_bytes(lo: u8, hi: u8) -> (r: i16)
    ensures
        r == sample_of(lo, hi),
{
    let v: i32 = lo as i32 + (hi as i32) * 256;
    if hi < 128 {
        v as i16
    } else {
        (v - 65536) as i16
    }
}

/// Convert raw bytes to 16-bit PCM samples (little-endian), after the odd byte
/// carried from the previous chunk. Returns the samples and the new odd byte.
pub fn bytes_to_i16(bytes: &[u8], leftover: Option<u8>) -> (r: (Vec<i16>, Option<u8>))
    ensures
        r.0@ == samples_of(with_leftover(bytes@, leftover)),
        r.1 == odd_tail(with_leftover(bytes@, leftover)),
{
    let ghost d = with_leftover(bytes@, leftover);
    let mut data: Vec<u8> = Vec::new();
    match leftover {
        Some(lo) => data.push(lo),
        None => {},
    }
    let mut k: usize = 0;
    while k < bytes.len()
        invariant
            k <= bytes@.len(),
            data@ == with_leftover(bytes@.subrange(0, k as int), leftover),
        decreases bytes@.len() - k,
    {
        data.push(bytes[k]);
        proof {
            assert(with_leftover(bytes@.subrange(0, k + 1), leftover) =~= with_leftover(
                bytes@.subrange(0, k as int),
                leftover,
            ).push(bytes@[k as int]));
        }
        k += 1;
    }
    assert(bytes@.subrange(0, bytes@.len() as int) =~= bytes@);
    assert(data@ == d);

    let mut samples: Vec<i16> = Vec::new();
    let total = data.len();
    let n = total / 2;
    let mut i: usize = 0;
    while i < n
        invariant
            data@ == d,
            data@.len() <= usize::MAX,
            n == d.len() / 2,
            i <= n,
            samples@ =~= samples_of(d).subrange(0, i as int),
        decreases n - i,
    {
        samples.push(sample_from_bytes(data[2 * i], data[2 * i + 1]));
        i += 1;
    }
    assert(samples_of(d).subrange(0, n as int) =~= samples_of(d));

    let remainder = if data.len() % 2 == 1 {
        Some(data[data.len() - 1])
    } else {
        None
    };
    (samples, remainder)
}

} // verus!
