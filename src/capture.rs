//! Sample arithmetic for captured audio.
use vstd::prelude::*;

verus! {

/// Sum of `s[lo..hi]`.
pub open spec fn sum_range(s: Seq<i16>, lo: int, hi: int) -> int
    decreases hi - lo,
{
    if hi <= lo {
        0
    } else {
        sum_range(s, lo, hi - 1) + s[hi - 1]
    }
}

/// Integer division rounding toward zero, as Rust's `/` on integers.
pub open spec fn div_toward_zero(a: int, b: int) -> int {
    if a >= 0 {
        a / b
    } else {
        -((-a) / b)
    }
}

/// Each complete frame of `ch` interleaved samples, averaged to one sample.
pub open spec fn mono_of(input: Seq<i16>, ch: int) -> Seq<i16> {
    Seq::new(
        (input.len() as int / ch) as nat,
        |k: int| div_toward_zero(sum_range(input, k * ch, k * ch + ch), ch) as i16,
    )
}

proof fn lemma_sum_bounds(s: Seq<i16>, lo: int, hi: int)
    requires
        lo <= hi,
    ensures
        -32768 * (hi - lo) <= sum_range(s, lo, hi) <= 32767 * (hi - lo),
    decreases hi - lo,
{
    if lo < hi {
        lemma_sum_bounds(s, lo, hi - 1);
    }
}

/// Mix interleaved multi-channel audio to mono by averaging each frame; an
/// incomplete last frame is dropped. Mono input is returned as it is.
pub fn mix_to_mono(input: &[i16], channels: u16) -> (r: Vec<i16>)
    ensures
        channels <= 1 ==> r@ == input@,
        channels > 1 ==> r@ == mono_of(input@, channels as int),
{
    if channels <= 1 {
        let mut out: Vec<i16> = Vec::new();
        let mut i: usize = 0;
        while i < input.len()
            invariant
                i <= input@.len(),
                out@ == input@.subrange(0, i as int),
            decreases input@.len() - i,
        {
            out.push(input[i]);
            proof {
                assert(input@.subrange(0, i + 1) =~= input@.subrange(0, i as int).push(input@[i as int]));
            }
            i += 1;
        }
        assert(input@.subrange(0, input@.len() as int) =~= input@);
        return out;
    }
    let ch = channels as usize;
    let n = input.len();
    let frames = n / ch;
    let mut out: Vec<i16> = Vec::new();
    let mut k: usize = 0;
    while k < frames
        invariant
            ch == channels as usize,
            ch > 1,
            n == input@.len(),
            frames == input@.len() as int / (ch as int),
            k <= frames,
            out@ =~= mono_of(input@, ch as int).subrange(0, k as int),
        decreases frames - k,
    {
        proof {
            assert(k * ch + ch <= frames * ch) by (nonlinear_arith)
                requires k < frames, ch > 0;
            assert(frames * ch <= input@.len()) by (nonlinear_arith)
                requires frames == input@.len() as int / (ch as int), ch > 0;
        }
        let base = k * ch;
        let mut sum: i32 = 0;
        let mut j: usize = 0;
        while j < ch
            invariant
                ch == channels as usize,
                ch > 1,
                n == input@.len(),
                base + ch <= input@.len(),
                j <= ch,
                sum == sum_range(input@, base as int, base + j),
            decreases ch - j,
        {
            proof {
                lemma_sum_bounds(input@, base as int, base + j);
                assert(j < 65535);
            }
            sum = sum + input[base + j] as i32;
            j += 1;
        }
        proof {
            lemma_sum_bounds(input@, base as int, base + ch);
        }
        let c = ch as i32;
        let avg: i32 = if sum >= 0 { sum / c } else { -((-sum) / c) };
        proof {
            assert(-32768 <= avg <= 32767) by (nonlinear_arith)
                requires
                    avg == div_toward_zero(sum as int, c as int),
                    -32768 * c <= sum <= 32767 * c,
                    c > 1;
        }
        out.push(avg as i16);
        k += 1;
    }
    out
}

} // verus!
