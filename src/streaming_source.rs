//! A pull-based sample source fed by a channel of PCM batches.
//!
//! The fetcher creates the source only after the first PCM data of a job has
//! arrived and sends that batch first, so the first pull returns real audio.
//! Once playing, a pull waits at most 10 ms for data and otherwise yields one
//! silent sample so that the audio backend does not declare an underrun. When
//! `Done` arrives or the sender is dropped, the source ends.
use std::collections::VecDeque;
use std::sync::mpsc::{Receiver, RecvTimeoutError};
use std::time::Duration;
use vstd::prelude::*;

verus! {

/// std's channel receiver, carried as an opaque value; its methods are
/// reached only through the wrappers below.
#[verifier::external_type_specification]
#[verifier::external_body]
#[verifier::reject_recursive_types(T)]
pub struct ExReceiver<T>(Receiver<T>);

/// How long a pull waits for a batch before yielding silence.
pub const KEEP_ALIVE_WAIT_MS: u64 = 10;

/// A batch of PCM data sent from a fetcher to its streaming source.
pub enum PcmChunk {
    /// Raw interleaved 16-bit PCM samples.
    Data(Vec<i16>),
    /// The stream is complete; no more data will arrive.
    Done,
}

/// What a bounded wait on the channel produced.
pub enum Received {
    Batch(PcmChunk),
    TimedOut,
    Closed,
}

/// Relies on Receiver::try_iter: the batches already queued, in order, without
/// blocking. How many there are depends on the sending thread.
#[verifier::external_body]
fn take_ready(rx: &Receiver<PcmChunk>) -> Vec<PcmChunk> {
    rx.try_iter().collect()
}

/// Relies on Receiver::recv_timeout: the next batch, or word that the wait
/// ran out or that the sender is gone. Which one depends on the sending
/// thread and the clock.
#[verifier::external_body]
fn wait_for_batch(rx: &Receiver<PcmChunk>, millis: u64) -> Received {
    match rx.recv_timeout(Duration::from_millis(millis)) {
        Ok(chunk) => Received::Batch(chunk),
        Err(RecvTimeoutError::Timeout) => Received::TimedOut,
        Err(RecvTimeoutError::Disconnected) => Received::Closed,
    }
}

/// The buffer and the finished flag after taking `batches` in order: data
/// is appended until a `Done`, which sets the flag and ends the intake.
pub open spec fn absorbed(buffer: Seq<i16>, finished: bool, batches: Seq<PcmChunk>) -> (Seq<i16>, bool)
    decreases batches.len(),
{
    if batches.len() == 0 || finished {
        (buffer, finished)
    } else {
        match batches[0] {
            PcmChunk::Data(v) => absorbed(buffer + v@, finished, batches.drop_first()),
            PcmChunk::Done => (buffer, true),
        }
    }
}

/// The buffer and flag after a bounded wait: a batch is taken as `absorbed`
/// takes it; a wait that ran out changes nothing; a closed channel ends the
/// stream.
pub open spec fn after_wait(buffer: Seq<i16>, finished: bool, w: Received) -> (Seq<i16>, bool) {
    match w {
        Received::Batch(c) => absorbed(buffer, finished, seq![c]),
        Received::TimedOut => (buffer, finished),
        Received::Closed => (buffer, true),
    }
}

/// A fill: the queued batches `ready` in order, then, only if that leaves
/// nothing to play and the stream open, the outcome `w` of a bounded wait.
pub open spec fn filled(buffer: Seq<i16>, finished: bool, ready: Seq<PcmChunk>, w: Received) -> (Seq<i16>, bool) {
    let a = absorbed(buffer, finished, ready);
    if a.0.len() == 0 && !a.1 {
        after_wait(a.0, a.1, w)
    } else {
        a
    }
}

/// The sample handed out from a freshly filled buffer, and the buffer left:
/// its front sample; else nothing once finished; else one silent sample.
pub open spec fn sample_after_fill(buffer: Seq<i16>, finished: bool) -> (Option<i16>, Seq<i16>) {
    if buffer.len() > 0 {
        (Some(buffer[0]), buffer.drop_first())
    } else if finished {
        (None, buffer)
    } else {
        (Some(0i16), buffer)
    }
}

/// A sample source that yields samples from a channel on demand.
pub struct StreamingSource {
    rx: Receiver<PcmChunk>,
    buffer: VecDeque<i16>,
    channels: u16,
    sample_rate: u32,
    finished: bool,
}

impl StreamingSource {
    /// Samples received and not yet handed out.
    pub closed spec fn pending(&self) -> Seq<i16> {
        self.buffer@
    }

    /// Whether the end of the stream has been seen.
    pub closed spec fn is_finished(&self) -> bool {
        self.finished
    }

    pub closed spec fn spec_channels(&self) -> u16 {
        self.channels
    }

    pub closed spec fn spec_sample_rate(&self) -> u32 {
        self.sample_rate
    }

    /// Create a new streaming source.
    ///
    /// The first `PcmChunk::Data` should already be in the channel before the
    /// source is handed to the player, so that `next` returns real audio at once.
    pub fn new(rx: Receiver<PcmChunk>, channels: u16, sample_rate: u32) -> (r: Self)
        ensures
            r.pending().len() == 0,
            !r.is_finished(),
            r.spec_channels() == channels,
            r.spec_sample_rate() == sample_rate,
    {
        StreamingSource {
            rx,
            buffer: VecDeque::with_capacity(8192),
            channels,
            sample_rate,
            finished: false,
        }
    }

    /// Take batches in order, as `absorbed` describes.
    fn absorb(&mut self, batches: Vec<PcmChunk>)
        ensures
            (final(self).buffer@, final(self).finished) == absorbed(
                old(self).buffer@,
                old(self).finished,
                batches@,
            ),
            final(self).channels == old(self).channels,
            final(self).sample_rate == old(self).sample_rate,
    {
        let ghost all = batches@;
        let mut rest = batches;
        let mut k: usize = 0;
        let n = rest.len();
        let ghost b0 = self.buffer@;
        let ghost f0 = self.finished;
        assert(all.subrange(0, n as int) =~= all);
        while k < n
            invariant
                n == all.len(),
                rest@ == all,
                all == batches@,
                b0 == old(self).buffer@,
                f0 == old(self).finished,
                k <= n,
                absorbed(b0, f0, all) == absorbed(self.buffer@, self.finished, all.subrange(k as int, n as int)),
                self.channels == old(self).channels,
                self.sample_rate == old(self).sample_rate,
            decreases n - k,
        {
            if self.finished {
                return;
            }
            proof {
                assert(all.subrange(k as int, n as int).drop_first() =~= all.subrange(k + 1, n as int));
                assert(all.subrange(k as int, n as int)[0] == all[k as int]);
            }
            match &rest[k] {
                PcmChunk::Data(samples) => {
                    let mut j: usize = 0;
                    let ghost start = self.buffer@;
                    while j < samples.len()
                        invariant
                            j <= samples@.len(),
                            self.buffer@ == start + samples@.subrange(0, j as int),
                            self.channels == old(self).channels,
                            self.sample_rate == old(self).sample_rate,
                            self.finished == false,
                        decreases samples@.len() - j,
                    {
                        self.buffer.push_back(samples[j]);
                        proof {
                            assert(start + samples@.subrange(0, j + 1) =~= (start + samples@.subrange(
                                0,
                                j as int,
                            )).push(samples@[j as int]));
                        }
                        j += 1;
                    }
                    assert(samples@.subrange(0, samples@.len() as int) =~= samples@);
                },
                PcmChunk::Done => {
                    self.finished = true;
                    return;
                },
            }
            k += 1;
        }
        assert(all.subrange(n as int, n as int).len() == 0);
    }

    /// Take what a bounded wait produced, as `after_wait` describes.
    fn absorb_wait(&mut self, w: Received)
        ensures
            (final(self).buffer@, final(self).finished) == after_wait(old(self).buffer@, old(self).finished, w),
            final(self).channels == old(self).channels,
            final(self).sample_rate == old(self).sample_rate,
    {
        match w {
            Received::Batch(chunk) => {
                let mut one: Vec<PcmChunk> = Vec::new();
                one.push(chunk);
                proof {
                    assert(one@ =~= seq![chunk]);
                }
                self.absorb(one);
            },
            Received::TimedOut => {},
            Received::Closed => {
                self.finished = true;
            },
        }
    }

    /// Take every batch already queued; if that leaves nothing to play and the
    /// stream has not ended, wait briefly for one more. Whatever the channel
    /// held, the result is `filled` from what was queued and what the wait gave.
    fn fill_buffer(&mut self)
        ensures
            exists|ready: Seq<PcmChunk>, w: Received|
                (final(self).buffer@, final(self).finished) == #[trigger] filled(
                    old(self).buffer@,
                    old(self).finished,
                    ready,
                    w,
                ),
            final(self).channels == old(self).channels,
            final(self).sample_rate == old(self).sample_rate,
    {
        let ghost b0 = self.buffer@;
        let ghost f0 = self.finished;
        let ready = take_ready(&self.rx);
        let ghost ready_seq = ready@;
        self.absorb(ready);
        if self.buffer.len() == 0 && !self.finished {
            let waited = wait_for_batch(&self.rx, KEEP_ALIVE_WAIT_MS);
            let ghost wv = waited;
            self.absorb_wait(waited);
            assert((self.buffer@, self.finished) == filled(b0, f0, ready_seq, wv));
        } else {
            assert((self.buffer@, self.finished) == filled(b0, f0, ready_seq, Received::TimedOut));
        }
    }

    /// The next sample: the front of the buffer; else, once the stream has
    /// ended, nothing; else the front of what a fill brings (queued batches in
    /// order up to `Done`, then one bounded wait whose batch is appended, whose
    /// closed channel ends the stream), or one silent sample if the fill brings
    /// nothing and the stream is still open.
    pub fn next(&mut self) -> (r: Option<i16>)
        ensures
            final(self).spec_channels() == old(self).spec_channels(),
            final(self).spec_sample_rate() == old(self).spec_sample_rate(),
            old(self).pending().len() > 0 ==> r == Some(old(self).pending()[0])
                && final(self).pending() == old(self).pending().drop_first()
                && final(self).is_finished() == old(self).is_finished(),
            old(self).pending().len() == 0 && old(self).is_finished() ==> r is None
                && final(self).pending() == old(self).pending() && final(self).is_finished(),
            old(self).pending().len() == 0 && !old(self).is_finished() ==> exists|
                ready: Seq<PcmChunk>,
                w: Received,
            |
                #[trigger] filled(old(self).pending(), false, ready, w) == (
                    filled(old(self).pending(), false, ready, w).0,
                    final(self).is_finished(),
                ) && (r, final(self).pending()) == sample_after_fill(
                    filled(old(self).pending(), false, ready, w).0,
                    filled(old(self).pending(), false, ready, w).1,
                ),
    {
        if let Some(sample) = self.buffer.pop_front() {
            return Some(sample);
        }
        if self.finished {
            return None;
        }
        self.fill_buffer();
        let ghost after_fill = self.buffer@;
        let r = if let Some(sample) = self.buffer.pop_front() {
            Some(sample)
        } else if self.finished {
            None
        } else {
            Some(0)
        };
        assert((r, self.pending()) == sample_after_fill(after_fill, self.is_finished()));
        r
    }

    /// Samples until the next format change: what is buffered, 1 while
    /// waiting for data, 0 once the stream has ended and drained.
    pub fn current_frame_len(&self) -> (r: Option<usize>)
        ensures
            r == Some(
                if self.pending().len() > 0 {
                    self.pending().len() as usize
                } else if self.is_finished() {
                    0usize
                } else {
                    1usize
                },
            ),
    {
        if self.finished && self.buffer.len() == 0 {
            Some(0)
        } else if self.buffer.len() == 0 {
            Some(1)
        } else {
            Some(self.buffer.len())
        }
    }

    pub fn channels(&self) -> (r: u16)
        ensures
            r == self.spec_channels(),
    {
        self.channels
    }

    pub fn sample_rate(&self) -> (r: u32)
        ensures
            r == self.spec_sample_rate(),
    {
        self.sample_rate
    }

    /// A stream's length is not known in advance.
    pub fn total_duration(&self) -> (r: Option<Duration>)
        ensures
            r is None,
    {
        None
    }
}

} // verus!
