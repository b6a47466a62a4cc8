//! Decisions of the synthesis pipeline: the text processor's handling of
//! speak and streaming commands, status bookkeeping, epoch gating of fetch
//! jobs, and the playback worker's state transitions.
//!
//! The stages themselves (channels, HTTP, the audio sink) run outside this
//! module; they hand it the values they observe and carry out what it returns.
use vstd::prelude::*;
use vstd::string::{StringExecFns, StringSliceAdditionalSpecFns};
use vstd::std_specs::iter::IteratorSpec;
use vstd::utf8::*;

use crate::pcm::{bytes_to_i16, odd_tail, samples_of, with_leftover};
use crate::text_prep::{
    chunks_of, sentence_chunks, clean_text_for_tts, cleaned_for_speech, last_space,
    lemma_boundary_at_ascii, lemma_encode_concat, lemma_last_space, lemma_next_boundary,
    next_boundary, pieces_bytes, rfind_space, sentences_of, skip_leading_space, skip_trailing_space,
    split_sentence, split_sentences, split_text, substring, trim_back, trim_bounds, trim_front,
    trimmed, utf8_of, DEFAULT_MAX_CHUNK_LEN,
};

verus! {

// ---------------------------------------------------------------------------
// Status
// ---------------------------------------------------------------------------

/// Observable engine state.
#[derive(Debug, Clone, Copy, PartialEq, Eq, Structural)]
pub enum TtsState {
    Idle,
    Converting,
    Playing,
}

/// Snapshot of the engine's status.
#[derive(Debug, Clone)]
pub struct TtsStatus {
    pub state: TtsState,
    pub queue_length: usize,
    pub voice: String,
}

impl TtsStatus {
    /// The status of a fresh engine.
    pub fn initial(voice: String) -> (r: Self)
        ensures
            r.state == TtsState::Idle,
            r.queue_length == 0,
            r.voice == voice,
    {
        TtsStatus { state: TtsState::Idle, queue_length: 0, voice }
    }

    /// Work has started: an idle engine becomes converting.
    pub fn mark_converting(&mut self)
        ensures
            final(self).state == (if old(self).state == TtsState::Idle {
                TtsState::Converting
            } else {
                old(self).state
            }),
            final(self).queue_length == old(self).queue_length,
            final(self).voice == old(self).voice,
    {
        if self.state == TtsState::Idle {
            self.state = TtsState::Converting;
        }
    }

    /// `n` more jobs are in flight (the count stops at `usize::MAX`).
    pub fn add_queued(&mut self, n: usize)
        ensures
            final(self).queue_length == (if old(self).queue_length + n > usize::MAX {
                usize::MAX as int
            } else {
                old(self).queue_length + n
            }),
            final(self).state == old(self).state,
            final(self).voice == old(self).voice,
    {
        self.queue_length = self.queue_length.saturating_add(n);
    }

    /// One job finished streaming or was discarded.
    pub fn finish_job(&mut self)
        ensures
            final(self).queue_length == (if old(self).queue_length == 0 {
                0
            } else {
                old(self).queue_length - 1
            }),
            final(self).state == old(self).state,
            final(self).voice == old(self).voice,
    {
        self.queue_length = self.queue_length.saturating_sub(1);
    }

    /// Everything was stopped: nothing in flight, idle.
    pub fn reset(&mut self)
        ensures
            final(self).queue_length == 0,
            final(self).state == TtsState::Idle,
            final(self).voice == old(self).voice,
    {
        self.queue_length = 0;
        self.state = TtsState::Idle;
    }

    /// Publish `state`.
    pub fn set_state(&mut self, state: TtsState)
        ensures
            final(self).state == state,
            final(self).queue_length == old(self).queue_length,
            final(self).voice == old(self).voice,
    {
        self.state = state;
    }
}

// ---------------------------------------------------------------------------
// Speakable text
// ---------------------------------------------------------------------------

/// Whether `char::is_alphanumeric` holds of `c`.
pub uninterp spec fn alphanumeric(c: char) -> bool;

/// Some character of `s` is alphanumeric.
pub open spec fn has_alphanumeric_char(s: Seq<char>) -> bool {
    exists|i: int| 0 <= i < s.len() && alphanumeric(#[trigger] s[i])
}

/// Relies on char::is_alphanumeric: the result depends on the character alone.
#[verifier::external_body]
fn is_alphanumeric(c: char) -> (r: bool)
    ensures
        r == alphanumeric(c),
{
    c.is_alphanumeric()
}

/// Whether some character of `s` is alphanumeric.
fn has_alphanumeric(s: &str) -> (r: bool)
    ensures
        r == has_alphanumeric_char(s@),
{
    broadcast use vstd::string::axiom_spec_iter, vstd::string::next_postcondition;

    let mut chars = s.chars();
    let ghost n = s@.len();
    let ghost mut k: int = 0;
    assert(s@.subrange(0, n as int) =~= s@);
    loop
        invariant
            0 <= k <= n,
            n == s@.len(),
            chars.remaining() == s@.subrange(k, n as int),
            chars.obeys_prophetic_iter_laws(),
            forall|i: int| 0 <= i < k ==> !alphanumeric(#[trigger] s@[i]),
        decreases n - k,
    {
        match chars.next() {
            Some(c) => {
                proof {
                    assert(c == s@[k]);
                    assert(s@.subrange(k, n as int).drop_first() =~= s@.subrange(k + 1, n as int));
                }
                if is_alphanumeric(c) {
                    return true;
                }
                proof {
                    k = k + 1;
                }
            },
            None => {
                assert(k == n);
                return false;
            },
        }
    }
}

/// Text worth a request: at least 2 bytes and a letter or digit.
pub open spec fn speakable(s: Seq<char>) -> bool {
    utf8_of(s).len() >= 2 && has_alphanumeric_char(s)
}

fn is_speakable(s: &str) -> (r: bool)
    ensures
        r == speakable(s@),
{
    s.as_bytes().len() >= 2 && has_alphanumeric(s)
}

/// Clean `text` for speech; when the result is worth speaking, return it with
/// the estimated number of chunks it becomes.
pub fn prepare_speech(text: &str) -> (r: Option<(String, usize)>)
    ensures
        speakable(decode_utf8(cleaned_for_speech(text@))) <==> r is Some,
        r matches Some(p) ==> utf8_of(p.0@) == cleaned_for_speech(text@) && p.1 == chunks_of(
            cleaned_for_speech(text@),
            DEFAULT_MAX_CHUNK_LEN as nat,
        ).len(),
{
    let cleaned = clean_text_for_tts(text);
    proof {
        encode_utf8_decode_utf8(cleaned@);
    }
    if !is_speakable(cleaned.as_str()) {
        return None;
    }
    let n = split_text(cleaned.as_str(), DEFAULT_MAX_CHUNK_LEN).len();
    Some((cleaned, n))
}

// ---------------------------------------------------------------------------
// Dispatch
// ---------------------------------------------------------------------------

/// One synthesis request, stamped with the epoch in which it was made.
pub struct FetchJob {
    pub text: String,
    pub epoch: u64,
}

/// The pieces that sentences become: each sentence, split into chunks when
/// it is longer than `m` bytes.
pub open spec fn sentence_pieces(ss: Seq<Seq<u8>>, m: nat) -> Seq<Seq<u8>>
    decreases ss.len(),
{
    if ss.len() == 0 {
        seq![]
    } else {
        sentence_pieces(ss.drop_last(), m) + sentence_chunks(ss.last(), m)
    }
}

/// The texts of a list of jobs.
pub open spec fn job_texts(jobs: Seq<FetchJob>) -> Seq<Seq<u8>> {
    jobs.map_values(|j: FetchJob| encode_utf8(j.text@))
}

/// Every job carries `epoch`.
pub open spec fn all_in_epoch(jobs: Seq<FetchJob>, epoch: u64) -> bool {
    forall|i: int| 0 <= i < jobs.len() ==> (#[trigger] jobs[i]).epoch == epoch
}

/// Append one job per piece of `sentences[0..upto]`.
fn push_pieces(jobs: &mut Vec<FetchJob>, sentences: &Vec<String>, upto: usize, max_chunk_len: usize, epoch: u64)
    requires
        upto <= sentences@.len(),
    ensures
        job_texts(final(jobs)@) == job_texts(old(jobs)@) + sentence_pieces(
            pieces_bytes(sentences@).subrange(0, upto as int),
            max_chunk_len as nat,
        ),
        all_in_epoch(old(jobs)@, epoch) ==> all_in_epoch(final(jobs)@, epoch),
{
    let ghost ss = pieces_bytes(sentences@);
    let ghost base = job_texts(jobs@);
    let mut i: usize = 0;
    assert(sentence_pieces(ss.subrange(0, 0), max_chunk_len as nat) =~= seq![]);
    assert(job_texts(jobs@) =~= base + seq![]);
    while i < upto
        invariant
            upto <= sentences@.len(),
            ss == pieces_bytes(sentences@),
            i <= upto,
            base == job_texts(old(jobs)@),
            job_texts(jobs@) == base + sentence_pieces(ss.subrange(0, i as int), max_chunk_len as nat),
            all_in_epoch(old(jobs)@, epoch) ==> all_in_epoch(jobs@, epoch),
        decreases upto - i,
    {
        let pieces = split_sentence(sentences[i].as_str(), max_chunk_len);
        proof {
            assert(ss[i as int] == encode_utf8(sentences@[i as int]@));
            assert(ss.subrange(0, i + 1).drop_last() =~= ss.subrange(0, i as int));
        }
        let ghost mid = job_texts(jobs@);
        let mut j: usize = 0;
        while j < pieces.len()
            invariant
                j <= pieces@.len(),
                job_texts(jobs@) == mid + pieces_bytes(pieces@).subrange(0, j as int),
                all_in_epoch(old(jobs)@, epoch) ==> all_in_epoch(jobs@, epoch),
            decreases pieces@.len() - j,
        {
            let ghost before = jobs@;
            jobs.push(FetchJob { text: pieces[j].clone(), epoch });
            proof {
                assert(job_texts(jobs@) =~= job_texts(before).push(encode_utf8(pieces@[j as int]@)));
                assert(pieces_bytes(pieces@).subrange(0, j + 1) =~= pieces_bytes(pieces@).subrange(
                    0,
                    j as int,
                ).push(encode_utf8(pieces@[j as int]@)));
                if all_in_epoch(old(jobs)@, epoch) {
                    assert(forall|k: int| 0 <= k < before.len() ==> (#[trigger] jobs@[k]) == before[k]);
                }
            }
            j += 1;
        }
        proof {
            assert(pieces_bytes(pieces@).subrange(0, pieces@.len() as int) =~= pieces_bytes(pieces@));
        }
        i += 1;
    }
}

/// The jobs for a speak command: every piece of every sentence of `text`,
/// stamped with `epoch`.
pub fn speak_jobs(text: &str, max_chunk_len: usize, epoch: u64) -> (r: Vec<FetchJob>)
    ensures
        job_texts(r@) == sentence_pieces(sentences_of(text.spec_bytes()), max_chunk_len as nat),
        all_in_epoch(r@, epoch),
{
    let sentences = split_sentences(text);
    let mut jobs: Vec<FetchJob> = Vec::new();
    push_pieces(&mut jobs, &sentences, sentences.len(), max_chunk_len, epoch);
    proof {
        assert(pieces_bytes(sentences@).subrange(0, sentences@.len() as int) =~= pieces_bytes(
            sentences@,
        ));
        assert(job_texts(Seq::<FetchJob>::empty()) =~= seq![]);
        assert(seq![] + sentence_pieces(sentences_of(text.spec_bytes()), max_chunk_len as nat)
            =~= sentence_pieces(sentences_of(text.spec_bytes()), max_chunk_len as nat));
    }
    jobs
}

// ---------------------------------------------------------------------------
// Streaming text
// ---------------------------------------------------------------------------

/// Where a long unpunctuated buffer is cut: at the last space in its first
/// `m` bytes, else at `m` (moved forward to a character boundary).
pub open spec fn force_cut(b: Seq<u8>, m: nat) -> int {
    let p = last_space(b, m - 1);
    if p >= 0 {
        p
    } else {
        next_boundary(b, m as int)
    }
}

/// What dispatching a stream buffer `b` yields: the texts sent, and the
/// buffer kept.
///
/// With two or more sentences visible, all but the last are complete and go
/// out (split into chunks where longer than `m`); the last stays, followed by
/// the whitespace that ends the buffer, so that text streamed next continues
/// it as written. With at most one sentence, a buffer of `2 * m` bytes or more
/// is cut by `force_cut`: the trimmed head goes out if it has 2 bytes or more,
/// and the rest, without leading whitespace, stays. A shorter buffer waits for
/// more text.
pub open spec fn stream_dispatch(b: Seq<u8>, m: nat) -> (Seq<Seq<u8>>, Seq<u8>) {
    let ss = sentences_of(b);
    if ss.len() <= 1 {
        if b.len() >= 2 * m {
            let k = force_cut(b, m);
            let head = trimmed(b.subrange(0, k));
            let tail = trim_front(b.subrange(k, b.len() as int));
            (if head.len() >= 2 { seq![head] } else { seq![] }, tail)
        } else {
            (seq![], b)
        }
    } else {
        (sentence_pieces(ss.drop_last(), m), ss.last() + b.subrange(trim_back(b).len() as int, b.len() as int))
    }
}

/// What ending a stream flushes from buffer text `s`: nothing unless the
/// trimmed text is speakable; then one piece, split when longer than `m`.
pub open spec fn stream_flush(s: Seq<char>, m: nat) -> Seq<Seq<u8>> {
    let t = trimmed(utf8_of(s));
    if t.len() >= 2 && has_alphanumeric_char(decode_utf8(t)) {
        chunks_of(t, m)
    } else {
        seq![]
    }
}

/// The jobs one command produces, and whether an idle engine should now count
/// as converting.
pub struct Dispatch {
    pub jobs: Vec<FetchJob>,
    pub promote: bool,
}

/// The text processor's state between commands: the streamed text not yet
/// dispatched, and the epoch in which the current stream began.
pub struct TextProcessor {
    pub stream_buffer: String,
    pub stream_epoch: Option<u64>,
    pub max_chunk_len: usize,
}

impl TextProcessor {
    /// A processor with no stream in progress.
    pub fn new(max_chunk_len: usize) -> (r: Self)
        ensures
            r.stream_buffer@.len() == 0,
            r.stream_epoch is None,
            r.max_chunk_len == max_chunk_len,
    {
        TextProcessor { stream_buffer: String::new(), stream_epoch: None, max_chunk_len }
    }

    /// Speak `text`, read in epoch `epoch`: every sentence goes out, split
    /// where longer than the chunk limit; an idle engine becomes converting.
    pub fn speak(&self, text: &str, epoch: u64) -> (r: Dispatch)
        ensures
            job_texts(r.jobs@) == sentence_pieces(sentences_of(text.spec_bytes()), self.max_chunk_len as nat),
            all_in_epoch(r.jobs@, epoch),
            r.promote,
    {
        Dispatch { jobs: speak_jobs(text, self.max_chunk_len, epoch), promote: true }
    }

    /// Add a chunk of streamed text while the engine is in epoch `current`.
    ///
    /// The first chunk of a stream records the epoch and makes an idle engine
    /// converting. A stream whose epoch has passed is dropped with its buffer.
    /// Otherwise the chunk is appended and complete sentences are dispatched.
    pub fn stream_chunk(&mut self, chunk: &str, current: u64) -> (r: Dispatch)
        ensures
            final(self).max_chunk_len == old(self).max_chunk_len,
            r.promote == (old(self).stream_epoch is None),
            ({
                let e = match old(self).stream_epoch {
                    Some(e) => e,
                    None => current,
                };
                if e != current {
                    &&& r.jobs@.len() == 0
                    &&& final(self).stream_buffer@.len() == 0
                    &&& final(self).stream_epoch is None
                } else {
                    let d = stream_dispatch(
                        utf8_of(old(self).stream_buffer@ + chunk@),
                        old(self).max_chunk_len as nat,
                    );
                    &&& job_texts(r.jobs@) == d.0
                    &&& all_in_epoch(r.jobs@, e)
                    &&& utf8_of(final(self).stream_buffer@) == d.1
                    &&& final(self).stream_epoch == Some(e)
                }
            }),
    {
        let mut promote = false;
        let e = match self.stream_epoch {
            Some(e) => e,
            None => {
                self.stream_epoch = Some(current);
                promote = true;
                current
            },
        };
        if e != current {
            self.stream_buffer = String::new();
            self.stream_epoch = None;
            return Dispatch { jobs: Vec::new(), promote };
        }
        self.stream_buffer.append(chunk);
        let jobs = self.dispatch_stream_sentences(e);
        Dispatch { jobs, promote }
    }

    /// Split off and return the complete sentences of the stream buffer, as
    /// `stream_dispatch` describes; keep the possibly incomplete tail.
    fn dispatch_stream_sentences(&mut self, epoch: u64) -> (r: Vec<FetchJob>)
        ensures
            final(self).max_chunk_len == old(self).max_chunk_len,
            final(self).stream_epoch == old(self).stream_epoch,
            job_texts(r@) == stream_dispatch(utf8_of(old(self).stream_buffer@), old(self).max_chunk_len as nat).0,
            utf8_of(final(self).stream_buffer@) == stream_dispatch(
                utf8_of(old(self).stream_buffer@),
                old(self).max_chunk_len as nat,
            ).1,
            all_in_epoch(r@, epoch),
    {
        let m = self.max_chunk_len;
        let sentences = split_sentences(self.stream_buffer.as_str());
        let mut jobs: Vec<FetchJob> = Vec::new();
        if sentences.len() <= 1 {
            let text = self.stream_buffer.as_str();
            let bytes = text.as_bytes();
            let ghost b = text.spec_bytes();
            proof {
                encode_utf8_valid_utf8(text@);
                is_char_boundary_start_end_of_seq(b);
            }
            let len = bytes.len();
            if len / 2 >= m {
                let split_at = force_split_point(bytes, m);
                let (s, e) = trim_bounds(bytes, 0, split_at);
                proof {
                    assert(b.subrange(0, split_at as int).len() == split_at);
                }
                let head = substring(text, s, e);
                let next = skip_leading_space(bytes, split_at, len);
                let tail = substring(text, next, len);
                if e - s >= 2 {
                    jobs.push(FetchJob { text: head, epoch });
                }
                proof {
                    assert(job_texts(jobs@) =~= stream_dispatch(b, m as nat).0);
                }
                self.stream_buffer = tail;
            } else {
                assert(job_texts(jobs@) =~= seq![]);
            }
            return jobs;
        }
        let last_index = sentences.len() - 1;
        push_pieces(&mut jobs, &sentences, last_index, m, epoch);
        let text = self.stream_buffer.as_str();
        let bytes = text.as_bytes();
        let ghost b = text.spec_bytes();
        proof {
            encode_utf8_valid_utf8(text@);
            is_char_boundary_start_end_of_seq(b);
        }
        let len = bytes.len();
        let end = skip_trailing_space(bytes, 0, len);
        proof {
            assert(b.subrange(0, len as int) =~= b);
        }
        let trailing = substring(text, end, len);
        let mut tail = sentences[last_index].clone();
        tail.append(trailing.as_str());
        proof {
            let ss = pieces_bytes(sentences@);
            assert(ss.subrange(0, last_index as int) =~= ss.drop_last());
            assert(job_texts(Seq::<FetchJob>::empty()) =~= seq![]);
            assert(job_texts(jobs@) =~= sentence_pieces(ss.drop_last(), m as nat));
            assert(ss.last() == encode_utf8(sentences@[last_index as int]@));
            lemma_encode_concat(sentences@[last_index as int]@, trailing@);
        }
        self.stream_buffer = tail;
        jobs
    }

    /// End the stream while the engine is in epoch `current`: if the stream
    /// is still current, flush the buffer as `stream_flush` describes. The
    /// buffer and the stream epoch are cleared in every case.
    pub fn stream_end(&mut self, current: u64) -> (r: Dispatch)
        ensures
            final(self).max_chunk_len == old(self).max_chunk_len,
            final(self).stream_buffer@.len() == 0,
            final(self).stream_epoch is None,
            !r.promote,
            match old(self).stream_epoch {
                Some(e) if e == current => job_texts(r.jobs@) == stream_flush(
                    old(self).stream_buffer@,
                    old(self).max_chunk_len as nat,
                ) && all_in_epoch(r.jobs@, e),
                _ => r.jobs@.len() == 0,
            },
    {
        let mut jobs: Vec<FetchJob> = Vec::new();
        let epoch = self.stream_epoch;
        self.stream_epoch = None;
        if let Some(e) = epoch {
            if e == current {
                let text = self.stream_buffer.as_str();
                let bytes = text.as_bytes();
                let ghost b = text.spec_bytes();
                proof {
                    encode_utf8_valid_utf8(text@);
                    is_char_boundary_start_end_of_seq(b);
                }
                let (s, t) = trim_bounds(bytes, 0, bytes.len());
                proof {
                    assert(b.subrange(0, b.len() as int) =~= b);
                }
                let remaining = substring(text, s, t);
                proof {
                    encode_utf8_decode_utf8(remaining@);
                }
                if t - s >= 2 && has_alphanumeric(remaining.as_str()) {
                    let pieces = split_text(remaining.as_str(), self.max_chunk_len);
                    let mut j: usize = 0;
                    while j < pieces.len()
                        invariant
                            j <= pieces@.len(),
                            job_texts(jobs@) == pieces_bytes(pieces@).subrange(0, j as int),
                            all_in_epoch(jobs@, e),
                        decreases pieces@.len() - j,
                    {
                        let ghost before = jobs@;
                        jobs.push(FetchJob { text: pieces[j].clone(), epoch: e });
                        proof {
                            assert(job_texts(jobs@) =~= job_texts(before).push(
                                encode_utf8(pieces@[j as int]@),
                            ));
                            assert(pieces_bytes(pieces@).subrange(0, j + 1) =~= pieces_bytes(
                                pieces@,
                            ).subrange(0, j as int).push(encode_utf8(pieces@[j as int]@)));
                            assert(forall|k: int| 0 <= k < before.len() ==> (#[trigger] jobs@[k]) == before[k]);
                        }
                        j += 1;
                    }
                    assert(pieces_bytes(pieces@).subrange(0, pieces@.len() as int) =~= pieces_bytes(pieces@));
                } else {
                    assert(job_texts(jobs@) =~= seq![]);
                }
            } else {
                assert(jobs@.len() == 0);
            }
        }
        self.stream_buffer = String::new();
        Dispatch { jobs, promote: false }
    }

    /// Drop the stream in progress.
    pub fn stop(&mut self)
        ensures
            final(self).stream_buffer@.len() == 0,
            final(self).stream_epoch is None,
            final(self).max_chunk_len == old(self).max_chunk_len,
    {
        self.stream_buffer = String::new();
        self.stream_epoch = None;
    }
}

/// Where a long unpunctuated buffer is cut, as `force_cut` describes; a
/// character boundary.
fn force_split_point(b: &[u8], m: usize) -> (r: usize)
    requires
        valid_utf8(b@),
        b@.len() <= usize::MAX,
        b@.len() / 2 >= m,
    ensures
        r == force_cut(b@, m as nat),
        r <= b@.len(),
        is_char_boundary(b@, r as int),
{
    proof {
        assert(b@.subrange(0, b@.len() as int) =~= b@);
    }
    if m >= 1 {
        proof {
            lemma_last_space(b@, m - 1);
        }
        if let Some(p) = rfind_space(b, 0, m - 1) {
            proof {
                lemma_boundary_at_ascii(b@, p as int);
            }
            return p;
        }
    }
    let mut k: usize = m;
    proof {
        lemma_next_boundary(b@, m as int);
    }
    while k < b.len() && b[k] >= 0x80 && b[k] <= 0xbf
        invariant
            m <= k <= b@.len(),
            b@.len() <= usize::MAX,
            next_boundary(b@, m as int) == next_boundary(b@, k as int),
        decreases b@.len() - k,
    {
        k += 1;
    }
    proof {
        if k < b@.len() {
            is_char_boundary_iff_not_is_continuation_byte(b@, k as int);
        } else {
            is_char_boundary_start_end_of_seq(b@);
        }
    }
    k
}

// ---------------------------------------------------------------------------
// Fetching
// ---------------------------------------------------------------------------

/// Whether work stamped with `job_epoch` may still act in epoch `current`.
pub fn is_current(job_epoch: u64, current: u64) -> (r: bool)
    ensures
        r == (job_epoch == current),
{
    job_epoch == current
}

/// What a fetcher does with one chunk of a response body.
pub enum FetchAction {
    /// The job's epoch has passed: stop reading the body.
    Abandon,
    /// First audio of the job: create its source with these samples and hand
    /// it to the player.
    StartPlayback(Vec<i16>),
    /// More audio for the source already playing.
    SendData(Vec<i16>),
    /// Not a whole sample yet.
    Wait,
}

/// A fetcher's progress through one response body.
pub struct FetchProgress {
    /// An odd byte carried to the next chunk.
    pub leftover: Option<u8>,
    /// Whether this job's source has been handed to the player.
    pub started: bool,
}

/// The action for a body chunk of a job stamped `job_epoch`, read while the
/// engine is in epoch `current`, after the carried byte `leftover`.
pub open spec fn fetch_action_spec(
    job_epoch: u64,
    current: u64,
    started: bool,
    leftover: Option<u8>,
    bytes: Seq<u8>,
) -> (int, Seq<i16>) {
    let samples = samples_of(with_leftover(bytes, leftover));
    if job_epoch != current {
        (0, seq![])
    } else if samples.len() == 0 {
        (3, samples)
    } else if !started {
        (1, samples)
    } else {
        (2, samples)
    }
}

/// The numbering `fetch_action_spec` uses for an action, with its samples.
pub open spec fn action_code(a: FetchAction) -> (int, Seq<i16>) {
    match a {
        FetchAction::Abandon => (0, seq![]),
        FetchAction::StartPlayback(v) => (1, v@),
        FetchAction::SendData(v) => (2, v@),
        FetchAction::Wait => (3, seq![]),
    }
}

impl FetchProgress {
    /// Progress before the first body chunk.
    pub fn new() -> (r: Self)
        ensures
            r.leftover is None,
            !r.started,
    {
        FetchProgress { leftover: None, started: false }
    }

    /// Whether finishing the job must send `Done` to its source: exactly when
    /// a source was started.
    pub fn must_send_done(&self) -> (r: bool)
        ensures
            r == self.started,
    {
        self.started
    }

    /// Decide what to do with a body chunk, as `fetch_action_spec` describes.
    /// A source is started at most once per job, and only in the job's epoch.
    pub fn on_body_chunk(&mut self, bytes: &[u8], job_epoch: u64, current: u64) -> (r: FetchAction)
        ensures
            action_code(r) == fetch_action_spec(job_epoch, current, old(self).started, old(self).leftover, bytes@),
            job_epoch != current ==> *final(self) == *old(self),
            job_epoch == current ==> final(self).leftover == odd_tail(with_leftover(bytes@, old(self).leftover))
                && final(self).started == (old(self).started || samples_of(with_leftover(bytes@, old(self).leftover)).len() > 0),
    {
        if job_epoch != current {
            return FetchAction::Abandon;
        }
        let (samples, leftover) = bytes_to_i16(bytes, self.leftover);
        self.leftover = leftover;
        if samples.len() == 0 {
            FetchAction::Wait
        } else if !self.started {
            self.started = true;
            FetchAction::StartPlayback(samples)
        } else {
            FetchAction::SendData(samples)
        }
    }
}

/// What happened to a fetcher's job, as the fetcher observes it.
#[derive(Debug, Clone, Copy, PartialEq, Eq, Structural)]
pub enum JobEvent {
    /// The job was taken from the queue.
    Dequeued,
    /// The request failed or the synthesizer answered with an error.
    RequestFailed,
    /// The response headers arrived with a success status.
    HeadersReady,
    /// The response body ended, or reading it stopped.
    BodyDone,
}

/// What the fetcher does next with its job.
#[derive(Debug, Clone, Copy, PartialEq, Eq, Structural)]
pub enum JobAction {
    /// Drop the job and count it off the queue.
    Discard,
    /// Post the job's text to the synthesizer.
    SendRequest,
    /// Stream the response body.
    ReadBody,
    /// End the job's source if one was started, and count the job off.
    Finish,
}

/// The fetcher's decision for `event` on a job stamped `job_epoch` while the
/// engine is in epoch `current`: a stale job is dropped before its request
/// and again once its headers arrive; a failed request is dropped.
pub open spec fn job_action(event: JobEvent, job_epoch: u64, current: u64) -> JobAction {
    match event {
        JobEvent::Dequeued => if job_epoch == current {
            JobAction::SendRequest
        } else {
            JobAction::Discard
        },
        JobEvent::RequestFailed => JobAction::Discard,
        JobEvent::HeadersReady => if job_epoch == current {
            JobAction::ReadBody
        } else {
            JobAction::Discard
        },
        JobEvent::BodyDone => JobAction::Finish,
    }
}

/// Whether an action ends the job, which is when it leaves the queue count.
pub open spec fn ends_job(a: JobAction) -> bool {
    a == JobAction::Discard || a == JobAction::Finish
}

/// The fetcher's next step, as `job_action` describes.
pub fn next_job_action(event: JobEvent, job_epoch: u64, current: u64) -> (r: JobAction)
    ensures
        r == job_action(event, job_epoch, current),
{
    match event {
        JobEvent::Dequeued => if job_epoch == current {
            JobAction::SendRequest
        } else {
            JobAction::Discard
        },
        JobEvent::RequestFailed => JobAction::Discard,
        JobEvent::HeadersReady => if job_epoch == current {
            JobAction::ReadBody
        } else {
            JobAction::Discard
        },
        JobEvent::BodyDone => JobAction::Finish,
    }
}

/// Every way through a job ends it exactly once: dequeuing, then either a
/// discard, or a request that fails (discard) or gets headers, then either a
/// discard or a body read that finishes. Only the last step of each way ends
/// the job, so each dispatched job leaves the queue count once.
pub proof fn lemma_each_job_counted_once(e1: u64, e2: u64, current1: u64, current2: u64)
    ensures
        job_action(JobEvent::Dequeued, e1, current1) == JobAction::SendRequest ==> !ends_job(
            job_action(JobEvent::Dequeued, e1, current1),
        ),
        job_action(JobEvent::Dequeued, e1, current1) != JobAction::SendRequest ==> ends_job(
            job_action(JobEvent::Dequeued, e1, current1),
        ),
        ends_job(job_action(JobEvent::RequestFailed, e1, current1)),
        job_action(JobEvent::HeadersReady, e2, current2) == JobAction::ReadBody || ends_job(
            job_action(JobEvent::HeadersReady, e2, current2),
        ),
        !ends_job(JobAction::ReadBody) && !ends_job(JobAction::SendRequest),
        ends_job(job_action(JobEvent::BodyDone, e2, current2)),
{
}

/// A job's first audio reaches the player only in the job's own epoch: once
/// `stop` has moved the epoch on, no chunk of an earlier job starts playback.
pub proof fn lemma_stale_job_never_plays(
    job_epoch: u64,
    current: u64,
    started: bool,
    leftover: Option<u8>,
    bytes: Seq<u8>,
)
    requires
        job_epoch != current,
    ensures
        fetch_action_spec(job_epoch, current, started, leftover, bytes).0 == 0,
{
}

// ---------------------------------------------------------------------------
// Playback
// ---------------------------------------------------------------------------

/// A command to the playback worker, without its payload.
#[derive(Debug, Clone, Copy, PartialEq, Eq, Structural)]
pub enum PlayCommand {
    PlayStream,
    Skip,
    Stop,
    Pause,
    Resume,
}

/// What the playback worker does to its sink for a command.
#[derive(Debug, Clone, Copy, PartialEq, Eq, Structural)]
pub enum SinkAction {
    Append,
    SkipOne,
    StopAndRecreate,
    Pause,
    Play,
}

/// The state before serving a command: a playing engine whose sink has
/// drained becomes idle.
pub open spec fn drained_state(state: TtsState, sink_empty: bool) -> TtsState {
    if sink_empty && state == TtsState::Playing {
        TtsState::Idle
    } else {
        state
    }
}

/// The state to publish before the worker serves its next command.
pub fn state_before_command(state: TtsState, sink_empty: bool) -> (r: TtsState)
    ensures
        r == drained_state(state, sink_empty),
{
    if sink_empty && state == TtsState::Playing {
        TtsState::Idle
    } else {
        state
    }
}

/// The sink action for a command.
pub open spec fn sink_action(cmd: PlayCommand) -> SinkAction {
    match cmd {
        PlayCommand::PlayStream => SinkAction::Append,
        PlayCommand::Skip => SinkAction::SkipOne,
        PlayCommand::Stop => SinkAction::StopAndRecreate,
        PlayCommand::Pause => SinkAction::Pause,
        PlayCommand::Resume => SinkAction::Play,
    }
}

/// The state after a command has acted on the sink; `sink_empty` is the
/// sink's emptiness after the action.
pub open spec fn state_after(state: TtsState, cmd: PlayCommand, sink_empty: bool) -> TtsState {
    match cmd {
        PlayCommand::PlayStream => TtsState::Playing,
        PlayCommand::Skip => if sink_empty { TtsState::Idle } else { state },
        PlayCommand::Stop => TtsState::Idle,
        _ => state,
    }
}

/// What to do to the sink for `cmd`.
pub fn action_for(cmd: PlayCommand) -> (r: SinkAction)
    ensures
        r == sink_action(cmd),
{
    match cmd {
        PlayCommand::PlayStream => SinkAction::Append,
        PlayCommand::Skip => SinkAction::SkipOne,
        PlayCommand::Stop => SinkAction::StopAndRecreate,
        PlayCommand::Pause => SinkAction::Pause,
        PlayCommand::Resume => SinkAction::Play,
    }
}

/// The state to publish once `cmd` has acted on the sink.
pub fn state_after_command(state: TtsState, cmd: PlayCommand, sink_empty: bool) -> (r: TtsState)
    ensures
        r == state_after(state, cmd, sink_empty),
{
    match cmd {
        PlayCommand::PlayStream => TtsState::Playing,
        PlayCommand::Skip => if sink_empty {
            TtsState::Idle
        } else {
            state
        },
        PlayCommand::Stop => TtsState::Idle,
        _ => state,
    }
}

/// What the playback worker does for `cmd`, in epoch `current`: a source of a
/// job stamped `job_epoch` is appended only while that job is current, and is
/// dropped otherwise; every other command acts as `sink_action` says
/// (`job_epoch` is read only for a source).
pub open spec fn worker_action_spec(cmd: PlayCommand, job_epoch: u64, current: u64) -> Option<SinkAction> {
    if cmd == PlayCommand::PlayStream && job_epoch != current {
        None
    } else {
        Some(sink_action(cmd))
    }
}

/// The worker's decision for a command, as `worker_action_spec` describes.
pub fn worker_action(cmd: PlayCommand, job_epoch: u64, current: u64) -> (r: Option<SinkAction>)
    ensures
        r == worker_action_spec(cmd, job_epoch, current),
{
    if cmd == PlayCommand::PlayStream && job_epoch != current {
        None
    } else {
        Some(action_for(cmd))
    }
}

/// Once `stop` has moved the epoch past a job's, no source of that job is
/// appended to the sink, whenever its `PlayStream` reaches the worker.
pub proof fn lemma_stale_source_never_appended(job_epoch: u64, current: u64, cmd: PlayCommand)
    requires
        job_epoch != current,
    ensures
        cmd == PlayCommand::PlayStream ==> worker_action_spec(cmd, job_epoch, current) is None,
        worker_action_spec(cmd, job_epoch, current) != Some(SinkAction::Append),
{
}

/// Between commands, a playing engine becomes idle exactly when its sink has
/// drained; a new stream always leaves the engine playing, so no stream that
/// has arrived is followed by idle until the sink drains, is skipped empty, or
/// is stopped.
pub proof fn lemma_idle_exactly_on_drain(state: TtsState, sink_empty: bool, cmd: PlayCommand, after_empty: bool)
    ensures
        state == TtsState::Playing ==> (drained_state(state, sink_empty) == TtsState::Idle <==> sink_empty),
        state != TtsState::Playing ==> drained_state(state, sink_empty) == state,
        cmd == PlayCommand::PlayStream ==> state_after(state, cmd, after_empty) == TtsState::Playing,
        state_after(state, cmd, after_empty) == TtsState::Idle && state != TtsState::Idle ==> (
            cmd == PlayCommand::Stop || (cmd == PlayCommand::Skip && after_empty)),
{
}

} // verus!
