//! Sentence-to-chunk mapping, so that a UI can highlight the sentence being
//! spoken although the pipeline chunks text differently from sentences.
use vstd::prelude::*;
use vstd::string::StringSliceAdditionalSpecFns;
use vstd::string::StringExecFns;
use vstd::utf8::*;

use crate::tts::{sentence_pieces, TtsState};

use crate::text_prep::{
    joined, lemma_encode_concat, utf8_of,
    lemma_trim_front_shrinks, lemma_trim_front_suffix,
    chunks_of, chunks_rest, keep_long, sentence_chunks, cut_point, keep_nonempty, ws_len, lemma_ws_len_prefix, lemma_cut_point, para_break_at,
    pieces_bytes, seg_rank, sentence_end_at, sentences_from, sentences_of, split_sentence, split_sentences, split_text,
    trim_back, trim_front, trimmed, is_space_byte, lemma_trim_back_prefix, lemma_trim_front_lead,
    SegMode, DEFAULT_MAX_CHUNK_LEN,
};

verus! {

/// Batches formed from chunk lengths `lens[j..]` when the open batch holds
/// `merged` bytes: a chunk joins the open batch, with one separator byte, while
/// the batch stays within `m`; otherwise it opens a new batch.
pub open spec fn batches_from(lens: Seq<int>, j: int, merged: int, m: int) -> nat
    decreases lens.len() - j,
{
    if j < 0 || j >= lens.len() {
        0
    } else if merged + 1 + lens[j] <= m {
        batches_from(lens, j + 1, merged + 1 + lens[j], m)
    } else {
        1 + batches_from(lens, j + 1, lens[j], m)
    }
}

/// How many requests the chunks with lengths `lens` become once merged.
pub open spec fn merged_batches(lens: Seq<int>, m: int) -> nat {
    if lens.len() == 0 {
        0
    } else {
        1 + batches_from(lens, 1, lens[0], m)
    }
}

/// Byte lengths of a list of byte strings.
pub open spec fn lengths(v: Seq<Seq<u8>>) -> Seq<int> {
    v.map_values(|s: Seq<u8>| s.len() as int)
}

/// Requests that one sentence becomes: the text processor sends each chunk
/// of the sentence as a job of its own.
pub open spec fn sentence_batches(s: Seq<u8>) -> nat {
    sentence_chunks(s, DEFAULT_MAX_CHUNK_LEN as nat).len()
}

/// Requests for `ss[0..=i]`, together.
pub open spec fn cumulative_batches(ss: Seq<Seq<u8>>, i: int) -> nat
    decreases i + 1,
{
    if i < 0 {
        0
    } else {
        cumulative_batches(ss, i - 1) + sentence_batches(ss[i])
    }
}

/// The sentences of `b` from index `k` on.
pub open spec fn sentences_after(b: Seq<u8>, k: int) -> Seq<Seq<u8>> {
    if k >= sentences_of(b).len() {
        seq![]
    } else {
        sentences_of(b).subrange(k, sentences_of(b).len() as int)
    }
}

/// The first `i >= from` with `completed < offsets[i]`.
pub open spec fn first_unfinished(offsets: Seq<usize>, completed: usize, from: int) -> Option<int>
    decreases offsets.len() - from,
{
    if from < 0 || from >= offsets.len() {
        None
    } else if completed < offsets[from] {
        Some(from)
    } else {
        first_unfinished(offsets, completed, from + 1)
    }
}

/// Tracks which sentence is playing from how many chunks have completed.
#[derive(Debug)]
pub struct SentenceTracker {
    /// The sentences being spoken (from `start_index` onward).
    pub sentences: Vec<String>,
    /// `chunk_offsets[i]` = total chunks for `sentences[0..=i]`.
    pub chunk_offsets: Vec<usize>,
    /// Total chunks across all sentences.
    pub total_chunks: usize,
    /// Index of the first tracked sentence in the full text's sentence list.
    pub start_index: usize,
    /// Full text, for speaking again from a different index.
    pub full_text: String,
}

/// Chunks finished so far: those dispatched for the tracked sentences,
/// less those still in flight (none when more are in flight).
pub open spec fn chunks_done(total: usize, queued: usize) -> usize {
    if queued > total {
        0
    } else {
        (total - queued) as usize
    }
}

/// What skipping to the next sentence does.
#[derive(Debug, Clone, Copy, PartialEq, Eq, Structural)]
pub enum SkipPlan {
    /// No sentence is playing: nothing to skip.
    Stay,
    /// The playing sentence was the last one: stop everything.
    StopAll,
    /// Speak again from this sentence index.
    SpeakFrom(usize),
}

impl SentenceTracker {
    /// The sentence playing once `completed` chunks are done.
    pub open spec fn sentence_at(&self, completed: usize) -> Option<usize> {
        match first_unfinished(self.chunk_offsets@, completed, 0) {
            Some(i) => Some((self.start_index + i) as usize),
            None => None,
        }
    }

    /// What `new(text, start)` builds, for the text whose UTF-8 bytes are `text`.
    pub open spec fn built_from(&self, text: Seq<u8>, start: usize) -> bool {
        &&& self.wf()
        &&& pieces_bytes(self.sentences@) == sentences_after(text, start as int)
        &&& forall|i: int|
            0 <= i < self.chunk_offsets@.len() ==> self.chunk_offsets@[i] == cumulative_batches(
                pieces_bytes(self.sentences@),
                i,
            )
        &&& self.total_chunks == cumulative_batches(
            pieces_bytes(self.sentences@),
            self.sentences@.len() - 1,
        )
        &&& self.start_index == start
    }

    /// Offsets line up with sentences and sentence numbers fit a `usize`.
    pub open spec fn wf(&self) -> bool {
        &&& self.chunk_offsets@.len() == self.sentences@.len()
        &&& self.start_index + self.sentences@.len() <= usize::MAX
    }

    pub fn empty() -> (r: Self)
        ensures
            r.wf(),
            r.sentences@.len() == 0,
            r.chunk_offsets@.len() == 0,
            r.total_chunks == 0,
            r.start_index == 0,
            r.full_text@.len() == 0,
    {
        SentenceTracker {
            sentences: Vec::new(),
            chunk_offsets: Vec::new(),
            total_chunks: 0,
            start_index: 0,
            full_text: String::new(),
        }
    }

    /// Build a tracker from full text, starting at sentence `start_index`.
    pub fn new(full_text: &str, start_index: usize) -> (r: Self)
        ensures
            r.built_from(full_text.spec_bytes(), start_index),
            r.full_text@ == full_text@,
    {
        let all_sentences = split_sentences(full_text);
        let ghost all = pieces_bytes(all_sentences@);
        let mut sentences: Vec<String> = Vec::new();
        if start_index < all_sentences.len() {
            let mut k: usize = start_index;
            while k < all_sentences.len()
                invariant
                    all == pieces_bytes(all_sentences@),
                    start_index <= k <= all_sentences@.len(),
                    pieces_bytes(sentences@) == all.subrange(start_index as int, k as int),
                decreases all_sentences@.len() - k,
            {
                let ghost before = sentences@;
                sentences.push(all_sentences[k].clone());
                proof {
                    assert(all[k as int] == encode_utf8(all_sentences@[k as int]@));
                    assert(sentences@ == before.push(all_sentences@[k as int]));
                    assert(pieces_bytes(before.push(all_sentences@[k as int])) =~= pieces_bytes(
                        before,
                    ).push(encode_utf8(all_sentences@[k as int]@)));
                    assert(pieces_bytes(sentences@) =~= all.subrange(start_index as int, k + 1));
                }
                k += 1;
            }
        }
        assert(pieces_bytes(sentences@) =~= sentences_after(full_text.spec_bytes(), start_index as int));

        let ghost ss = pieces_bytes(sentences@);
        let text_len = full_text.as_bytes().len();
        let mut chunk_offsets: Vec<usize> = Vec::new();
        let mut total: usize = 0;
        let mut i: usize = 0;
        while i < sentences.len()
            invariant
                ss == pieces_bytes(sentences@),
                i <= sentences@.len(),
                chunk_offsets@.len() == i,
                ss == sentences_after(full_text.spec_bytes(), start_index as int),
                text_len == full_text.spec_bytes().len(),
                total == cumulative_batches(ss, i - 1),
                forall|j: int| 0 <= j < i ==> chunk_offsets@[j] == cumulative_batches(ss, j),
            decreases sentences@.len() - i,
        {
            let chunks = split_sentence(sentences[i].as_str(), DEFAULT_MAX_CHUNK_LEN);
            let batched_count = chunks.len();
            proof {
                assert(ss[i as int] == encode_utf8(sentences@[i as int]@));
                assert(pieces_bytes(chunks@).len() == chunks@.len());
            }
            proof {
                lemma_count_fits(full_text.spec_bytes(), start_index as int, i as int);
            }
            total = total + batched_count;
            chunk_offsets.push(total);
            i += 1;
        }

        SentenceTracker {
            sentences,
            chunk_offsets,
            total_chunks: total,
            start_index,
            full_text: full_text.to_owned(),
        }
    }

    /// Given how many chunks have completed, the index (in the full text's
    /// sentence numbering) of the sentence now playing; `None` when all are done.
    pub fn current_sentence(&self, chunks_completed: usize) -> (r: Option<usize>)
        requires
            self.wf(),
        ensures
            r == self.sentence_at(chunks_completed),
    {
        let mut i: usize = 0;
        while i < self.chunk_offsets.len()
            invariant
                self.wf(),
                i <= self.chunk_offsets@.len(),
                first_unfinished(self.chunk_offsets@, chunks_completed, 0) == first_unfinished(
                    self.chunk_offsets@,
                    chunks_completed,
                    i as int,
                ),
            decreases self.chunk_offsets@.len() - i,
        {
            if chunks_completed < self.chunk_offsets[i] {
                return Some(self.start_index + i);
            }
            i += 1;
        }
        None
    }

    /// The sentence to highlight while the engine is in `state` with
    /// `queue_length` chunks in flight; none while the engine is idle.
    pub fn playing_sentence(&self, state: TtsState, queue_length: usize) -> (r: Option<usize>)
        requires
            self.wf(),
        ensures
            r == (if state == TtsState::Idle {
                None
            } else {
                self.sentence_at(chunks_done(self.total_chunks, queue_length))
            }),
    {
        if state == TtsState::Idle {
            None
        } else {
            self.current_sentence(self.total_chunks.saturating_sub(queue_length))
        }
    }

    /// What a skip does with `queue_length` chunks in flight: move to the
    /// sentence after the one playing, or stop after the last one.
    pub fn skip_plan(&self, queue_length: usize) -> (r: SkipPlan)
        requires
            self.wf(),
        ensures
            r == (match self.sentence_at(chunks_done(self.total_chunks, queue_length)) {
                None => SkipPlan::Stay,
                Some(i) => if i + 1 >= sentences_of(utf8_of(self.full_text@)).len() {
                    SkipPlan::StopAll
                } else {
                    SkipPlan::SpeakFrom((i + 1) as usize)
                },
            }),
    {
        match self.current_sentence(self.total_chunks.saturating_sub(queue_length)) {
            None => SkipPlan::Stay,
            Some(i) => {
                proof {
                    lemma_sentence_at_range(self, chunks_done(self.total_chunks, queue_length));
                }
                let next = i + 1;
                let all = split_sentences(self.full_text.as_str());
                if next >= all.len() {
                    SkipPlan::StopAll
                } else {
                    SkipPlan::SpeakFrom(next)
                }
            },
        }
    }

    /// The tracked sentences joined with single spaces: the text to speak.
    pub fn text_to_speak(&self) -> (r: String)
        ensures
            utf8_of(r@) == joined(pieces_bytes(self.sentences@)),
    {
        let ghost ss = pieces_bytes(self.sentences@);
        let mut out = String::new();
        let mut i: usize = 0;
        proof {
            reveal_strlit(" ");
            assert(ss.subrange(0, 0) =~= Seq::<Seq<u8>>::empty());
            assert(encode_utf8(out@) =~= joined(ss.subrange(0, 0)));
        }
        while i < self.sentences.len()
            invariant
                ss == pieces_bytes(self.sentences@),
                i <= self.sentences@.len(),
                encode_utf8(out@) == joined(ss.subrange(0, i as int)),
                " "@ == seq![' '],
            decreases self.sentences@.len() - i,
        {
            let ghost before = out@;
            if i > 0 {
                out.append(" ");
            }
            let ghost mid = out@;
            out.append(self.sentences[i].as_str());
            proof {
                assert(ss[i as int] == encode_utf8(self.sentences@[i as int]@));
                lemma_joined_push(ss.subrange(0, i as int), ss[i as int]);
                assert(ss.subrange(0, i + 1) =~= ss.subrange(0, i as int).push(ss[i as int]));
                lemma_encode_concat(mid, self.sentences@[i as int]@);
                if i > 0 {
                    lemma_encode_concat(before, seq![' ']);
                    lemma_encode_space();
                } else {
                    assert(mid =~= Seq::<char>::empty());
                    assert(mid + self.sentences@[i as int]@ =~= self.sentences@[i as int]@);
                }
            }
            i += 1;
        }
        proof {
            assert(ss.subrange(0, i as int) =~= ss);
        }
        out
    }

    /// Number of sentences in the full text, counted up to the last one tracked.
    pub fn total_sentences_in_text(&self) -> (r: usize)
        requires
            self.wf(),
        ensures
            r == self.start_index + self.sentences@.len(),
    {
        self.start_index + self.sentences.len()
    }
}

/// Count the requests that `chunks` would become under a dispatch policy that
/// merges adjacent chunks while `merged.len() + 1 + next.len() <= max_chunk_len`.
/// The text processor of this crate sends chunks unmerged, so the tracker
/// counts chunks instead.
pub fn simulate_merge(chunks: &[String], max_chunk_len: usize) -> (r: usize)
    ensures
        r == merged_batches(lengths(pieces_bytes(chunks@)), max_chunk_len as int),
{
    let ghost lens = lengths(pieces_bytes(chunks@));
    if chunks.len() == 0 {
        return 0;
    }
    let mut batched_count: usize = 1;
    let mut merged_len: usize = chunks[0].as_str().as_bytes().len();
    assert(pieces_bytes(chunks@)[0] == encode_utf8(chunks@[0]@));
    assert(lens[0] == merged_len as int);
    let mut i: usize = 1;
    while i < chunks.len()
        invariant
            lens == lengths(pieces_bytes(chunks@)),
            lens.len() == chunks@.len(),
            1 <= i <= chunks@.len(),
            1 <= batched_count <= i,
            merged_batches(lens, max_chunk_len as int) == batched_count + batches_from(
                lens,
                i as int,
                merged_len as int,
                max_chunk_len as int,
            ),
        decreases chunks@.len() - i,
    {
        let next_len = chunks[i].as_str().as_bytes().len();
        assert(pieces_bytes(chunks@)[i as int] == encode_utf8(chunks@[i as int]@));
        assert(lens[i as int] == next_len as int);
        if next_len < max_chunk_len && merged_len <= max_chunk_len - 1 - next_len {
            merged_len = merged_len + 1 + next_len;
        } else {
            batched_count += 1;
            merged_len = next_len;
        }
        i += 1;
    }
    batched_count
}

/// Every element is non-empty and starts with a byte other than whitespace.
pub open spec fn all_lead(v: Seq<Seq<u8>>) -> bool {
    forall|j: int| #![trigger v[j]] 0 <= j < v.len() ==> v[j].len() > 0 && ws_len(v[j]) == 0
}

proof fn lemma_trimmed_lead(s: Seq<u8>)
    ensures
        all_lead(keep_nonempty(trimmed(s))),
{
    lemma_trim_front_lead(s);
    let f = trim_front(s);
    lemma_trim_back_prefix(f);
    let t = trim_back(f);
    if t.len() > 0 {
        lemma_ws_len_prefix(f, t.len() as int);
    }
}

proof fn lemma_all_lead_concat(a: Seq<Seq<u8>>, b: Seq<Seq<u8>>)
    requires
        all_lead(a),
        all_lead(b),
    ensures
        all_lead(a + b),
{
    assert forall|j: int| 0 <= j < (a + b).len() implies #[trigger] (a + b)[j].len() > 0
        && ws_len((a + b)[j]) == 0 by {
        if j < a.len() {
            assert((a + b)[j] == a[j]);
        } else {
            assert((a + b)[j] == b[j - a.len()]);
        }
    }
}

/// Each sentence is non-empty and starts with a byte other than whitespace.
proof fn lemma_sentences_lead(b: Seq<u8>, start: int, i: int, mode: SegMode)
    ensures
        all_lead(sentences_from(b, start, i, mode)),
    decreases b.len() - i, seg_rank(mode),
{
    if i < 0 || i > b.len() {
    } else {
        match mode {
            SegMode::SkipNewlines => {
                if i < b.len() && b[i] == 0x0a {
                    lemma_sentences_lead(b, start, i + 1, SegMode::SkipNewlines);
                } else {
                    lemma_sentences_lead(b, i, i, SegMode::Scan);
                }
            },
            SegMode::SkipSpaces => {
                if i < b.len() && is_space_byte(b[i]) && b[i] != 0x0a {
                    lemma_sentences_lead(b, start, i + 1, SegMode::SkipSpaces);
                } else {
                    lemma_sentences_lead(b, i, i, SegMode::Scan);
                }
            },
            SegMode::Scan => {
                if i == b.len() {
                    if 0 <= start < b.len() {
                        lemma_trimmed_lead(b.subrange(start, b.len() as int));
                    }
                } else if para_break_at(b, i) {
                    lemma_trimmed_lead(b.subrange(start, i));
                    lemma_sentences_lead(b, start, i + 1, SegMode::SkipNewlines);
                    lemma_all_lead_concat(
                        keep_nonempty(trimmed(b.subrange(start, i))),
                        sentences_from(b, start, i + 1, SegMode::SkipNewlines),
                    );
                } else if sentence_end_at(b, i) {
                    lemma_trimmed_lead(b.subrange(start, i + 1));
                    lemma_sentences_lead(b, start, i + 1, SegMode::SkipSpaces);
                    lemma_all_lead_concat(
                        keep_nonempty(trimmed(b.subrange(start, i + 1))),
                        sentences_from(b, start, i + 1, SegMode::SkipSpaces),
                    );
                } else {
                    lemma_sentences_lead(b, start, i + 1, SegMode::Scan);
                }
            },
        }
    }
}

/// A sentence that starts with a byte other than whitespace becomes at least
/// one request.
/// A sentence that fits in the chunk limit is sent as one job.
pub proof fn lemma_short_sentence_is_one_job(s: Seq<u8>)
    requires
        s.len() <= DEFAULT_MAX_CHUNK_LEN,
    ensures
        sentence_batches(s) == 1,
{
}

proof fn lemma_cumulative_grows(ss: Seq<Seq<u8>>, i: int, j: int)
    requires
        i <= j,
    ensures
        cumulative_batches(ss, i) <= cumulative_batches(ss, j),
    decreases j - i,
{
    if i < j {
        lemma_cumulative_grows(ss, i, j - 1);
    }
}

/// For a tracker built from a text and a start index: when a sentence exists
/// past the start and is sent as at least one job (every sentence of at most
/// 200 bytes is, by `lemma_short_sentence_is_one_job`), the start sentence is
/// the one playing before any chunk has completed; once `total_chunks` chunks
/// have completed, no sentence is.
pub proof fn lemma_tracker_start_and_end(t: SentenceTracker, text: Seq<u8>, start: usize)
    requires
        t.built_from(text, start),
    ensures
        sentences_after(text, start as int).len() > 0 && sentence_batches(
            sentences_after(text, start as int)[0],
        ) >= 1 ==> t.sentence_at(0) == Some(start),
        t.sentence_at(t.total_chunks) is None,
{
    let ss = pieces_bytes(t.sentences@);
    let n = t.sentences@.len() as int;
    if n > 0 {
        assert(cumulative_batches(ss, 0) == cumulative_batches(ss, -1) + sentence_batches(ss[0]));
        if sentence_batches(ss[0]) >= 1 {
            assert(t.chunk_offsets@[0] > 0);
            assert(first_unfinished(t.chunk_offsets@, 0, 0) == Some(0int));
        }
    }
    let total = t.total_chunks;
    assert forall|i: int| 0 <= i < n implies t.chunk_offsets@[i] <= total by {
        lemma_cumulative_grows(ss, i, n - 1);
    }
    assert forall|i: int| 0 <= i <= n implies first_unfinished(t.chunk_offsets@, total, i) is None by {
        lemma_first_unfinished_none(t.chunk_offsets@, total, i);
    }
}

proof fn lemma_first_unfinished_none(offsets: Seq<usize>, c: usize, from: int)
    requires
        0 <= from <= offsets.len(),
        forall|i: int| 0 <= i < offsets.len() ==> offsets[i] <= c,
    ensures
        first_unfinished(offsets, c, from) is None,
    decreases offsets.len() - from,
{
    if from < offsets.len() {
        lemma_first_unfinished_none(offsets, c, from + 1);
    }
}

/// Total byte length of a list of byte strings.
pub open spec fn total_len(v: Seq<Seq<u8>>) -> nat
    decreases v.len(),
{
    if v.len() == 0 {
        0
    } else {
        total_len(v.drop_last()) + v.last().len()
    }
}

proof fn lemma_total_len_concat(a: Seq<Seq<u8>>, b: Seq<Seq<u8>>)
    ensures
        total_len(a + b) == total_len(a) + total_len(b),
    decreases b.len(),
{
    if b.len() == 0 {
        assert(a + b =~= a);
    } else {
        assert((a + b).drop_last() =~= a + b.drop_last());
        lemma_total_len_concat(a, b.drop_last());
    }
}

proof fn lemma_trimmed_len(s: Seq<u8>)
    ensures
        trimmed(s).len() <= s.len(),
{
    lemma_trim_front_suffix(s);
    lemma_trim_back_prefix(trim_front(s));
}

proof fn lemma_keep_len(s: Seq<u8>)
    ensures
        total_len(keep_nonempty(s)) == s.len(),
{
    if s.len() > 0 {
        assert(keep_nonempty(s).drop_last() =~= Seq::<Seq<u8>>::empty());
        assert(keep_nonempty(s).last() == s);
        assert(total_len(Seq::<Seq<u8>>::empty()) == 0);
    } else {
        assert(keep_nonempty(s) =~= Seq::<Seq<u8>>::empty());
    }
}

/// The sentences of `b` from a scanner state hold no more bytes than what
/// is left to scan.
proof fn lemma_sentences_total_len(b: Seq<u8>, start: int, i: int, mode: SegMode)
    requires
        0 <= i <= b.len(),
        mode == SegMode::Scan ==> 0 <= start <= i,
    ensures
        total_len(sentences_from(b, start, i, mode)) <= (match mode {
            SegMode::Scan => b.len() - start,
            _ => b.len() - i,
        }),
    decreases b.len() - i, seg_rank(mode),
{
    match mode {
        SegMode::SkipNewlines => {
            if i < b.len() && b[i] == 0x0a {
                lemma_sentences_total_len(b, start, i + 1, SegMode::SkipNewlines);
            } else {
                lemma_sentences_total_len(b, i, i, SegMode::Scan);
            }
        },
        SegMode::SkipSpaces => {
            if i < b.len() && is_space_byte(b[i]) && b[i] != 0x0a {
                lemma_sentences_total_len(b, start, i + 1, SegMode::SkipSpaces);
            } else {
                lemma_sentences_total_len(b, i, i, SegMode::Scan);
            }
        },
        SegMode::Scan => {
            if i == b.len() {
                if start < b.len() {
                    lemma_trimmed_len(b.subrange(start, b.len() as int));
                    lemma_keep_len(trimmed(b.subrange(start, b.len() as int)));
                }
            } else if para_break_at(b, i) {
                let p = trimmed(b.subrange(start, i));
                lemma_trimmed_len(b.subrange(start, i));
                lemma_keep_len(p);
                lemma_sentences_total_len(b, start, i + 1, SegMode::SkipNewlines);
                lemma_total_len_concat(keep_nonempty(p), sentences_from(b, start, i + 1, SegMode::SkipNewlines));
            } else if sentence_end_at(b, i) {
                let p = trimmed(b.subrange(start, i + 1));
                lemma_trimmed_len(b.subrange(start, i + 1));
                lemma_keep_len(p);
                lemma_sentences_total_len(b, start, i + 1, SegMode::SkipSpaces);
                lemma_total_len_concat(keep_nonempty(p), sentences_from(b, start, i + 1, SegMode::SkipSpaces));
            } else {
                lemma_sentences_total_len(b, start, i + 1, SegMode::Scan);
            }
        },
    }
}

proof fn lemma_chunks_rest_count(w: Seq<u8>, m: nat)
    ensures
        chunks_rest(w, m).len() <= w.len(),
    decreases w.len(),
{
    if w.len() > m {
        let k = cut_point(w, m);
        lemma_cut_point(w, m);
        let head = trim_back(w.subrange(0, k));
        lemma_trim_back_prefix(w.subrange(0, k));
        let rest0 = w.subrange(k, w.len() as int);
        lemma_trim_front_suffix(rest0);
        lemma_trim_front_shrinks(rest0);
        if k == 0 {
            assert(rest0[0] == w[0]);
        }
        lemma_chunks_rest_count(trim_front(rest0), m);
    }
}

/// A non-empty sentence becomes no more requests than it has bytes.
proof fn lemma_sentence_batches_bound(s: Seq<u8>)
    requires
        s.len() > 0,
    ensures
        sentence_batches(s) <= s.len(),
{
    let m = DEFAULT_MAX_CHUNK_LEN as nat;
    if s.len() > m {
        lemma_chunks_rest_count(s, m);
    }
}

proof fn lemma_cumulative_within_len(ss: Seq<Seq<u8>>, i: int)
    requires
        0 <= i < ss.len(),
        all_lead(ss),
    ensures
        cumulative_batches(ss, i) <= total_len(ss.subrange(0, i + 1)),
    decreases i + 1,
{
    lemma_sentence_batches_bound(ss[i]);
    let pre = ss.subrange(0, i + 1);
    assert(pre.drop_last() =~= ss.subrange(0, i));
    assert(pre.last() == ss[i]);
    assert(total_len(pre) == total_len(ss.subrange(0, i)) + ss[i].len());
    assert(cumulative_batches(ss, i) == cumulative_batches(ss, i - 1) + sentence_batches(ss[i]));
    if i > 0 {
        lemma_cumulative_within_len(ss, i - 1);
    } else {
        assert(ss.subrange(0, 0) =~= Seq::<Seq<u8>>::empty());
        assert(total_len(ss.subrange(0, 0)) == 0);
        assert(cumulative_batches(ss, -1) == 0);
    }
}

/// The request count of the first `i + 1` tracked sentences never exceeds
/// the length of the text.
proof fn lemma_count_fits(b: Seq<u8>, k: int, i: int)
    requires
        0 <= k,
        0 <= i < sentences_after(b, k).len(),
    ensures
        cumulative_batches(sentences_after(b, k), i) <= b.len(),
{
    let all = sentences_of(b);
    let ss = sentences_after(b, k);
    lemma_sentences_lead(b, 0, 0, SegMode::Scan);
    lemma_sentences_total_len(b, 0, 0, SegMode::Scan);
    assert(k < all.len());
    assert(ss == all.subrange(k, all.len() as int));
    assert(all_lead(ss)) by {
        assert forall|j: int| #![trigger ss[j]] 0 <= j < ss.len() implies ss[j].len() > 0 && ws_len(ss[j]) == 0 by {
            assert(ss[j] == all[k + j]);
        }
    }
    lemma_cumulative_within_len(ss, i);
    lemma_total_len_concat(ss.subrange(0, i + 1), ss.subrange(i + 1, ss.len() as int));
    assert(ss.subrange(0, i + 1) + ss.subrange(i + 1, ss.len() as int) =~= ss);
    lemma_total_len_concat(all.subrange(0, k), ss);
    assert(all.subrange(0, k) + ss =~= all);
}

/// A sentence index that the tracker reports stands below the count of
/// sentence numbers it tracks.
proof fn lemma_sentence_at_range(t: &SentenceTracker, completed: usize)
    requires
        t.wf(),
    ensures
        t.sentence_at(completed) matches Some(i) ==> i < t.start_index + t.sentences@.len(),
{
    lemma_first_unfinished_range(t.chunk_offsets@, completed, 0);
}

proof fn lemma_first_unfinished_range(offsets: Seq<usize>, c: usize, from: int)
    requires
        0 <= from,
    ensures
        first_unfinished(offsets, c, from) matches Some(i) ==> from <= i < offsets.len(),
    decreases offsets.len() - from,
{
    if from < offsets.len() && c >= offsets[from] {
        lemma_first_unfinished_range(offsets, c, from + 1);
    }
}

/// Joining one more piece adds a space and the piece.
proof fn lemma_joined_push(v: Seq<Seq<u8>>, x: Seq<u8>)
    ensures
        joined(v.push(x)) == (if v.len() == 0 {
            x
        } else {
            joined(v) + seq![0x20u8] + x
        }),
    decreases v.len(),
{
    if v.len() == 0 {
        assert(v.push(x) =~= seq![x]);
    } else if v.len() == 1 {
        assert(v.push(x).drop_first() =~= seq![x]);
        assert(v.push(x)[0] == v[0]);
        assert(joined(seq![x]) == x);
    } else {
        assert(v.push(x)[0] == v[0]);
        assert(v.push(x).drop_first() =~= v.drop_first().push(x));
        lemma_joined_push(v.drop_first(), x);
        assert(joined(v.push(x)) =~= joined(v) + seq![0x20u8] + x);
    }
}

/// A space is one byte, 0x20.
proof fn lemma_encode_space()
    ensures
        encode_utf8(seq![' ']) == seq![0x20u8],
{
    let s = seq![' '];
    assert((' ' as u32) == 32u32);
    assert((32u32 & 0x7Fu32) as u8 == 0x20u8) by (bit_vector);
    assert(encode_scalar(32u32) =~= seq![0x20u8]);
    assert(s.drop_first() =~= Seq::<char>::empty());
    assert(encode_utf8(s.drop_first()) =~= Seq::<u8>::empty());
    assert(encode_utf8(s) =~= seq![0x20u8]);
}

proof fn lemma_cumulative_counts_pieces(ss: Seq<Seq<u8>>, i: int)
    requires
        0 <= i < ss.len(),
    ensures
        cumulative_batches(ss, i) == sentence_pieces(ss.subrange(0, i + 1), DEFAULT_MAX_CHUNK_LEN as nat).len(),
    decreases i + 1,
{
    let m = DEFAULT_MAX_CHUNK_LEN as nat;
    let pre = ss.subrange(0, i + 1);
    assert(pre.drop_last() =~= ss.subrange(0, i));
    assert(pre.last() == ss[i]);
    assert(sentence_pieces(pre, m) == sentence_pieces(pre.drop_last(), m) + sentence_chunks(pre.last(), m));
    assert(cumulative_batches(ss, i) == cumulative_batches(ss, i - 1) + sentence_batches(ss[i]));
    if i > 0 {
        lemma_cumulative_counts_pieces(ss, i - 1);
    } else {
        assert(ss.subrange(0, 0) =~= Seq::<Seq<u8>>::empty());
        assert(sentence_pieces(Seq::<Seq<u8>>::empty(), m).len() == 0);
        assert(cumulative_batches(ss, -1) == 0);
    }
}

/// The tracker counts what the dispatcher sends: for a tracker built from a
/// text, `chunk_offsets[i]` is the number of jobs that speaking
/// `sentences[0..=i]` with the default chunk length produces.
pub proof fn lemma_offsets_count_dispatched_jobs(t: SentenceTracker, text: Seq<u8>, start: usize, i: int)
    requires
        t.built_from(text, start),
        0 <= i < t.chunk_offsets@.len(),
    ensures
        t.chunk_offsets@[i] as nat == sentence_pieces(
            pieces_bytes(t.sentences@).subrange(0, i + 1),
            DEFAULT_MAX_CHUNK_LEN as nat,
        ).len(),
{
    lemma_cumulative_counts_pieces(pieces_bytes(t.sentences@), i);
}

} // verus!
