use nayru::tracker::{simulate_merge, SentenceTracker, SkipPlan};
use nayru::tts::{speak_jobs, TtsState};

#[test]
fn empty_tracker() {
    let t = SentenceTracker::empty();
    assert_eq!(t.total_chunks, 0);
    assert_eq!(t.current_sentence(0), None);
}

#[test]
fn single_sentence() {
    let t = SentenceTracker::new("Hello world.", 0);
    assert_eq!(t.sentences.len(), 1);
    assert_eq!(t.total_chunks, 1);
    assert_eq!(t.current_sentence(0), Some(0));
    assert_eq!(t.current_sentence(1), None);
}

#[test]
fn multiple_sentences() {
    let t = SentenceTracker::new("First sentence. Second sentence. Third sentence.", 0);
    assert_eq!(t.sentences.len(), 3);
    assert_eq!(t.current_sentence(0), Some(0));
}

#[test]
fn start_from_middle() {
    let t = SentenceTracker::new("First. Second. Third.", 1);
    assert_eq!(t.sentences.len(), 2);
    assert_eq!(t.start_index, 1);
    assert_eq!(t.current_sentence(0), Some(1));
}

#[test]
fn simulate_merge_basic() {
    let chunks = vec!["Hello.".to_string(), "World.".to_string()];
    assert_eq!(simulate_merge(&chunks, 200), 1);
}

#[test]
fn simulate_merge_no_fit() {
    let long = "a".repeat(150);
    let chunks = vec![long.clone(), long];
    assert_eq!(simulate_merge(&chunks, 200), 2);
}

#[test]
fn simulate_merge_exact_fit_and_restart() {
    let chunks = vec!["a".repeat(10), "b".repeat(9), "c".repeat(5), "d".repeat(3)];
    // 10 + 1 + 9 = 20 fits; + 1 + 5 does not: a new batch of 5, then 5 + 1 + 3 = 9 fits.
    assert_eq!(simulate_merge(&chunks, 20), 2);
    assert_eq!(simulate_merge(&[], 20), 0);
}

#[test]
fn tracker_walks_sentences_then_ends() {
    let t = SentenceTracker::new("First. Second. Third.", 0);
    assert_eq!(t.chunk_offsets, vec![1, 2, 3]);
    assert_eq!(t.current_sentence(0), Some(0));
    assert_eq!(t.current_sentence(1), Some(1));
    assert_eq!(t.current_sentence(2), Some(2));
    assert_eq!(t.current_sentence(3), None);
    assert_eq!(t.total_sentences_in_text(), 3);
}

#[test]
fn tracker_start_and_end() {
    let text = "One. Two. Three. Four.";
    for k in 0..4 {
        let t = SentenceTracker::new(text, k);
        assert_eq!(t.current_sentence(0), Some(k));
        assert_eq!(t.current_sentence(t.total_chunks), None);
    }
    let past = SentenceTracker::new(text, 9);
    assert!(past.sentences.is_empty());
    assert_eq!(past.current_sentence(0), None);
}

#[test]
fn tracker_long_sentence_counts_batches() {
    let long = format!("{}.", "word ".repeat(60).trim());
    let text = format!("Short one. {}", long);
    let t = SentenceTracker::new(&text, 0);
    assert_eq!(t.sentences.len(), 2);
    assert_eq!(t.chunk_offsets[0], 1);
    assert_eq!(t.total_chunks, 3);
    assert_eq!(t.current_sentence(2), Some(1));
}

#[test]
fn reader_highlights_and_skips() {
    let t = SentenceTracker::new("First. Second. Third.", 0);
    assert_eq!(t.text_to_speak(), "First. Second. Third.");
    // Three chunks dispatched, two still in flight: the first is done.
    assert_eq!(t.playing_sentence(TtsState::Playing, 2), Some(1));
    assert_eq!(t.playing_sentence(TtsState::Idle, 2), None);
    assert_eq!(t.playing_sentence(TtsState::Converting, 9), Some(0));
    assert_eq!(t.skip_plan(2), SkipPlan::SpeakFrom(2));
    assert_eq!(t.skip_plan(1), SkipPlan::StopAll);
    assert_eq!(t.skip_plan(0), SkipPlan::Stay);

    let later = SentenceTracker::new("First.\n\nSecond.   Third.", 1);
    assert_eq!(later.text_to_speak(), "Second. Third.");
    assert_eq!(SentenceTracker::empty().text_to_speak(), "");
}

#[test]
fn tracker_counts_the_jobs_the_dispatcher_sends() {
    let long = format!("{} {} {}", "a".repeat(99), "b".repeat(100), "c".repeat(150));
    let text = format!("Short. {}", long);
    let t = SentenceTracker::new(&text, 0);
    assert_eq!(t.chunk_offsets, vec![1, 4]);
    assert_eq!(speak_jobs(&text, 200, 0).len(), 4);
}
