use nayru::tts::{
    worker_action,
    action_for, is_current, next_job_action, prepare_speech, JobAction, JobEvent, speak_jobs, state_after_command, state_before_command,
    FetchAction, FetchProgress, PlayCommand, SinkAction, TextProcessor, TtsState, TtsStatus,
};

fn texts(jobs: &[nayru::tts::FetchJob]) -> Vec<String> {
    jobs.iter().map(|j| j.text.clone()).collect()
}

#[test]
fn speak_two_sentences_gives_two_jobs() {
    let jobs = speak_jobs("Hello world. How are you?", 200, 4);
    assert_eq!(texts(&jobs), vec!["Hello world.", "How are you?"]);
    assert!(jobs.iter().all(|j| j.epoch == 4));
}

#[test]
fn speak_splits_long_sentences() {
    let long = "a".repeat(250);
    let jobs = speak_jobs(&format!("Short. {}", long), 100, 0);
    assert_eq!(jobs.len(), 4);
    assert_eq!(jobs[0].text, "Short.");
    assert_eq!(jobs[1].text.len(), 100);
    assert_eq!(jobs[3].text.len(), 50);
}

#[test]
fn prepare_speech_cleans_and_counts() {
    assert_eq!(
        prepare_speech("**Bold** and `code` here."),
        Some(("Bold and here.".to_string(), 1))
    );
    assert_eq!(prepare_speech("`only code`"), None);
    assert_eq!(prepare_speech("!"), None);
    assert_eq!(prepare_speech("... ---"), None);
    let long = "word ".repeat(100);
    assert_eq!(prepare_speech(&long).map(|p| p.1), Some(3));
}

#[test]
fn streaming_dispatches_complete_sentences() {
    let mut p = TextProcessor::new(200);
    let d = p.stream_chunk("Hi ", 0);
    assert!(d.promote);
    assert!(d.jobs.is_empty());
    let d = p.stream_chunk("there. How ", 0);
    assert!(!d.promote);
    assert_eq!(texts(&d.jobs), vec!["Hi there."]);
    let d = p.stream_chunk("are you?", 0);
    assert!(d.jobs.is_empty());
    let d = p.stream_end(0);
    assert_eq!(texts(&d.jobs), vec!["How are you?"]);
    assert!(p.stream_buffer.is_empty());
    assert_eq!(p.stream_epoch, None);
}

#[test]
fn streaming_force_splits_long_unpunctuated_text() {
    let mut p = TextProcessor::new(200);
    let text = "abcd ".repeat(90);
    let d = p.stream_chunk(&text, 0);
    assert_eq!(d.jobs.len(), 1);
    // The last space inside the first 200 bytes is at 199.
    assert_eq!(d.jobs[0].text, "abcd ".repeat(40).trim_end());
    assert_eq!(p.stream_buffer, "abcd ".repeat(50));
}

#[test]
fn streaming_stale_stream_is_dropped() {
    let mut p = TextProcessor::new(200);
    p.stream_chunk("Hello there", 3);
    let d = p.stream_chunk(". Next one. More", 4);
    assert!(d.jobs.is_empty());
    assert!(p.stream_buffer.is_empty());
    assert_eq!(p.stream_epoch, None);
    let d = p.stream_end(4);
    assert!(d.jobs.is_empty());
}

#[test]
fn stream_end_skips_unspeakable_tail() {
    let mut p = TextProcessor::new(200);
    p.stream_chunk(" ?! ", 0);
    assert!(p.stream_end(0).jobs.is_empty());
    p.stream_chunk("x", 0);
    assert!(p.stream_end(0).jobs.is_empty());
    p.stream_chunk("Fine", 0);
    p.stop();
    assert!(p.stream_buffer.is_empty());
    assert!(p.stream_end(0).jobs.is_empty());
}

#[test]
fn status_bookkeeping() {
    let mut s = TtsStatus::initial("af_heart".to_string());
    s.add_queued(2);
    s.mark_converting();
    assert_eq!(s.state, TtsState::Converting);
    assert_eq!(s.queue_length, 2);
    s.finish_job();
    s.finish_job();
    s.finish_job();
    assert_eq!(s.queue_length, 0);
    s.set_state(TtsState::Playing);
    s.mark_converting();
    assert_eq!(s.state, TtsState::Playing);
    s.add_queued(5);
    s.reset();
    assert_eq!(s.queue_length, 0);
    assert_eq!(s.state, TtsState::Idle);
    assert_eq!(s.voice, "af_heart");
}

#[test]
fn stale_job_never_starts_playback() {
    let mut progress = FetchProgress::new();
    assert!(matches!(progress.on_body_chunk(&[1, 0, 2, 0], 0, 1), FetchAction::Abandon));
    assert!(!progress.started);
    assert!(!is_current(0, 1));
    assert!(is_current(1, 1));
}

#[test]
fn fetch_progress_starts_once_and_carries_odd_byte() {
    let mut progress = FetchProgress::new();
    assert!(matches!(progress.on_body_chunk(&[0x01], 2, 2), FetchAction::Wait));
    assert_eq!(progress.leftover, Some(0x01));
    match progress.on_body_chunk(&[0x00, 0x05], 2, 2) {
        FetchAction::StartPlayback(s) => assert_eq!(s, vec![1]),
        _ => panic!("expected the first audio to start playback"),
    }
    assert_eq!(progress.leftover, Some(0x05));
    match progress.on_body_chunk(&[0x00], 2, 2) {
        FetchAction::SendData(s) => assert_eq!(s, vec![5]),
        _ => panic!("expected more data for the running source"),
    }
}

#[test]
fn playback_goes_idle_only_when_drained() {
    assert_eq!(state_before_command(TtsState::Playing, true), TtsState::Idle);
    assert_eq!(state_before_command(TtsState::Playing, false), TtsState::Playing);
    assert_eq!(state_before_command(TtsState::Converting, true), TtsState::Converting);
    assert_eq!(state_after_command(TtsState::Idle, PlayCommand::PlayStream, false), TtsState::Playing);
    assert_eq!(state_after_command(TtsState::Playing, PlayCommand::Skip, false), TtsState::Playing);
    assert_eq!(state_after_command(TtsState::Playing, PlayCommand::Skip, true), TtsState::Idle);
    assert_eq!(state_after_command(TtsState::Playing, PlayCommand::Stop, false), TtsState::Idle);
    assert_eq!(state_after_command(TtsState::Playing, PlayCommand::Pause, false), TtsState::Playing);
    assert_eq!(action_for(PlayCommand::PlayStream), SinkAction::Append);
    assert_eq!(action_for(PlayCommand::Stop), SinkAction::StopAndRecreate);
    assert_eq!(action_for(PlayCommand::Resume), SinkAction::Play);
}

#[test]
fn stop_discards_everything_in_flight() {
    let mut p = TextProcessor::new(200);
    let mut status = TtsStatus::initial("v".to_string());
    let d = p.speak("One. Two. Three.", 0);
    status.add_queued(d.jobs.len());
    status.mark_converting();
    p.stream_chunk("Partial sentence", 0);
    // stop(): the epoch moves to 1, the processor and the status reset.
    p.stop();
    status.reset();
    assert!(p.stream_buffer.is_empty());
    assert_eq!(status.queue_length, 0);
    assert_eq!(status.state, TtsState::Idle);
    for job in &d.jobs {
        assert!(!is_current(job.epoch, 1));
        let mut progress = FetchProgress::new();
        assert!(matches!(progress.on_body_chunk(&[0, 1, 2, 3], job.epoch, 1), FetchAction::Abandon));
    }
}

#[test]
fn stream_end_trims_unicode_whitespace() {
    let mut p = TextProcessor::new(200);
    p.stream_chunk("\u{3000}Hi", 0);
    let d = p.stream_end(0);
    assert_eq!(texts(&d.jobs), vec!["Hi"]);
}

#[test]
fn fetcher_job_steps() {
    assert_eq!(next_job_action(JobEvent::Dequeued, 1, 1), JobAction::SendRequest);
    assert_eq!(next_job_action(JobEvent::Dequeued, 0, 1), JobAction::Discard);
    assert_eq!(next_job_action(JobEvent::RequestFailed, 1, 1), JobAction::Discard);
    assert_eq!(next_job_action(JobEvent::HeadersReady, 1, 1), JobAction::ReadBody);
    assert_eq!(next_job_action(JobEvent::HeadersReady, 1, 2), JobAction::Discard);
    assert_eq!(next_job_action(JobEvent::BodyDone, 1, 2), JobAction::Finish);
    let mut progress = FetchProgress::new();
    assert!(!progress.must_send_done());
    progress.on_body_chunk(&[1, 0], 1, 1);
    assert!(progress.must_send_done());
}

#[test]
fn worker_drops_stale_sources_only() {
    assert_eq!(worker_action(PlayCommand::PlayStream, 3, 3), Some(SinkAction::Append));
    assert_eq!(worker_action(PlayCommand::PlayStream, 2, 3), None);
    assert_eq!(worker_action(PlayCommand::Stop, 0, 3), Some(SinkAction::StopAndRecreate));
    assert_eq!(worker_action(PlayCommand::Skip, 0, 3), Some(SinkAction::SkipOne));
}

#[test]
fn short_sentences_go_out_whole() {
    // A one-byte sentence fits the limit and is sent as it is.
    let jobs = speak_jobs("A. Bb.", 200, 0);
    assert_eq!(texts(&jobs), vec!["A.", "Bb."]);
    let jobs = speak_jobs("x", 200, 0);
    assert_eq!(texts(&jobs), vec!["x"]);
}
