use std::sync::mpsc;

use nayru::streaming_source::{PcmChunk, StreamingSource};

fn drain(source: &mut StreamingSource) -> Vec<i16> {
    let mut out = Vec::new();
    while let Some(sample) = source.next() {
        out.push(sample);
    }
    out
}

#[test]
fn streams_data_then_finishes() {
    let (tx, rx) = mpsc::channel();
    let mut source = StreamingSource::new(rx, 1, 24000);

    tx.send(PcmChunk::Data(vec![100, 200, 300])).unwrap();
    tx.send(PcmChunk::Data(vec![400, 500])).unwrap();
    tx.send(PcmChunk::Done).unwrap();

    let samples: Vec<i16> = drain(&mut source);
    assert_eq!(samples, vec![100, 200, 300, 400, 500]);
}

#[test]
fn sender_drop_ends_stream() {
    let (tx, rx) = mpsc::channel();
    let mut source = StreamingSource::new(rx, 1, 16000);

    tx.send(PcmChunk::Data(vec![42])).unwrap();
    drop(tx);

    let samples: Vec<i16> = drain(&mut source);
    assert_eq!(samples, vec![42]);
}

#[test]
fn reports_correct_format() {
    let (_tx, rx) = mpsc::channel::<PcmChunk>();
    let source = StreamingSource::new(rx, 2, 48000);
    assert_eq!(source.channels(), 2);
    assert_eq!(source.sample_rate(), 48000);
    assert_eq!(source.total_duration(), None);
}

#[test]
fn keep_alive_silence_while_waiting() {
    let (tx, rx) = mpsc::channel();
    let mut source = StreamingSource::new(rx, 1, 24000);
    tx.send(PcmChunk::Data(vec![7])).unwrap();
    assert_eq!(source.next(), Some(7));
    assert_eq!(source.current_frame_len(), Some(1));
    // Nothing queued and the sender is alive: one silent sample.
    assert_eq!(source.next(), Some(0));
    tx.send(PcmChunk::Data(vec![8, 9])).unwrap();
    tx.send(PcmChunk::Done).unwrap();
    assert_eq!(source.next(), Some(8));
    assert_eq!(source.current_frame_len(), Some(1));
    assert_eq!(source.next(), Some(9));
    assert_eq!(source.next(), None);
    assert_eq!(source.current_frame_len(), Some(0));
    assert_eq!(source.next(), None);
}

#[test]
fn data_after_done_is_ignored() {
    let (tx, rx) = mpsc::channel();
    let mut source = StreamingSource::new(rx, 1, 24000);
    tx.send(PcmChunk::Data(vec![1])).unwrap();
    tx.send(PcmChunk::Done).unwrap();
    tx.send(PcmChunk::Data(vec![2])).unwrap();
    assert_eq!(drain(&mut source), vec![1]);
}
