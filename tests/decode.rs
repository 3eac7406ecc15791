use dr::decode::{DecodeFailure, Progress, ReadAction, ReadOutcome, TrackSession};

#[test]
fn packets_of_the_track_are_decoded_with_progress() {
    let mut s = TrackSession::new(1, 100, 2, 44100);
    match s.on_read(ReadOutcome::Packet { track_id: 1, bytes: 40 }) {
        ReadAction::Decode { progress } => assert!(progress == Some(Progress { done: 40, total: 100 })),
        _ => panic!("expected decode"),
    }
    match s.on_read(ReadOutcome::Packet { track_id: 1, bytes: 90 }) {
        ReadAction::Decode { progress } => assert!(progress == Some(Progress { done: 100, total: 100 })),
        _ => panic!("expected decode"),
    }
    assert_eq!(s.bytes_read, 130);
    assert!(matches!(s.on_read(ReadOutcome::Packet { track_id: 2, bytes: 5 }), ReadAction::Skip));
    assert_eq!(s.bytes_read, 130);
}

#[test]
fn unknown_size_reports_no_progress() {
    let mut s = TrackSession::new(0, 0, 1, 8000);
    match s.on_read(ReadOutcome::Packet { track_id: 0, bytes: 10 }) {
        ReadAction::Decode { progress } => assert!(progress.is_none()),
        _ => panic!("expected decode"),
    }
}

#[test]
fn stream_endings() {
    let mut s = TrackSession::new(0, 0, 1, 8000);
    assert!(matches!(s.on_read(ReadOutcome::EndOfStream), ReadAction::Finish));
    assert!(matches!(s.on_read(ReadOutcome::ResetRequired), ReadAction::Finish));
    assert!(matches!(s.on_read(ReadOutcome::Failed), ReadAction::Fail));
    assert!(s.on_decode_failure(DecodeFailure::Corrupt));
    assert!(!s.on_decode_failure(DecodeFailure::Fatal));
}

#[test]
fn frames_are_counted_and_fed() {
    let mut s = TrackSession::new(0, 0, 1, 1);
    s.on_frames(&[1, -2, 3], 3);
    s.on_frames(&[4], 1);
    assert_eq!(s.total_frames, 4);
    let total = s.total_frames;
    let r = s.state.finalize(total);
    assert_eq!(r.block_count, 1);
    assert_eq!(r.global_peak, 4);
    assert_eq!(r.per_channel[0].top_sum_sq, 1 + 4 + 9);
}
