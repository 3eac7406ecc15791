use dr::events::{AlbumGate, EventKind, TrackEvents, TrackPhase};

#[test]
fn track_events_follow_the_lifecycle() {
    let mut t = TrackEvents::new();
    assert!(!t.record(EventKind::Progress));
    assert!(!t.record(EventKind::Completed));
    assert!(t.record(EventKind::Started));
    assert!(!t.record(EventKind::Started));
    assert!(t.record(EventKind::Progress));
    assert!(t.record(EventKind::Progress));
    assert_eq!(t.phase(), TrackPhase::Running);
    assert!(t.record(EventKind::Failed));
    assert_eq!(t.phase(), TrackPhase::Done);
    assert!(!t.record(EventKind::Progress));
    assert!(!t.record(EventKind::Completed));
}

#[test]
fn album_event_fires_once_after_all_tracks() {
    let mut a = TrackEvents::new();
    let mut b = TrackEvents::new();
    a.record(EventKind::Started);
    b.record(EventKind::Started);
    a.record(EventKind::Completed);
    let mut gate = AlbumGate::new();
    let tracks = vec![a, b];
    assert!(!gate.complete(&tracks));
    let mut tracks = tracks;
    tracks[1].record(EventKind::Completed);
    assert!(gate.complete(&tracks));
    assert!(!gate.complete(&tracks));
}
