use dr::bulk::{skips_album, AlbumOutcome, BulkTally};

#[test]
fn skips_albums_with_reports() {
    assert!(skips_album(false, true));
    assert!(!skips_album(false, false));
}

#[test]
fn regenerate_never_skips() {
    assert!(!skips_album(true, true));
}

#[test]
fn summary_counts_outcomes() {
    let mut t = BulkTally::new(2);
    t.record(AlbumOutcome::Analyzed);
    t.record(AlbumOutcome::Analyzed);
    let line = format!(
        "Done: {} analyzed, {} skipped, {} failed (out of {} total)",
        t.analyzed, t.skipped, t.failed, t.total
    );
    assert_eq!(line, "Done: 2 analyzed, 0 skipped, 0 failed (out of 2 total)");
}

#[test]
fn tally_counts_each_outcome() {
    let mut t = BulkTally::new(4);
    t.record(AlbumOutcome::Skipped);
    t.record(AlbumOutcome::Failed);
    t.record(AlbumOutcome::Analyzed);
    assert_eq!((t.analyzed, t.skipped, t.failed, t.total), (1, 1, 1, 4));
}
