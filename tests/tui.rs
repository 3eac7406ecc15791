use dr::tui::{scroll_to_show, select_next, select_prev, BenchmarkStats, ExportFormat, TrackTiming};

#[test]
fn export_format_cycles() {
    assert_eq!(ExportFormat::Text.next(), ExportFormat::Json);
    assert_eq!(ExportFormat::Json.next(), ExportFormat::Csv);
    assert_eq!(ExportFormat::Csv.next(), ExportFormat::Text);
}

#[test]
fn benchmark_averages() {
    let empty = BenchmarkStats { total_elapsed_nanos: 5_000, track_timings: vec![] };
    assert_eq!(empty.avg_per_track(), 0);
    let t = TrackTiming { elapsed_nanos: 1, file_bytes: 1024 * 1024 };
    let stats = BenchmarkStats { total_elapsed_nanos: 3_000_000_001, track_timings: vec![t, t, t] };
    assert_eq!(stats.avg_per_track(), 1_000_000_000);
    assert_eq!(stats.total_bytes(), 3 * 1024 * 1024);
}

#[test]
fn cursor_moves_within_the_table() {
    assert_eq!(select_next(0, 0), 0);
    assert_eq!(select_next(3, 5), 4);
    assert_eq!(select_next(4, 5), 4);
    assert_eq!(select_prev(0), 0);
    assert_eq!(select_prev(3), 2);
    assert_eq!(scroll_to_show(5, 0, 0), 0);
    assert_eq!(scroll_to_show(2, 4, 3), 2);
    assert_eq!(scroll_to_show(9, 4, 3), 7);
    assert_eq!(scroll_to_show(5, 4, 3), 4);
}
