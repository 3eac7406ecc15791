use dr::scan::{is_audio_extension, is_audio_file, select_audio_files};

#[test]
fn test_is_audio_file() {
    assert!(is_audio_file("track.flac"));
    assert!(is_audio_file("track.MP3"));
    assert!(is_audio_file("track.wav"));
    assert!(is_audio_file("track.ogg"));
    assert!(is_audio_file("track.m4a"));
    assert!(!is_audio_file("readme.txt"));
    assert!(!is_audio_file("image.png"));
}

#[test]
fn extension_edge_cases() {
    assert!(is_audio_file("a.b.AiFf"));
    assert!(is_audio_file("x.Opus"));
    assert!(is_audio_file("x.wv"));
    assert!(!is_audio_file(".flac"));
    assert!(!is_audio_file("flac"));
    assert!(!is_audio_file("track.flac.txt"));
    assert!(!is_audio_file("track."));
    assert!(!is_audio_file(""));
    assert!(is_audio_extension(b"AIF"));
    assert!(!is_audio_extension(b"fla"));
}

#[test]
fn test_scan_audio_files() {
    let names: Vec<String> = ["track.flac", "track.mp3", "cover.jpg", "notes.txt"]
        .iter()
        .map(|s| s.to_string())
        .collect();
    let picked = select_audio_files(&names);
    assert_eq!(picked.len(), 2);
    assert!(names[picked[0]].ends_with("flac"));
    assert!(names[picked[1]].ends_with("mp3"));
}

#[test]
fn selection_is_sorted_by_name() {
    let names: Vec<String> = ["b.wav", "notes.txt", "A.flac", "a.flac", "ab.mp3", "a.FLAC"]
        .iter()
        .map(|s| s.to_string())
        .collect();
    let picked: Vec<&str> = select_audio_files(&names).iter().map(|&i| names[i].as_str()).collect();
    assert_eq!(picked, vec!["A.flac", "a.FLAC", "a.flac", "ab.mp3", "b.wav"]);
}
