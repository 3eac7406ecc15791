use dr::cache::reports_exist;

#[test]
fn test_reports_exist_no_files() {
    assert!(!reports_exist(false, false, true, false));
    assert!(!reports_exist(false, false, false, true));
    assert!(!reports_exist(false, false, true, true));
    assert!(reports_exist(false, false, false, false));
}

#[test]
fn test_reports_exist_json_only() {
    assert!(reports_exist(true, false, true, false));
    assert!(!reports_exist(true, false, true, true));
    assert!(!reports_exist(true, false, false, true));
}

#[test]
fn test_reports_exist_txt_only() {
    assert!(reports_exist(false, true, false, true));
    assert!(!reports_exist(false, true, true, true));
    assert!(!reports_exist(false, true, true, false));
}

#[test]
fn test_reports_exist_both() {
    assert!(reports_exist(true, true, true, true));
    assert!(reports_exist(true, true, true, false));
    assert!(reports_exist(true, true, false, true));
}
