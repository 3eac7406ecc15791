use dr::options::{choose_mode, ConfigError, Mode, Request};

fn request() -> Request {
    Request {
        bulk: false,
        tui: false,
        json: false,
        txt: false,
        stdin: false,
        has_format: false,
        is_file: false,
        is_dir: true,
    }
}

#[test]
fn test_bulk_and_tui_conflict() {
    let q = Request { bulk: true, tui: true, ..request() };
    assert_eq!(choose_mode(q), Err(ConfigError::BulkWithTui));
}

#[test]
fn test_bulk_requires_output_format() {
    let q = Request { bulk: true, ..request() };
    assert_eq!(choose_mode(q), Err(ConfigError::BulkWithoutOutput));
    let q = Request { bulk: true, txt: true, ..request() };
    assert_eq!(choose_mode(q), Ok(Mode::Bulk));
}

#[test]
fn modes_by_path_kind() {
    assert_eq!(choose_mode(Request { stdin: true, is_dir: false, ..request() }), Err(ConfigError::StdinWithoutFormat));
    assert_eq!(choose_mode(Request { stdin: true, has_format: true, ..request() }), Ok(Mode::Stdin));
    assert_eq!(choose_mode(Request { is_file: true, is_dir: false, ..request() }), Ok(Mode::File));
    assert_eq!(choose_mode(Request { tui: true, ..request() }), Ok(Mode::Tui));
    assert_eq!(choose_mode(request()), Ok(Mode::Directory));
    assert_eq!(choose_mode(Request { is_dir: false, ..request() }), Err(ConfigError::NotFileOrDirectory));
}
