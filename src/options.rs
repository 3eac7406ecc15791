//! Which analysis a command line asks for, and the combinations of flags
//! that are refused.

use vstd::prelude::*;

verus! {

/// What to analyse.
#[derive(Clone, Copy, Debug, PartialEq, Eq, Structural)]
pub enum Mode {
    /// A stream on standard input, decoded with a format hint.
    Stdin,
    /// One audio file.
    File,
    /// A directory shown in the interactive browser.
    Tui,
    /// Every immediate subdirectory as its own album.
    Bulk,
    /// A directory as one album.
    Directory,
}

/// A refused command line.
#[derive(Clone, Copy, Debug, PartialEq, Eq, Structural)]
pub enum ConfigError {
    /// `--bulk` together with `--tui`.
    BulkWithTui,
    /// `--bulk` without `--json` or `--txt`.
    BulkWithoutOutput,
    /// Standard input without `--format`.
    StdinWithoutFormat,
    /// The path is neither a file nor a directory.
    NotFileOrDirectory,
}

/// The flags and what the path turned out to be.
#[derive(Clone, Copy, Debug, PartialEq, Eq, Structural)]
pub struct Request {
    pub bulk: bool,
    pub tui: bool,
    pub json: bool,
    pub txt: bool,
    /// The path is `-`.
    pub stdin: bool,
    /// `--format` was given.
    pub has_format: bool,
    pub is_file: bool,
    pub is_dir: bool,
}

/// Picks the mode of a request. Flag conflicts are refused first; then
/// standard input, a file, or a directory (browser, bulk or single album)
/// is chosen in that order.
pub fn choose_mode(q: Request) -> (r: Result<Mode, ConfigError>)
    ensures
        r == if q.bulk && q.tui {
            Err(ConfigError::BulkWithTui)
        } else if q.bulk && !q.json && !q.txt {
            Err(ConfigError::BulkWithoutOutput)
        } else if q.stdin {
            if q.has_format {
                Ok(Mode::Stdin)
            } else {
                Err(ConfigError::StdinWithoutFormat)
            }
        } else if q.is_file {
            Ok(Mode::File)
        } else if q.is_dir {
            if q.tui {
                Ok(Mode::Tui)
            } else if q.bulk {
                Ok(Mode::Bulk)
            } else {
                Ok(Mode::Directory)
            }
        } else {
            Err(ConfigError::NotFileOrDirectory)
        },
{
    if q.bulk && q.tui {
        return Err(ConfigError::BulkWithTui);
    }
    if q.bulk && !q.json && !q.txt {
        return Err(ConfigError::BulkWithoutOutput);
    }
    if q.stdin {
        return if q.has_format {
            Ok(Mode::Stdin)
        } else {
            Err(ConfigError::StdinWithoutFormat)
        };
    }
    if q.is_file {
        Ok(Mode::File)
    } else if q.is_dir {
        if q.tui {
            Ok(Mode::Tui)
        } else if q.bulk {
            Ok(Mode::Bulk)
        } else {
            Ok(Mode::Directory)
        }
    } else {
        Err(ConfigError::NotFileOrDirectory)
    }
}

} // verus!
