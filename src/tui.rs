//! State of the interactive track browser that does not touch the
//! terminal: views, export formats, timing statistics and the selection
//! cursor of the track table.

use vstd::prelude::*;
use vstd::view::View as VstdView;

verus! {

/// The screen or overlay being shown.
#[derive(Clone, Copy, Debug, PartialEq, Eq, Structural)]
pub enum View {
    Main,
    About,
    Export,
    Info,
    RegenerateConfirm,
}

/// The format of an exported report.
#[derive(Clone, Copy, Debug, PartialEq, Eq, Structural)]
pub enum ExportFormat {
    Text,
    Json,
    Csv,
}

impl ExportFormat {
    /// The format after this one in the cycle Text, Json, Csv, Text.
    pub fn next(self) -> (r: ExportFormat)
        ensures
            r == match self {
                ExportFormat::Text => ExportFormat::Json,
                ExportFormat::Json => ExportFormat::Csv,
                ExportFormat::Csv => ExportFormat::Text,
            },
    {
        match self {
            ExportFormat::Text => ExportFormat::Json,
            ExportFormat::Json => ExportFormat::Csv,
            ExportFormat::Csv => ExportFormat::Text,
        }
    }
}

/// Time spent on one track, in nanoseconds, and the size of its file.
#[derive(Clone, Copy, Debug, PartialEq, Eq, Structural)]
pub struct TrackTiming {
    pub elapsed_nanos: u128,
    pub file_bytes: u64,
}

/// Timing of a whole analysis run.
#[derive(Clone, Debug)]
pub struct BenchmarkStats {
    /// Wall time of the run, in nanoseconds.
    pub total_elapsed_nanos: u128,
    pub track_timings: Vec<TrackTiming>,
}

impl BenchmarkStats {
    /// Mean wall time per track in nanoseconds (rounded down), or zero
    /// when no track was timed.
    pub fn avg_per_track(&self) -> (r: u128)
        ensures
            r == if self.track_timings@.len() == 0 {
                0
            } else {
                self.total_elapsed_nanos / (self.track_timings@.len() as u128)
            },
    {
        let n = self.track_timings.len();
        if n == 0 {
            0
        } else {
            self.total_elapsed_nanos / (n as u128)
        }
    }

    /// Total size of the timed files, in bytes.
    pub fn total_bytes(&self) -> (r: u128)
        ensures
            r == bytes_sum(self.track_timings@),
    {
        let mut sum: u128 = 0;
        let mut i: usize = 0;
        while i < self.track_timings.len()
            invariant
                i <= self.track_timings@.len(),
                sum == bytes_sum(self.track_timings@.take(i as int)),
                sum <= i * (u64::MAX as nat),
            decreases self.track_timings@.len() - i,
        {
            proof {
                assert(self.track_timings@.take(i + 1).drop_last() =~= self.track_timings@.take(i as int));
                assert(i * (u64::MAX as nat) + u64::MAX <= 0x1_0000_0000_0000_0000 * (u64::MAX as nat))
                    by (nonlinear_arith)
                    requires i < 0x1_0000_0000_0000_0000nat;
                assert(i * (u64::MAX as nat) + u64::MAX == (i + 1) * (u64::MAX as nat))
                    by (nonlinear_arith);
            }
            sum = sum + self.track_timings[i].file_bytes as u128;
            i = i + 1;
        }
        proof {
            assert(self.track_timings@.take(self.track_timings@.len() as int) =~= self.track_timings@);
        }
        sum
    }
}

/// Sum of the file sizes of `t`.
pub open spec fn bytes_sum(t: Seq<TrackTiming>) -> nat
    decreases t.len(),
{
    if t.len() == 0 {
        0
    } else {
        bytes_sum(t.drop_last()) + t.last().file_bytes as nat
    }
}

/// The row selected after moving down in a table of `len` rows: one
/// further, stopping at the last row. An empty table keeps `selected`.
pub fn select_next(selected: usize, len: usize) -> (r: usize)
    ensures
        r == if len == 0 {
            selected as int
        } else if selected + 1 < len {
            selected + 1
        } else {
            len - 1
        },
{
    if len == 0 {
        selected
    } else if selected < len - 1 {
        selected + 1
    } else {
        len - 1
    }
}

/// The row selected after moving up: one back, stopping at the first.
pub fn select_prev(selected: usize) -> (r: usize)
    ensures
        r == if selected == 0 {
            0
        } else {
            selected - 1
        },
{
    if selected == 0 {
        0
    } else {
        selected - 1
    }
}

/// The first visible row after scrolling as little as needed for
/// `selected` to be among the `visible_rows` rows shown from
/// `scroll_offset`. With no visible rows nothing moves.
pub fn scroll_to_show(selected: usize, scroll_offset: usize, visible_rows: usize) -> (r: usize)
    ensures
        visible_rows == 0 ==> r == scroll_offset,
        visible_rows > 0 ==> r <= selected < r + visible_rows,
        visible_rows > 0 && scroll_offset <= selected < scroll_offset + visible_rows ==> r
            == scroll_offset,
        visible_rows > 0 && selected < scroll_offset ==> r == selected,
        visible_rows > 0 && selected >= scroll_offset + visible_rows ==> r == selected + 1
            - visible_rows,
{
    if visible_rows == 0 {
        scroll_offset
    } else if selected < scroll_offset {
        selected
    } else if selected - scroll_offset >= visible_rows {
        selected - visible_rows + 1
    } else {
        scroll_offset
    }
}

} // verus!
