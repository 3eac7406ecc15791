//! Bookkeeping of a bulk run over the subdirectories of a folder: which
//! albums to skip, and the tally of outcomes.

use vstd::prelude::*;

verus! {

/// Whether an album is skipped: its reports are all present and no
/// regeneration was asked for.
pub fn skips_album(regenerate: bool, reports_present: bool) -> (r: bool)
    ensures
        r == (!regenerate && reports_present),
{
    !regenerate && reports_present
}

/// What became of one album of a bulk run.
#[derive(Clone, Copy, Debug, PartialEq, Eq, Structural)]
pub enum AlbumOutcome {
    Analyzed,
    Skipped,
    Failed,
}

/// Counts of the outcomes of a bulk run over `total` albums.
#[derive(Clone, Copy, Debug, PartialEq, Eq, Structural)]
pub struct BulkTally {
    pub analyzed: usize,
    pub skipped: usize,
    pub failed: usize,
    pub total: usize,
}

impl BulkTally {
    pub open spec fn wf(&self) -> bool {
        self.analyzed + self.skipped + self.failed <= self.total
    }

    /// Albums with an outcome so far.
    pub open spec fn done(&self) -> nat {
        (self.analyzed + self.skipped + self.failed) as nat
    }

    /// A tally of a run over `total` albums, none done yet.
    pub fn new(total: usize) -> (r: Self)
        ensures
            r.wf(),
            r == (BulkTally { analyzed: 0, skipped: 0, failed: 0, total }),
    {
        BulkTally { analyzed: 0, skipped: 0, failed: 0, total }
    }

    /// Counts one more outcome.
    pub fn record(&mut self, outcome: AlbumOutcome)
        requires
            old(self).wf(),
            old(self).done() < old(self).total,
        ensures
            final(self).wf(),
            final(self).done() == old(self).done() + 1,
            final(self).total == old(self).total,
            final(self).analyzed == old(self).analyzed + (if outcome is Analyzed { 1int } else { 0 }),
            final(self).skipped == old(self).skipped + (if outcome is Skipped { 1int } else { 0 }),
            final(self).failed == old(self).failed + (if outcome is Failed { 1int } else { 0 }),
    {
        match outcome {
            AlbumOutcome::Analyzed => self.analyzed = self.analyzed + 1,
            AlbumOutcome::Skipped => self.skipped = self.skipped + 1,
            AlbumOutcome::Failed => self.failed = self.failed + 1,
        }
    }
}

} // verus!
