//! Ordering of progress events. Each track reports `Started`, then any
//! number of `Progress`, then one of `Completed` or `Failed`; the album
//! event comes once, after every track has reported its outcome.

use vstd::prelude::*;

verus! {

/// The kind of a per-track event.
#[derive(Clone, Copy, Debug, PartialEq, Eq, Structural)]
pub enum EventKind {
    Started,
    Progress,
    Completed,
    Failed,
}

pub open spec fn is_terminal(e: EventKind) -> bool {
    e is Completed || e is Failed
}

/// `s` is a prefix of `Started Progress* (Completed | Failed)`.
pub open spec fn valid_track_events(s: Seq<EventKind>) -> bool {
    s.len() == 0 || {
        &&& s[0] is Started
        &&& forall|i: int| 1 <= i < s.len() - 1 ==> (#[trigger] s[i]) is Progress
        &&& s.len() >= 2 ==> (s.last() is Progress || is_terminal(s.last()))
    }
}

/// Where a track is in its lifecycle.
#[derive(Clone, Copy, Debug, PartialEq, Eq, Structural)]
pub enum TrackPhase {
    Pending,
    Running,
    Done,
}

/// The events of one track so far; an event is let through only when it
/// keeps the sequence valid.
pub struct TrackEvents {
    phase: TrackPhase,
    history: Ghost<Seq<EventKind>>,
}

impl TrackEvents {
    /// The events let through so far.
    pub closed spec fn history(&self) -> Seq<EventKind> {
        self.history@
    }

    /// The track has reported its outcome.
    pub closed spec fn is_done(&self) -> bool {
        self.phase is Done
    }

    pub closed spec fn wf(&self) -> bool {
        let h = self.history@;
        &&& valid_track_events(h)
        &&& match self.phase {
            TrackPhase::Pending => h.len() == 0,
            TrackPhase::Running => h.len() >= 1 && !is_terminal(h.last()),
            TrackPhase::Done => h.len() >= 2 && is_terminal(h.last()),
        }
    }

    pub fn new() -> (r: Self)
        ensures
            r.wf(),
            r.history() == Seq::<EventKind>::empty(),
            !r.is_done(),
    {
        TrackEvents { phase: TrackPhase::Pending, history: Ghost(Seq::empty()) }
    }

    /// The phase of the track.
    pub fn phase(&self) -> (r: TrackPhase)
        ensures
            r is Done <==> self.is_done(),
    {
        self.phase
    }

    /// Lets `kind` through when it keeps the events valid: `Started` first,
    /// then `Progress` any number of times, then one outcome. Returns
    /// whether the event is to be sent.
    pub fn record(&mut self, kind: EventKind) -> (r: bool)
        requires
            old(self).wf(),
        ensures
            final(self).wf(),
            r == (match kind {
                EventKind::Started => old(self).history().len() == 0,
                _ => old(self).history().len() >= 1 && !is_terminal(old(self).history().last()),
            }),
            r ==> final(self).history() == old(self).history().push(kind),
            !r ==> final(self).history() == old(self).history(),
            final(self).is_done() == (old(self).is_done() || (r && is_terminal(kind))),
            valid_track_events(final(self).history()),
    {
        let ok = match (self.phase, kind) {
            (TrackPhase::Pending, EventKind::Started) => true,
            (TrackPhase::Running, EventKind::Started) => false,
            (TrackPhase::Running, _) => true,
            _ => false,
        };
        if ok {
            let ghost h = self.history@;
            self.history = Ghost(h.push(kind));
            self.phase = match kind {
                EventKind::Started | EventKind::Progress => TrackPhase::Running,
                _ => TrackPhase::Done,
            };
            proof {
                let n = self.history@;
                assert(n.last() == kind);
                assert forall|i: int| 1 <= i < n.len() - 1 implies (#[trigger] n[i]) is Progress by {
                    assert(n[i] == h[i]);
                    if i == h.len() - 1 {
                        assert(h[i] == h.last());
                    }
                }
            }
        }
        ok
    }
}

/// Gate for the album event: it is let through once, and only when every
/// track has reported its outcome.
pub struct AlbumGate {
    sent: bool,
}

impl AlbumGate {
    pub fn new() -> (r: Self)
        ensures
            !r.was_sent(),
    {
        AlbumGate { sent: false }
    }

    pub closed spec fn was_sent(&self) -> bool {
        self.sent
    }

    /// Whether the album event is to be sent now: not sent before, and
    /// every track done.
    pub fn complete(&mut self, tracks: &Vec<TrackEvents>) -> (r: bool)
        ensures
            r == (!old(self).was_sent() && forall|i: int| 0 <= i < tracks@.len() ==> (#[trigger] tracks@[i]).is_done()),
            final(self).was_sent() == (old(self).was_sent() || r),
    {
        if self.sent {
            return false;
        }
        let mut i: usize = 0;
        while i < tracks.len()
            invariant
                i <= tracks@.len(),
                forall|k: int| 0 <= k < i ==> (#[trigger] tracks@[k]).is_done(),
            decreases tracks@.len() - i,
        {
            match tracks[i].phase() {
                TrackPhase::Done => {},
                _ => {
                    return false;
                },
            }
            i = i + 1;
        }
        self.sent = true;
        true
    }
}

} // verus!
