//! The decisions of the per-file decoding loop. The caller reads packets
//! and decodes them; the session says what to do with each outcome, feeds
//! the decoded samples into the block statistics and counts frames and
//! bytes.

use vstd::prelude::*;
use crate::stream::{in_range, StreamingDrState, MAX_STREAM_SAMPLES};

verus! {

/// What reading the next packet gave.
pub enum ReadOutcome {
    /// A packet of `bytes` compressed bytes belonging to track `track_id`.
    Packet { track_id: u32, bytes: u64 },
    /// The stream ended (an unexpected end of file counts as the end).
    EndOfStream,
    /// The decoder asked for a reset: the stream ends here.
    ResetRequired,
    /// Any other read failure.
    Failed,
}

/// What decoding a packet gave, when it did not give frames.
pub enum DecodeFailure {
    /// A recoverable error confined to one packet.
    Corrupt,
    /// Any other decoder failure.
    Fatal,
}

/// Decoding progress: `done` of `total` bytes, with `done <= total` and
/// `total > 0`.
#[derive(Clone, Copy, PartialEq, Eq, Structural)]
pub struct Progress {
    pub done: u64,
    pub total: u64,
}

/// What to do after reading a packet.
pub enum ReadAction {
    /// Decode the packet; report `progress` when there is one.
    Decode { progress: Option<Progress> },
    /// Ignore the packet (it belongs to another track).
    Skip,
    /// The stream is over: reduce the statistics.
    Finish,
    /// Stop with a decoder failure.
    Fail,
}

/// The state of the analysis of one track.
pub struct TrackSession {
    /// The selected track.
    pub track_id: u32,
    /// Size of the source in bytes; 0 when unknown.
    pub file_size: u64,
    /// Compressed bytes of the selected track read so far (saturating).
    pub bytes_read: u64,
    /// Frames decoded so far.
    pub total_frames: usize,
    pub state: StreamingDrState,
}

impl TrackSession {
    /// A session for track `track_id` of a source of `file_size` bytes (0
    /// when unknown) with the given channel count and sample rate.
    pub fn new(track_id: u32, file_size: u64, channels: usize, sample_rate: usize) -> (r: Self)
        requires
            1 <= sample_rate,
            3 * sample_rate <= usize::MAX,
        ensures
            r.track_id == track_id,
            r.file_size == file_size,
            r.bytes_read == 0,
            r.total_frames == 0,
            r.state.wf(),
            r.state.channels_spec() == channels,
            r.state.sample_rate_spec() == sample_rate,
            r.state.fed() == Seq::<i64>::empty(),
    {
        TrackSession {
            track_id,
            file_size,
            bytes_read: 0,
            total_frames: 0,
            state: StreamingDrState::new(channels, sample_rate),
        }
    }

    /// Decides what follows a read. A packet of the selected track is
    /// counted and decoded, with progress `min(read, size)` of `size` when
    /// the size is known; packets of other tracks are skipped; the end of
    /// the stream and a reset request finish; other failures fail.
    pub fn on_read(&mut self, outcome: ReadOutcome) -> (r: ReadAction)
        ensures
            final(self).track_id == old(self).track_id,
            final(self).file_size == old(self).file_size,
            final(self).total_frames == old(self).total_frames,
            final(self).state == old(self).state,
            match outcome {
                ReadOutcome::Packet { track_id, bytes } => if track_id == old(self).track_id {
                    let read = if old(self).bytes_read + bytes <= u64::MAX {
                        (old(self).bytes_read + bytes) as u64
                    } else {
                        u64::MAX
                    };
                    &&& final(self).bytes_read == read
                    &&& r == ReadAction::Decode {
                        progress: if old(self).file_size > 0 {
                            Some(
                                Progress {
                                    done: if read < old(self).file_size {
                                        read
                                    } else {
                                        old(self).file_size
                                    },
                                    total: old(self).file_size,
                                },
                            )
                        } else {
                            None
                        },
                    }
                } else {
                    final(self).bytes_read == old(self).bytes_read && r == ReadAction::Skip
                },
                ReadOutcome::EndOfStream | ReadOutcome::ResetRequired => final(self).bytes_read
                    == old(self).bytes_read && r == ReadAction::Finish,
                ReadOutcome::Failed => final(self).bytes_read == old(self).bytes_read && r
                    == ReadAction::Fail,
            },
    {
        match outcome {
            ReadOutcome::Packet { track_id, bytes } => {
                if track_id != self.track_id {
                    return ReadAction::Skip;
                }
                self.bytes_read = self.bytes_read.saturating_add(bytes);
                let progress = if self.file_size > 0 {
                    let done = if self.bytes_read < self.file_size {
                        self.bytes_read
                    } else {
                        self.file_size
                    };
                    Some(Progress { done, total: self.file_size })
                } else {
                    None
                };
                ReadAction::Decode { progress }
            },
            ReadOutcome::EndOfStream => ReadAction::Finish,
            ReadOutcome::ResetRequired => ReadAction::Finish,
            ReadOutcome::Failed => ReadAction::Fail,
        }
    }

    /// Whether the loop goes on after a decode failure: a corrupt packet is
    /// skipped, any other failure ends the analysis.
    pub fn on_decode_failure(&self, failure: DecodeFailure) -> (r: bool)
        ensures
            r == (failure is Corrupt),
    {
        match failure {
            DecodeFailure::Corrupt => true,
            DecodeFailure::Fatal => false,
        }
    }

    /// Counts `frames` decoded frames and feeds their interleaved samples.
    pub fn on_frames(&mut self, samples: &[i64], frames: usize)
        requires
            old(self).state.wf(),
            old(self).state.fed().len() + samples@.len() <= MAX_STREAM_SAMPLES,
            in_range(samples@),
            old(self).total_frames + frames <= usize::MAX,
        ensures
            final(self).state.wf(),
            final(self).total_frames == old(self).total_frames + frames,
            final(self).track_id == old(self).track_id,
            final(self).file_size == old(self).file_size,
            final(self).bytes_read == old(self).bytes_read,
            final(self).state.channels_spec() == old(self).state.channels_spec(),
            final(self).state.sample_rate_spec() == old(self).state.sample_rate_spec(),
            final(self).state.block_frames_spec() == old(self).state.block_frames_spec(),
            final(self).state.fed() == if old(self).state.channels_spec() == 0 {
                old(self).state.fed()
            } else {
                old(self).state.fed() + samples@
            },
    {
        self.total_frames = self.total_frames + frames;
        self.state.push_samples(samples);
    }
}

} // verus!
