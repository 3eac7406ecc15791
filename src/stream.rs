//! Streaming accumulator of 3-second block statistics.
//!
//! Samples are signed fixed point with full scale at `2^31` (`FULL_SCALE`),
//! and headroom above it: a sample's magnitude may reach `MAX_SAMPLE`
//! (`2^40`, 512 times full scale), so levels above 0 dBFS are kept as they
//! are. Statistics are kept exactly, as integers: per block and channel the
//! sum of squares and the peak magnitude.

use vstd::prelude::*;
use crate::select::{prefix_sum, second_largest, sort_desc, top_count, top_sum};

verus! {

/// Magnitude of a full-scale sample: 0 dBFS.
pub const FULL_SCALE: u64 = 0x8000_0000;

/// Largest sample magnitude accepted, `2^40`.
pub const MAX_SAMPLE: u64 = 0x100_0000_0000;

/// Most samples one stream may hold, `2^47`: the exact sums of squares then
/// fit in 128 bits.
pub const MAX_STREAM_SAMPLES: u64 = 0x8000_0000_0000;

/// Length of a block, in seconds.
pub const BLOCK_SECONDS: usize = 3;

/// Magnitude of one sample.
pub open spec fn mag(x: i64) -> nat {
    if x < 0 {
        (-(x as int)) as nat
    } else {
        x as nat
    }
}

/// Square of one sample.
pub open spec fn sq(x: i64) -> nat {
    (x as int * x as int) as nat
}

/// Sum of the squares of channel `c` over frames `lo .. hi` of the
/// interleaved samples `s` with `channels` columns.
pub open spec fn chan_sum_sq(s: Seq<i64>, channels: nat, c: nat, lo: nat, hi: nat) -> nat
    decreases hi,
{
    if hi <= lo {
        0
    } else {
        chan_sum_sq(s, channels, c, lo, (hi - 1) as nat) + sq(s[(hi - 1) * channels + c])
    }
}

/// Largest magnitude of channel `c` over frames `lo .. hi` (0 when empty).
pub open spec fn chan_peak(s: Seq<i64>, channels: nat, c: nat, lo: nat, hi: nat) -> nat
    decreases hi,
{
    if hi <= lo {
        0
    } else {
        let p = chan_peak(s, channels, c, lo, (hi - 1) as nat);
        let m = mag(s[(hi - 1) * channels + c]);
        if m > p {
            m
        } else {
            p
        }
    }
}

/// Largest magnitude among the first `n` samples of `s` (0 when empty).
pub open spec fn max_mag(s: Seq<i64>, n: nat) -> nat
    decreases n,
{
    if n == 0 {
        0
    } else {
        let p = max_mag(s, (n - 1) as nat);
        let m = mag(s[n - 1]);
        if m > p {
            m
        } else {
            p
        }
    }
}

/// Sum of squares of channel `c` in block `b` of `block_frames` frames.
pub open spec fn block_sum_sq(s: Seq<i64>, channels: nat, block_frames: nat, c: nat, b: nat) -> nat {
    chan_sum_sq(s, channels, c, b * block_frames, b * block_frames + block_frames)
}

/// Peak magnitude of channel `c` in block `b` of `block_frames` frames.
pub open spec fn block_peak(s: Seq<i64>, channels: nat, block_frames: nat, c: nat, b: nat) -> nat {
    chan_peak(s, channels, c, b * block_frames, b * block_frames + block_frames)
}

/// The completed-block sums of squares of channel `c`, in stream order
/// (the trailing incomplete block is left out).
pub open spec fn block_sums(s: Seq<i64>, channels: nat, block_frames: nat, c: nat) -> Seq<u128> {
    Seq::new(
        s.len() / channels / block_frames,
        |b: int| block_sum_sq(s, channels, block_frames, c, b as nat) as u128,
    )
}

/// The completed-block peaks of channel `c`, in stream order.
pub open spec fn block_peaks(s: Seq<i64>, channels: nat, block_frames: nat, c: nat) -> Seq<u128> {
    Seq::new(
        s.len() / channels / block_frames,
        |b: int| block_peak(s, channels, block_frames, c, b as nat) as u128,
    )
}

/// Every sample of `s` is within `MAX_SAMPLE` in magnitude.
pub open spec fn in_range(s: Seq<i64>) -> bool {
    forall|i: int| 0 <= i < s.len() ==> mag(#[trigger] s[i]) <= MAX_SAMPLE
}

/// Square of `MAX_SAMPLE`, `2^80`: no accepted sample's square exceeds it.
pub open spec fn max_sq() -> nat {
    0x1_0000_0000_0000_0000_0000
}

proof fn lemma_sample_bounds(x: i64)
    requires
        mag(x) <= MAX_SAMPLE,
    ensures
        mag(x) * mag(x) == sq(x),
        sq(x) <= max_sq(),
{
    let m = mag(x) as int;
    assert(m * m == (x as int) * (x as int)) by (nonlinear_arith)
        requires m == x || m == -x;
    assert(m * m <= 0x1_0000_0000_0000_0000_0000) by (nonlinear_arith)
        requires 0 <= m <= 0x100_0000_0000;
}

proof fn lemma_frame_index(f: nat, hi: nat, channels: nat, c: nat)
    requires
        f < hi,
        c < channels,
    ensures
        f * channels + c < hi * channels,
        f * channels + channels <= hi * channels,
{
    assert(f * channels + channels <= hi * channels) by (nonlinear_arith)
        requires f < hi;
}

/// The per-channel sums and peaks over frames below `hi` read only the
/// first `hi * channels` samples.
proof fn lemma_chan_prefix(s1: Seq<i64>, s2: Seq<i64>, channels: nat, c: nat, lo: nat, hi: nat)
    requires
        c < channels,
        forall|i: int| 0 <= i < hi * channels ==> s1[i] == s2[i],
    ensures
        chan_sum_sq(s1, channels, c, lo, hi) == chan_sum_sq(s2, channels, c, lo, hi),
        chan_peak(s1, channels, c, lo, hi) == chan_peak(s2, channels, c, lo, hi),
    decreases hi,
{
    if hi > lo {
        let h = (hi - 1) as nat;
        lemma_frame_index(h, hi, channels, c);
        lemma_chan_prefix(s1, s2, channels, c, lo, h);
    }
}

proof fn lemma_max_mag_prefix(s1: Seq<i64>, s2: Seq<i64>, n: nat)
    requires
        forall|i: int| 0 <= i < n ==> s1[i] == s2[i],
    ensures
        max_mag(s1, n) == max_mag(s2, n),
    decreases n,
{
    if n > 0 {
        lemma_max_mag_prefix(s1, s2, (n - 1) as nat);
    }
}

proof fn lemma_sum_bound(s: Seq<i64>, channels: nat, c: nat, lo: nat, hi: nat)
    requires
        lo <= hi,
        c < channels,
        hi * channels <= s.len(),
        in_range(s),
    ensures
        chan_sum_sq(s, channels, c, lo, hi) <= (hi - lo) * max_sq(),
        chan_peak(s, channels, c, lo, hi) <= MAX_SAMPLE,
    decreases hi,
{
    if hi > lo {
        let h = (hi - 1) as nat;
        lemma_frame_index(h, hi, channels, c);
        lemma_sum_bound(s, channels, c, lo, h);
        lemma_sample_bounds(s[(h * channels + c) as int]);
        assert((h - lo) * max_sq() + max_sq() == (hi - lo) * max_sq()) by (nonlinear_arith)
            requires h + 1 == hi, lo <= h;
    }
}

/// The largest magnitude among the first `n` samples is bounded by any
/// bound on each of them; with `bound == FULL_SCALE`, a normalized stream
/// peaks at or below 0 dBFS.
pub proof fn lemma_max_mag_le(s: Seq<i64>, n: nat, bound: nat)
    requires
        forall|i: int| 0 <= i < n ==> mag(#[trigger] s[i]) <= bound,
    ensures
        max_mag(s, n) <= bound,
    decreases n,
{
    if n > 0 {
        lemma_max_mag_le(s, (n - 1) as nat, bound);
    }
}

/// Statistics of the first `f` frames do not depend on what follows them.
proof fn lemma_stats_prefix(st: &StreamingDrState, s1: Seq<i64>, s2: Seq<i64>, f: nat)
    requires
        st.stats_of(s1, f),
        st.shape(),
        forall|i: int| 0 <= i < f * st.channels ==> s1[i] == s2[i],
    ensures
        st.stats_of(s2, f),
{
    let c = st.channels as nat;
    let bf = st.block_frames as nat;
    let nb = f / bf;
    assert(bf >= 1) by (nonlinear_arith)
        requires bf == 3 * st.sample_rate, st.sample_rate >= 1;
    lemma_max_mag_prefix(s1, s2, f * c);
    assert forall|ch: int| 0 <= ch < c implies {
        &&& forall|b: int|
            0 <= b < nb ==> #[trigger] st.block_sum_sq@[ch]@[b] == block_sum_sq(
                s2,
                c,
                bf,
                ch as nat,
                b as nat,
            )
        &&& forall|b: int|
            0 <= b < nb ==> #[trigger] st.block_peaks@[ch]@[b] == block_peak(
                s2,
                c,
                bf,
                ch as nat,
                b as nat,
            )
        &&& st.ch_sum_sq@[ch] == chan_sum_sq(s2, c, ch as nat, nb * bf, f)
        &&& st.ch_peak@[ch] == chan_peak(s2, c, ch as nat, nb * bf, f)
    } by {
        assert(st.block_sum_sq@[ch]@.len() == nb);
        assert(nb * bf <= f) by (nonlinear_arith)
            requires nb == f / bf, bf >= 1;
        lemma_chan_prefix(s1, s2, c, ch as nat, nb * bf, f);
        assert(st.ch_sum_sq@[ch] == chan_sum_sq(s2, c, ch as nat, nb * bf, f));
        assert(st.ch_peak@[ch] == chan_peak(s2, c, ch as nat, nb * bf, f));
        assert forall|b: int|
            #![trigger st.block_sum_sq@[ch]@[b]]
            #![trigger st.block_peaks@[ch]@[b]]
            0 <= b < nb implies {
            &&& st.block_sum_sq@[ch]@[b] == block_sum_sq(s2, c, bf, ch as nat, b as nat)
            &&& st.block_peaks@[ch]@[b] == block_peak(s2, c, bf, ch as nat, b as nat)
        } by {
            let hi = (b * bf + bf) as nat;
            assert(hi <= f) by (nonlinear_arith)
                requires 0 <= b < nb, nb == f / bf, bf >= 1, hi == b * bf + bf;
            assert(hi * c <= f * c) by (nonlinear_arith)
                requires hi <= f;
            lemma_chan_prefix(s1, s2, c, ch as nat, (b * bf) as nat, hi);
        }
    }
}

/// Order statistics of one channel over the completed blocks.
pub struct ChannelStats {
    /// Sum of the squared samples in the `top_count` blocks with the most
    /// energy (the loudest 20%).
    pub top_sum_sq: u128,
    /// The second-largest block peak; the largest when there is one block.
    pub peak: u64,
}

/// What a finished stream reduces to. The DR-RMS of a block of `n` frames
/// with sum of squares `q` is `sqrt(2 q / n)` (relative to full scale); the
/// combined RMS of a channel is the quadratic mean of its `top_count`
/// loudest blocks, `sqrt(2 top_sum_sq / (block_frames * top_count))`.
pub struct DrReduction {
    pub channels: usize,
    pub sample_rate: usize,
    pub block_frames: usize,
    /// Frames decoded, as counted by the caller.
    pub total_frames: usize,
    /// Completed blocks per channel.
    pub block_count: usize,
    pub top_count: usize,
    /// Largest sample magnitude of the whole stream.
    pub global_peak: u64,
    /// One entry per channel; empty when no block was completed.
    pub per_channel: Vec<ChannelStats>,
}

/// Per-channel statistics of one buffer of interleaved samples taken as a
/// single block.
pub struct BlockStats {
    /// Sum of squares per channel; the block's DR-RMS is
    /// `sqrt(2 * sum_sq / frames)`.
    pub sum_sq: Vec<u128>,
    /// Largest magnitude per channel.
    pub peak: Vec<u64>,
}

/// Sum of squares and peak of every channel over the whole frames of
/// `samples`.
pub fn compute_block_stats(samples: &[i64], channels: usize) -> (r: BlockStats)
    requires
        channels >= 1,
        samples@.len() <= MAX_STREAM_SAMPLES,
        in_range(samples@),
    ensures
        r.sum_sq@.len() == channels,
        r.peak@.len() == channels,
        forall|c: int|
            0 <= c < channels ==> {
                &&& #[trigger] r.sum_sq@[c] == chan_sum_sq(
                    samples@,
                    channels as nat,
                    c as nat,
                    0,
                    samples@.len() / (channels as nat),
                )
                &&& r.peak@[c] == chan_peak(samples@, channels as nat, c as nat, 0, samples@.len() / (channels as nat))
            },
{
    let len = samples.len();
    let frames = len / channels;
    let ghost cn = channels as nat;
    let mut sum_sq: Vec<u128> = Vec::new();
    let mut peak: Vec<u64> = Vec::new();
    let mut c: usize = 0;
    while c < channels
        invariant
            c <= channels,
            len == samples@.len(),
            frames == samples@.len() / cn,
            cn == channels,
            channels >= 1,
            samples@.len() <= MAX_STREAM_SAMPLES,
            in_range(samples@),
            sum_sq@.len() == c,
            peak@.len() == c,
            forall|j: int|
                0 <= j < c ==> {
                    &&& #[trigger] sum_sq@[j] == chan_sum_sq(samples@, cn, j as nat, 0, frames as nat)
                    &&& peak@[j] == chan_peak(samples@, cn, j as nat, 0, frames as nat)
                },
        decreases channels - c,
    {
        let mut acc: u128 = 0;
        let mut p: u64 = 0;
        let mut f: usize = 0;
        while f < frames
            invariant
                f <= frames,
                len == samples@.len(),
                c < channels,
                cn == channels,
                frames == samples@.len() / cn,
                samples@.len() <= MAX_STREAM_SAMPLES,
                in_range(samples@),
                acc == chan_sum_sq(samples@, cn, c as nat, 0, f as nat),
                p == chan_peak(samples@, cn, c as nat, 0, f as nat),
            decreases frames - f,
        {
            proof {
                lemma_frame_index(f as nat, frames as nat, cn, c as nat);
                assert(frames * cn <= samples@.len()) by (nonlinear_arith)
                    requires frames == samples@.len() / cn, cn >= 1;
                assert(f * cn <= frames * cn) by (nonlinear_arith)
                    requires f < frames;
                lemma_sum_bound(samples@, cn, c as nat, 0, f as nat);
                assert(frames <= samples@.len()) by (nonlinear_arith)
                    requires frames == samples@.len() / cn, cn >= 1;
                assert(f * max_sq() + max_sq() <= 0x8000_0000_0000 * max_sq()) by (nonlinear_arith)
                    requires f < frames, frames <= 0x8000_0000_0000;
            }
            let x = samples[f * channels + c];
            proof {
                lemma_sample_bounds(x);
            }
            let m: u64 = if x < 0 {
                (0i64 - x) as u64
            } else {
                x as u64
            };
            acc = acc + (m as u128) * (m as u128);
            if m > p {
                p = m;
            }
            f = f + 1;
        }
        sum_sq.push(acc);
        peak.push(p);
        c = c + 1;
    }
    BlockStats { sum_sq, peak }
}

/// A stream with fewer whole frames than one block completes no block.
pub proof fn lemma_short_stream_has_no_blocks(s: Seq<i64>, channels: nat, block_frames: nat, c: nat)
    requires
        channels >= 1,
        s.len() / channels < block_frames,
    ensures
        block_sums(s, channels, block_frames, c).len() == 0,
        block_peaks(s, channels, block_frames, c).len() == 0,
{
    vstd::arithmetic::div_mod::lemma_basic_div((s.len() / channels) as int, block_frames as int);
}

proof fn lemma_silent_range(s: Seq<i64>, channels: nat, c: nat, lo: nat, hi: nat)
    requires
        c < channels,
        forall|i: int| 0 <= i < s.len() ==> s[i] == 0,
        hi * channels <= s.len(),
    ensures
        chan_sum_sq(s, channels, c, lo, hi) == 0,
        chan_peak(s, channels, c, lo, hi) == 0,
    decreases hi,
{
    if hi > lo {
        let h = (hi - 1) as nat;
        lemma_frame_index(h, hi, channels, c);
        lemma_silent_range(s, channels, c, lo, h);
    }
}

proof fn lemma_silent_max(s: Seq<i64>, n: nat)
    requires
        forall|i: int| 0 <= i < s.len() ==> s[i] == 0,
        n <= s.len(),
    ensures
        max_mag(s, n) == 0,
    decreases n,
{
    if n > 0 {
        lemma_silent_max(s, (n - 1) as nat);
    }
}

/// Pure silence: every block has zero energy and zero peak, and the
/// stream's peak is zero.
pub proof fn lemma_silence(s: Seq<i64>, channels: nat, block_frames: nat)
    requires
        channels >= 1,
        block_frames >= 1,
        forall|i: int| 0 <= i < s.len() ==> s[i] == 0,
    ensures
        max_mag(s, (s.len() / channels) * channels) == 0,
        forall|c: nat, b: int|
            c < channels && 0 <= b < block_sums(s, channels, block_frames, c).len() ==> #[trigger] block_sums(
                s,
                channels,
                block_frames,
                c,
            )[b] == 0 && block_peaks(s, channels, block_frames, c)[b] == 0,
{
    let f = s.len() / channels;
    assert(f * channels <= s.len()) by (nonlinear_arith)
        requires f == s.len() / channels, channels >= 1;
    lemma_silent_max(s, f * channels);
    assert forall|c: nat, b: int|
        c < channels && 0 <= b < block_sums(s, channels, block_frames, c).len() implies #[trigger] block_sums(
            s,
            channels,
            block_frames,
            c,
        )[b] == 0 && block_peaks(s, channels, block_frames, c)[b] == 0 by {
        let hi = (b * block_frames + block_frames) as nat;
        assert(hi <= f) by (nonlinear_arith)
            requires 0 <= b < f / block_frames, block_frames >= 1, hi == b * block_frames + block_frames;
        assert(hi * channels <= f * channels) by (nonlinear_arith)
            requires hi <= f;
        lemma_silent_range(s, channels, c, (b * block_frames) as nat, hi);
    }
}

impl ChannelStats {
    /// Whether the channel has a defined DR: both its representative peak
    /// and its combined RMS are positive. A channel without one counts as
    /// DR 0.
    pub fn has_range(&self) -> (r: bool)
        ensures
            r == (self.peak > 0 && self.top_sum_sq > 0),
    {
        self.peak > 0 && self.top_sum_sq > 0
    }
}

/// Largest `top_sum_sq` among `c` (0 when empty).
pub open spec fn loudest(c: Seq<ChannelStats>) -> u128
    decreases c.len(),
{
    if c.len() == 0 {
        0
    } else {
        let m = loudest(c.drop_last());
        if c.last().top_sum_sq > m {
            c.last().top_sum_sq
        } else {
            m
        }
    }
}

impl DrReduction {
    /// The `top_sum_sq` of the loudest channel. Every channel shares
    /// `top_count`, so this channel has the largest combined RMS, which is
    /// the reported RMS level.
    pub fn loudest_top_sum(&self) -> (r: u128)
        ensures
            r == loudest(self.per_channel@),
            forall|i: int| 0 <= i < self.per_channel@.len() ==> (#[trigger] self.per_channel@[i]).top_sum_sq <= r,
    {
        let mut best: u128 = 0;
        let mut i: usize = 0;
        while i < self.per_channel.len()
            invariant
                i <= self.per_channel@.len(),
                best == loudest(self.per_channel@.take(i as int)),
                forall|k: int| 0 <= k < i ==> (#[trigger] self.per_channel@[k]).top_sum_sq <= best,
            decreases self.per_channel@.len() - i,
        {
            proof {
                assert(self.per_channel@.take(i + 1).drop_last() =~= self.per_channel@.take(i as int));
            }
            if self.per_channel[i].top_sum_sq > best {
                best = self.per_channel[i].top_sum_sq;
            }
            i = i + 1;
        }
        proof {
            assert(self.per_channel@.take(self.per_channel@.len() as int) =~= self.per_channel@);
        }
        best
    }
}

/// Number of whole frames in `len` interleaved samples of `channels`
/// channels (none without channels).
pub open spec fn whole_frames(len: nat, channels: nat) -> nat {
    if channels == 0 {
        0
    } else {
        len / channels
    }
}

/// Streaming DR state: the statistics of every completed block, the
/// accumulators of the block in progress, the track-wide peak, and the
/// samples of an incomplete trailing frame.
pub struct StreamingDrState {
    channels: usize,
    sample_rate: usize,
    block_frames: usize,
    current_block_frames: usize,
    ch_sum_sq: Vec<u128>,
    ch_peak: Vec<u64>,
    block_sum_sq: Vec<Vec<u128>>,
    block_peaks: Vec<Vec<u64>>,
    global_peak: u64,
    residual: Vec<i64>,
    fed: Ghost<Seq<i64>>,
}

impl StreamingDrState {
    /// Every sample handed to `push_samples` so far, in order.
    pub closed spec fn fed(&self) -> Seq<i64> {
        self.fed@
    }

    pub closed spec fn channels_spec(&self) -> nat {
        self.channels as nat
    }

    pub closed spec fn sample_rate_spec(&self) -> nat {
        self.sample_rate as nat
    }

    /// Frames per block: three seconds of audio.
    pub closed spec fn block_frames_spec(&self) -> nat {
        self.block_frames as nat
    }

    /// Number of whole frames received so far.
    pub closed spec fn frames_spec(&self) -> nat {
        if self.channels == 0 {
            0
        } else {
            self.fed@.len() / (self.channels as nat)
        }
    }

    /// What a well-formed state guarantees of its model: blocks are three
    /// seconds long (so at least three frames), the whole frames counted are
    /// those of everything fed, and every fed sample is in range.
    pub proof fn lemma_wf(&self)
        requires
            self.wf(),
        ensures
            self.sample_rate_spec() >= 1,
            self.block_frames_spec() == BLOCK_SECONDS * self.sample_rate_spec(),
            self.block_frames_spec() >= BLOCK_SECONDS,
            self.frames_spec() == whole_frames(self.fed().len(), self.channels_spec()),
            self.fed().len() <= MAX_STREAM_SAMPLES,
            in_range(self.fed()),
            self.channels_spec() == 0 ==> self.fed().len() == 0,
    {
    }

    /// Field lengths and configuration.
    pub closed spec fn shape(&self) -> bool {
        let c = self.channels as nat;
        &&& self.sample_rate >= 1
        &&& self.block_frames == BLOCK_SECONDS * self.sample_rate
        &&& self.ch_sum_sq@.len() == c
        &&& self.ch_peak@.len() == c
        &&& self.block_sum_sq@.len() == c
        &&& self.block_peaks@.len() == c
    }

    /// The statistics describe exactly the first `f` frames of `s`.
    pub closed spec fn stats_of(&self, s: Seq<i64>, f: nat) -> bool {
        let c = self.channels as nat;
        let bf = self.block_frames as nat;
        let nb = f / bf;
        &&& self.current_block_frames == f % bf
        &&& self.global_peak == max_mag(s, f * c)
        &&& forall|ch: int|
            0 <= ch < c ==> {
                &&& #[trigger] self.block_sum_sq@[ch]@.len() == nb
                &&& self.block_peaks@[ch]@.len() == nb
                &&& forall|b: int|
                    0 <= b < nb ==> #[trigger] self.block_sum_sq@[ch]@[b] == block_sum_sq(
                        s,
                        c,
                        bf,
                        ch as nat,
                        b as nat,
                    )
                &&& forall|b: int|
                    0 <= b < nb ==> #[trigger] self.block_peaks@[ch]@[b] == block_peak(
                        s,
                        c,
                        bf,
                        ch as nat,
                        b as nat,
                    )
                &&& self.ch_sum_sq@[ch] == chan_sum_sq(s, c, ch as nat, nb * bf, f)
                &&& self.ch_peak@[ch] == chan_peak(s, c, ch as nat, nb * bf, f)
            }
    }

    /// Well-formedness: the statistics describe every whole frame received,
    /// and the residual holds the samples of the incomplete last frame.
    pub closed spec fn wf(&self) -> bool {
        let c = self.channels as nat;
        let s = self.fed@;
        let f = self.frames_spec();
        &&& self.shape()
        &&& s.len() <= MAX_STREAM_SAMPLES
        &&& in_range(s)
        &&& (c == 0 ==> s.len() == 0 && self.residual@.len() == 0)
        &&& (c > 0 ==> self.residual@.len() < c)
        &&& (c > 0 ==> self.residual@ =~= s.subrange((f * c) as int, s.len() as int))
        &&& self.stats_of(s, f)
    }

    /// Adds one frame, `data[base .. base + channels]`, which is frame `f`
    /// of `s`, to the statistics of the first `f` frames of `s`.
    fn take_frame(&mut self, data: &[i64], base: usize, Ghost(s): Ghost<Seq<i64>>, Ghost(f): Ghost<nat>)
        requires
            old(self).shape(),
            old(self).channels > 0,
            old(self).stats_of(s, f),
            in_range(s),
            (f + 1) * old(self).channels <= s.len(),
            s.len() <= MAX_STREAM_SAMPLES,
            base + old(self).channels <= data@.len(),
            forall|k: int|
                0 <= k < old(self).channels ==> s[f * old(self).channels + k] == #[trigger] data@[base + k],
        ensures
            final(self).shape(),
            final(self).stats_of(s, f + 1),
            final(self).channels == old(self).channels,
            final(self).sample_rate == old(self).sample_rate,
            final(self).residual == old(self).residual,
            final(self).fed == old(self).fed,
    {
        let c = self.channels;
        let ghost cn = c as nat;
        let ghost bf = self.block_frames as nat;
        let ghost nb = f / bf;
        let ghost lo = nb * bf;
        let ghost old_blocks = self.block_sum_sq@;
        let ghost old_peaks = self.block_peaks@;
        proof {
            assert(bf >= 1) by (nonlinear_arith)
                requires bf == 3 * self.sample_rate, self.sample_rate >= 1;
            assert(lo <= f) by (nonlinear_arith)
                requires nb == f / bf, bf >= 1, lo == nb * bf;
            assert(f % bf == f - lo) by (nonlinear_arith)
                requires nb == f / bf, bf >= 1, lo == nb * bf;
            assert forall|k: int|
                #![trigger self.ch_sum_sq@[k]]
                #![trigger self.ch_peak@[k]]
                0 <= k < c implies {
                &&& self.ch_sum_sq@[k] == chan_sum_sq(s, cn, k as nat, lo, f)
                &&& self.ch_peak@[k] == chan_peak(s, cn, k as nat, lo, f)
            } by {
                assert(self.block_sum_sq@[k]@.len() == nb);
            }
            assert forall|k: int| 0 <= k < c implies {
                &&& #[trigger] old_blocks[k]@.len() == nb
                &&& old_peaks[k]@.len() == nb
            } by {
                assert(self.block_sum_sq@[k]@.len() == nb);
            }
        }
        let len = data.len();
        let mut ch: usize = 0;
        while ch < c
            invariant
                self.shape(),
                c == self.channels,
                cn == c,
                bf == self.block_frames,
                bf >= 1,
                lo <= f,
                nb == f / bf,
                lo == nb * bf,
                0 <= ch <= c,
                f - lo < bf,
                base + c <= data@.len(),
                len == data@.len(),
                in_range(s),
                (f + 1) * cn <= s.len(),
                s.len() <= MAX_STREAM_SAMPLES,
                forall|k: int| 0 <= k < c ==> s[f * c + k] == #[trigger] data@[base + k],
                self.sample_rate == old(self).sample_rate,
                self.residual == old(self).residual,
                self.fed == old(self).fed,
                self.block_sum_sq@ == old_blocks,
                self.block_peaks@ == old_peaks,
                forall|k: int|
                    #![trigger old_blocks[k]]
                    #![trigger old_peaks[k]]
                    0 <= k < c ==> old_blocks[k]@.len() == nb && old_peaks[k]@.len() == nb,
                self.current_block_frames == old(self).current_block_frames,
                self.global_peak == max_mag(s, (f * cn + ch) as nat),
                forall|k: int|
                    0 <= k < ch ==> #[trigger] self.ch_sum_sq@[k] == chan_sum_sq(s, cn, k as nat, lo, f + 1),
                forall|k: int|
                    0 <= k < ch ==> #[trigger] self.ch_peak@[k] == chan_peak(s, cn, k as nat, lo, f + 1),
                forall|k: int|
                    ch <= k < c ==> #[trigger] self.ch_sum_sq@[k] == chan_sum_sq(s, cn, k as nat, lo, f),
                forall|k: int|
                    ch <= k < c ==> #[trigger] self.ch_peak@[k] == chan_peak(s, cn, k as nat, lo, f),
            decreases c - ch,
        {
            let x = data[base + ch];
            proof {
                lemma_frame_index(f, f + 1, cn, ch as nat);
                assert(s[f * cn + ch] == x);
                lemma_sample_bounds(x);
                assert(f * cn <= (f + 1) * cn) by (nonlinear_arith);
                lemma_sum_bound(s, cn, ch as nat, lo, f);
                assert(f + 1 <= s.len()) by (nonlinear_arith)
                    requires (f + 1) * cn <= s.len(), cn >= 1;
                assert((f - lo) * max_sq() + max_sq() <= 0x8000_0000_0000 * max_sq()) by (nonlinear_arith)
                    requires f - lo < f + 1, f + 1 <= 0x8000_0000_0000;
            }
            let m: u64 = if x < 0 {
                (0i64 - x) as u64
            } else {
                x as u64
            };
            proof {
                assert(m == mag(x));
                assert((m as int) * (m as int) == sq(x));
            }
            let m2: u128 = (m as u128) * (m as u128);
            let v: u128 = self.ch_sum_sq[ch] + m2;
            self.ch_sum_sq[ch] = v;
            if m > self.ch_peak[ch] {
                self.ch_peak[ch] = m;
            }
            if m > self.global_peak {
                self.global_peak = m;
            }
            ch = ch + 1;
        }
        proof {
            assert((f + 1) * cn == f * cn + cn) by (nonlinear_arith);
        }
        self.current_block_frames = self.current_block_frames + 1;
        if self.current_block_frames == self.block_frames {
            let mut k: usize = 0;
            while k < c
                invariant
                    self.shape(),
                    c == self.channels,
                    cn == c,
                    bf == self.block_frames,
                    bf >= 1,
                    0 <= k <= c,
                    f + 1 == lo + bf,
                    self.sample_rate == old(self).sample_rate,
                    self.residual == old(self).residual,
                    self.fed == old(self).fed,
                    self.current_block_frames == bf,
                    self.global_peak == max_mag(s, (f + 1) * cn),
                    forall|j: int| 0 <= j < c ==> #[trigger] self.block_sum_sq@[j]@.len() == nb + (if j < k { 1int } else { 0 }),
                    forall|j: int| 0 <= j < c ==> #[trigger] self.block_peaks@[j]@.len() == nb + (if j < k { 1int } else { 0 }),
                    forall|j: int, b: int| 0 <= j < c && 0 <= b < nb ==> #[trigger] self.block_sum_sq@[j]@[b] == old_blocks[j]@[b],
                    forall|j: int, b: int| 0 <= j < c && 0 <= b < nb ==> #[trigger] self.block_peaks@[j]@[b] == old_peaks[j]@[b],
                    forall|j: int| 0 <= j < k ==> #[trigger] self.block_sum_sq@[j]@[nb as int] == chan_sum_sq(s, cn, j as nat, lo, f + 1),
                    forall|j: int| 0 <= j < k ==> #[trigger] self.block_peaks@[j]@[nb as int] == chan_peak(s, cn, j as nat, lo, f + 1),
                    forall|j: int| 0 <= j < k ==> #[trigger] self.ch_sum_sq@[j] == 0,
                    forall|j: int| 0 <= j < k ==> #[trigger] self.ch_peak@[j] == 0,
                    forall|j: int| k <= j < c ==> #[trigger] self.ch_sum_sq@[j] == chan_sum_sq(s, cn, j as nat, lo, f + 1),
                    forall|j: int| k <= j < c ==> #[trigger] self.ch_peak@[j] == chan_peak(s, cn, j as nat, lo, f + 1),
                decreases c - k,
            {
                let v = self.ch_sum_sq[k];
                let p = self.ch_peak[k];
                self.block_sum_sq[k].push(v);
                self.block_peaks[k].push(p);
                self.ch_sum_sq[k] = 0;
                self.ch_peak[k] = 0;
                k = k + 1;
            }
            self.current_block_frames = 0;
            proof {
                assert((nb + 1) * bf == lo + bf) by (nonlinear_arith)
                    requires lo == nb * bf;
                vstd::arithmetic::div_mod::lemma_fundamental_div_mod_converse((f + 1) as int, bf as int, (nb + 1) as int, 0);
                assert forall|ch: int| 0 <= ch < cn implies {
                    &&& #[trigger] self.block_sum_sq@[ch]@.len() == nb + 1
                    &&& self.block_peaks@[ch]@.len() == nb + 1
                    &&& forall|b: int|
                        0 <= b < nb + 1 ==> #[trigger] self.block_sum_sq@[ch]@[b] == block_sum_sq(
                            s,
                            cn,
                            bf,
                            ch as nat,
                            b as nat,
                        )
                    &&& forall|b: int|
                        0 <= b < nb + 1 ==> #[trigger] self.block_peaks@[ch]@[b] == block_peak(
                            s,
                            cn,
                            bf,
                            ch as nat,
                            b as nat,
                        )
                    &&& self.ch_sum_sq@[ch] == chan_sum_sq(s, cn, ch as nat, (nb + 1) * bf, f + 1)
                    &&& self.ch_peak@[ch] == chan_peak(s, cn, ch as nat, (nb + 1) * bf, f + 1)
                } by {
                    assert(old_blocks[ch]@.len() == nb);
                    assert(self.block_sum_sq@[ch]@.len() == nb + 1);
                    assert(self.block_peaks@[ch]@.len() == nb + 1);
                }
            }
        } else {
            proof {
                vstd::arithmetic::div_mod::lemma_fundamental_div_mod_converse(
                    (f + 1) as int,
                    bf as int,
                    nb as int,
                    (f + 1 - lo) as int,
                );
                assert(self.current_block_frames == (f + 1) % bf);
                assert forall|ch: int| 0 <= ch < cn implies {
                    &&& #[trigger] self.block_sum_sq@[ch]@.len() == nb
                    &&& self.block_peaks@[ch]@.len() == nb
                    &&& forall|b: int|
                        0 <= b < nb ==> #[trigger] self.block_sum_sq@[ch]@[b] == block_sum_sq(
                            s,
                            cn,
                            bf,
                            ch as nat,
                            b as nat,
                        )
                    &&& forall|b: int|
                        0 <= b < nb ==> #[trigger] self.block_peaks@[ch]@[b] == block_peak(
                            s,
                            cn,
                            bf,
                            ch as nat,
                            b as nat,
                        )
                    &&& self.ch_sum_sq@[ch] == chan_sum_sq(s, cn, ch as nat, nb * bf, f + 1)
                    &&& self.ch_peak@[ch] == chan_peak(s, cn, ch as nat, nb * bf, f + 1)
                } by {
                    assert(old_blocks[ch]@.len() == nb);
                    assert(old(self).block_sum_sq@[ch]@.len() == nb);
                }
            }
        }
    }

    /// Adds the whole frames of `data` after the frames received so far and
    /// keeps its trailing partial frame as the residual.
    fn process(&mut self, data: &[i64])
        requires
            old(self).shape(),
            old(self).channels > 0,
            old(self).residual@.len() == 0,
            old(self).fed@.len() % (old(self).channels as nat) == 0,
            old(self).stats_of(old(self).fed@, old(self).fed@.len() / (old(self).channels as nat)),
            old(self).fed@.len() + data@.len() <= MAX_STREAM_SAMPLES,
            in_range(old(self).fed@),
            in_range(data@),
        ensures
            final(self).wf(),
            final(self).fed@ == old(self).fed@ + data@,
            final(self).channels == old(self).channels,
            final(self).sample_rate == old(self).sample_rate,
    {
        let c = self.channels;
        let n = data.len() / c;
        let ghost cn = c as nat;
        let ghost s = self.fed@ + data@;
        let ghost f0 = self.fed@.len() / cn;
        proof {
            assert(self.fed@.len() == f0 * cn) by (nonlinear_arith)
                requires f0 == self.fed@.len() / cn, self.fed@.len() % cn == 0, cn > 0;
            lemma_stats_prefix(self, self.fed@, s, f0);
            assert(n * c <= data@.len()) by (nonlinear_arith)
                requires n == data@.len() as int / (c as int), c > 0;
            assert forall|k: int| 0 <= k < s.len() implies mag(#[trigger] s[k]) <= MAX_SAMPLE by {
                if k < self.fed@.len() {
                    assert(s[k] == self.fed@[k]);
                } else {
                    assert(s[k] == data@[k - self.fed@.len()]);
                }
            }
        }
        let len = data.len();
        let mut i: usize = 0;
        while i < n
            invariant
                len == data@.len(),
                self.shape(),
                self.channels == c,
                cn == c,
                c > 0,
                i <= n,
                n == data@.len() as int / (c as int),
                n * c <= data@.len(),
                s == self.fed@ + data@,
                self.fed@.len() == f0 * cn,
                self.residual@.len() == 0,
                self.sample_rate == old(self).sample_rate,
                self.fed@ == old(self).fed@,
                self.stats_of(s, (f0 + i) as nat),
                in_range(s),
                s.len() <= MAX_STREAM_SAMPLES,
            decreases n - i,
        {
            proof {
                assert(i * c + c <= n * c) by (nonlinear_arith)
                    requires i < n;
                assert((f0 + i + 1) * cn == f0 * cn + (i * c + c)) by (nonlinear_arith)
                    requires cn == c;
                assert forall|k: int| 0 <= k < c implies s[(f0 + i) * cn + k] == #[trigger] data@[i * c + k] by {
                    assert((f0 + i) * cn + k == f0 * cn + (i * c + k)) by (nonlinear_arith)
                        requires cn == c;
                }
            }
            self.take_frame(data, i * c, Ghost(s), Ghost((f0 + i) as nat));
            i = i + 1;
        }
        let mut j: usize = n * c;
        while j < data.len()
            invariant
                n * c <= j <= data@.len(),
                self.residual@ =~= data@.subrange(n * c, j as int),
                self.shape(),
                self.channels == c,
                self.sample_rate == old(self).sample_rate,
                self.fed@ == old(self).fed@,
                self.stats_of(s, (f0 + n) as nat),
            decreases data@.len() - j,
        {
            self.residual.push(data[j]);
            j = j + 1;
        }
        let ghost stats_f = (f0 + n) as nat;
        proof {
            assert(self.stats_of(s, stats_f));
        }
        self.fed = Ghost(s);
        proof {
            assert(self.stats_of(s, stats_f));
            let r = data@.len() as int % (c as int);
            assert(data@.len() == n * c + r && 0 <= r < c) by (nonlinear_arith)
                requires n == data@.len() as int / (c as int), r == data@.len() as int % (c as int), c > 0;
            assert(s.len() == (f0 + n) * cn + r) by (nonlinear_arith)
                requires s.len() == f0 * cn + data@.len(), data@.len() == n * c + r, cn == c;
            vstd::arithmetic::div_mod::lemma_fundamental_div_mod_converse(s.len() as int, c as int, (f0 + n) as int, r);
            assert(self.frames_spec() == f0 + n);
            assert(self.residual@ =~= s.subrange(((f0 + n) * cn) as int, s.len() as int));
            assert(self.residual@.len() < cn);
            assert(s.len() <= MAX_STREAM_SAMPLES);
            assert(in_range(s));
            assert(self.stats_of(self.fed@, self.frames_spec()));
            assert(self.shape());
        }
    }

    /// Feeds interleaved samples (frame-major, `channels` per frame).
    /// Every completed 3-second block is recorded; samples of a trailing
    /// incomplete frame are held back and prepended to the next call.
    /// With zero channels this does nothing.
    pub fn push_samples(&mut self, interleaved: &[i64])
        requires
            old(self).wf(),
            old(self).fed().len() + interleaved@.len() <= MAX_STREAM_SAMPLES,
            in_range(interleaved@),
        ensures
            final(self).wf(),
            final(self).channels_spec() == old(self).channels_spec(),
            final(self).sample_rate_spec() == old(self).sample_rate_spec(),
            final(self).block_frames_spec() == old(self).block_frames_spec(),
            final(self).fed() == if old(self).channels_spec() == 0 {
                old(self).fed()
            } else {
                old(self).fed() + interleaved@
            },
            old(self).channels_spec() == 0 ==> *final(self) == *old(self),
            interleaved@.len() == 0 ==> final(self).fed() == old(self).fed(),
    {
        if self.channels == 0 {
            return;
        }
        proof {
            assert(interleaved@.len() == 0 ==> self.fed@ + interleaved@ =~= self.fed@);
        }
        let ghost full = self.fed@;
        let ghost cn = self.channels as nat;
        let ghost f = self.frames_spec();
        proof {
            assert(f * cn <= full.len()) by (nonlinear_arith)
                requires f == full.len() / cn, cn > 0;
        }
        if self.residual.len() == 0 {
            proof {
                assert(full.len() == f * cn);
                assert(full.len() % cn == 0) by (nonlinear_arith)
                    requires full.len() == f * cn, cn > 0;
                assert(full.len() / cn == f);
            }
            self.process(interleaved);
        } else {
            let mut data: Vec<i64> = Vec::new();
            data.append(&mut self.residual);
            data.extend_from_slice(interleaved);
            self.fed = Ghost(full.subrange(0, (f * cn) as int));
            proof {
                assert(self.fed@.len() % cn == 0 && self.fed@.len() / cn == f) by (nonlinear_arith)
                    requires self.fed@.len() == f * cn, cn > 0;
                lemma_stats_prefix(self, full, self.fed@, f);
                let tail = full.subrange((f * cn) as int, full.len() as int);
                assert(data@ =~= tail + interleaved@);
                assert forall|k: int| 0 <= k < self.fed@.len() implies mag(#[trigger] self.fed@[k]) <= MAX_SAMPLE by {
                    assert(self.fed@[k] == full[k]);
                }
                assert forall|k: int| 0 <= k < data@.len() implies mag(#[trigger] data@[k]) <= MAX_SAMPLE by {
                    if k < tail.len() {
                        assert(data@[k] == full[f * cn + k]);
                    } else {
                        assert(data@[k] == interleaved@[k - tail.len()]);
                    }
                }
            }
            self.process(data.as_slice());
            proof {
                assert(self.fed@ =~= full + interleaved@);
            }
        }
    }

    /// Reduces the completed blocks of every channel: the sum of squares of
    /// the loudest 20% of blocks and the second-largest block peak. The
    /// trailing incomplete block is discarded.
    pub fn finalize(self, total_frames: usize) -> (r: DrReduction)
        requires
            self.wf(),
        ensures
            r.channels == self.channels_spec(),
            r.sample_rate == self.sample_rate_spec(),
            r.block_frames == self.block_frames_spec(),
            r.total_frames == total_frames,
            r.global_peak == max_mag(
                self.fed(),
                whole_frames(self.fed().len(), self.channels_spec()) * self.channels_spec(),
            ),
            r.global_peak <= MAX_SAMPLE,
            r.block_count == whole_frames(self.fed().len(), self.channels_spec()) / self.block_frames_spec(),
            r.top_count == top_count(r.block_count as nat),
            r.per_channel@.len() == if r.block_count == 0 {
                0
            } else {
                self.channels_spec()
            },
            forall|c: int|
                0 <= c < r.per_channel@.len() ==> {
                    &&& (#[trigger] r.per_channel@[c]).top_sum_sq == top_sum(
                        block_sums(self.fed(), self.channels_spec(), self.block_frames_spec(), c as nat),
                        r.top_count as nat,
                    )
                    &&& r.per_channel@[c].peak == second_largest(
                        block_peaks(self.fed(), self.channels_spec(), self.block_frames_spec(), c as nat),
                    )
                },
    {
        let c = self.channels;
        let ghost s = self.fed@;
        let ghost cn = c as nat;
        let ghost bf = self.block_frames as nat;
        let ghost f = self.frames_spec();
        proof {
            if cn > 0 {
                assert(f * cn <= s.len()) by (nonlinear_arith)
                    requires f == s.len() / cn, cn > 0;
            }
            lemma_max_mag_le(s, f * cn, MAX_SAMPLE as nat);
            assert(bf >= 1) by (nonlinear_arith)
                requires bf == 3 * self.sample_rate, self.sample_rate >= 1;
        }
        let nb: usize = if c == 0 {
            0
        } else {
            self.block_sum_sq[0].len()
        };
        proof {
            if c > 0 {
                assert(self.block_sum_sq@[0]@.len() == f / bf);
            } else {
                assert(f == 0);
            }
        }
        let k: usize = if nb == 0 {
            1
        } else {
            (nb - 1) / 5 + 1
        };
        let ghost bound: nat = bf * max_sq();
        let mut per_channel: Vec<ChannelStats> = Vec::new();
        if nb > 0 {
            proof {
                assert(f == s.len() / cn);
                assert(nb * bf <= f) by (nonlinear_arith)
                    requires nb == f / bf, bf >= 1;
                assert(k <= nb);
                assert(k * bound <= u128::MAX) by (nonlinear_arith)
                    requires k <= nb, nb * bf <= f, f <= 0x8000_0000_0000, bound == bf * max_sq(),
                        max_sq() == 0x1_0000_0000_0000_0000_0000nat;
            }
            let mut ch: usize = 0;
            while ch < c
                invariant
                    self.wf(),
                    c == self.channels,
                    cn == c,
                    s == self.fed@,
                    bf == self.block_frames,
                    bf >= 1,
                    f == self.frames_spec(),
                    f == s.len() / cn,
                    f * cn <= s.len(),
                    nb == f / bf,
                    nb > 0,
                    k == (nb + 4) / 5,
                    k <= nb,
                    k * bound <= u128::MAX,
                    bound == bf * max_sq(),
                    ch <= c,
                    per_channel@.len() == ch,
                    forall|j: int|
                        0 <= j < ch ==> {
                            &&& (#[trigger] per_channel@[j]).top_sum_sq == top_sum(
                                block_sums(s, cn, bf, j as nat),
                                k as nat,
                            )
                            &&& per_channel@[j].peak == second_largest(block_peaks(s, cn, bf, j as nat))
                        },
                decreases c - ch,
            {
                let sums = &self.block_sum_sq[ch];
                let peaks = &self.block_peaks[ch];
                proof {
                    assert(sums@.len() == nb);
                    assert forall|b: int|
                        #![trigger sums@[b]]
                        #![trigger peaks@[b]]
                        0 <= b < nb implies sums@[b] <= bound && peaks@[b] <= MAX_SAMPLE by {
                        assert((b * bf + bf) * cn <= f * cn) by (nonlinear_arith)
                            requires 0 <= b < nb, nb == f / bf, bf >= 1;
                        lemma_sum_bound(s, cn, ch as nat, (b * bf) as nat, (b * bf + bf) as nat);
                    }
                    assert(sums@ =~= block_sums(s, cn, bf, ch as nat));
                }
                let mut wide: Vec<u128> = Vec::new();
                let mut b: usize = 0;
                while b < peaks.len()
                    invariant
                        b <= peaks@.len(),
                        wide@.len() == b,
                        forall|j: int| 0 <= j < b ==> #[trigger] wide@[j] == peaks@[j] as u128,
                    decreases peaks@.len() - b,
                {
                    wide.push(peaks[b] as u128);
                    b = b + 1;
                }
                proof {
                    assert(wide@ =~= block_peaks(s, cn, bf, ch as nat));
                }
                let sorted_sums = sort_desc(sums, Ghost(bound));
                let top = prefix_sum(&sorted_sums, k, Ghost(bound));
                let sorted_peaks = sort_desc(&wide, Ghost(MAX_SAMPLE as nat));
                let p: u128 = if sorted_peaks.len() >= 2 {
                    sorted_peaks[1]
                } else {
                    sorted_peaks[0]
                };
                per_channel.push(ChannelStats { top_sum_sq: top, peak: p as u64 });
                ch = ch + 1;
            }
        }
        DrReduction {
            channels: c,
            sample_rate: self.sample_rate,
            block_frames: self.block_frames,
            total_frames,
            block_count: nb,
            top_count: k,
            global_peak: self.global_peak,
            per_channel,
        }
    }

    /// A fresh state for `channels` interleaved channels at `sample_rate`
    /// frames per second; blocks are three seconds long.
    pub fn new(channels: usize, sample_rate: usize) -> (r: Self)
        requires
            1 <= sample_rate,
            BLOCK_SECONDS * sample_rate <= usize::MAX,
        ensures
            r.wf(),
            r.channels_spec() == channels,
            r.sample_rate_spec() == sample_rate,
            r.block_frames_spec() == BLOCK_SECONDS * sample_rate,
            r.fed() == Seq::<i64>::empty(),
    {
        let mut ch_sum_sq: Vec<u128> = Vec::new();
        let mut ch_peak: Vec<u64> = Vec::new();
        let mut block_sum_sq: Vec<Vec<u128>> = Vec::new();
        let mut block_peaks: Vec<Vec<u64>> = Vec::new();
        let mut i: usize = 0;
        while i < channels
            invariant
                i <= channels,
                ch_sum_sq@.len() == i,
                ch_peak@.len() == i,
                block_sum_sq@.len() == i,
                block_peaks@.len() == i,
                forall|k: int| 0 <= k < i ==> #[trigger] ch_sum_sq@[k] == 0,
                forall|k: int| 0 <= k < i ==> #[trigger] ch_peak@[k] == 0,
                forall|k: int| 0 <= k < i ==> #[trigger] block_sum_sq@[k]@.len() == 0,
                forall|k: int| 0 <= k < i ==> #[trigger] block_peaks@[k]@.len() == 0,
            decreases channels - i,
        {
            ch_sum_sq.push(0);
            ch_peak.push(0);
            block_sum_sq.push(Vec::new());
            block_peaks.push(Vec::new());
            i = i + 1;
        }
        let r = StreamingDrState {
            channels,
            sample_rate,
            block_frames: BLOCK_SECONDS * sample_rate,
            current_block_frames: 0,
            ch_sum_sq,
            ch_peak,
            block_sum_sq,
            block_peaks,
            global_peak: 0,
            residual: Vec::new(),
            fed: Ghost(Seq::empty()),
        };
        proof {
            if channels > 0 {
                assert(r.frames_spec() == 0) by (nonlinear_arith)
                    requires r.frames_spec() == 0nat / (channels as nat), channels > 0;
            }
            assert(r.residual@ =~= r.fed@.subrange(0, 0));
        }
        r
    }
}

} // verus!
