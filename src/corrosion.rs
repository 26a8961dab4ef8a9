//! The processing interface: initialization with a sample rate, then one call
//! per block that shapes every channel in place.
use vstd::prelude::*;

verus! {

use crate::waveshaper::{floor_threshold, floored, shape_sample, shaped};

/// One channel of a block after shaping: frame `i` of `xs` under the
/// threshold `ts[i]`, floored to one step.
pub open spec fn shaped_channel(xs: Seq<i32>, ts: Seq<i32>) -> Seq<i32> {
    Seq::new(xs.len(), |i: int| shaped(xs[i] as int, floored(ts[i] as int)) as i32)
}

/// Every channel of `buf` holds one sample per threshold in `ts`.
pub open spec fn frames_match(buf: Seq<Vec<i32>>, ts: Seq<i32>) -> bool {
    forall|c: int| 0 <= c < buf.len() ==> (#[trigger] buf[c]).len() == ts.len()
}

/// The samples of each channel of `buf`.
pub open spec fn channels(buf: Seq<Vec<i32>>) -> Seq<Seq<i32>> {
    buf.map_values(|v: Vec<i32>| v@)
}

/// A whole block after shaping: every channel under the same per-frame
/// thresholds `ts`.
pub open spec fn shaped_block(input: Seq<Seq<i32>>, ts: Seq<i32>) -> Seq<Seq<i32>> {
    input.map_values(|xs: Seq<i32>| shaped_channel(xs, ts))
}

/// Channels stay coherent: in a block shaped under one shared threshold
/// sequence, two channels that held the same input samples hold the same
/// output samples.
pub proof fn lemma_channel_coherence(input: Seq<Seq<i32>>, ts: Seq<i32>, a: int, b: int)
    requires
        0 <= a < input.len(),
        0 <= b < input.len(),
        input[a] == input[b],
    ensures
        shaped_block(input, ts)[a] == shaped_block(input, ts)[b],
{
}

/// The distortion effect. It keeps no signal state: what changes from block
/// to block is the threshold, which the caller smooths and hands over frame by
/// frame.
pub struct Corrosion {
    sample_rate: u32,
}

impl Corrosion {
    /// The sample rate in hertz that `initialize` accepted; zero before that.
    pub closed spec fn spec_sample_rate(&self) -> u32 {
        self.sample_rate
    }

    /// Whether `initialize` has accepted a sample rate.
    pub open spec fn is_initialized(&self) -> bool {
        self.spec_sample_rate() > 0
    }

    /// An effect that has not been initialized yet.
    pub fn new() -> (r: Corrosion)
        ensures
            r.spec_sample_rate() == 0,
            !r.is_initialized(),
    {
        Corrosion { sample_rate: 0 }
    }

    /// Prepares the effect for the given sample rate. A rate of zero is a
    /// configuration error: it is refused and the effect stays as it was.
    pub fn initialize(&mut self, sample_rate: u32) -> (ok: bool)
        ensures
            ok == (sample_rate > 0),
            ok ==> final(self).spec_sample_rate() == sample_rate,
            !ok ==> final(self).spec_sample_rate() == old(self).spec_sample_rate(),
    {
        if sample_rate == 0 {
            false
        } else {
            self.sample_rate = sample_rate;
            true
        }
    }

    /// The sample rate that `initialize` accepted, or zero.
    pub fn sample_rate(&self) -> (r: u32)
        ensures
            r == self.spec_sample_rate(),
    {
        self.sample_rate
    }

    /// Shapes a block in place. `buffer` holds one sample sequence per
    /// channel and `thresholds` one threshold per frame; frame `i` of every
    /// channel is shaped under `thresholds[i]`, and each output depends only on
    /// that channel's own input sample at frame `i`.
    pub fn distortion(&self, buffer: &mut Vec<Vec<i32>>, thresholds: &Vec<i32>)
        requires
            frames_match(old(buffer)@, thresholds@),
        ensures
            final(buffer)@.len() == old(buffer)@.len(),
            channels(final(buffer)@) == shaped_block(channels(old(buffer)@), thresholds@),
            forall|c: int|
                0 <= c < old(buffer)@.len() ==> #[trigger] final(buffer)@[c]@ == shaped_channel(
                    old(buffer)@[c]@,
                    thresholds@,
                ),
    {
        let ghost orig = buffer@;
        let n_channels = buffer.len();
        let n_frames = thresholds.len();
        let mut i: usize = 0;
        while i < n_frames
            invariant
                0 <= i <= n_frames,
                n_frames == thresholds@.len(),
                n_channels == orig.len(),
                buffer@.len() == n_channels,
                frames_match(orig, thresholds@),
                forall|c: int|
                    0 <= c < n_channels ==> (#[trigger] buffer@[c]).len() == n_frames,
                forall|c: int, j: int|
                    0 <= c < n_channels && 0 <= j < i ==> #[trigger] buffer@[c]@[j] == shaped(
                        orig[c]@[j] as int,
                        floored(thresholds@[j] as int),
                    ) as i32,
                forall|c: int, j: int|
                    0 <= c < n_channels && i <= j < n_frames ==> #[trigger] buffer@[c]@[j]
                        == orig[c]@[j],
            decreases n_frames - i,
        {
            let t = floor_threshold(thresholds[i]);
            let mut c: usize = 0;
            while c < n_channels
                invariant
                    0 <= i < n_frames,
                    0 <= c <= n_channels,
                    n_frames == thresholds@.len(),
                    n_channels == orig.len(),
                    buffer@.len() == n_channels,
                    t as int == floored(thresholds@[i as int] as int),
                    t >= 1,
                    forall|k: int|
                        0 <= k < n_channels ==> (#[trigger] buffer@[k]).len() == n_frames,
                    forall|k: int, j: int|
                        0 <= k < n_channels && (0 <= j < i || (j == i && k < c))
                            ==> #[trigger] buffer@[k]@[j] == shaped(
                            orig[k]@[j] as int,
                            floored(thresholds@[j] as int),
                        ) as i32,
                    forall|k: int, j: int|
                        0 <= k < n_channels && ((i < j < n_frames) || (j == i && c <= k))
                            ==> #[trigger] buffer@[k]@[j] == orig[k]@[j],
                decreases n_channels - c,
            {
                let x = buffer[c][i];
                let y = shape_sample(x, t);
                buffer[c].set(i, y);
                c += 1;
            }
            i += 1;
        }
        proof {
            assert forall|c: int| 0 <= c < n_channels implies #[trigger] buffer@[c]@
                =~= shaped_channel(orig[c]@, thresholds@) by {}
            assert(channels(buffer@) =~= shaped_block(channels(orig), thresholds@));
        }
    }
}

impl Default for Corrosion {
    fn default() -> (r: Corrosion)
        ensures
            r.spec_sample_rate() == 0,
    {
        Corrosion::new()
    }
}

} // verus!
