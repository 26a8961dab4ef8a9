//! A waveshaping distortion core: each sample is clipped to a threshold and
//! rescaled by it, frame by frame, with one threshold value per frame shared
//! by every channel.
use vstd::prelude::*;

pub mod corrosion;
pub mod waveshaper;

verus! {

/// The largest number of frames handed over in one processing call.
pub const MAX_BLOCK_SIZE: usize = 64;

} // verus!
