//! One step of the analysis pipeline: from the bins of a frame's spectrum to
//! the packed levels handed to the renderer.
use crate::animate::{animate_seq, AudioVisualizerState, ALPHA_ONE};
use crate::bucketize::{bucket_levels, bucketize_fft_to_ranges};
use crate::normalize::{is_packing, normalize_buckets};
use crate::smooth::{smooth, smooth_passes};
use vstd::prelude::*;

verus! {

/// The spectrum of one frame, reduced to what the buckets need: the squared
/// magnitude of every bin, and for each bin of the lower half the
/// logarithmic bucket index that its frequency falls in (rounded down, and
/// possibly outside the bucket range).
pub struct SpectrumFrame {
    pub power: Vec<u32>,
    pub bin_bucket: Vec<i64>,
}

/// The tunable parameters of the pipeline.
pub struct PipelineSettings {
    /// Number of smoothing passes.
    pub smoothing: u32,
    /// Radius of the smoothing neighbourhood, in buckets.
    pub smoothing_size: u32,
    /// Interpolation factor, in units of `ALPHA_ONE`.
    pub interpolation_factor: u32,
}

/// The levels after bucketing, smoothing and easing from `previous`.
pub open spec fn animated_levels(
    previous: Seq<u32>,
    frame: SpectrumFrame,
    settings: PipelineSettings,
) -> Seq<u32> {
    let levels = bucket_levels(frame.power@, frame.bin_bucket@, previous.len());
    let smoothed = smooth_passes(levels, settings.smoothing as nat, settings.smoothing_size as nat);
    animate_seq(previous, smoothed, settings.interpolation_factor as int)
}

/// Handles one tick. With no frame, or a frame with an empty spectrum, nothing
/// is done: the state is kept and `None` comes back. Otherwise the frame's
/// bins are bucketed into as many buckets as the state holds, smoothed,
/// eased from the state (which takes the new levels), and returned rescaled
/// and packed.
pub fn audio_event_system(
    visualizer_state: &mut AudioVisualizerState,
    frame: Option<SpectrumFrame>,
    settings: &PipelineSettings,
) -> (r: Option<Vec<[u32; 4]>>)
    requires
        settings.interpolation_factor <= ALPHA_ONE,
        frame matches Some(f) ==> f.bin_bucket@.len() == f.power@.len() / 2,
    ensures
        match frame {
            Some(f) if f.power@.len() > 0 => {
                let animated = animated_levels(old(visualizer_state)@, f, *settings);
                &&& final(visualizer_state)@ == animated
                &&& r matches Some(out) && is_packing(out@, animated)
            },
            _ => r is None && final(visualizer_state)@ == old(visualizer_state)@,
        },
{
    match frame {
        Some(f) => {
            if f.power.len() == 0 {
                return None;
            }
            let num_buckets = visualizer_state.len();
            let mut buckets = bucketize_fft_to_ranges(&f.power, &f.bin_bucket, num_buckets);
            smooth(&mut buckets, settings.smoothing, settings.smoothing_size);
            let animated = visualizer_state.animate_buckets(
                &buckets,
                settings.interpolation_factor,
            );
            Some(normalize_buckets(&animated))
        },
        None => None,
    }
}

} // verus!
