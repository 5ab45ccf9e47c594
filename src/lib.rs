//! A fixed-point audio analysis pipeline: spectrum bins are gathered into
//! logarithmic frequency buckets, smoothed across neighbouring buckets,
//! animated towards each new frame and normalised for display.
pub mod animate;
pub mod bucketize;
pub mod normalize;
pub mod padding;
pub mod pipeline;
pub mod smooth;
