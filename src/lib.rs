//! A real-time waveform pipeline: a bounded sample channel between an audio
//! capture callback and a render loop, and a rasterizer that turns a batch of
//! samples into a monochrome pixel grid.
//!
//! Samples are fixed-point amplitudes: `raster::FULL_SCALE` units make one
//! unit of full scale, so a driver value of `1.0` is carried as `1_000_000`.

pub mod channel;
pub mod raster;
