//! An SSTV transcoder for the Martin M1 mode.
//!
//! The encoder turns an RGB raster into a timeline of tones and renders it as a
//! phase-continuous sequence of phase indices; the decoder reads a timeline of
//! instantaneous frequencies and rebuilds the image row by row, resuming where it
//! stopped whenever it runs out of input.
use vstd::prelude::*;

pub mod common;
pub mod gui;
pub mod laws;
pub mod martinm1;
pub mod raster;

verus! {

/// The sample rate of every signal handled by the library, in hertz.
pub const SAMPLE_RATE: usize = 44100;

} // verus!
