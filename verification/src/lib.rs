//! A streaming binaural convolution engine.
//!
//! The engine turns a long head-related impulse response and a continuous
//! stream of small audio blocks into a causal stereo output, using a
//! short-time overlap-add scheme: incoming samples are gathered into
//! fixed-size analysis windows, each window is convolved with the current
//! impulse response, and the window outputs are recombined by overlap-add
//! into a continuous stream.
//!
//! Samples and filter coefficients are fixed-point integers, so every
//! arithmetic step is exact and the streamed output is proved equal, sample
//! for sample, to the direct linear convolution of the input stream with the
//! impulse response, delayed by one analysis window.

use vstd::prelude::*;

pub mod channel;
pub mod conv;
pub mod engine;
pub mod filter;
pub mod laws;
pub mod ola;
pub mod params;

verus! {

/// Largest analysis-window length the engine accepts.
pub const WINDOW_LIMIT: usize = 1048576;

/// Largest impulse-response length the engine accepts.
pub const FILTER_LEN_LIMIT: usize = 32768;

/// Largest magnitude of a single impulse-response coefficient.
pub const COEFF_LIMIT: i64 = 32767;

/// Largest magnitude of a single input sample.
pub const SAMPLE_LIMIT: i64 = 2147483647;

/// Bound on every value the engine computes: an output sample is a sum of at
/// most `FILTER_LEN_LIMIT` products of one coefficient and one input sample,
/// so its magnitude never exceeds this, which is well inside `i64` range.
pub open spec fn value_bound() -> int {
    (FILTER_LEN_LIMIT as int) * (COEFF_LIMIT as int) * (SAMPLE_LIMIT as int)
}

} // verus!
