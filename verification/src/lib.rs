//! Post-simulation waveform measurements over a `(time, value)` series: the decisions behind
//! `.measure`-style scalar, crossing, cycle, error and Fourier measurements, proved over the
//! order keys of the series' doubles.

use vstd::prelude::*;

pub mod key;
pub mod sample;
pub mod crossing;
pub mod cycle;
pub mod scalar;
pub mod error_metrics;
pub mod fourier;

verus! {
}
