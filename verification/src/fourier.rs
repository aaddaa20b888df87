//! `FOUR`: bounded-harmonic Fourier analysis. What is decided here is whether the request is
//! valid and which stretch of the series the coefficients are integrated over; the closed-form
//! integral of each linear segment against the harmonic kernel is the caller's arithmetic.

use vstd::prelude::*;

use crate::key::{is_less_eq, less_eq, Key};
use crate::sample::{clip, clip_spec, Clip, MeasureError, Sample, Window};

verus! {

/// The message of the error for a request of no harmonics at all.
pub const NO_HARMONICS: &'static str = "num_harmonics must be at least 1 (the DC term)";

/// The message of the error for a fundamental frequency that is not positive.
pub const FREQ_NOT_POSITIVE: &'static str = "fundamental_freq must be positive";

/// Checks a `FOUR` request and clips the series to its window, over which the coefficients are
/// integrated.
///
/// Errors, in the order they are checked: [`MeasureError::InvalidParameter`] for zero harmonics,
/// then for a fundamental frequency at or below zero (a NaN frequency passes), then the errors
/// of [`clip`].
pub fn four_window(
    samples: &[Sample],
    window: &Window,
    fundamental_freq: Key,
    num_harmonics: usize,
) -> (r: Result<Clip, MeasureError>)
    ensures
        num_harmonics == 0 ==> r == Err::<Clip, MeasureError>(
            MeasureError::InvalidParameter(NO_HARMONICS),
        ),
        num_harmonics > 0 && less_eq(fundamental_freq, Key::spec_zero()) ==> r == Err::<
            Clip,
            MeasureError,
        >(MeasureError::InvalidParameter(FREQ_NOT_POSITIVE)),
        num_harmonics > 0 && !less_eq(fundamental_freq, Key::spec_zero()) ==> clip_spec(
            samples@,
            *window,
            r,
        ),
{
    if num_harmonics == 0 {
        return Err(MeasureError::InvalidParameter(NO_HARMONICS));
    }
    if is_less_eq(fundamental_freq, Key::zero()) {
        return Err(MeasureError::InvalidParameter(FREQ_NOT_POSITIVE));
    }
    clip(samples, window)
}

/// What a `FOUR` result holds: one harmonic per order `0..num_harmonics` (DC first, then the
/// fundamental, then the overtones), and a total harmonic distortion only where there is at
/// least one overtone beside the DC term and the fundamental.
#[derive(Debug)]
pub struct FourLayout {
    /// The harmonic orders, in the order they are reported.
    pub orders: Vec<usize>,
    /// Whether the total harmonic distortion is defined (otherwise it is reported as NaN).
    pub has_thd: bool,
}

/// The layout of the result of a `FOUR` request of `num_harmonics` terms: orders `0` to
/// `num_harmonics - 1` in turn, and a THD exactly when `num_harmonics >= 3`.
pub fn four_layout(num_harmonics: usize) -> (r: FourLayout)
    ensures
        r.orders@.len() == num_harmonics,
        forall|i: int| 0 <= i < num_harmonics ==> #[trigger] r.orders@[i] == i,
        r.has_thd <==> num_harmonics >= 3,
{
    let mut orders: Vec<usize> = Vec::new();
    let mut n: usize = 0;
    while n < num_harmonics
        invariant
            n <= num_harmonics,
            orders@.len() == n,
            forall|i: int| 0 <= i < n ==> #[trigger] orders@[i] == i,
        decreases num_harmonics - n,
    {
        orders.push(n);
        n = n + 1;
    }
    FourLayout { orders, has_thd: num_harmonics >= 3 }
}

} // verus!
