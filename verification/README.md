# gs-waveform-measurements

Post-simulation waveform measurements in the style of ngspice's `.measure` and Xyce's
`.MEASURE` (max/min/RMS/integral, threshold crossings, TRIG-TARG, cycle counts, bounded-harmonic
Fourier analysis, error norms) over a non-uniformly sampled `(time, value)` series.

## Layout

- `src/` is the verified core, proved with Verus. It makes every decision a measurement takes,
  over the *order keys* of the series' doubles (`src/key.rs`): a key compares the way its double
  does under IEEE-754, NaN included, so the decisions are stated and proved over integers.
  - `sample`: locating a time among the samples, the monotonicity check, clipping to a window.
  - `crossing`: zero crossings of a difference series and their direction, `RISE=`/`FALL=`/
    `CROSS=` selection, the slope(s) behind `DERIV`, the common grid of two series.
  - `cycle`: the two-level (Schmitt-trigger) detector behind `FREQ`/`ON_TIME`/`OFF_TIME`.
  - `scalar`: the sample holding `MAX`/`MIN`, first on a plateau.
  - `error_metrics`: the samples `ERR1`/`ERR2` and `ERROR` compare.
  - `fourier`: the checks of a `FOUR` request.
- `app/` holds the public API over `f64` samples: it turns doubles into keys, calls the core, and
  does the floating-point arithmetic (interpolation, integrals, norms, Fourier kernels), which
  Verus does not reason about.
- `tests/` exercises the core on concrete series.
