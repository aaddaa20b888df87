use gs_waveform_measurements::cycle::{cycle_count_and_bounds, walk, Run};
use gs_waveform_measurements::error_metrics::{err_terms, error_norm_points};
use gs_waveform_measurements::fourier::{four_layout, four_window, FREQ_NOT_POSITIVE, NO_HARMONICS};
use gs_waveform_measurements::key::{key_of_bits, Key};
use gs_waveform_measurements::sample::{clip, Location, MeasureError, Sample, Window};
use gs_waveform_measurements::scalar::{max_at, min_at};

fn key(x: f64) -> Key {
    key_of_bits(x.to_bits())
}

fn series(points: &[(f64, f64)]) -> Vec<Sample> {
    points.iter().map(|&(t, v)| Sample::new(key(t), key(v))).collect()
}

fn square_wave(periods: usize, high: f64) -> Vec<Sample> {
    let mut s = Vec::new();
    let eps = 1e-9;
    let mut t = 0.0;
    s.push((t, 0.0));
    for _ in 0..periods {
        s.push((t + eps, 1.0));
        t += high;
        s.push((t - eps, 1.0));
        s.push((t + eps, 0.0));
        t += 1.0 - high;
        s.push((t - eps, 0.0));
    }
    s.push((t, 0.0));
    series(&s)
}

fn run(first: usize, last: usize) -> Run {
    Run { first, last }
}

/// The time the segment starting at sample `i` crosses `level`.
fn crossing_time(s: &[(f64, f64)], i: usize, level: f64) -> f64 {
    let ((t0, v0), (t1, v1)) = (s[i], s[i + 1]);
    t0 + (level - v0) * (t1 - t0) / (v1 - v0)
}

/// The time per complete cycle spent in the given runs, each widened to its level crossings.
fn time_per_cycle(s: &[(f64, f64)], runs: &[Run], level: f64, on: f64, lo_seg: usize, hi_seg: usize, n: usize) -> f64 {
    let lo = crossing_time(s, lo_seg, on);
    let hi = crossing_time(s, hi_seg, on);
    let mut total = 0.0;
    for r in runs {
        let a = if r.first == 0 { s[0].0 } else { crossing_time(s, r.first - 1, level) };
        let b = if r.last + 1 == s.len() { s[s.len() - 1].0 } else { crossing_time(s, r.last, level) };
        total += (b.min(hi) - a.max(lo)).max(0.0);
    }
    total / n as f64
}

#[test]
fn square_wave_cycles() {
    let s = square_wave(4, 0.5);
    let w = walk(&s, key(0.5), key(0.5));
    assert_eq!(w.on_crossings, vec![0, 4, 8, 12]);
    assert_eq!(w.at_or_above_on, vec![run(1, 2), run(5, 6), run(9, 10), run(13, 14)]);
    assert_eq!(
        w.at_or_below_off,
        vec![run(0, 0), run(3, 4), run(7, 8), run(11, 12), run(15, 17)]
    );
    assert_eq!(cycle_count_and_bounds(&w), Ok((3, 0, 12)));
}

#[test]
fn series_starting_above_on_has_no_on_crossing_at_its_start() {
    let pts = [(0.0, 1.0), (1.0, 0.0), (2.0, 1.0), (3.0, 0.0), (4.0, 1.0)];
    let s = series(&pts);
    let w = walk(&s, key(0.5), key(0.5));
    assert_eq!(w.on_crossings, vec![1, 3]);
    let (n, first, last) = cycle_count_and_bounds(&w).unwrap();
    assert_eq!((n, first, last), (1, 1, 3));
    let span = crossing_time(&pts, last, 0.5) - crossing_time(&pts, first, 0.5);
    assert!((n as f64 / span - 0.5).abs() < 1e-12);
}

#[test]
fn on_and_off_time_count_time_at_the_levels_not_latched_time() {
    let pts = [(0.0, 0.0), (1.0, 1.0), (2.0, 0.0), (3.0, 1.0), (4.0, 0.0), (5.0, 1.0)];
    let s = series(&pts);
    let w = walk(&s, key(0.8), key(0.2));
    assert_eq!(w.on_crossings, vec![0, 2, 4]);
    assert_eq!(w.at_or_above_on, vec![run(1, 1), run(3, 3), run(5, 5)]);
    assert_eq!(w.at_or_below_off, vec![run(0, 0), run(2, 2), run(4, 4)]);
    let (n, first, last) = cycle_count_and_bounds(&w).unwrap();
    assert_eq!((n, first, last), (2, 0, 4));
    let on_t = time_per_cycle(&pts, &w.at_or_above_on, 0.8, 0.8, first, last, n);
    let off_t = time_per_cycle(&pts, &w.at_or_below_off, 0.2, 0.8, first, last, n);
    assert!((on_t - 0.4).abs() < 1e-9, "on {on_t}");
    assert!((off_t - 0.4).abs() < 1e-9, "off {off_t}");
}

#[test]
fn signal_starting_high_is_in_a_run_but_not_a_crossing() {
    let s = series(&[(0.0, 1.0), (1.0, 0.0), (2.0, 1.0), (3.0, 1.0)]);
    let w = walk(&s, key(0.6), key(0.4));
    assert_eq!(w.on_crossings, vec![1]);
    assert_eq!(w.at_or_above_on, vec![run(0, 0), run(2, 3)]);
    assert_eq!(w.at_or_below_off, vec![run(1, 1)]);
    assert_eq!(cycle_count_and_bounds(&w), Err(MeasureError::NotFound));
}

#[test]
fn hysteresis_band_ignores_wiggles() {
    // Starts between the levels, wiggles inside the band, then rises through `on` once.
    let s = series(&[(0.0, 0.5), (1.0, 0.55), (2.0, 0.45), (3.0, 0.9)]);
    let w = walk(&s, key(0.8), key(0.2));
    assert_eq!(w.on_crossings, vec![2]);
    assert_eq!(w.at_or_above_on, vec![run(3, 3)]);
    assert_eq!(w.at_or_below_off, vec![]);
    assert_eq!(cycle_count_and_bounds(&w), Err(MeasureError::NotFound));
}

#[test]
fn latching_needs_a_fall_through_off_between_crossings() {
    // Rises through `on`, dips below `on` but not through `off`, rises again: one crossing.
    let s = series(&[(0.0, 0.0), (1.0, 1.0), (2.0, 0.5), (3.0, 1.0), (4.0, 0.0), (5.0, 1.0)]);
    let w = walk(&s, key(0.8), key(0.2));
    assert_eq!(w.on_crossings, vec![0, 4]);
    assert_eq!(w.at_or_above_on, vec![run(1, 1), run(3, 3), run(5, 5)]);
    assert_eq!(w.at_or_below_off, vec![run(0, 0), run(4, 4)]);
}

#[test]
fn single_level_runs_tile_the_series() {
    let s = series(&[(0.0, 0.0), (1.0, 0.5), (2.0, 1.0), (3.0, 0.5), (4.0, 0.0)]);
    let w = walk(&s, key(0.5), key(0.5));
    assert_eq!(w.at_or_above_on, vec![run(1, 3)]);
    assert_eq!(w.at_or_below_off, vec![run(0, 1), run(3, 4)]);
}

#[test]
fn extrema_and_their_first_instants() {
    let s = series(&[(0.0, 0.0), (1.0, 10.0), (2.0, -4.0), (3.0, 2.0)]);
    assert_eq!(max_at(&s), 1);
    assert_eq!(min_at(&s), 2);
    let plateau = series(&[(0.0, 1.0), (1.0, 3.0), (2.0, 3.0), (3.0, -1.0), (4.0, -1.0)]);
    assert_eq!(max_at(&plateau), 1);
    assert_eq!(min_at(&plateau), 3);
    assert_eq!(max_at(&series(&[(0.0, 5.0)])), 0);
}

#[test]
fn err_terms_keep_in_band_samples_inside_comparison() {
    let m = series(&[(0.0, 2.0), (1.0, -4.0), (2.0, 0.5), (3.0, 8.0)]);
    let c = series(&[(0.0, 1.0), (2.5, 2.0)]);
    let terms = err_terms(&m, &c, key(1.0), key(5.0)).unwrap();
    assert_eq!(terms, vec![(0, Location::At(0)), (1, Location::Between(1))]);
    assert_eq!(
        err_terms(&m, &c, key(10.0), key(20.0)),
        Err(MeasureError::EmptyWindow)
    );
    assert_eq!(err_terms(&[], &c, key(0.0), key(1.0)), Err(MeasureError::EmptySeries));
    assert_eq!(err_terms(&m, &[], key(0.0), key(1.0)), Err(MeasureError::EmptySeries));
}

#[test]
fn error_norm_uses_measured_times_in_reference_domain() {
    let reference = series(&[(0.0, 0.0), (1.0, 10.0), (2.0, 0.0)]);
    let measured = series(&[(-1.0, 3.0), (0.0, 3.0), (1.5, 13.0), (2.0, 3.0), (2.5, 0.0)]);
    let pts = error_norm_points(&measured, &reference).unwrap();
    assert_eq!(
        pts,
        vec![(1, Location::At(0)), (2, Location::Between(2)), (3, Location::At(2))]
    );
    let far = series(&[(5.0, 1.0)]);
    assert_eq!(error_norm_points(&far, &reference), Err(MeasureError::EmptyWindow));
    assert_eq!(error_norm_points(&[], &reference), Err(MeasureError::EmptySeries));
}

#[test]
fn four_request_checks() {
    let s = series(&[(0.0, 0.0), (1.0, 1.0)]);
    assert_eq!(
        four_window(&s, &Window::full(), key(1.0), 0),
        Err(MeasureError::InvalidParameter(NO_HARMONICS))
    );
    assert_eq!(
        four_window(&s, &Window::full(), key(0.0), 3),
        Err(MeasureError::InvalidParameter(FREQ_NOT_POSITIVE))
    );
    assert_eq!(
        four_window(&s, &Window::full(), key(-2.0), 3),
        Err(MeasureError::InvalidParameter(FREQ_NOT_POSITIVE))
    );
    let c = four_window(&s, &Window::full(), key(50.0), 3).unwrap();
    assert_eq!((c.lo_at, c.hi_at), (Location::At(0), Location::At(1)));
    assert_eq!(four_window(&[], &Window::full(), key(50.0), 3), Err(MeasureError::EmptySeries));
}

#[test]
fn four_layout_lists_orders_and_when_thd_is_defined() {
    let l = four_layout(5);
    assert_eq!(l.orders, vec![0, 1, 2, 3, 4]);
    assert!(l.has_thd);
    let l = four_layout(3);
    assert_eq!(l.orders, vec![0, 1, 2]);
    assert!(l.has_thd);
    let l = four_layout(2);
    assert_eq!(l.orders, vec![0, 1]);
    assert!(!l.has_thd);
    let l = four_layout(1);
    assert_eq!(l.orders, vec![0]);
    assert!(!l.has_thd);
    assert!(four_layout(0).orders.is_empty());
}

#[test]
fn four_request_with_nan_time_is_not_increasing() {
    let s = series(&[(0.0, 0.0), (f64::NAN, 1.0), (2.0, 0.0)]);
    assert_eq!(
        four_window(&s, &Window::full(), key(50.0), 3),
        Err(MeasureError::InvalidParameter(gs_waveform_measurements::sample::NOT_SORTED))
    );
}

#[test]
fn maximum_is_never_below_minimum() {
    let s = series(&[(0.0, -3.0), (1.0, -3.0), (2.0, -7.5), (3.0, -1.0), (4.0, -1.0)]);
    let (hi, lo) = (max_at(&s), min_at(&s));
    assert_eq!((hi, lo), (3, 2));
    let constant = series(&[(0.0, 2.0), (1.0, 2.0), (2.0, 2.0)]);
    assert_eq!((max_at(&constant), min_at(&constant)), (0, 0));
}

#[test]
fn err_terms_of_identical_series_use_every_sample() {
    let m = series(&[(0.0, 1.0), (1.0, 2.0), (2.0, 3.0)]);
    let terms = err_terms(&m, &m, key(1e-15), key(1e15)).unwrap();
    assert_eq!(terms, vec![(0, Location::At(0)), (1, Location::At(1)), (2, Location::At(2))]);
}

#[test]
fn err_terms_of_halved_comparison() {
    let m = series(&[(0.0, 2.0), (1.0, 4.0)]);
    let c = series(&[(0.0, 1.0), (1.0, 2.0)]);
    let terms = err_terms(&m, &c, key(1e-15), key(1e15)).unwrap();
    assert_eq!(terms, vec![(0, Location::At(0)), (1, Location::At(1))]);
}

#[test]
fn error_norm_points_of_constant_offset() {
    let reference = series(&[(0.0, 0.0), (1.0, 10.0), (2.0, 0.0)]);
    let measured = series(&[(0.0, 3.0), (1.0, 13.0), (2.0, 3.0)]);
    let pts = error_norm_points(&measured, &reference).unwrap();
    assert_eq!(pts, vec![(0, Location::At(0)), (1, Location::At(1)), (2, Location::At(2))]);
}

#[test]
fn error_norm_points_of_single_outlier() {
    let reference = series(&[(0.0, 0.0), (1.0, 0.0), (2.0, 0.0), (3.0, 0.0)]);
    let measured = series(&[(0.0, 0.0), (1.0, 10.0), (2.0, 0.0), (3.0, 0.0)]);
    let pts = error_norm_points(&measured, &reference).unwrap();
    assert_eq!(
        pts,
        vec![(0, Location::At(0)), (1, Location::At(1)), (2, Location::At(2)), (3, Location::At(3))]
    );
}

#[test]
fn windowed_maximum_is_the_interpolated_boundary() {
    let pts = [(0.0, 0.0), (1.0, 10.0), (2.0, -4.0), (3.0, 2.0)];
    let s = series(&pts);
    let c = clip(&s, &Window::new(key(1.5), key(3.0))).unwrap();
    assert_eq!((c.lo_at, c.hi_at, c.start, c.end), (Location::Between(2), Location::At(3), 2, 3));
    // The sample interpolated at 1.5 between (1, 10) and (2, -4) has the value 3.
    let lo_value = 10.0 + 0.5 * (-4.0 - 10.0);
    assert_eq!(lo_value, 3.0);
    let clipped = series(&[(1.5, lo_value), (2.0, -4.0), (3.0, 2.0)]);
    assert_eq!(max_at(&clipped), 0);
}
