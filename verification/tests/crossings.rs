use gs_waveform_measurements::crossing::{
    deriv_at, diff_grid, find_at, find_crossings, select_crossing, Crossing, Edge, GridPoint,
    Occurrence, Side, Slope, ZERO_OCCURRENCE,
};
use gs_waveform_measurements::key::{key_of_bits, Key};
use gs_waveform_measurements::sample::{Location, MeasureError, Sample, NOT_SORTED};

fn key(x: f64) -> Key {
    key_of_bits(x.to_bits())
}

fn series(points: &[(f64, f64)]) -> Vec<Sample> {
    points.iter().map(|&(t, v)| Sample::new(key(t), key(v))).collect()
}

/// The difference series of `points` from the level `level`.
fn diff(points: &[(f64, f64)], level: f64) -> Vec<Sample> {
    points.iter().map(|&(t, v)| Sample::new(key(t), key(v - level))).collect()
}

fn rising(segment: usize) -> Crossing {
    Crossing { segment, edge: Edge::Rising }
}

fn falling(segment: usize) -> Crossing {
    Crossing { segment, edge: Edge::Falling }
}

#[test]
fn ramp_crosses_once_rising() {
    let d = diff(&[(0.0, 0.0), (10.0, 10.0)], 4.0);
    let c = find_crossings(&d);
    assert_eq!(c, vec![rising(0)]);
    assert_eq!(select_crossing(&c, Edge::Rising, Occurrence::Nth(1)), Ok(0));
    assert_eq!(select_crossing(&c, Edge::Falling, Occurrence::Nth(1)), Err(MeasureError::NotFound));
}

#[test]
fn triangle_rise_and_fall_are_told_apart() {
    let d = diff(&[(0.0, 0.0), (1.0, 1.0), (2.0, 0.0)], 0.5);
    let c = find_crossings(&d);
    assert_eq!(c, vec![rising(0), falling(1)]);
    assert_eq!(select_crossing(&c, Edge::Rising, Occurrence::Nth(1)), Ok(0));
    assert_eq!(select_crossing(&c, Edge::Falling, Occurrence::Nth(1)), Ok(1));
    assert_eq!(select_crossing(&c, Edge::Either, Occurrence::Nth(2)), Ok(1));
    assert_eq!(select_crossing(&c, Edge::Either, Occurrence::Last), Ok(1));
    assert_eq!(select_crossing(&c, Edge::Rising, Occurrence::Last), Ok(0));
}

#[test]
fn nonuniform_ramp_crossing_lies_in_the_segment_that_straddles_the_level() {
    let d = diff(&[(0.0, 0.0), (0.1, 1.0), (0.15, 1.5), (1.0, 10.0)], 1.2);
    assert_eq!(find_crossings(&d), vec![rising(1)]);
}

#[test]
fn reaching_zero_counts_once_and_flat_zero_not_at_all() {
    // -1 -> 0 rises (ends at zero), 0 -> 0 is flat, 0 -> 1 starts at zero: no second rise.
    let d = series(&[(0.0, -1.0), (1.0, 0.0), (2.0, 0.0), (3.0, 1.0), (4.0, -0.0), (5.0, -2.0)]);
    assert_eq!(find_crossings(&d), vec![rising(0), falling(3)]);
    assert_eq!(find_crossings(&[]), vec![]);
    assert_eq!(find_crossings(&series(&[(0.0, -1.0)])), vec![]);
}

#[test]
fn nan_differences_cross_nothing() {
    let d = series(&[(0.0, -1.0), (1.0, f64::NAN), (2.0, 1.0)]);
    assert_eq!(find_crossings(&d), vec![]);
}

#[test]
fn occurrence_zero_is_invalid_and_missing_occurrences_not_found() {
    let c = vec![rising(0), falling(3), rising(5)];
    assert_eq!(
        select_crossing(&c, Edge::Rising, Occurrence::Nth(0)),
        Err(MeasureError::InvalidParameter(ZERO_OCCURRENCE))
    );
    assert_eq!(
        select_crossing(&[], Edge::Rising, Occurrence::Nth(0)),
        Err(MeasureError::InvalidParameter(ZERO_OCCURRENCE))
    );
    assert_eq!(select_crossing(&c, Edge::Rising, Occurrence::Nth(2)), Ok(2));
    assert_eq!(select_crossing(&c, Edge::Rising, Occurrence::Nth(3)), Err(MeasureError::NotFound));
    assert_eq!(select_crossing(&c, Edge::Either, Occurrence::Nth(3)), Ok(2));
    assert_eq!(select_crossing(&[], Edge::Either, Occurrence::Last), Err(MeasureError::NotFound));
    assert_eq!(select_crossing(&c, Edge::Falling, Occurrence::Last), Ok(1));
}

#[test]
fn find_at_locates_inside_and_rejects_outside() {
    let s = series(&[(0.0, 0.0), (10.0, 20.0)]);
    assert_eq!(find_at(&s, key(3.0)), Ok(Location::Between(1)));
    assert_eq!(find_at(&s, key(10.0)), Ok(Location::At(1)));
    assert_eq!(find_at(&s, key(11.0)), Err(MeasureError::NotFound));
    assert_eq!(find_at(&[], key(1.0)), Err(MeasureError::NotFound));
    let bad = series(&[(0.0, 0.0), (0.0, 1.0)]);
    assert_eq!(find_at(&bad, key(0.0)), Err(MeasureError::InvalidParameter(NOT_SORTED)));
}

#[test]
fn deriv_inside_a_segment_is_that_segment() {
    let s = series(&[(0.0, 0.0), (2.0, 6.0)]);
    assert_eq!(deriv_at(&s, key(1.0)), Ok(Slope::Segment(0)));
}

#[test]
fn deriv_on_an_interior_sample_is_central() {
    let s = series(&[(0.0, 0.0), (1.0, 1.0), (2.0, 4.0)]);
    assert_eq!(deriv_at(&s, key(1.0)), Ok(Slope::Central(1)));
    assert_eq!(deriv_at(&s, key(0.0)), Ok(Slope::Segment(0)));
    assert_eq!(deriv_at(&s, key(2.0)), Ok(Slope::Segment(1)));
    assert_eq!(deriv_at(&s, key(1.5)), Ok(Slope::Segment(1)));
}

#[test]
fn deriv_errors() {
    let s = series(&[(0.0, 0.0), (1.0, 1.0)]);
    assert_eq!(deriv_at(&s, key(1.5)), Err(MeasureError::NotFound));
    assert_eq!(deriv_at(&s, key(-0.5)), Err(MeasureError::NotFound));
    assert_eq!(deriv_at(&series(&[(0.0, 1.0)]), key(0.0)), Err(MeasureError::EmptySeries));
    assert_eq!(deriv_at(&[], key(0.0)), Err(MeasureError::EmptySeries));
    let bad = series(&[(1.0, 0.0), (0.0, 1.0)]);
    assert_eq!(deriv_at(&bad, key(0.5)), Err(MeasureError::InvalidParameter(NOT_SORTED)));
}

#[test]
fn grid_of_two_series_on_different_grids() {
    let var1 = series(&[(0.0, 0.0), (10.0, 10.0)]);
    let var2 = series(&[(0.0, 5.0), (3.0, 5.0), (10.0, 5.0)]);
    let g = diff_grid(&var1, &var2).unwrap();
    let order: Vec<(Side, usize)> = g.iter().map(|p| (p.side, p.index)).collect();
    assert_eq!(
        order,
        vec![(Side::Var, 0), (Side::Other, 0), (Side::Other, 1), (Side::Var, 1), (Side::Other, 2)]
    );
    assert_eq!(
        g[2],
        GridPoint {
            side: Side::Other,
            index: 1,
            var_at: Location::Between(1),
            other_at: Location::At(1)
        }
    );
    assert_eq!(g[3].var_at, Location::At(1));
    assert_eq!(g[3].other_at, Location::At(2));
}

#[test]
fn grid_keeps_only_the_common_domain() {
    let var1 = series(&[(0.0, 0.0), (2.0, 1.0), (6.0, 2.0), (9.0, 0.0)]);
    let var2 = series(&[(1.0, 5.0), (4.0, 5.0), (7.0, 5.0)]);
    let g = diff_grid(&var1, &var2).unwrap();
    let order: Vec<(Side, usize)> = g.iter().map(|p| (p.side, p.index)).collect();
    assert_eq!(
        order,
        vec![(Side::Other, 0), (Side::Var, 1), (Side::Other, 1), (Side::Var, 2), (Side::Other, 2)]
    );
    assert_eq!(g[0].var_at, Location::Between(1));
    assert_eq!(g[4].var_at, Location::Between(3));
}

#[test]
fn grid_errors() {
    let a = series(&[(0.0, 0.0), (1.0, 1.0)]);
    let b = series(&[(2.0, 0.0), (3.0, 1.0)]);
    assert_eq!(diff_grid(&a, &b), Err(MeasureError::EmptyWindow));
    let touching = series(&[(1.0, 0.0), (3.0, 1.0)]);
    assert_eq!(diff_grid(&a, &touching), Err(MeasureError::EmptyWindow));
    assert_eq!(diff_grid(&a, &[]), Err(MeasureError::EmptySeries));
    let bad = series(&[(1.0, 0.0), (0.0, 1.0)]);
    assert_eq!(diff_grid(&a, &bad), Err(MeasureError::InvalidParameter(NOT_SORTED)));
    assert_eq!(diff_grid(&bad, &[]), Err(MeasureError::InvalidParameter(NOT_SORTED)));
}
