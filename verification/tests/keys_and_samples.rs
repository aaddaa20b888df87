use gs_waveform_measurements::key::{
    bits_of_key, is_less, is_less_eq, is_same, key_abs, key_max, key_min, key_of_bits, Key,
    QUIET_NAN_BITS,
};
use gs_waveform_measurements::sample::{
    check_monotonic, clip, locate, Location, MeasureError, Sample, Window, NOT_SORTED,
};

fn key(x: f64) -> Key {
    key_of_bits(x.to_bits())
}

fn series(points: &[(f64, f64)]) -> Vec<Sample> {
    points.iter().map(|&(t, v)| Sample::new(key(t), key(v))).collect()
}

const PROBES: [f64; 11] = [
    f64::NEG_INFINITY,
    -1e300,
    -2.5,
    -1e-300,
    -0.0,
    0.0,
    1e-300,
    2.5,
    3.0,
    1e300,
    f64::INFINITY,
];

#[test]
fn key_order_agrees_with_float_order() {
    for &a in PROBES.iter() {
        for &b in PROBES.iter() {
            assert_eq!(is_less(key(a), key(b)), a < b, "{a} < {b}");
            assert_eq!(is_less_eq(key(a), key(b)), a <= b, "{a} <= {b}");
            assert_eq!(is_same(key(a), key(b)), a == b, "{a} == {b}");
        }
        assert!(!is_less(key(a), key(f64::NAN)));
        assert!(!is_less_eq(key(f64::NAN), key(a)));
        assert!(!is_same(key(a), key(f64::NAN)));
    }
    assert!(!is_same(key(f64::NAN), key(f64::NAN)));
}

#[test]
fn key_bits_round_trip() {
    for &a in PROBES.iter() {
        let back = f64::from_bits(bits_of_key(key(a)));
        assert_eq!(back, a);
    }
    assert_eq!(bits_of_key(key(-0.0)), 0);
    assert_eq!(key(-0.0), Key::zero());
    assert_eq!(key(0.0), Key::Num(0));
    assert_eq!(bits_of_key(key(f64::NAN)), QUIET_NAN_BITS);
    assert!(f64::from_bits(bits_of_key(key(f64::NAN))).is_nan());
    assert_eq!(key(f64::INFINITY), Key::PosInf);
    assert_eq!(key(f64::NEG_INFINITY), Key::NegInf);
    assert_eq!(key(1.5), Key::Num(1.5f64.to_bits() as i64));
}

#[test]
fn key_max_min_abs_follow_f64() {
    for &a in PROBES.iter() {
        for &b in PROBES.iter() {
            if a != b {
                assert_eq!(key_max(key(a), key(b)), key(a.max(b)));
                assert_eq!(key_min(key(a), key(b)), key(a.min(b)));
            }
        }
        assert_eq!(key_max(key(a), key(f64::NAN)), key(a));
        assert_eq!(key_max(key(f64::NAN), key(a)), key(a));
        assert_eq!(key_min(key(f64::NAN), key(a)), key(a));
        assert_eq!(key_abs(key(a)), key(a.abs()));
    }
    assert_eq!(key_abs(key(f64::NAN)), Key::NaN);
}

#[test]
fn locate_midpoint_is_between_neighbours() {
    let s = series(&[(0.0, 0.0), (2.0, 10.0)]);
    assert_eq!(locate(&s, key(1.0)), Location::Between(1));
}

#[test]
fn locate_outside_domain() {
    let s = series(&[(0.0, 0.0), (2.0, 10.0)]);
    assert_eq!(locate(&s, key(-1.0)), Location::Outside);
    assert_eq!(locate(&s, key(3.0)), Location::Outside);
    assert_eq!(locate(&[], key(3.0)), Location::Outside);
}

#[test]
fn locate_on_samples() {
    let s = series(&[(0.0, 0.0), (1.0, 1.0), (2.0, 4.0), (3.5, 1.0), (7.0, 0.0)]);
    assert_eq!(locate(&s, key(0.0)), Location::At(0));
    assert_eq!(locate(&s, key(-0.0)), Location::At(0));
    assert_eq!(locate(&s, key(2.0)), Location::At(2));
    assert_eq!(locate(&s, key(3.5)), Location::At(3));
    assert_eq!(locate(&s, key(7.0)), Location::At(4));
    assert_eq!(locate(&s, key(3.0)), Location::Between(3));
    assert_eq!(locate(&s, key(6.9)), Location::Between(4));
    assert_eq!(locate(&s, key(0.1)), Location::Between(1));
}

#[test]
fn check_monotonic_accepts_increasing_and_rejects_repeats() {
    assert_eq!(check_monotonic(&series(&[(0.0, 1.0), (1.0, 1.0), (5.0, 0.0)])), Ok(()));
    assert_eq!(check_monotonic(&[]), Ok(()));
    assert_eq!(
        check_monotonic(&series(&[(0.0, 1.0), (1.0, 1.0), (1.0, 0.0)])),
        Err(MeasureError::InvalidParameter(NOT_SORTED))
    );
    assert_eq!(
        check_monotonic(&series(&[(2.0, 1.0), (1.0, 1.0)])),
        Err(MeasureError::InvalidParameter(NOT_SORTED))
    );
}

#[test]
fn check_monotonic_rejects_nan_times() {
    for times in [[0.0, f64::NAN, 2.0], [f64::NAN, 1.0, 2.0], [0.0, 1.0, f64::NAN]] {
        let s: Vec<Sample> = times.iter().map(|&t| Sample::new(key(t), key(1.0))).collect();
        assert_eq!(check_monotonic(&s), Err(MeasureError::InvalidParameter(NOT_SORTED)));
        assert_eq!(clip(&s, &Window::full()), Err(MeasureError::InvalidParameter(NOT_SORTED)));
    }
    assert_eq!(
        check_monotonic(&series(&[(f64::NAN, 1.0)])),
        Err(MeasureError::InvalidParameter(NOT_SORTED))
    );
}

#[test]
fn clip_places_interpolated_bounds() {
    let s = series(&[(0.0, 0.0), (1.0, 10.0), (2.0, 0.0)]);
    let w = Window::new(key(0.5), key(1.5));
    let c = clip(&s, &w).unwrap();
    assert_eq!(c.lo, key(0.5));
    assert_eq!(c.lo_at, Location::Between(1));
    assert_eq!(c.hi, key(1.5));
    assert_eq!(c.hi_at, Location::Between(2));
    assert_eq!((c.start, c.end), (1, 2));
}

#[test]
fn clip_full_window_keeps_interior_and_ends() {
    let s = series(&[(0.0, 0.0), (1.0, 10.0), (2.0, -4.0), (3.0, 2.0)]);
    let c = clip(&s, &Window::full()).unwrap();
    assert_eq!((c.lo, c.hi), (key(0.0), key(3.0)));
    assert_eq!((c.lo_at, c.hi_at), (Location::At(0), Location::At(3)));
    assert_eq!((c.start, c.end), (1, 3));
}

#[test]
fn clip_window_on_samples_and_delay() {
    let s = series(&[(0.0, 0.0), (1.0, 10.0), (2.0, -4.0), (3.0, 2.0)]);
    let w = Window { from: Some(key(0.5)), to: Some(key(2.0)), td: Some(key(1.0)) };
    assert_eq!(w.effective_from(), key(1.0));
    let c = clip(&s, &w).unwrap();
    assert_eq!((c.lo_at, c.hi_at), (Location::At(1), Location::At(2)));
    assert_eq!((c.start, c.end), (2, 2));
}

#[test]
fn clip_errors() {
    assert_eq!(clip(&[], &Window::full()), Err(MeasureError::EmptySeries));
    let unsorted = series(&[(1.0, 0.0), (0.0, 0.0)]);
    assert_eq!(
        clip(&unsorted, &Window::full()),
        Err(MeasureError::InvalidParameter(NOT_SORTED))
    );
    let s = series(&[(0.0, 0.0), (1.0, 10.0)]);
    assert_eq!(
        clip(&s, &Window::new(key(2.0), key(3.0))),
        Err(MeasureError::EmptyWindow)
    );
    assert_eq!(
        clip(&series(&[(0.0, 1.0)]), &Window::full()),
        Err(MeasureError::EmptyWindow)
    );
}

#[test]
fn window_bounds_default_to_infinities() {
    let w = Window::full();
    assert_eq!(w.effective_from(), Key::NegInf);
    assert_eq!(w.effective_to(), Key::PosInf);
    let w = Window { from: None, to: None, td: Some(key(4.0)) };
    assert_eq!(w.effective_from(), key(4.0));
    let w = Window { from: Some(key(f64::NAN)), to: None, td: Some(key(4.0)) };
    assert_eq!(w.effective_from(), key(4.0));
}
