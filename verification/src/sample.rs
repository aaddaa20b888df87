//! The time series every measurement walks, seen through the order keys of its times and
//! values, and the primitives all measurements share: locating a time among the samples,
//! checking that the times increase, and clipping a series to a measurement window.
//!
//! Every measurement treats its input as piecewise linear between real samples. What is decided
//! here is *where* a time falls (on a sample, strictly between two, or outside the series) and
//! *which* samples a window keeps; the value interpolated at such a place is the caller's
//! arithmetic on the doubles the keys stand for.

use vstd::prelude::*;

use crate::key::{
    is_less, is_less_eq, is_same, key_max, key_min, lemma_max_min_pick_an_argument, less, less_eq,
    same, spec_key_max, spec_key_min, Key,
};

verus! {

/// The message of the error for a series whose times do not strictly increase.
pub const NOT_SORTED: &'static str = "samples must be sorted by strictly increasing t";

/// Why a measurement could not be made.
#[derive(Debug, Clone, Copy, PartialEq, Eq)]
pub enum MeasureError {
    /// The input series had fewer than two samples, so no interval-based quantity is defined.
    EmptySeries,
    /// The window (after intersecting its bounds with the series' own domain) holds fewer than
    /// two samples.
    EmptyWindow,
    /// A crossing, threshold or fixed time was requested but never occurs.
    NotFound,
    /// A parameter combination is invalid independent of the data.
    InvalidParameter(&'static str),
}

/// One observation of a signal: the keys of its time and of its value.
#[derive(Debug, Clone, Copy, PartialEq, Eq, Structural)]
pub struct Sample {
    /// The key of the time.
    pub t: Key,
    /// The key of the value at that time.
    pub v: Key,
}

impl Sample {
    /// Constructs a sample.
    pub fn new(t: Key, v: Key) -> (s: Sample)
        ensures
            s.t == t,
            s.v == v,
    {
        Sample { t, v }
    }
}

/// A measurement window: the `FROM=`, `TO=` and `TD=` bounds, each optional.
#[derive(Debug, Clone, Copy, PartialEq, Eq, Structural)]
pub struct Window {
    /// Start of the window; `None` leaves it unconstrained.
    pub from: Option<Key>,
    /// End of the window; `None` leaves it unconstrained.
    pub to: Option<Key>,
    /// A delay before which nothing is measured; combines with `from` by the later of the two.
    pub td: Option<Key>,
}

/// The later of `FROM` and `TD`, `-inf` where neither is given.
pub open spec fn spec_effective_from(w: Window) -> Key {
    match (w.from, w.td) {
        (Some(a), Some(b)) => spec_key_max(a, b),
        (Some(a), None) => a,
        (None, Some(b)) => b,
        (None, None) => Key::NegInf,
    }
}

/// `TO`, `+inf` where it is not given.
pub open spec fn spec_effective_to(w: Window) -> Key {
    match w.to {
        Some(b) => b,
        None => Key::PosInf,
    }
}

impl Window {
    /// The unconstrained window: the whole series.
    pub fn full() -> (w: Window)
        ensures
            w.from is None,
            w.to is None,
            w.td is None,
    {
        Window { from: None, to: None, td: None }
    }

    /// A window from `from` to `to`, both inclusive, with no delay.
    pub fn new(from: Key, to: Key) -> (w: Window)
        ensures
            w.from == Some(from),
            w.to == Some(to),
            w.td is None,
    {
        Window { from: Some(from), to: Some(to), td: None }
    }

    /// The effective lower bound, `max(FROM, TD)` by `f64::max`, `-inf` where neither is set.
    pub fn effective_from(&self) -> (k: Key)
        ensures
            k == spec_effective_from(*self),
    {
        match (self.from, self.td) {
            (Some(a), Some(b)) => key_max(a, b),
            (Some(a), None) => a,
            (None, Some(b)) => b,
            (None, None) => Key::NegInf,
        }
    }

    /// The effective upper bound, `TO`, `+inf` where it is not set.
    pub fn effective_to(&self) -> (k: Key)
        ensures
            k == spec_effective_to(*self),
    {
        match self.to {
            Some(b) => b,
            None => Key::PosInf,
        }
    }
}

/// No sample time is a NaN.
pub open spec fn no_nan_times(s: Seq<Sample>) -> bool {
    forall|i: int| 0 <= i < s.len() ==> !(#[trigger] s[i]).t.is_nan()
}

/// The times never decrease (and none is a NaN): the order every lookup requires.
pub open spec fn sorted_times(s: Seq<Sample>) -> bool {
    &&& no_nan_times(s)
    &&& forall|i: int, j: int| 0 <= i < j < s.len() ==> less_eq(#[trigger] s[i].t, #[trigger] s[j].t)
}

/// No time is a NaN and no two neighbouring samples have a later-or-equal time first: the
/// strict increase that `check_monotonic` accepts.
pub open spec fn increasing_times(s: Seq<Sample>) -> bool {
    &&& no_nan_times(s)
    &&& forall|i: int| 1 <= i < s.len() ==> !less_eq(#[trigger] s[i].t, s[i - 1].t)
}

/// Every time comes strictly before every later one.
pub open spec fn strictly_sorted_times(s: Seq<Sample>) -> bool {
    &&& no_nan_times(s)
    &&& forall|i: int, j: int| 0 <= i < j < s.len() ==> less(#[trigger] s[i].t, #[trigger] s[j].t)
}

/// Where a time falls among the samples of a series.
#[derive(Debug, Clone, Copy, PartialEq, Eq, Structural)]
pub enum Location {
    /// Before the first sample, after the last, or the series is empty.
    Outside,
    /// Exactly on the time of the sample at this index.
    At(usize),
    /// Strictly between the samples at this index minus one and this index.
    Between(usize),
}

/// `loc` says truly where `t` falls among the samples `s`.
pub open spec fn located(s: Seq<Sample>, t: Key, loc: Location) -> bool {
    match loc {
        Location::Outside => s.len() == 0 || less(t, s[0].t) || less(s[s.len() - 1].t, t),
        Location::At(i) => i < s.len() && same(s[i as int].t, t),
        Location::Between(i) => 0 < i < s.len() && less(s[i - 1].t, t) && less(t, s[i as int].t),
    }
}

/// A series whose neighbours increase strictly, with no NaN time, is strictly sorted.
pub proof fn lemma_increasing_is_strictly_sorted(s: Seq<Sample>)
    requires
        increasing_times(s),
    ensures
        strictly_sorted_times(s),
        sorted_times(s),
{
    assert forall|i: int, j: int| 0 <= i < j < s.len() implies less(
        #[trigger] s[i].t,
        #[trigger] s[j].t,
    ) by {
        lemma_increasing_span(s, i, j);
    }
}

proof fn lemma_increasing_span(s: Seq<Sample>, i: int, j: int)
    requires
        increasing_times(s),
        0 <= i < j < s.len(),
    ensures
        less(s[i].t, s[j].t),
    decreases j - i,
{
    assert(!s[j - 1].t.is_nan() && !s[j].t.is_nan());
    assert(!less_eq(s[j].t, s[j - 1].t));
    if i < j - 1 {
        lemma_increasing_span(s, i, j - 1);
    }
}

/// On a series whose times increase strictly, a time falls in exactly one place: the lookup
/// behind every interpolation is well defined.
pub proof fn lemma_located_unique(s: Seq<Sample>, t: Key, a: Location, b: Location)
    requires
        strictly_sorted_times(s),
        located(s, t, a),
        located(s, t, b),
    ensures
        a == b,
{
    match (a, b) {
        (Location::At(i), Location::At(j)) => {
            if i < j {
                assert(less(s[i as int].t, s[j as int].t));
            } else if j < i {
                assert(less(s[j as int].t, s[i as int].t));
            }
        },
        (Location::At(i), Location::Between(j)) => {
            if i < j - 1 {
                assert(less(s[i as int].t, s[j - 1].t));
            } else if i > j {
                assert(less(s[j as int].t, s[i as int].t));
            }
        },
        (Location::Between(i), Location::At(j)) => {
            if j < i - 1 {
                assert(less(s[j as int].t, s[i - 1].t));
            } else if j > i {
                assert(less(s[i as int].t, s[j as int].t));
            }
        },
        (Location::Between(i), Location::Between(j)) => {
            if i < j {
                assert(less(s[i as int].t, s[j - 1].t) || i == j - 1);
            } else if j < i {
                assert(less(s[j as int].t, s[i - 1].t) || j == i - 1);
            }
        },
        (Location::Outside, Location::Outside) => {},
        (Location::Outside, Location::At(j)) => {
            assert(less_eq(s[0].t, s[j as int].t) || j == 0);
            assert(less_eq(s[j as int].t, s[s.len() - 1].t) || j == s.len() - 1);
        },
        (Location::At(i), Location::Outside) => {
            assert(less_eq(s[0].t, s[i as int].t) || i == 0);
            assert(less_eq(s[i as int].t, s[s.len() - 1].t) || i == s.len() - 1);
        },
        (Location::Outside, Location::Between(j)) => {
            assert(less_eq(s[0].t, s[j - 1].t) || j - 1 == 0);
            assert(less_eq(s[j as int].t, s[s.len() - 1].t) || j == s.len() - 1);
        },
        (Location::Between(i), Location::Outside) => {
            assert(less_eq(s[0].t, s[i - 1].t) || i - 1 == 0);
            assert(less_eq(s[i as int].t, s[s.len() - 1].t) || i == s.len() - 1);
        },
    }
}

/// Where `t` falls among `samples` (the lookup behind every "value at a time"): outside the
/// series' domain, on a sample, or strictly between two neighbours.
///
/// A time equal to the first sample's is placed on the first sample, one equal to the last
/// sample's on the last; any other time equal to a sample's is placed on some sample with that
/// time.
pub fn locate(samples: &[Sample], t: Key) -> (r: Location)
    requires
        sorted_times(samples@),
        samples@.len() > 0 ==> !t.is_nan(),
    ensures
        located(samples@, t, r),
        (r is Outside) <==> (samples@.len() == 0 || less(t, samples@[0].t) || less(
            samples@[samples@.len() - 1].t,
            t,
        )),
        samples@.len() > 0 && same(t, samples@[0].t) ==> r == Location::At(0),
        samples@.len() > 0 && !same(t, samples@[0].t) && same(t, samples@[samples@.len() - 1].t)
            ==> r == Location::At((samples@.len() - 1) as usize),
{
    let n = samples.len();
    if n == 0 {
        return Location::Outside;
    }
    let first = samples[0].t;
    let last = samples[n - 1].t;
    if is_less(t, first) || is_less(last, t) {
        return Location::Outside;
    }
    if is_same(t, first) {
        return Location::At(0);
    }
    if is_same(t, last) {
        return Location::At(n - 1);
    }
    assert(less(samples@[0].t, t) && less(t, samples@[n - 1].t));
    let mut lo: usize = 0;
    let mut hi: usize = n - 1;
    while hi - lo > 1
        invariant
            sorted_times(samples@),
            n == samples@.len(),
            !t.is_nan(),
            lo < hi < n,
            less(samples@[lo as int].t, t),
            less_eq(t, samples@[hi as int].t),
        decreases hi - lo,
    {
        let mid = lo + (hi - lo) / 2;
        if is_less(samples[mid].t, t) {
            lo = mid;
        } else {
            assert(!samples@[mid as int].t.is_nan());
            hi = mid;
        }
    }
    if is_same(samples[hi].t, t) {
        Location::At(hi)
    } else {
        Location::Between(hi)
    }
}

/// `Ok(())` exactly when the times increase strictly: no time is a NaN, and none is
/// later-or-equal to the next one.
pub fn check_monotonic(samples: &[Sample]) -> (r: Result<(), MeasureError>)
    ensures
        r is Ok <==> increasing_times(samples@),
        !(r is Ok) ==> r == Err::<(), MeasureError>(MeasureError::InvalidParameter(NOT_SORTED)),
{
    let n = samples.len();
    let mut i: usize = 0;
    while i < n
        invariant
            n == samples@.len(),
            i <= n,
            forall|k: int| 0 <= k < i ==> !(#[trigger] samples@[k]).t.is_nan(),
            forall|k: int| 1 <= k < i ==> !less_eq(#[trigger] samples@[k].t, samples@[k - 1].t),
        decreases n - i,
    {
        if samples[i].t == Key::NaN {
            assert(!no_nan_times(samples@));
            return Err(MeasureError::InvalidParameter(NOT_SORTED));
        }
        if i > 0 && is_less_eq(samples[i].t, samples[i - 1].t) {
            assert(!increasing_times(samples@));
            return Err(MeasureError::InvalidParameter(NOT_SORTED));
        }
        i = i + 1;
    }
    Ok(())
}

/// How a series is cut down to a window: the window's effective bounds `lo` and `hi`, where each
/// falls among the samples (the caller inserts a sample interpolated there), and the range
/// `start..end` of the real samples strictly between them, which are kept as they are.
#[derive(Debug, Clone, Copy, PartialEq, Eq, Structural)]
pub struct Clip {
    /// The effective start: the later of the window's start and the first sample's time.
    pub lo: Key,
    /// Where `lo` falls among the samples.
    pub lo_at: Location,
    /// The effective end: the earlier of the window's end and the last sample's time.
    pub hi: Key,
    /// Where `hi` falls among the samples.
    pub hi_at: Location,
    /// The first kept sample.
    pub start: usize,
    /// One past the last kept sample.
    pub end: usize,
}

/// The window's effective start, bounded below by the first sample's time.
pub open spec fn clip_lo(s: Seq<Sample>, w: Window) -> Key {
    spec_key_max(spec_effective_from(w), s[0].t)
}

/// The window's effective end, bounded above by the last sample's time.
pub open spec fn clip_hi(s: Seq<Sample>, w: Window) -> Key {
    spec_key_min(spec_effective_to(w), s[s.len() - 1].t)
}

/// The real samples a clip keeps are exactly those strictly between its bounds.
#[verifier::spinoff_prover]
proof fn lemma_clip_range(
    s: Seq<Sample>,
    lo: Key,
    hi: Key,
    lo_at: Location,
    hi_at: Location,
    start: usize,
    end: usize,
)
    requires
        strictly_sorted_times(s),
        less(lo, hi),
        located(s, lo, lo_at),
        !(lo_at is Outside),
        located(s, hi, hi_at),
        !(hi_at is Outside),
        start == match lo_at {
            Location::At(i) => i + 1,
            Location::Between(i) => i as int,
            Location::Outside => 0,
        },
        end == match hi_at {
            Location::At(j) => j as int,
            Location::Between(j) => j as int,
            Location::Outside => 0,
        },
    ensures
        start <= end <= s.len(),
        forall|i: int|
            0 <= i < s.len() ==> (start <= i < end <==> less(lo, #[trigger] s[i].t) && less(
                s[i].t,
                hi,
            )),
{
        assert forall|i: int| 0 <= i < s.len() implies (start <= i < end <==> less(
        lo,
        #[trigger] s[i].t,
    ) && less(s[i].t, hi)) by {
        if i < start {
            match lo_at {
                Location::At(k) => {
                    if i < k {
                        assert(less(s[i].t, s[k as int].t));
                    }
                },
                Location::Between(k) => {
                    if i < k - 1 {
                        assert(less(s[i].t, s[k - 1].t));
                    }
                },
                Location::Outside => {},
            }
        } else {
            match lo_at {
                Location::At(k) => {
                    if i > k {
                        assert(less(s[k as int].t, s[i].t));
                    }
                },
                Location::Between(k) => {
                    if i > k {
                        assert(less(s[k as int].t, s[i].t));
                    }
                },
                Location::Outside => {},
            }
        }
        if i >= end {
            match hi_at {
                Location::At(k) => {
                    if i > k {
                        assert(less(s[k as int].t, s[i].t));
                    }
                },
                Location::Between(k) => {
                    if i > k {
                        assert(less(s[k as int].t, s[i].t));
                    }
                },
                Location::Outside => {},
            }
        } else {
            match hi_at {
                Location::At(k) => {
                    assert(less(s[i].t, s[k as int].t));
                },
                Location::Between(k) => {
                    if i < k - 1 {
                        assert(less(s[i].t, s[k - 1].t));
                    }
                },
                Location::Outside => {},
            }
        }
    }
    match lo_at {
        Location::At(k) => {
            match hi_at {
                Location::At(m) => {
                    if m < k {
                        assert(less(s[m as int].t, s[k as int].t));
                    }
                },
                Location::Between(m) => {
                    if m <= k {
                        if m - 1 < k {
                            assert(less(s[m - 1].t, s[k as int].t));
                        }
                    }
                },
                Location::Outside => {},
            }
        },
        Location::Between(k) => {
            match hi_at {
                Location::At(m) => {
                    if m < k {
                        if m < k - 1 {
                            assert(less(s[m as int].t, s[k - 1].t));
                        }
                    }
                },
                Location::Between(m) => {
                    if m < k {
                        assert(less(s[m as int].t, s[k - 1].t) || m == k - 1);
                    }
                },
                Location::Outside => {},
            }
        },
        Location::Outside => {},
    }
}

/// What clipping the series `s` to the window `w` gives: the errors in the order they are
/// checked, and otherwise the bounds, where they fall, and exactly the samples strictly between
/// them.
pub open spec fn clip_spec(s: Seq<Sample>, w: Window, r: Result<Clip, MeasureError>) -> bool {
    &&& s.len() == 0 ==> r == Err::<Clip, MeasureError>(MeasureError::EmptySeries)
    &&& s.len() > 0 && !increasing_times(s) ==> r == Err::<Clip, MeasureError>(
        MeasureError::InvalidParameter(NOT_SORTED),
    )
    &&& s.len() > 0 && increasing_times(s) && less_eq(
        clip_hi(s, w),
        clip_lo(s, w),
    ) ==> r == Err::<Clip, MeasureError>(MeasureError::EmptyWindow)
    &&& s.len() > 0 && increasing_times(s) && !less_eq(
        clip_hi(s, w),
        clip_lo(s, w),
    ) ==> r is Ok
    &&& r matches Ok(c) ==> {
        &&& c.lo == clip_lo(s, w)
        &&& c.hi == clip_hi(s, w)
        &&& less(c.lo, c.hi)
        &&& located(s, c.lo, c.lo_at) && !(c.lo_at is Outside)
        &&& located(s, c.hi, c.hi_at) && !(c.hi_at is Outside)
        &&& c.start <= c.end <= s.len()
        &&& c.start == match c.lo_at {
            Location::At(i) => i + 1,
            Location::Between(i) => i as int,
            Location::Outside => 0,
        }
        &&& c.end == match c.hi_at {
            Location::At(j) => j as int,
            Location::Between(j) => j as int,
            Location::Outside => 0,
        }
        &&& forall|i: int|
            0 <= i < s.len() ==> (c.start <= i < c.end <==> less(c.lo, #[trigger] s[i].t)
                && less(s[i].t, c.hi))
    }
}

/// Clips `samples` to `window`: the series keeps the real samples strictly inside the
/// effective window `[lo, hi]` and gains a sample interpolated at each bound, so the clipped
/// series always holds at least two samples.
///
/// Errors, in the order they are checked: [`MeasureError::EmptySeries`] for an empty series;
/// [`MeasureError::InvalidParameter`] where the times do not increase strictly (a NaN time among them); and
/// [`MeasureError::EmptyWindow`] where `lo >= hi`.
#[verifier::spinoff_prover]
pub fn clip(samples: &[Sample], window: &Window) -> (r: Result<Clip, MeasureError>)
    ensures
        clip_spec(samples@, *window, r),
{
    let n = samples.len();
    if n == 0 {
        return Err(MeasureError::EmptySeries);
    }
    check_monotonic(samples)?;
    proof {
        lemma_increasing_is_strictly_sorted(samples@);
    }
    let lo = key_max(window.effective_from(), samples[0].t);
    let hi = key_min(window.effective_to(), samples[n - 1].t);
    proof {
        lemma_max_min_pick_an_argument(spec_effective_from(*window), samples@[0].t);
        lemma_max_min_pick_an_argument(spec_effective_to(*window), samples@[n - 1].t);
    }
    if is_less_eq(hi, lo) {
        return Err(MeasureError::EmptyWindow);
    }
    assert(less(lo, hi));
    let lo_at = locate(samples, lo);
    let hi_at = locate(samples, hi);
    let start = match lo_at {
        Location::At(i) => i + 1,
        Location::Between(i) => i,
        Location::Outside => 0,
    };
    let end = match hi_at {
        Location::At(j) => j,
        Location::Between(j) => j,
        Location::Outside => 0,
    };
    proof {
        lemma_clip_range(samples@, lo, hi, lo_at, hi_at, start, end);
    }
    Ok(Clip { lo, lo_at, hi, hi_at, start, end })
}

/// The effective window is the intersection of `[max(FROM, TD), TO]` with the series' domain:
/// where no bound is a NaN, `lo` is the latest of `FROM`, `TD` and the first time, and `hi` the
/// earliest of `TO` and the last time.
pub proof fn lemma_clip_bounds_intersect(s: Seq<Sample>, w: Window)
    requires
        s.len() > 0,
        no_nan_times(s),
        w.from matches Some(k) ==> !k.is_nan(),
        w.to matches Some(k) ==> !k.is_nan(),
        w.td matches Some(k) ==> !k.is_nan(),
    ensures
        less_eq(s[0].t, clip_lo(s, w)),
        w.from matches Some(k) ==> less_eq(k, clip_lo(s, w)),
        w.td matches Some(k) ==> less_eq(k, clip_lo(s, w)),
        clip_lo(s, w) == s[0].t || Some(clip_lo(s, w)) == w.from || Some(clip_lo(s, w)) == w.td,
        less_eq(clip_hi(s, w), s[s.len() - 1].t),
        w.to matches Some(k) ==> less_eq(clip_hi(s, w), k),
        clip_hi(s, w) == s[s.len() - 1].t || Some(clip_hi(s, w)) == w.to,
{
    assert(!s[0].t.is_nan() && !s[s.len() - 1].t.is_nan());
    match (w.from, w.td) {
        (Some(a), Some(b)) => {
            lemma_max_min_pick_an_argument(a, b);
            lemma_max_min_pick_an_argument(spec_key_max(a, b), s[0].t);
        },
        _ => {
            lemma_max_min_pick_an_argument(spec_effective_from(w), s[0].t);
        },
    }
    lemma_max_min_pick_an_argument(spec_effective_to(w), s[s.len() - 1].t);
}

/// The series a clip describes, `lo`, then the kept samples' times, then `hi`, is itself a valid
/// series: its times increase strictly, and it holds at least two samples.
pub proof fn lemma_clipped_times_increase(s: Seq<Sample>, w: Window, c: Clip)
    requires
        clip_spec(s, w, Ok(c)),
    ensures
        ({
            let times = seq![c.lo] + s.subrange(c.start as int, c.end as int).map_values(
                |x: Sample| x.t,
            ) + seq![c.hi];
            &&& times.len() >= 2
            &&& forall|i: int, j: int| 0 <= i < j < times.len() ==> less(#[trigger] times[i], #[trigger] times[j])
        }),
{
    let inner = s.subrange(c.start as int, c.end as int).map_values(|x: Sample| x.t);
    let times = seq![c.lo] + inner + seq![c.hi];
    assert(s.len() > 0);
    assert(increasing_times(s));
    lemma_increasing_is_strictly_sorted(s);
    assert forall|i: int, j: int| 0 <= i < j < times.len() implies less(
        #[trigger] times[i],
        #[trigger] times[j],
    ) by {
        let n = inner.len();
        if i == 0 {
            if j <= n {
                assert(times[j] == s[c.start + j - 1].t);
                assert(less(c.lo, s[c.start + j - 1].t));
            }
        } else if i <= n {
            assert(times[i] == s[c.start + i - 1].t);
            if j <= n {
                assert(times[j] == s[c.start + j - 1].t);
            } else {
                assert(less(s[c.start + i - 1].t, c.hi));
            }
        }
    }
}

proof fn lemma_filter_contiguous(s: Seq<Sample>, p: spec_fn(Sample) -> bool, a: int, b: int)
    requires
        0 <= a <= b <= s.len(),
        forall|i: int| 0 <= i < s.len() ==> (p(#[trigger] s[i]) <==> a <= i < b),
    ensures
        s.filter(p) == s.subrange(a, b),
    decreases s.len(),
{
    reveal(Seq::filter);
    if s.len() > 0 {
        let t = s.drop_last();
        let last = s.len() - 1;
        assert forall|i: int| 0 <= i < t.len() implies (p(#[trigger] t[i]) <==> a <= i < (if b
            == s.len() {
            last
        } else {
            b
        })) by {
            assert(t[i] == s[i]);
        }
        if b == s.len() {
            if a < b {
                lemma_filter_contiguous(t, p, a, last);
                assert(p(s[last]));
                assert(s.filter(p) == t.filter(p).push(s.last()));
                assert(s.filter(p) =~= s.subrange(a, b));
            } else {
                lemma_filter_contiguous(t, p, last, last);
                assert(!p(s[last]));
                assert(s.filter(p) =~= s.subrange(a, b));
            }
        } else {
            lemma_filter_contiguous(t, p, a, b);
            assert(!p(s[last]));
            assert(s.filter(p) =~= s.subrange(a, b));
        }
    }
}

/// What clipping keeps, in full: where the series is non-empty, its times increase and the
/// effective window `[lo, hi]` is not empty, clipping succeeds; the kept real samples are
/// exactly the samples strictly inside `(lo, hi)`, in their order; and with the interpolated
/// samples at `lo` and `hi` the clipped times increase strictly over at least two samples.
pub proof fn lemma_clip_structure(s: Seq<Sample>, w: Window, r: Result<Clip, MeasureError>)
    requires
        clip_spec(s, w, r),
        s.len() > 0,
        increasing_times(s),
        less(clip_lo(s, w), clip_hi(s, w)),
    ensures
        r is Ok,
        r matches Ok(c) ==> {
            &&& s.subrange(c.start as int, c.end as int) == s.filter(
                |x: Sample| less(c.lo, x.t) && less(x.t, c.hi),
            )
            &&& ({
                let times = seq![c.lo] + s.subrange(c.start as int, c.end as int).map_values(
                    |x: Sample| x.t,
                ) + seq![c.hi];
                &&& times.len() >= 2
                &&& forall|i: int, j: int|
                    0 <= i < j < times.len() ==> less(#[trigger] times[i], #[trigger] times[j])
            })
        },
{
    assert(!less_eq(clip_hi(s, w), clip_lo(s, w)));
    let c = r->Ok_0;
    let p = |x: Sample| less(c.lo, x.t) && less(x.t, c.hi);
    assert forall|i: int| 0 <= i < s.len() implies (p(#[trigger] s[i]) <==> c.start <= i < c.end) by {}
    lemma_filter_contiguous(s, p, c.start as int, c.end as int);
    lemma_clipped_times_increase(s, w, c);
}

/// Clipping is idempotent: clipping a clipped series (the samples at `lo` and `hi` with the
/// kept samples between, whatever values were interpolated at the bounds) to the same window
/// keeps all of it, the bounds falling on its first and last samples.
pub proof fn lemma_clip_idempotent(
    s: Seq<Sample>,
    w: Window,
    c: Clip,
    s2: Seq<Sample>,
    r2: Result<Clip, MeasureError>,
)
    requires
        clip_spec(s, w, Ok(c)),
        s2.len() == c.end - c.start + 2,
        s2[0].t == c.lo,
        s2[s2.len() - 1].t == c.hi,
        forall|k: int| 0 <= k < c.end - c.start ==> (#[trigger] s2[k + 1]).t == s[c.start + k].t,
        clip_spec(s2, w, r2),
    ensures
        r2 == Ok::<Clip, MeasureError>(
            Clip {
                lo: c.lo,
                lo_at: Location::At(0),
                hi: c.hi,
                hi_at: Location::At((s2.len() - 1) as usize),
                start: 1,
                end: (s2.len() - 1) as usize,
            },
        ),
{
    lemma_clipped_times_increase(s, w, c);
    let inner = s.subrange(c.start as int, c.end as int).map_values(|x: Sample| x.t);
    let times = seq![c.lo] + inner + seq![c.hi];
    assert forall|k: int| 0 <= k < s2.len() implies (#[trigger] s2[k]).t == times[k] by {
        if 0 < k < s2.len() - 1 {
            assert(s2[(k - 1) + 1].t == s[c.start + (k - 1)].t);
        }
    }
    assert(s.len() > 0 && increasing_times(s));
    lemma_increasing_is_strictly_sorted(s);
    assert(!c.lo.is_nan() && !c.hi.is_nan());
    assert(no_nan_times(s2)) by {
        assert forall|k: int| 0 <= k < s2.len() implies !(#[trigger] s2[k]).t.is_nan() by {
            assert(less(times[k], times[k + 1]) || k == s2.len() - 1);
            if k == s2.len() - 1 {
                assert(less(times[0], times[k]));
            }
        }
    }
    assert(increasing_times(s2)) by {
        assert forall|k: int| 1 <= k < s2.len() implies !less_eq(#[trigger] s2[k].t, s2[k - 1].t) by {
            assert(less(times[k - 1], times[k]));
        }
    }
    assert(clip_lo(s2, w) == c.lo);
    assert(clip_hi(s2, w) == c.hi);
    let c2 = r2->Ok_0;
    lemma_increasing_is_strictly_sorted(s2);
    lemma_located_unique(s2, c.lo, c2.lo_at, Location::At(0));
    lemma_located_unique(s2, c.hi, c2.hi_at, Location::At((s2.len() - 1) as usize));
}

/// Clipping a series of at least two increasing samples to the full window keeps all of it.
#[verifier::spinoff_prover]
pub proof fn lemma_clip_full_window(s: Seq<Sample>, w: Window, r: Result<Clip, MeasureError>)
    requires
        s.len() >= 2,
        increasing_times(s),
        w.from is None,
        w.to is None,
        w.td is None,
        clip_spec(s, w, r),
    ensures
        r == Ok::<Clip, MeasureError>(
            Clip {
                lo: s[0].t,
                lo_at: Location::At(0),
                hi: s[s.len() - 1].t,
                hi_at: Location::At((s.len() - 1) as usize),
                start: 1,
                end: (s.len() - 1) as usize,
            },
        ),
{
    let last = s.len() - 1;
    assert(!s[0].t.is_nan() && !s[last].t.is_nan());
    assert(clip_lo(s, w) == s[0].t);
    assert(clip_hi(s, w) == s[last].t);
    assert(less(s[0].t, s[last].t)) by {
        lemma_increasing_is_strictly_sorted(s);
    }
    assert(r is Ok);
    let c = r->Ok_0;
    assert(c.lo_at == Location::At(0)) by {
        lemma_increasing_is_strictly_sorted(s);
        lemma_located_unique(s, s[0].t, c.lo_at, Location::At(0));
    }
    assert(c.hi_at == Location::At(last as usize)) by {
        lemma_increasing_is_strictly_sorted(s);
        lemma_located_unique(s, s[last].t, c.hi_at, Location::At(last as usize));
    }
}

} // verus!
