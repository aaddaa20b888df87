//! Cycle counting for `FREQ`, `ON_TIME` and `OFF_TIME`.
//!
//! A two-level (Schmitt-trigger) detector counts the cycles: the signal enters the "on" state
//! when it rises through `on` and the "off" state when it falls through `off`, and a cycle runs
//! from one on-crossing to the next. A series that starts at or above `on` has not *risen*
//! through it, so its start is no on-crossing: a partial pulse at the start bounds no cycle.
//!
//! `ON_TIME` and `OFF_TIME` measure the time the signal spends at or above `on` and at or below
//! `off`. Since the series is piecewise linear, that time is made of the maximal runs of
//! consecutive samples at or above (at or below) the level, each widened to the level crossings
//! inside the segments on either side of it. What is decided here are the on-crossings and those
//! runs; the crossing times interpolated inside the segments, and the sums of the stretches, are
//! the caller's arithmetic.

use vstd::prelude::*;

use crate::key::{is_less, is_less_eq, less, less_eq, same, Key};
use crate::sample::{MeasureError, Sample};
use crate::scalar::no_nan_values;

verus! {

/// The detector's latched state.
#[derive(Debug, Clone, Copy, PartialEq, Eq, Structural)]
pub enum State {
    /// Latched on: the signal is at or above `on` and has not fallen through `off` since.
    On,
    /// Latched off: the signal is at or below `off` and has not risen through `on` since.
    Off,
    /// Neither yet: the signal started strictly between the two levels.
    Unknown,
}

/// A maximal run of consecutive samples that meet a level condition, by the indices of its first
/// and last samples.
///
/// The time spent meeting the condition around the run stretches from the level crossing inside
/// the segment that ends at `first` (the series' start where `first` is `0`) to the level
/// crossing inside the segment that starts at `last` (the series' end where `last` is the last
/// index).
#[derive(Debug, Clone, Copy, PartialEq, Eq, Structural)]
pub struct Run {
    /// The first sample of the run.
    pub first: usize,
    /// The last sample of the run.
    pub last: usize,
}

/// What the detector saw over a series.
#[derive(Debug, PartialEq, Eq)]
pub struct CycleWalk {
    /// The segments (by the index of their first sample) in which the detector latches on: the
    /// on-crossings, in order.
    pub on_crossings: Vec<usize>,
    /// The maximal runs of samples at or above `on`, in order.
    pub at_or_above_on: Vec<Run>,
    /// The maximal runs of samples at or below `off`, in order.
    pub at_or_below_off: Vec<Run>,
}

/// The detector part way through its walk.
pub struct Detector {
    /// The latched state.
    pub state: State,
    /// The on-crossings so far.
    pub on_crossings: Seq<usize>,
}

/// The state the detector starts in, from the first sample's value.
pub open spec fn initial_state(v0: Key, on: Key, off: Key) -> State {
    if less_eq(on, v0) {
        State::On
    } else if less_eq(v0, off) {
        State::Off
    } else {
        State::Unknown
    }
}

/// The segment from `a` to `b` rises through `on`: it starts below and ends at or above it.
pub open spec fn rises_through(a: Key, b: Key, on: Key) -> bool {
    less_eq(on, b) && less(a, on)
}

/// The segment from `a` to `b` falls through `off`: it starts above and ends at or below it.
pub open spec fn falls_through(a: Key, b: Key, off: Key) -> bool {
    less_eq(b, off) && less(off, a)
}

/// One step of the detector over the segment `i`, from `a` to `b`: where it is not latched on
/// and the segment rises through `on`, it latches on and records an on-crossing; else, where it
/// is not latched off and the segment falls through `off`, it latches off.
pub open spec fn detector_step(d: Detector, i: usize, a: Key, b: Key, on: Key, off: Key) -> Detector {
    if d.state != State::On && rises_through(a, b, on) {
        Detector { state: State::On, on_crossings: d.on_crossings.push(i) }
    } else if d.state != State::Off && falls_through(a, b, off) {
        Detector { state: State::Off, on_crossings: d.on_crossings }
    } else {
        d
    }
}

/// The detector after the first `n` segments of `s`.
pub open spec fn detector_upto(s: Seq<Sample>, on: Key, off: Key, n: int) -> Detector
    decreases n,
{
    if n <= 0 {
        Detector { state: initial_state(s[0].v, on, off), on_crossings: Seq::empty() }
    } else {
        detector_step(
            detector_upto(s, on, off, n - 1),
            (n - 1) as usize,
            s[n - 1].v,
            s[n].v,
            on,
            off,
        )
    }
}

/// The on-crossings of the whole series.
pub open spec fn spec_on_crossings(s: Seq<Sample>, on: Key, off: Key) -> Seq<usize> {
    detector_upto(s, on, off, s.len() - 1).on_crossings
}

/// Which samples are at or above `on`.
pub open spec fn at_or_above(s: Seq<Sample>, on: Key) -> Seq<bool> {
    Seq::new(s.len(), |k: int| less_eq(on, s[k].v))
}

/// Which samples are at or below `off`.
pub open spec fn at_or_below(s: Seq<Sample>, off: Key) -> Seq<bool> {
    Seq::new(s.len(), |k: int| less_eq(s[k].v, off))
}

/// `runs` are exactly the maximal runs of `true` in `m`, in order: each is a stretch of `true`
/// that cannot be extended on either side, they come one after the other with a gap between,
/// and every `true` lies in one of them.
pub open spec fn maximal_runs(runs: Seq<Run>, m: Seq<bool>) -> bool {
    &&& forall|r: int|
        0 <= r < runs.len() ==> {
            let x = #[trigger] runs[r];
            &&& x.first <= x.last < m.len()
            &&& forall|k: int| x.first <= k <= x.last ==> #[trigger] m[k]
            &&& x.first == 0 || !m[x.first - 1]
            &&& x.last + 1 == m.len() || !m[x.last + 1]
        }
    &&& forall|r1: int, r2: int|
        0 <= r1 < r2 < runs.len() ==> #[trigger] runs[r1].last + 1 < #[trigger] runs[r2].first
    &&& forall|k: int|
        0 <= k < m.len() && #[trigger] m[k] ==> in_some_run(runs, k)
}

/// Sample `k` lies in one of the runs.
pub open spec fn in_some_run(runs: Seq<Run>, k: int) -> bool {
    exists|r: int| 0 <= r < runs.len() && (#[trigger] runs[r]).first <= k <= runs[r].last
}

proof fn lemma_detector_sound(s: Seq<Sample>, on: Key, off: Key, n: int)
    requires
        0 <= n < s.len() <= usize::MAX,
    ensures
        forall|k: int|
            0 <= k < detector_upto(s, on, off, n).on_crossings.len() ==> #[trigger] detector_upto(
                s,
                on,
                off,
                n,
            ).on_crossings[k] < n && rises_through(
                s[detector_upto(s, on, off, n).on_crossings[k] as int].v,
                s[detector_upto(s, on, off, n).on_crossings[k] + 1].v,
                on,
            ),
    decreases n,
{
    if n > 0 {
        lemma_detector_sound(s, on, off, n - 1);
        let d = detector_upto(s, on, off, n - 1);
        let c = d.on_crossings;
        let c2 = detector_upto(s, on, off, n).on_crossings;
        assert(detector_upto(s, on, off, n) == detector_step(d, (n - 1) as usize, s[n - 1].v, s[n].v, on, off));
        if d.state != State::On && rises_through(s[n - 1].v, s[n].v, on) {
            assert(c2 == c.push((n - 1) as usize));
            assert forall|k: int| 0 <= k < c2.len() implies #[trigger] c2[k] < n && rises_through(
                s[c2[k] as int].v,
                s[c2[k] + 1].v,
                on,
            ) by {
                if k < c.len() {
                    assert(c2[k] == c[k]);
                }
            }
        } else {
            assert(c2 == c);
        }
    }
}

proof fn lemma_detector_ordered(s: Seq<Sample>, on: Key, off: Key, n: int)
    requires
        0 <= n < s.len() <= usize::MAX,
    ensures
        forall|k: int, m: int|
            0 <= k < m < detector_upto(s, on, off, n).on_crossings.len() ==> #[trigger] detector_upto(
                s,
                on,
                off,
                n,
            ).on_crossings[k] < #[trigger] detector_upto(s, on, off, n).on_crossings[m],
    decreases n,
{
    if n > 0 {
        lemma_detector_ordered(s, on, off, n - 1);
        lemma_detector_sound(s, on, off, n - 1);
        let d = detector_upto(s, on, off, n - 1);
        let c = d.on_crossings;
        let c2 = detector_upto(s, on, off, n).on_crossings;
        assert(detector_upto(s, on, off, n) == detector_step(d, (n - 1) as usize, s[n - 1].v, s[n].v, on, off));
        if d.state != State::On && rises_through(s[n - 1].v, s[n].v, on) {
            assert(c2 == c.push((n - 1) as usize));
            assert forall|k: int, m: int| 0 <= k < m < c2.len() implies #[trigger] c2[k]
                < #[trigger] c2[m] by {
                assert(c2[k] == c[k]);
                if m < c.len() {
                    assert(c2[m] == c[m]);
                }
            }
        } else {
            assert(c2 == c);
        }
    }
}

/// Some segment strictly between `lo` and `hi` falls through `off`.
pub open spec fn falls_between(s: Seq<Sample>, off: Key, lo: int, hi: int) -> bool {
    exists|i: int|
        #![trigger falls_through(s[i].v, s[i + 1].v, off)]
        lo < i < hi && falls_through(s[i].v, s[i + 1].v, off)
}

proof fn lemma_detector_rearms(s: Seq<Sample>, on: Key, off: Key, n: int)
    requires
        0 <= n < s.len() <= usize::MAX,
    ensures
        forall|k: int|
            #![trigger detector_upto(s, on, off, n).on_crossings[k]]
            0 <= k < detector_upto(s, on, off, n).on_crossings.len() - 1 ==> falls_between(
                s,
                off,
                detector_upto(s, on, off, n).on_crossings[k] as int,
                detector_upto(s, on, off, n).on_crossings[k + 1] as int,
            ),
        detector_upto(s, on, off, n).on_crossings.len() > 0 && detector_upto(s, on, off, n).state
            != State::On ==> falls_between(
            s,
            off,
            detector_upto(s, on, off, n).on_crossings.last() as int,
            n,
        ),
        detector_upto(s, on, off, n).on_crossings.len() > 0 ==> detector_upto(s, on, off, n).state
            != State::Unknown,
    decreases n,
{
    if n > 0 {
        lemma_detector_rearms(s, on, off, n - 1);
        let d = detector_upto(s, on, off, n - 1);
        let c = d.on_crossings;
        let d2 = detector_upto(s, on, off, n);
        let c2 = d2.on_crossings;
        assert(d2 == detector_step(d, (n - 1) as usize, s[n - 1].v, s[n].v, on, off));
        if d.state != State::On && rises_through(s[n - 1].v, s[n].v, on) {
            assert(c2 == c.push((n - 1) as usize));
            assert forall|k: int|
                #![trigger c2[k]]
                0 <= k < c2.len() - 1 implies falls_between(s, off, c2[k] as int, c2[k + 1] as int) by {
                if k < c.len() - 1 {
                    assert(c2[k] == c[k] && c2[k + 1] == c[k + 1]);
                } else {
                    assert(c2[k] == c.last());
                    assert(falls_between(s, off, c.last() as int, n - 1));
                }
            }
        } else if d.state != State::Off && falls_through(s[n - 1].v, s[n].v, off) {
            assert(c2 == c);
            if c.len() > 0 {
                let i = n - 1;
                assert(falls_through(s[i].v, s[i + 1].v, off));
                lemma_detector_sound(s, on, off, n - 1);
                assert(c.last() == c[c.len() - 1]);
                assert(falls_between(s, off, c.last() as int, n));
            }
        } else {
            assert(d2 == d);
            if c.len() > 0 && d.state != State::On {
                let i = choose|i: int|
                    #![trigger falls_through(s[i].v, s[i + 1].v, off)]
                    c.last() < i < n - 1 && falls_through(s[i].v, s[i + 1].v, off);
                assert(falls_through(s[i].v, s[i + 1].v, off));
            }
        }
    }
}

/// Laws of the cycle detector over a series `s` of at least one sample: every on-crossing is a
/// segment that rises through `on` (so the start of the series never is one); the on-crossings
/// come in the order of the series; and between two consecutive on-crossings the signal falls
/// through `off`, so each complete cycle holds a whole on/off swing.
pub proof fn lemma_on_crossing_laws(s: Seq<Sample>, on: Key, off: Key)
    requires
        0 < s.len() <= usize::MAX,
    ensures
        forall|k: int|
            0 <= k < spec_on_crossings(s, on, off).len() ==> #[trigger] spec_on_crossings(
                s,
                on,
                off,
            )[k] + 1 < s.len() && rises_through(
                s[spec_on_crossings(s, on, off)[k] as int].v,
                s[spec_on_crossings(s, on, off)[k] + 1].v,
                on,
            ),
        forall|k: int, m: int|
            0 <= k < m < spec_on_crossings(s, on, off).len() ==> #[trigger] spec_on_crossings(
                s,
                on,
                off,
            )[k] < #[trigger] spec_on_crossings(s, on, off)[m],
        forall|k: int|
            #![trigger spec_on_crossings(s, on, off)[k]]
            0 <= k < spec_on_crossings(s, on, off).len() - 1 ==> falls_between(
                s,
                off,
                spec_on_crossings(s, on, off)[k] as int,
                spec_on_crossings(s, on, off)[k + 1] as int,
            ),
{
    lemma_detector_sound(s, on, off, s.len() - 1);
    lemma_detector_ordered(s, on, off, s.len() - 1);
    lemma_detector_rearms(s, on, off, s.len() - 1);
}

/// The segment `j` of `s` starts below `on` and ends at or above it.
pub open spec fn rise_at(s: Seq<Sample>, on: Key, j: int) -> bool {
    less(s[j].v, on) && less_eq(on, s[j + 1].v)
}

/// The segment `j` of `s` starts above `off` and ends at or below it.
pub open spec fn fall_at(s: Seq<Sample>, off: Key, j: int) -> bool {
    less(off, s[j].v) && less_eq(s[j + 1].v, off)
}

/// No segment strictly after `j` and before `i` falls through `off`.
pub open spec fn no_fall_between(s: Seq<Sample>, off: Key, j: int, i: int) -> bool {
    forall|m: int| j < m < i ==> !#[trigger] fall_at(s, off, m)
}

/// After the first `i` segments of `s` the signal is latched on: some segment among them rises
/// through `on` with no segment after it (among the first `i`) falling through `off`; or the
/// series starts at or above `on` and none of the first `i` segments falls through `off`.
pub open spec fn latched_on_after(s: Seq<Sample>, on: Key, off: Key, i: int) -> bool {
    ||| exists|j: int| 0 <= j < i && #[trigger] rise_at(s, on, j) && no_fall_between(s, off, j, i)
    ||| less_eq(on, s[0].v) && no_fall_between(s, off, -1, i)
}

proof fn lemma_detector_state(s: Seq<Sample>, on: Key, off: Key, n: int)
    requires
        0 <= n < s.len() <= usize::MAX,
    ensures
        (detector_upto(s, on, off, n).state == State::On) <==> latched_on_after(s, on, off, n),
    decreases n,
{
    if n > 0 {
        lemma_detector_state(s, on, off, n - 1);
        let m = n - 1;
        let d = detector_upto(s, on, off, m);
        let d2 = detector_upto(s, on, off, n);
        let a = s[m].v;
        let b = s[n].v;
        let rise = rise_at(s, on, m);
        let fall = fall_at(s, off, m);
        assert(d2 == detector_step(d, m as usize, a, b, on, off));
        assert(!(rise && fall));
        assert(rise == rises_through(a, b, on));
        assert(fall == falls_through(a, b, off));
        if rise {
            assert(no_fall_between(s, off, m, n));
            assert(latched_on_after(s, on, off, n));
        } else if fall {
            if latched_on_after(s, on, off, n) {
                if exists|j: int| 0 <= j < n && #[trigger] rise_at(s, on, j) && no_fall_between(s, off, j, n) {
                    let j = choose|j: int| 0 <= j < n && #[trigger] rise_at(s, on, j) && no_fall_between(s, off, j, n);
                    assert(j < m);
                    assert(!fall_at(s, off, m));
                } else {
                    assert(!fall_at(s, off, m));
                }
            }
        } else {
            if latched_on_after(s, on, off, m) {
                if exists|j: int| 0 <= j < m && #[trigger] rise_at(s, on, j) && no_fall_between(s, off, j, m) {
                    let j = choose|j: int| 0 <= j < m && #[trigger] rise_at(s, on, j) && no_fall_between(s, off, j, m);
                    assert(no_fall_between(s, off, j, n));
                } else {
                    assert(no_fall_between(s, off, -1, n));
                }
                assert(latched_on_after(s, on, off, n));
            }
            if latched_on_after(s, on, off, n) {
                if exists|j: int| 0 <= j < n && #[trigger] rise_at(s, on, j) && no_fall_between(s, off, j, n) {
                    let j = choose|j: int| 0 <= j < n && #[trigger] rise_at(s, on, j) && no_fall_between(s, off, j, n);
                    assert(j != m);
                    assert(no_fall_between(s, off, j, m));
                } else {
                    assert(no_fall_between(s, off, -1, m));
                }
                assert(latched_on_after(s, on, off, m));
            }
        }
    }
}

#[verifier::spinoff_prover]
proof fn lemma_detector_latch(s: Seq<Sample>, on: Key, off: Key, n: int)
    requires
        0 <= n < s.len() <= usize::MAX,
    ensures
        forall|i: int|
            0 <= i < n ==> (detector_upto(s, on, off, n).on_crossings.contains(i as usize) <==> (
            #[trigger] rise_at(s, on, i) && !latched_on_after(s, on, off, i))),
    decreases n,
{
    if n > 0 {
        lemma_detector_latch(s, on, off, n - 1);
        lemma_detector_state(s, on, off, n - 1);
        lemma_detector_sound(s, on, off, n - 1);
        let m = n - 1;
        let d = detector_upto(s, on, off, m);
        let d2 = detector_upto(s, on, off, n);
        let c = d.on_crossings;
        let c2 = d2.on_crossings;
        let rise = rise_at(s, on, m);
        assert(d2 == detector_step(d, m as usize, s[m].v, s[n].v, on, off));
        assert(rise == rises_through(s[m].v, s[n].v, on));
        if d.state != State::On && rise {
            assert(c2 == c.push(m as usize));
        } else {
            assert(c2 == c);
        }
        let pushed = d.state != State::On && rise;
        assert forall|i: int|
            0 <= i < n implies (detector_upto(s, on, off, n).on_crossings.contains(i as usize) <==> (
            #[trigger] rise_at(s, on, i) && !latched_on_after(s, on, off, i))) by {
            let e1 = c.contains(i as usize);
            let e2 = c2.contains(i as usize);
            if e2 {
                let k = choose|k: int| 0 <= k < c2.len() && c2[k] == i as usize;
                if k < c.len() {
                    assert(c2[k] == c[k]);
                    assert(e1);
                } else {
                    assert(pushed);
                    assert(i == m);
                }
            }
            if e1 {
                let k = choose|k: int| 0 <= k < c.len() && c[k] == i as usize;
                assert(c2[k] == c[k]);
                assert(c[k] < m);
                assert(e2);
            }
            if pushed && i == m {
                assert(c2[c.len() as int] == i as usize);
                assert(e2);
            }
            assert(e2 <==> (e1 || (pushed && i == m)));
            if i < m {
                assert(e1 <==> (rise_at(s, on, i) && !latched_on_after(s, on, off, i)));
            } else {
                assert(!e1);
            }
        }
    }
}

/// Which segments are on-crossings, on the values themselves: a segment is an on-crossing
/// exactly when it starts below `on` and ends at or above it while the signal is not latched on,
/// that is, unless some earlier rise through `on` had no fall through `off` after it, or the
/// series starts at or above `on` and has not fallen through `off` since. Wherever in the band
/// between the levels the rising segment starts, it counts.
pub proof fn lemma_on_crossings_exact(s: Seq<Sample>, on: Key, off: Key)
    requires
        0 < s.len() <= usize::MAX,
    ensures
        forall|i: int|
            0 <= i < s.len() - 1 ==> (spec_on_crossings(s, on, off).contains(i as usize) <==> (
            #[trigger] rise_at(s, on, i) && !latched_on_after(s, on, off, i))),
{
    lemma_detector_latch(s, on, off, s.len() - 1);
}

/// One of the runs starts at sample `j`.
pub open spec fn run_starts_at(runs: Seq<Run>, j: int) -> bool {
    exists|r: int| 0 <= r < runs.len() && (#[trigger] runs[r]).first == j
}

/// Each on-crossing opens a run of samples at or above `on`: the sample right after the
/// segment where the detector latches on is the first of such a run.
pub proof fn lemma_on_crossing_opens_run(s: Seq<Sample>, on: Key, off: Key, runs: Seq<Run>)
    requires
        0 < s.len() <= usize::MAX,
        maximal_runs(runs, at_or_above(s, on)),
    ensures
        forall|k: int|
            #![trigger spec_on_crossings(s, on, off)[k]]
            0 <= k < spec_on_crossings(s, on, off).len() ==> run_starts_at(
                runs,
                spec_on_crossings(s, on, off)[k] + 1,
            ),
{
    lemma_on_crossing_laws(s, on, off);
    let m = at_or_above(s, on);
    assert forall|k: int|
        #![trigger spec_on_crossings(s, on, off)[k]]
        0 <= k < spec_on_crossings(s, on, off).len() implies run_starts_at(
            runs,
            spec_on_crossings(s, on, off)[k] + 1,
        ) by {
        let j = spec_on_crossings(s, on, off)[k] + 1;
        assert(m[j]);
        assert(!m[j - 1]);
        assert(in_some_run(runs, j));
        let r = choose|r: int| 0 <= r < runs.len() && (#[trigger] runs[r]).first <= j <= runs[r].last;
        let x = runs[r];
        if x.first < j {
            assert(m[j - 1]);
        }
        assert(runs[r].first == j);
    }
}

/// With a single level (`on == off`) and no NaN value, the runs at or above it and the runs at
/// or below it tile the series: every sample lies in one of the two kinds, and in both exactly
/// when it sits on the level.
pub proof fn lemma_single_level_runs_tile(s: Seq<Sample>, level: Key, above: Seq<Run>, below: Seq<Run>)
    requires
        no_nan_values(s),
        !level.is_nan(),
        maximal_runs(above, at_or_above(s, level)),
        maximal_runs(below, at_or_below(s, level)),
    ensures
        forall|k: int| 0 <= k < s.len() ==> in_some_run(above, k) || in_some_run(below, k),
        forall|k: int|
            0 <= k < s.len() ==> (in_some_run(above, k) && in_some_run(below, k) <==> same(
                #[trigger] s[k].v,
                level,
            )),
{
    let ma = at_or_above(s, level);
    let mb = at_or_below(s, level);
    assert forall|k: int| 0 <= k < s.len() implies in_some_run(above, k) || in_some_run(below, k) by {
        assert(!s[k].v.is_nan());
        if ma[k] {
        } else {
            assert(mb[k]);
        }
    }
    assert forall|k: int| 0 <= k < s.len() implies (in_some_run(above, k) && in_some_run(below, k)
        <==> same(#[trigger] s[k].v, level)) by {
        assert(!s[k].v.is_nan());
        if in_some_run(above, k) {
            let r = choose|r: int| 0 <= r < above.len() && (#[trigger] above[r]).first <= k <= above[r].last;
            assert(ma[k]);
        }
        if in_some_run(below, k) {
            let r = choose|r: int| 0 <= r < below.len() && (#[trigger] below[r]).first <= k <= below[r].last;
            assert(mb[k]);
        }
        if same(s[k].v, level) {
            assert(ma[k] && mb[k]);
        }
    }
}

/// The maximal runs of `true` in `mask`.
fn runs_of(mask: &Vec<bool>) -> (r: Vec<Run>)
    ensures
        maximal_runs(r@, mask@),
{
    let n = mask.len();
    let mut out: Vec<Run> = Vec::new();
    let mut open: Option<usize> = None;
    let mut k: usize = 0;
    while k < n
        invariant
            n == mask@.len(),
            k <= n,
            forall|r: int|
                0 <= r < out@.len() ==> {
                    let x = #[trigger] out@[r];
                    &&& x.first <= x.last && x.last + 1 < k
                    &&& forall|j: int| x.first <= j <= x.last ==> #[trigger] mask@[j]
                    &&& x.first == 0 || !mask@[x.first - 1]
                    &&& !mask@[x.last + 1]
                },
            forall|r1: int, r2: int|
                0 <= r1 < r2 < out@.len() ==> #[trigger] out@[r1].last + 1 < #[trigger] out@[r2].first,
            open matches Some(f) ==> {
                &&& f < k
                &&& forall|j: int| f <= j < k ==> #[trigger] mask@[j]
                &&& f == 0 || !mask@[f - 1]
                &&& forall|r: int| 0 <= r < out@.len() ==> #[trigger] out@[r].last + 1 < f
            },
            open is None ==> k == 0 || !mask@[k - 1],
            forall|j: int|
                0 <= j < k && #[trigger] mask@[j] ==> in_some_run(out@, j) || (open matches Some(
                    f,
                ) && f <= j),
        decreases n - k,
    {
        if mask[k] {
            if open.is_none() {
                open = Some(k);
            }
        } else {
            if let Some(f) = open {
                let ghost old_out = out@;
                out.push(Run { first: f, last: k - 1 });
                open = None;
                assert forall|j: int| 0 <= j < k + 1 && #[trigger] mask@[j] implies in_some_run(out@, j) by {
                    if j >= f {
                        assert(out@[old_out.len() as int] == Run { first: f, last: (k - 1) as usize });
                    } else {
                        let r = choose|r: int|
                            0 <= r < old_out.len() && (#[trigger] old_out[r]).first <= j <= old_out[r].last;
                        assert(out@[r] == old_out[r]);
                    }
                }
            }
        }
        k = k + 1;
    }
    if let Some(f) = open {
        let ghost old_out = out@;
        out.push(Run { first: f, last: n - 1 });
        assert forall|j: int| 0 <= j < n && #[trigger] mask@[j] implies in_some_run(out@, j) by {
            if j >= f {
                assert(out@[old_out.len() as int] == Run { first: f, last: (n - 1) as usize });
            } else {
                let r = choose|r: int| 0 <= r < old_out.len() && (#[trigger] old_out[r]).first <= j <= old_out[r].last;
                assert(out@[r] == old_out[r]);
            }
        }
    }
    out
}

/// The detector's walk over `samples` between the levels `on` and `off`: its on-crossings, and
/// the maximal runs of samples at or above `on` and at or below `off`.
pub fn walk(samples: &[Sample], on: Key, off: Key) -> (r: CycleWalk)
    requires
        samples@.len() > 0,
    ensures
        r.on_crossings@ == spec_on_crossings(samples@, on, off),
        maximal_runs(r.at_or_above_on@, at_or_above(samples@, on)),
        maximal_runs(r.at_or_below_off@, at_or_below(samples@, off)),
        forall|i: int|
            0 <= i < samples@.len() - 1 ==> (r.on_crossings@.contains(i as usize) <==> (
            #[trigger] rise_at(samples@, on, i) && !latched_on_after(samples@, on, off, i))),
{
    let n = samples.len();
    let mut on_crossings: Vec<usize> = Vec::new();
    let v0 = samples[0].v;
    let mut state = if is_less_eq(on, v0) {
        State::On
    } else if is_less_eq(v0, off) {
        State::Off
    } else {
        State::Unknown
    };
    let mut i: usize = 0;
    while i + 1 < n
        invariant
            n == samples@.len(),
            n > 0,
            i + 1 <= n,
            detector_upto(samples@, on, off, i as int).state == state,
            detector_upto(samples@, on, off, i as int).on_crossings == on_crossings@,
        decreases n - i,
    {
        let a = samples[i].v;
        let b = samples[i + 1].v;
        if state != State::On && is_less_eq(on, b) && is_less(a, on) {
            on_crossings.push(i);
            state = State::On;
        } else if state != State::Off && is_less_eq(b, off) && is_less(off, a) {
            state = State::Off;
        }
        i = i + 1;
    }
    let mut above: Vec<bool> = Vec::new();
    let mut below: Vec<bool> = Vec::new();
    let mut k: usize = 0;
    while k < n
        invariant
            n == samples@.len(),
            k <= n,
            above@.len() == k,
            below@.len() == k,
            forall|j: int| 0 <= j < k ==> #[trigger] above@[j] == less_eq(on, samples@[j].v),
            forall|j: int| 0 <= j < k ==> #[trigger] below@[j] == less_eq(samples@[j].v, off),
        decreases n - k,
    {
        above.push(is_less_eq(on, samples[k].v));
        below.push(is_less_eq(samples[k].v, off));
        k = k + 1;
    }
    assert(above@ =~= at_or_above(samples@, on));
    assert(below@ =~= at_or_below(samples@, off));
    let at_or_above_on = runs_of(&above);
    let at_or_below_off = runs_of(&below);
    proof {
        lemma_on_crossings_exact(samples@, on, off);
    }
    CycleWalk { on_crossings, at_or_above_on, at_or_below_off }
}

/// The number of complete cycles (one fewer than the on-crossings) and the first and last
/// on-crossings that bound them; [`MeasureError::NotFound`] with fewer than two on-crossings.
pub fn cycle_count_and_bounds(walk: &CycleWalk) -> (r: Result<(usize, usize, usize), MeasureError>)
    ensures
        walk.on_crossings@.len() < 2 ==> r == Err::<(usize, usize, usize), MeasureError>(
            MeasureError::NotFound,
        ),
        walk.on_crossings@.len() >= 2 ==> r == Ok::<(usize, usize, usize), MeasureError>(
            (
                (walk.on_crossings@.len() - 1) as usize,
                walk.on_crossings@[0],
                walk.on_crossings@.last(),
            ),
        ),
{
    let k = walk.on_crossings.len();
    if k < 2 {
        return Err(MeasureError::NotFound);
    }
    Ok((k - 1, walk.on_crossings[0], walk.on_crossings[k - 1]))
}

} // verus!
