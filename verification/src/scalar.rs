//! Extrema over a (clipped) series: `MAX`/`MAX_AT` and `MIN`/`MIN_AT`.
//!
//! The scan keeps the best sample so far and replaces it only when the next sample is not
//! beaten by it, so on a plateau the first sample of the plateau wins. The integrals (`INTEG`,
//! `AVG`, `RMS`) and `PP` are arithmetic on the doubles themselves and are the caller's.

use vstd::prelude::*;

use crate::key::{is_less_eq, less, less_eq};
use crate::sample::Sample;

verus! {

/// The index the forward scan for the maximum holds after the first `n` samples: the best so
/// far is kept while it is at least the next value, and replaced otherwise.
pub open spec fn running_max_at(s: Seq<Sample>, n: int) -> int
    decreases n,
{
    if n <= 1 {
        0
    } else {
        let b = running_max_at(s, n - 1);
        if less_eq(s[n - 1].v, s[b].v) {
            b
        } else {
            n - 1
        }
    }
}

/// The index the forward scan for the minimum holds after the first `n` samples.
pub open spec fn running_min_at(s: Seq<Sample>, n: int) -> int
    decreases n,
{
    if n <= 1 {
        0
    } else {
        let b = running_min_at(s, n - 1);
        if less_eq(s[b].v, s[n - 1].v) {
            b
        } else {
            n - 1
        }
    }
}

/// No value of the series is a NaN.
pub open spec fn no_nan_values(s: Seq<Sample>) -> bool {
    forall|i: int| 0 <= i < s.len() ==> !(#[trigger] s[i]).v.is_nan()
}

/// `MAX`/`MAX_AT`: the index of the sample holding the largest value, the first one where the
/// maximum is attained on a plateau.
pub fn max_at(samples: &[Sample]) -> (r: usize)
    requires
        samples@.len() > 0,
    ensures
        r == running_max_at(samples@, samples@.len() as int),
        r < samples@.len(),
        no_nan_values(samples@) ==> forall|j: int|
            0 <= j < samples@.len() ==> less_eq(#[trigger] samples@[j].v, samples@[r as int].v),
        no_nan_values(samples@) ==> forall|j: int|
            0 <= j < r ==> less(#[trigger] samples@[j].v, samples@[r as int].v),
{
    let n = samples.len();
    let mut best: usize = 0;
    let mut i: usize = 1;
    while i < n
        invariant
            n == samples@.len(),
            1 <= i <= n,
            best < i,
            best == running_max_at(samples@, i as int),
        decreases n - i,
    {
        if !is_less_eq(samples[i].v, samples[best].v) {
            best = i;
        }
        i = i + 1;
    }
    proof {
        if no_nan_values(samples@) {
            lemma_max_at_is_first_maximum(samples@, n as int);
        }
    }
    best
}

/// `MIN`/`MIN_AT`: the index of the sample holding the smallest value, the first one where the
/// minimum is attained on a plateau.
pub fn min_at(samples: &[Sample]) -> (r: usize)
    requires
        samples@.len() > 0,
    ensures
        r == running_min_at(samples@, samples@.len() as int),
        r < samples@.len(),
        no_nan_values(samples@) ==> forall|j: int|
            0 <= j < samples@.len() ==> less_eq(samples@[r as int].v, #[trigger] samples@[j].v),
        no_nan_values(samples@) ==> forall|j: int|
            0 <= j < r ==> less(samples@[r as int].v, #[trigger] samples@[j].v),
{
    let n = samples.len();
    let mut best: usize = 0;
    let mut i: usize = 1;
    while i < n
        invariant
            n == samples@.len(),
            1 <= i <= n,
            best < i,
            best == running_min_at(samples@, i as int),
        decreases n - i,
    {
        if !is_less_eq(samples[best].v, samples[i].v) {
            best = i;
        }
        i = i + 1;
    }
    proof {
        if no_nan_values(samples@) {
            lemma_min_at_is_first_minimum(samples@, n as int);
        }
    }
    best
}

/// Where no value is a NaN, `MAX` is the largest value, attained first at `MAX_AT`: every value
/// is at most the one there, and every earlier value is strictly below it.
pub proof fn lemma_max_at_is_first_maximum(s: Seq<Sample>, n: int)
    requires
        0 < n <= s.len(),
        no_nan_values(s),
    ensures
        0 <= running_max_at(s, n) < n,
        forall|j: int| 0 <= j < n ==> less_eq(#[trigger] s[j].v, s[running_max_at(s, n)].v),
        forall|j: int| 0 <= j < running_max_at(s, n) ==> less(#[trigger] s[j].v, s[running_max_at(s, n)].v),
    decreases n,
{
    if n > 1 {
        lemma_max_at_is_first_maximum(s, n - 1);
        let b = running_max_at(s, n - 1);
        assert(!s[n - 1].v.is_nan() && !s[b].v.is_nan());
    } else {
        assert(!s[0].v.is_nan());
    }
}

/// Where no value is a NaN, `MIN` is the smallest value, attained first at `MIN_AT`.
pub proof fn lemma_min_at_is_first_minimum(s: Seq<Sample>, n: int)
    requires
        0 < n <= s.len(),
        no_nan_values(s),
    ensures
        0 <= running_min_at(s, n) < n,
        forall|j: int| 0 <= j < n ==> less_eq(s[running_min_at(s, n)].v, #[trigger] s[j].v),
        forall|j: int| 0 <= j < running_min_at(s, n) ==> less(s[running_min_at(s, n)].v, #[trigger] s[j].v),
    decreases n,
{
    if n > 1 {
        lemma_min_at_is_first_minimum(s, n - 1);
        let b = running_min_at(s, n - 1);
        assert(!s[n - 1].v.is_nan() && !s[b].v.is_nan());
    } else {
        assert(!s[0].v.is_nan());
    }
}

/// Where no value is a NaN, the peak-to-peak span is never negative: the maximum is at least
/// the minimum.
pub proof fn lemma_max_not_below_min(s: Seq<Sample>)
    requires
        0 < s.len(),
        no_nan_values(s),
    ensures
        less_eq(s[running_min_at(s, s.len() as int)].v, s[running_max_at(s, s.len() as int)].v),
{
    lemma_max_at_is_first_maximum(s, s.len() as int);
    lemma_min_at_is_first_minimum(s, s.len() as int);
    let mx = running_max_at(s, s.len() as int);
    assert(less_eq(s[mx].v, s[mx].v));
}

} // verus!
