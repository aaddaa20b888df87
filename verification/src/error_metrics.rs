//! Waveform comparison: which samples take part in `ERR1`/`ERR2` and in `ERROR`, and where the
//! other series is read at each of them.
//!
//! `ERR1`/`ERR2` use the measured samples whose magnitude lies in `[ymin, ymax]` and whose time
//! falls in the comparison series' domain; `ERROR` uses the measured samples whose time falls in
//! the reference series' domain. The relative differences and the norms over those samples are
//! the caller's arithmetic.

use vstd::prelude::*;

use crate::key::{is_less, is_less_eq, key_abs, less, less_eq, spec_key_abs, Key};
use crate::sample::{locate, located, sorted_times, Location, MeasureError, Sample};

verus! {

/// Which norm `ERROR` computes.
#[derive(Debug, Clone, Copy, PartialEq, Eq, Structural)]
pub enum Norm {
    /// Mean absolute difference.
    L1,
    /// Root-mean-square difference.
    L2,
    /// Maximum absolute difference.
    InfNorm,
}

/// `|v|` lies in `[ymin, ymax]`.
pub open spec fn in_band(v: Key, ymin: Key, ymax: Key) -> bool {
    less_eq(ymin, spec_key_abs(v)) && less_eq(spec_key_abs(v), ymax)
}

/// `t` is neither before the first sample of `s` nor after its last: the series can be read
/// there.
pub open spec fn readable_at(s: Seq<Sample>, t: Key) -> bool {
    s.len() > 0 && !less(t, s[0].t) && !less(s[s.len() - 1].t, t)
}

/// The indices among the first `n` measured samples that `ERR1`/`ERR2` use, in order.
pub open spec fn err_indices(m: Seq<Sample>, c: Seq<Sample>, ymin: Key, ymax: Key, n: int) -> Seq<
    usize,
>
    decreases n,
{
    if n <= 0 {
        Seq::empty()
    } else {
        let prev = err_indices(m, c, ymin, ymax, n - 1);
        if in_band(m[n - 1].v, ymin, ymax) && readable_at(c, m[n - 1].t) {
            prev.push((n - 1) as usize)
        } else {
            prev
        }
    }
}

/// The indices among the first `n` measured samples that `ERROR` uses, in order.
pub open spec fn norm_indices(m: Seq<Sample>, r: Seq<Sample>, n: int) -> Seq<usize>
    decreases n,
{
    if n <= 0 {
        Seq::empty()
    } else {
        let prev = norm_indices(m, r, n - 1);
        if less_eq(r[0].t, m[n - 1].t) && less_eq(m[n - 1].t, r[r.len() - 1].t) {
            prev.push((n - 1) as usize)
        } else {
            prev
        }
    }
}

/// Which measured samples `ERR1`/`ERR2` use, on the values themselves: among the first `n`, the
/// used indices come in increasing order, and the sample at index `i` is used exactly when its
/// magnitude `|v|` lies in `[ymin, ymax]` and its time is neither before the comparison's first
/// sample nor after its last. In particular no sample with `|v| > ymax` is used.
pub proof fn lemma_err_indices_exact(m: Seq<Sample>, c: Seq<Sample>, ymin: Key, ymax: Key, n: int)
    requires
        0 <= n <= m.len() <= usize::MAX,
    ensures
        forall|k: int|
            0 <= k < err_indices(m, c, ymin, ymax, n).len() ==> #[trigger] err_indices(
                m,
                c,
                ymin,
                ymax,
                n,
            )[k] < n,
        forall|k: int, l: int|
            0 <= k < l < err_indices(m, c, ymin, ymax, n).len() ==> #[trigger] err_indices(
                m,
                c,
                ymin,
                ymax,
                n,
            )[k] < #[trigger] err_indices(m, c, ymin, ymax, n)[l],
        forall|i: int|
            0 <= i < n ==> (err_indices(m, c, ymin, ymax, n).contains(i as usize) <==> (less_eq(
                ymin,
                spec_key_abs(#[trigger] m[i].v),
            ) && less_eq(spec_key_abs(m[i].v), ymax) && c.len() > 0 && !less(m[i].t, c[0].t)
                && !less(c[c.len() - 1].t, m[i].t))),
    decreases n,
{
    if n > 0 {
        lemma_err_indices_exact(m, c, ymin, ymax, n - 1);
        let prev = err_indices(m, c, ymin, ymax, n - 1);
        let cur = err_indices(m, c, ymin, ymax, n);
        let used = in_band(m[n - 1].v, ymin, ymax) && readable_at(c, m[n - 1].t);
        if used {
            assert(cur == prev.push((n - 1) as usize));
        } else {
            assert(cur == prev);
        }
        assert forall|i: int| 0 <= i < n implies (cur.contains(i as usize) <==> (less_eq(
            ymin,
            spec_key_abs(#[trigger] m[i].v),
        ) && less_eq(spec_key_abs(m[i].v), ymax) && c.len() > 0 && !less(m[i].t, c[0].t)
            && !less(c[c.len() - 1].t, m[i].t))) by {
            if cur.contains(i as usize) {
                let k = choose|k: int| 0 <= k < cur.len() && cur[k] == i as usize;
                if k < prev.len() {
                    assert(cur[k] == prev[k]);
                    assert(prev.contains(i as usize));
                }
            }
            if i < n - 1 && prev.contains(i as usize) {
                let k = choose|k: int| 0 <= k < prev.len() && prev[k] == i as usize;
                assert(cur[k] == prev[k]);
            }
            if i == n - 1 && used {
                assert(cur[prev.len() as int] == i as usize);
            }
            if i == n - 1 && prev.contains(i as usize) {
                let k = choose|k: int| 0 <= k < prev.len() && prev[k] == i as usize;
                assert(prev[k] < n - 1);
            }
        }
        assert forall|k: int, l: int| 0 <= k < l < cur.len() implies #[trigger] cur[k] < #[trigger] cur[l] by {
            assert(cur[k] == prev[k]);
            if l < prev.len() {
                assert(cur[l] == prev[l]);
            }
        }
        assert forall|k: int| 0 <= k < cur.len() implies #[trigger] cur[k] < n by {
            if k < prev.len() {
                assert(cur[k] == prev[k]);
            }
        }
    }
}

/// Which measured samples `ERROR` uses, on the values themselves: among the first `n`, the used
/// indices come in increasing order, and the sample at index `i` is used exactly when its time
/// lies in `[reference[0].t, reference[last].t]`, however many samples either series holds.
pub proof fn lemma_norm_indices_exact(m: Seq<Sample>, r: Seq<Sample>, n: int)
    requires
        0 <= n <= m.len() <= usize::MAX,
        r.len() > 0,
    ensures
        forall|k: int|
            0 <= k < norm_indices(m, r, n).len() ==> #[trigger] norm_indices(m, r, n)[k] < n,
        forall|k: int, l: int|
            0 <= k < l < norm_indices(m, r, n).len() ==> #[trigger] norm_indices(m, r, n)[k]
                < #[trigger] norm_indices(m, r, n)[l],
        forall|i: int|
            0 <= i < n ==> (norm_indices(m, r, n).contains(i as usize) <==> (less_eq(
                r[0].t,
                (#[trigger] m[i]).t,
            ) && less_eq(m[i].t, r[r.len() - 1].t))),
    decreases n,
{
    if n > 0 {
        lemma_norm_indices_exact(m, r, n - 1);
        let prev = norm_indices(m, r, n - 1);
        let cur = norm_indices(m, r, n);
        let used = less_eq(r[0].t, m[n - 1].t) && less_eq(m[n - 1].t, r[r.len() - 1].t);
        if used {
            assert(cur == prev.push((n - 1) as usize));
        } else {
            assert(cur == prev);
        }
        assert forall|i: int| 0 <= i < n implies (cur.contains(i as usize) <==> (less_eq(
            r[0].t,
            (#[trigger] m[i]).t,
        ) && less_eq(m[i].t, r[r.len() - 1].t))) by {
            if cur.contains(i as usize) {
                let k = choose|k: int| 0 <= k < cur.len() && cur[k] == i as usize;
                if k < prev.len() {
                    assert(cur[k] == prev[k]);
                    assert(prev.contains(i as usize));
                }
            }
            if i < n - 1 && prev.contains(i as usize) {
                let k = choose|k: int| 0 <= k < prev.len() && prev[k] == i as usize;
                assert(cur[k] == prev[k]);
            }
            if i == n - 1 && used {
                assert(cur[prev.len() as int] == i as usize);
            }
            if i == n - 1 && prev.contains(i as usize) {
                let k = choose|k: int| 0 <= k < prev.len() && prev[k] == i as usize;
                assert(prev[k] < n - 1);
            }
        }
        assert forall|k: int, l: int| 0 <= k < l < cur.len() implies #[trigger] cur[k] < #[trigger] cur[l] by {
            assert(cur[k] == prev[k]);
            if l < prev.len() {
                assert(cur[l] == prev[l]);
            }
        }
        assert forall|k: int| 0 <= k < cur.len() implies #[trigger] cur[k] < n by {
            if k < prev.len() {
                assert(cur[k] == prev[k]);
            }
        }
    }
}

/// Each chosen measured sample with where its time falls in the other series: the two lists
/// agree index by index and every place is a true location inside the other series.
pub open spec fn points_match(
    points: Seq<(usize, Location)>,
    indices: Seq<usize>,
    m: Seq<Sample>,
    other: Seq<Sample>,
) -> bool {
    &&& points.len() == indices.len()
    &&& forall|k: int|
        0 <= k < points.len() ==> {
            let p = #[trigger] points[k];
            &&& p.0 == indices[k]
            &&& p.0 < m.len()
            &&& located(other, m[p.0 as int].t, p.1)
            &&& !(p.1 is Outside)
        }
}

/// The samples `ERR1`/`ERR2` compare: each measured sample whose magnitude lies in
/// `[ymin, ymax]` and whose time falls in the comparison series' domain, with where that time
/// falls among the comparison samples.
///
/// [`MeasureError::EmptySeries`] where either series is empty, [`MeasureError::EmptyWindow`]
/// where no sample qualifies.
pub fn err_terms(measured: &[Sample], comparison: &[Sample], ymin: Key, ymax: Key) -> (r: Result<
    Vec<(usize, Location)>,
    MeasureError,
>)
    requires
        measured@.len() > 0 ==> sorted_times(comparison@),
        forall|i: int| 0 <= i < measured@.len() ==> (#[trigger] measured@[i]).v.wf(),
        comparison@.len() > 0 ==> forall|i: int|
            0 <= i < measured@.len() && in_band(measured@[i].v, ymin, ymax) ==> !(
            #[trigger] measured@[i]).t.is_nan(),
    ensures
        measured@.len() == 0 || comparison@.len() == 0 ==> r == Err::<
            Vec<(usize, Location)>,
            MeasureError,
        >(MeasureError::EmptySeries),
        measured@.len() > 0 && comparison@.len() > 0 && err_indices(
            measured@,
            comparison@,
            ymin,
            ymax,
            measured@.len() as int,
        ).len() == 0 ==> r == Err::<Vec<(usize, Location)>, MeasureError>(
            MeasureError::EmptyWindow,
        ),
        measured@.len() > 0 && comparison@.len() > 0 && err_indices(
            measured@,
            comparison@,
            ymin,
            ymax,
            measured@.len() as int,
        ).len() > 0 ==> r is Ok,
        r matches Ok(points) ==> points_match(
            points@,
            err_indices(measured@, comparison@, ymin, ymax, measured@.len() as int),
            measured@,
            comparison@,
        ),
        r matches Ok(points) ==> forall|k: int, l: int|
            0 <= k < l < points@.len() ==> (#[trigger] points@[k]).0 < (#[trigger] points@[l]).0,
        r matches Ok(points) ==> forall|k: int|
            0 <= k < points@.len() ==> {
                let i = (#[trigger] points@[k]).0 as int;
                &&& less_eq(ymin, spec_key_abs(measured@[i].v))
                &&& less_eq(spec_key_abs(measured@[i].v), ymax)
                &&& !less(measured@[i].t, comparison@[0].t)
                &&& !less(comparison@[comparison@.len() - 1].t, measured@[i].t)
            },
        r matches Ok(points) ==> forall|i: int|
            0 <= i < measured@.len() && less_eq(ymin, spec_key_abs(#[trigger] measured@[i].v))
                && less_eq(spec_key_abs(measured@[i].v), ymax) && !less(
                measured@[i].t,
                comparison@[0].t,
            ) && !less(comparison@[comparison@.len() - 1].t, measured@[i].t) ==> exists|k: int|
                0 <= k < points@.len() && points@[k].0 == i,
{
    let n = measured.len();
    let nc = comparison.len();
    if n == 0 || nc == 0 {
        return Err(MeasureError::EmptySeries);
    }
    let mut out: Vec<(usize, Location)> = Vec::new();
    let mut i: usize = 0;
    while i < n
        invariant
            n == measured@.len(),
            nc == comparison@.len(),
            nc > 0,
            i <= n,
            sorted_times(comparison@),
            forall|j: int| 0 <= j < measured@.len() ==> (#[trigger] measured@[j]).v.wf(),
            forall|j: int|
                0 <= j < measured@.len() && in_band(measured@[j].v, ymin, ymax) ==> !(
                #[trigger] measured@[j]).t.is_nan(),
            points_match(
                out@,
                err_indices(measured@, comparison@, ymin, ymax, i as int),
                measured@,
                comparison@,
            ),
        decreases n - i,
    {
        let m = measured[i];
        let mag = key_abs(m.v);
        if is_less_eq(ymin, mag) && is_less_eq(mag, ymax) {
            let loc = locate(comparison, m.t);
            if !matches!(loc, Location::Outside) {
                out.push((i, loc));
            }
        }
        proof {
            let prev = err_indices(measured@, comparison@, ymin, ymax, i as int);
            let cur = err_indices(measured@, comparison@, ymin, ymax, i + 1);
            if cur.len() > prev.len() {
                assert(cur == prev.push(i));
            } else {
                assert(cur == prev);
            }
        }
        i = i + 1;
    }
    if out.len() == 0 {
        return Err(MeasureError::EmptyWindow);
    }
    proof {
        let idx = err_indices(measured@, comparison@, ymin, ymax, n as int);
        lemma_err_indices_exact(measured@, comparison@, ymin, ymax, n as int);
        assert forall|k: int| 0 <= k < out@.len() implies idx.contains(#[trigger] out@[k].0) by {
            assert(idx[k] == out@[k].0);
        }
        assert forall|i: int|
            #![trigger measured@[i]]
            0 <= i < n && idx.contains(i as usize) implies exists|k: int|
                0 <= k < out@.len() && out@[k].0 == i by {
            let k = choose|k: int| 0 <= k < idx.len() && idx[k] == i as usize;
            assert(out@[k].0 == idx[k]);
        }
        assert forall|k: int, l: int| 0 <= k < l < out@.len() implies (#[trigger] out@[k]).0 < (
        #[trigger] out@[l]).0 by {
            assert(out@[k].0 == idx[k] && out@[l].0 == idx[l]);
        }
    }
    Ok(out)
}

/// The samples `ERROR` compares: each measured sample whose time falls in the reference
/// series' domain, with where that time falls among the reference samples.
///
/// [`MeasureError::EmptySeries`] where either series is empty, [`MeasureError::EmptyWindow`]
/// where no measured time falls in the reference's domain.
pub fn error_norm_points(measured: &[Sample], reference: &[Sample]) -> (r: Result<
    Vec<(usize, Location)>,
    MeasureError,
>)
    requires
        measured@.len() > 0 ==> sorted_times(reference@),
    ensures
        measured@.len() == 0 || reference@.len() == 0 ==> r == Err::<
            Vec<(usize, Location)>,
            MeasureError,
        >(MeasureError::EmptySeries),
        measured@.len() > 0 && reference@.len() > 0 && norm_indices(
            measured@,
            reference@,
            measured@.len() as int,
        ).len() == 0 ==> r == Err::<Vec<(usize, Location)>, MeasureError>(
            MeasureError::EmptyWindow,
        ),
        measured@.len() > 0 && reference@.len() > 0 && norm_indices(
            measured@,
            reference@,
            measured@.len() as int,
        ).len() > 0 ==> r is Ok,
        r matches Ok(points) ==> points_match(
            points@,
            norm_indices(measured@, reference@, measured@.len() as int),
            measured@,
            reference@,
        ),
        r matches Ok(points) ==> forall|k: int, l: int|
            0 <= k < l < points@.len() ==> (#[trigger] points@[k]).0 < (#[trigger] points@[l]).0,
        r matches Ok(points) ==> forall|k: int|
            0 <= k < points@.len() ==> less_eq(
                reference@[0].t,
                measured@[(#[trigger] points@[k]).0 as int].t,
            ) && less_eq(measured@[points@[k].0 as int].t, reference@[reference@.len() - 1].t),
        r matches Ok(points) ==> forall|i: int|
            0 <= i < measured@.len() && less_eq(reference@[0].t, (#[trigger] measured@[i]).t)
                && less_eq(measured@[i].t, reference@[reference@.len() - 1].t) ==> exists|k: int|
                0 <= k < points@.len() && points@[k].0 == i,
{
    let n = measured.len();
    let nr = reference.len();
    if n == 0 || nr == 0 {
        return Err(MeasureError::EmptySeries);
    }
    let lo = reference[0].t;
    let hi = reference[nr - 1].t;
    let mut out: Vec<(usize, Location)> = Vec::new();
    let mut i: usize = 0;
    while i < n
        invariant
            n == measured@.len(),
            nr == reference@.len(),
            nr > 0,
            lo == reference@[0].t,
            hi == reference@[nr - 1].t,
            i <= n,
            sorted_times(reference@),
            points_match(
                out@,
                norm_indices(measured@, reference@, i as int),
                measured@,
                reference@,
            ),
        decreases n - i,
    {
        let t = measured[i].t;
        if is_less_eq(lo, t) && is_less_eq(t, hi) {
            let loc = locate(reference, t);
            out.push((i, loc));
        }
        proof {
            let prev = norm_indices(measured@, reference@, i as int);
            let cur = norm_indices(measured@, reference@, i + 1);
            if cur.len() > prev.len() {
                assert(cur == prev.push(i));
            } else {
                assert(cur == prev);
            }
        }
        i = i + 1;
    }
    if out.len() == 0 {
        return Err(MeasureError::EmptyWindow);
    }
    proof {
        let idx = norm_indices(measured@, reference@, n as int);
        lemma_norm_indices_exact(measured@, reference@, n as int);
        assert forall|k: int| 0 <= k < out@.len() implies idx.contains(#[trigger] out@[k].0) by {
            assert(idx[k] == out@[k].0);
        }
        assert forall|i: int|
            #![trigger measured@[i]]
            0 <= i < n && idx.contains(i as usize) implies exists|k: int|
                0 <= k < out@.len() && out@[k].0 == i by {
            let k = choose|k: int| 0 <= k < idx.len() && idx[k] == i as usize;
            assert(out@[k].0 == idx[k]);
        }
        assert forall|k: int, l: int| 0 <= k < l < out@.len() implies (#[trigger] out@[k]).0 < (
        #[trigger] out@[l]).0 by {
            assert(out@[k].0 == idx[k] && out@[l].0 == idx[l]);
        }
    }
    Ok(out)
}

} // verus!
