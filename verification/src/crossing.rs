//! Threshold crossings: which segments of a difference-from-threshold series cross zero and in
//! which direction, which of those crossings a `RISE=`/`FALL=`/`CROSS=` qualifier selects, and
//! which segment slope(s) give the derivative at a time (`DERIV ... AT=`).
//!
//! A crossing is detected the way ngspice and Xyce document their level-crossing mode: a segment
//! rises through zero when its start is below zero and its end at or above it, and falls through
//! zero when its start is above zero and its end at or below it. The time of the crossing, found
//! by interpolating strictly inside that segment, is the caller's arithmetic.

use vstd::prelude::*;

use crate::key::{
    is_less, is_less_eq, is_same, key_max, key_min, lemma_max_min_pick_an_argument, less, less_eq,
    same, spec_key_max, spec_key_min, Key,
};
use crate::sample::{
    check_monotonic, increasing_times, lemma_increasing_is_strictly_sorted, locate, located,
    sorted_times, Location, MeasureError, Sample, NOT_SORTED,
};

verus! {

/// The message of the error for an occurrence count of zero.
pub const ZERO_OCCURRENCE: &'static str = "RISE/FALL/CROSS occurrence is 1-based; 0 is not valid";

/// Which direction(s) of threshold crossing to accept: `RISE=`, `FALL=`, `CROSS=`.
#[derive(Debug, Clone, Copy, PartialEq, Eq, Structural)]
pub enum Edge {
    /// Only rising crossings (from below the threshold to at or above it).
    Rising,
    /// Only falling crossings (from above the threshold to at or below it).
    Falling,
    /// Either direction.
    Either,
}

/// Which occurrence of a matching crossing to use: `RISE=n` (1-based) or `RISE=LAST`.
#[derive(Debug, Clone, Copy, PartialEq, Eq, Structural)]
pub enum Occurrence {
    /// The `n`-th matching crossing, 1-based.
    Nth(usize),
    /// The last matching crossing.
    Last,
}

/// A crossing found in a series: the segment it lies in (between the samples at `segment` and
/// `segment + 1`) and its direction.
#[derive(Debug, Clone, Copy, PartialEq, Eq, Structural)]
pub struct Crossing {
    /// The index of the segment's first sample.
    pub segment: usize,
    /// [`Edge::Rising`] or [`Edge::Falling`].
    pub edge: Edge,
}

/// The direction in which a segment from `d0` to `d1` crosses zero, if it does.
pub open spec fn segment_edge(d0: Key, d1: Key) -> Option<Edge> {
    let z = Key::spec_zero();
    if same(d0, z) && same(d1, z) {
        None
    } else if less_eq(z, d1) && less(d0, z) {
        Some(Edge::Rising)
    } else if less_eq(d1, z) && less(z, d0) {
        Some(Edge::Falling)
    } else {
        None
    }
}

/// The crossings of the first `n` segments of `s`, in order.
pub open spec fn crossings_upto(s: Seq<Sample>, n: int) -> Seq<Crossing>
    decreases n,
{
    if n <= 0 {
        Seq::empty()
    } else {
        let prev = crossings_upto(s, n - 1);
        match segment_edge(s[n - 1].v, s[n].v) {
            Some(e) => prev.push(Crossing { segment: (n - 1) as usize, edge: e }),
            None => prev,
        }
    }
}

/// Every crossing of the series `s`, in order.
pub open spec fn spec_crossings(s: Seq<Sample>) -> Seq<Crossing> {
    if s.len() < 2 {
        Seq::empty()
    } else {
        crossings_upto(s, s.len() - 1)
    }
}

/// Every crossing among the first `n` segments lies in one of them and has the direction in
/// which that segment crosses zero.
pub proof fn lemma_crossings_sound(s: Seq<Sample>, n: int)
    requires
        0 <= n < s.len() <= usize::MAX,
    ensures
        forall|k: int|
            0 <= k < crossings_upto(s, n).len() ==> {
                let c = #[trigger] crossings_upto(s, n)[k];
                &&& c.segment < n
                &&& segment_edge(s[c.segment as int].v, s[c.segment + 1].v) == Some(c.edge)
            },
    decreases n,
{
    if n > 0 {
        lemma_crossings_sound(s, n - 1);
        let prev = crossings_upto(s, n - 1);
        let cur = crossings_upto(s, n);
        match segment_edge(s[n - 1].v, s[n].v) {
            Some(e) => {
                assert(cur == prev.push(Crossing { segment: (n - 1) as usize, edge: e }));
                assert forall|k: int| 0 <= k < cur.len() implies {
                    let c = #[trigger] cur[k];
                    &&& c.segment < n
                    &&& segment_edge(s[c.segment as int].v, s[c.segment + 1].v) == Some(c.edge)
                } by {
                    if k < prev.len() {
                        assert(cur[k] == prev[k]);
                    }
                }
            },
            None => {
                assert(cur == prev);
            },
        }
    }
}

/// The crossings among the first `n` segments come in the order of their segments.
pub proof fn lemma_crossings_ordered(s: Seq<Sample>, n: int)
    requires
        0 <= n < s.len() <= usize::MAX,
    ensures
        forall|k: int, m: int|
            0 <= k < m < crossings_upto(s, n).len() ==> #[trigger] crossings_upto(s, n)[k].segment
                < #[trigger] crossings_upto(s, n)[m].segment,
    decreases n,
{
    if n > 0 {
        lemma_crossings_ordered(s, n - 1);
        lemma_crossings_sound(s, n - 1);
        let prev = crossings_upto(s, n - 1);
        let cur = crossings_upto(s, n);
        match segment_edge(s[n - 1].v, s[n].v) {
            Some(e) => {
                assert(cur == prev.push(Crossing { segment: (n - 1) as usize, edge: e }));
                assert forall|k: int, m: int| 0 <= k < m < cur.len() implies #[trigger] cur[k].segment
                    < #[trigger] cur[m].segment by {
                    assert(cur[k] == prev[k]);
                    if m < prev.len() {
                        assert(cur[m] == prev[m]);
                    }
                }
            },
            None => {
                assert(cur == prev);
            },
        }
    }
}

/// Every one of the first `n` segments that crosses zero has its crossing in the list.
pub proof fn lemma_crossings_complete(s: Seq<Sample>, n: int)
    requires
        0 <= n < s.len() <= usize::MAX,
    ensures
        forall|i: int|
            0 <= i < n && (#[trigger] segment_edge(s[i].v, s[i + 1].v)) is Some ==> exists|k: int|
                0 <= k < crossings_upto(s, n).len() && crossings_upto(s, n)[k].segment == i,
    decreases n,
{
    if n > 0 {
        lemma_crossings_complete(s, n - 1);
        let prev = crossings_upto(s, n - 1);
        let cur = crossings_upto(s, n);
        assert forall|i: int|
            0 <= i < n && (#[trigger] segment_edge(s[i].v, s[i + 1].v)) is Some implies exists|k: int|
                0 <= k < cur.len() && cur[k].segment == i by {
            match segment_edge(s[n - 1].v, s[n].v) {
                Some(e) => {
                    assert(cur == prev.push(Crossing { segment: (n - 1) as usize, edge: e }));
                    if i < n - 1 {
                        let k = choose|k: int| 0 <= k < prev.len() && prev[k].segment == i;
                        assert(cur[k] == prev[k]);
                    } else {
                        assert(cur[prev.len() as int].segment == i);
                    }
                },
                None => {
                    assert(cur == prev);
                },
            }
        }
    }
}

/// Laws of crossing detection over a whole series `s`: every reported crossing lies in a
/// segment of the series that crosses zero in the reported direction, the crossings come in
/// the order of their segments, and every segment that crosses zero is reported.
pub proof fn lemma_crossing_laws(s: Seq<Sample>)
    requires
        s.len() <= usize::MAX,
    ensures
        forall|k: int|
            0 <= k < spec_crossings(s).len() ==> {
                let c = #[trigger] spec_crossings(s)[k];
                &&& c.segment + 1 < s.len()
                &&& segment_edge(s[c.segment as int].v, s[c.segment + 1].v) == Some(c.edge)
            },
        forall|k: int, m: int|
            0 <= k < m < spec_crossings(s).len() ==> #[trigger] spec_crossings(s)[k].segment
                < #[trigger] spec_crossings(s)[m].segment,
        forall|i: int|
            0 <= i < s.len() - 1 && (#[trigger] segment_edge(s[i].v, s[i + 1].v)) is Some
                ==> exists|k: int|
                0 <= k < spec_crossings(s).len() && spec_crossings(s)[k].segment == i,
{
    if s.len() >= 2 {
        lemma_crossings_sound(s, s.len() - 1);
        lemma_crossings_ordered(s, s.len() - 1);
        lemma_crossings_complete(s, s.len() - 1);
    }
}

proof fn lemma_segment_edge_values(d0: Key, d1: Key)
    ensures
        segment_edge(d0, d1) == Some(Edge::Rising) ==> less(d0, Key::spec_zero()) && less_eq(
            Key::spec_zero(),
            d1,
        ),
        segment_edge(d0, d1) == Some(Edge::Falling) ==> less(Key::spec_zero(), d0) && less_eq(
            d1,
            Key::spec_zero(),
        ),
        segment_edge(d0, d1) is Some ==> segment_edge(d0, d1) == Some(Edge::Rising)
            || segment_edge(d0, d1) == Some(Edge::Falling),
        less(d0, Key::spec_zero()) && less_eq(Key::spec_zero(), d1) ==> segment_edge(d0, d1) == Some(
            Edge::Rising,
        ),
        less(Key::spec_zero(), d0) && less_eq(d1, Key::spec_zero()) ==> segment_edge(d0, d1) == Some(
            Edge::Falling,
        ),
{
}

/// What a crossing is, on the values themselves: every reported crossing is a segment that
/// starts below zero and ends at or above it (rising) or starts above zero and ends at or below
/// it (falling); the crossings come in the order of their segments; and every such segment is
/// reported, in its direction, whatever the sizes of its two values.
pub proof fn lemma_crossings_by_value(s: Seq<Sample>)
    requires
        s.len() <= usize::MAX,
    ensures
        forall|k: int|
            0 <= k < spec_crossings(s).len() ==> {
                let c = #[trigger] spec_crossings(s)[k];
                &&& c.segment + 1 < s.len()
                &&& {
                    ||| c.edge == Edge::Rising && less(s[c.segment as int].v, Key::spec_zero())
                        && less_eq(Key::spec_zero(), s[c.segment + 1].v)
                    ||| c.edge == Edge::Falling && less(Key::spec_zero(), s[c.segment as int].v)
                        && less_eq(s[c.segment + 1].v, Key::spec_zero())
                }
            },
        forall|k: int, m: int|
            0 <= k < m < spec_crossings(s).len() ==> #[trigger] spec_crossings(s)[k].segment
                < #[trigger] spec_crossings(s)[m].segment,
        forall|i: int|
            0 <= i < s.len() - 1 && less(#[trigger] s[i].v, Key::spec_zero()) && less_eq(
                Key::spec_zero(),
                s[i + 1].v,
            ) ==> exists|k: int|
                0 <= k < spec_crossings(s).len() && spec_crossings(s)[k].segment == i && spec_crossings(s)[k].edge == Edge::Rising,
        forall|i: int|
            0 <= i < s.len() - 1 && less(Key::spec_zero(), #[trigger] s[i].v) && less_eq(
                s[i + 1].v,
                Key::spec_zero(),
            ) ==> exists|k: int|
                0 <= k < spec_crossings(s).len() && spec_crossings(s)[k].segment == i && spec_crossings(s)[k].edge == Edge::Falling,
{
    lemma_crossing_laws(s);
    let z = Key::spec_zero();
    assert forall|k: int| 0 <= k < spec_crossings(s).len() implies {
        let c = #[trigger] spec_crossings(s)[k];
        ||| c.edge == Edge::Rising && less(s[c.segment as int].v, z) && less_eq(z, s[c.segment + 1].v)
        ||| c.edge == Edge::Falling && less(z, s[c.segment as int].v) && less_eq(s[c.segment + 1].v, z)
    } by {
        let c = spec_crossings(s)[k];
        assert(segment_edge(s[c.segment as int].v, s[c.segment + 1].v) == Some(c.edge));
        lemma_segment_edge_values(s[c.segment as int].v, s[c.segment + 1].v);
    }
    assert forall|i: int|
        0 <= i < s.len() - 1 && less(#[trigger] s[i].v, z) && less_eq(z, s[i + 1].v) implies exists|k: int|
            0 <= k < spec_crossings(s).len() && spec_crossings(s)[k].segment == i && spec_crossings(s)[k].edge == Edge::Rising by {
        lemma_segment_edge_values(s[i].v, s[i + 1].v);
        assert(segment_edge(s[i].v, s[i + 1].v) == Some(Edge::Rising));
        let k = choose|k: int| 0 <= k < spec_crossings(s).len() && spec_crossings(s)[k].segment == i;
        let c = spec_crossings(s)[k];
        assert(segment_edge(s[c.segment as int].v, s[c.segment + 1].v) == Some(c.edge));
    }
    assert forall|i: int|
        0 <= i < s.len() - 1 && less(z, #[trigger] s[i].v) && less_eq(s[i + 1].v, z) implies exists|k: int|
            0 <= k < spec_crossings(s).len() && spec_crossings(s)[k].segment == i && spec_crossings(s)[k].edge == Edge::Falling by {
        lemma_segment_edge_values(s[i].v, s[i + 1].v);
        assert(segment_edge(s[i].v, s[i + 1].v) == Some(Edge::Falling));
        let k = choose|k: int| 0 <= k < spec_crossings(s).len() && spec_crossings(s)[k].segment == i;
        let c = spec_crossings(s)[k];
        assert(segment_edge(s[c.segment as int].v, s[c.segment + 1].v) == Some(c.edge));
    }
}

/// Every zero crossing of the series `diff` (its values being the differences from the
/// threshold), in order: a segment rises when it starts below zero and ends at or above it,
/// falls when it starts above zero and ends at or below it, and a segment that stays at zero
/// does neither.
pub fn find_crossings(diff: &[Sample]) -> (r: Vec<Crossing>)
    ensures
        r@ == spec_crossings(diff@),
        forall|k: int|
            0 <= k < r@.len() ==> {
                let c = #[trigger] r@[k];
                &&& c.segment + 1 < diff@.len()
                &&& {
                    ||| c.edge == Edge::Rising && less(diff@[c.segment as int].v, Key::spec_zero())
                        && less_eq(Key::spec_zero(), diff@[c.segment + 1].v)
                    ||| c.edge == Edge::Falling && less(Key::spec_zero(), diff@[c.segment as int].v)
                        && less_eq(diff@[c.segment + 1].v, Key::spec_zero())
                }
            },
        forall|k: int, m: int| 0 <= k < m < r@.len() ==> #[trigger] r@[k].segment < #[trigger] r@[m].segment,
        forall|i: int|
            0 <= i < diff@.len() - 1 && less(#[trigger] diff@[i].v, Key::spec_zero()) && less_eq(
                Key::spec_zero(),
                diff@[i + 1].v,
            ) ==> exists|k: int|
                0 <= k < r@.len() && r@[k].segment == i && r@[k].edge == Edge::Rising,
        forall|i: int|
            0 <= i < diff@.len() - 1 && less(Key::spec_zero(), #[trigger] diff@[i].v) && less_eq(
                diff@[i + 1].v,
                Key::spec_zero(),
            ) ==> exists|k: int|
                0 <= k < r@.len() && r@[k].segment == i && r@[k].edge == Edge::Falling,
{
    let mut out: Vec<Crossing> = Vec::new();
    let n = diff.len();
    if n < 2 {
        proof {
            lemma_crossings_by_value(diff@);
        }
        return out;
    }
    let zero = Key::zero();
    let mut i: usize = 0;
    while i + 1 < n
        invariant
            n == diff@.len(),
            n >= 2,
            i + 1 <= n,
            zero == Key::spec_zero(),
            out@ == crossings_upto(diff@, i as int),
        decreases n - i,
    {
        let d0 = diff[i].v;
        let d1 = diff[i + 1].v;
        if is_same(d0, zero) && is_same(d1, zero) {
        } else if is_less_eq(zero, d1) && is_less(d0, zero) {
            out.push(Crossing { segment: i, edge: Edge::Rising });
        } else if is_less_eq(d1, zero) && is_less(zero, d0) {
            out.push(Crossing { segment: i, edge: Edge::Falling });
        }
        i = i + 1;
    }
    proof {
        lemma_crossings_by_value(diff@);
    }
    out
}

/// Whether a crossing in direction `e` is one the qualifier `filter` accepts.
pub open spec fn accepts(filter: Edge, e: Edge) -> bool {
    filter == Edge::Either || e == filter
}

/// How many of the first `n` crossings the qualifier `filter` accepts.
pub open spec fn count_accepted(s: Seq<Crossing>, filter: Edge, n: int) -> nat
    decreases n,
{
    if n <= 0 {
        0
    } else {
        count_accepted(s, filter, n - 1) + if accepts(filter, s[n - 1].edge) {
            1nat
        } else {
            0nat
        }
    }
}

proof fn lemma_count_monotone(s: Seq<Crossing>, filter: Edge, a: int, b: int)
    requires
        0 <= a <= b,
    ensures
        count_accepted(s, filter, a) <= count_accepted(s, filter, b),
    decreases b - a,
{
    if a < b {
        lemma_count_monotone(s, filter, a, b - 1);
    }
}

/// What `count_accepted` counts, directly: among the first `n` crossings, those whose direction
/// is the qualifier's, or every one of them for [`Edge::Either`].
pub proof fn lemma_count_accepted_counts(s: Seq<Crossing>, filter: Edge, n: int)
    requires
        0 <= n <= s.len(),
    ensures
        count_accepted(s, filter, n) == s.take(n).filter(
            (|c: Crossing| filter == Edge::Either || c.edge == filter),
        ).len(),
    decreases n,
{
    if n > 0 {
        lemma_count_accepted_counts(s, filter, n - 1);
        let p = |c: Crossing| filter == Edge::Either || c.edge == filter;
        assert(s.take(n) =~= s.take(n - 1).push(s[n - 1]));
        s.take(n - 1).lemma_filter_len_push(p, s[n - 1]);
    }
}

/// Which of `events` the qualifiers select, by its index: the `n`-th crossing `edge` accepts
/// (1-based) or the last one it accepts.
///
/// [`MeasureError::InvalidParameter`] for an occurrence of zero, [`MeasureError::NotFound`]
/// where fewer crossings match than the occurrence asks for.
pub fn select_crossing(events: &[Crossing], edge: Edge, occurrence: Occurrence) -> (r: Result<
    usize,
    MeasureError,
>)
    ensures
        occurrence == Occurrence::Nth(0) ==> r == Err::<usize, MeasureError>(
            MeasureError::InvalidParameter(ZERO_OCCURRENCE),
        ),
        occurrence matches Occurrence::Nth(n) ==> n == 0 || {
            &&& (r is Ok <==> count_accepted(events@, edge, events@.len() as int) >= n)
            &&& !(r is Ok) ==> r == Err::<usize, MeasureError>(MeasureError::NotFound)
            &&& r matches Ok(i) ==> i < events@.len() && accepts(edge, events@[i as int].edge)
                && count_accepted(events@, edge, i as int) == n - 1
            &&& r matches Ok(i) ==> edge == Edge::Either || events@[i as int].edge == edge
        },
        occurrence == Occurrence::Last ==> {
            &&& (r is Ok <==> count_accepted(events@, edge, events@.len() as int) > 0)
            &&& !(r is Ok) ==> r == Err::<usize, MeasureError>(MeasureError::NotFound)
            &&& r matches Ok(i) ==> i < events@.len() && accepts(edge, events@[i as int].edge)
                && count_accepted(events@, edge, i + 1) == count_accepted(
                events@,
                edge,
                events@.len() as int,
            )
            &&& r matches Ok(i) ==> edge == Edge::Either || events@[i as int].edge == edge
        },
{
    let len = events.len();
    match occurrence {
        Occurrence::Last => {
            let mut found: Option<usize> = None;
            let mut i: usize = 0;
            while i < len
                invariant
                    len == events@.len(),
                    i <= len,
                    found is None ==> count_accepted(events@, edge, i as int) == 0,
                    found matches Some(j) ==> j < i && accepts(edge, events@[j as int].edge)
                        && count_accepted(events@, edge, j + 1) == count_accepted(
                        events@,
                        edge,
                        i as int,
                    ),
                decreases len - i,
            {
                if edge == Edge::Either || events[i].edge == edge {
                    found = Some(i);
                }
                i = i + 1;
            }
            match found {
                Some(j) => Ok(j),
                None => Err(MeasureError::NotFound),
            }
        },
        Occurrence::Nth(n) => {
            if n == 0 {
                return Err(MeasureError::InvalidParameter(ZERO_OCCURRENCE));
            }
            let mut seen: usize = 0;
            let mut i: usize = 0;
            while i < len
                invariant
                    len == events@.len(),
                    i <= len,
                    n > 0,
                    occurrence == Occurrence::Nth(n),
                    seen == count_accepted(events@, edge, i as int),
                    seen < n,
                decreases len - i,
            {
                if edge == Edge::Either || events[i].edge == edge {
                    if seen + 1 == n {
                        proof {
                            lemma_count_monotone(events@, edge, i + 1, len as int);
                        }
                        return Ok(i);
                    }
                    seen = seen + 1;
                }
                i = i + 1;
            }
            Err(MeasureError::NotFound)
        },
    }
}

/// Selection is in order: where `Nth(n)` selects index `i` and `Nth(n + 1)` selects index `j`
/// (the facts `select_crossing` states of each), `i` comes before `j`, and so does the crossing
/// there; and no accepted crossing comes after the one `Last` selects.
pub proof fn lemma_selection_ordered(s: Seq<Crossing>, filter: Edge, i: int, j: int, n: int)
    requires
        0 <= i < s.len(),
        0 <= j < s.len(),
        n >= 1,
        accepts(filter, s[i].edge),
        accepts(filter, s[j].edge),
        count_accepted(s, filter, i) == n - 1,
        count_accepted(s, filter, j) == n,
    ensures
        i < j,
{
    if j <= i {
        lemma_count_monotone(s, filter, j + 1, i);
        assert(count_accepted(s, filter, j + 1) == n + 1);
    }
}

/// The crossing `Last` selects is the last accepted one: any accepted crossing is at or
/// before it.
pub proof fn lemma_last_is_last(s: Seq<Crossing>, filter: Edge, i: int, j: int)
    requires
        0 <= i < s.len(),
        0 <= j < s.len(),
        accepts(filter, s[i].edge),
        count_accepted(s, filter, i + 1) == count_accepted(s, filter, s.len() as int),
        accepts(filter, s[j].edge),
    ensures
        j <= i,
{
    if j > i {
        lemma_count_monotone(s, filter, i + 1, j);
        lemma_count_monotone(s, filter, j + 1, s.len() as int);
        assert(count_accepted(s, filter, j + 1) == count_accepted(s, filter, j) + 1);
    }
}

/// Over the crossings of a series, the selections come in the order of the series: the
/// crossing `Nth(n + 1)` selects lies in a later segment than the one `Nth(n)` selects.
pub proof fn lemma_selected_crossings_ordered(diff: Seq<Sample>, filter: Edge, i: int, j: int, n: int)
    requires
        diff.len() <= usize::MAX,
        0 <= i < spec_crossings(diff).len(),
        0 <= j < spec_crossings(diff).len(),
        n >= 1,
        accepts(filter, spec_crossings(diff)[i].edge),
        accepts(filter, spec_crossings(diff)[j].edge),
        count_accepted(spec_crossings(diff), filter, i) == n - 1,
        count_accepted(spec_crossings(diff), filter, j) == n,
    ensures
        spec_crossings(diff)[i].segment < spec_crossings(diff)[j].segment,
{
    lemma_selection_ordered(spec_crossings(diff), filter, i, j, n);
    lemma_crossing_laws(diff);
}

/// `FIND <variable> AT=<time>`: where `t` falls in `samples`, whose value there is read by
/// interpolation.
///
/// [`MeasureError::InvalidParameter`] where the times do not increase, [`MeasureError::NotFound`]
/// where `t` lies outside the series.
pub fn find_at(samples: &[Sample], t: Key) -> (r: Result<Location, MeasureError>)
    requires
        increasing_times(samples@) && samples@.len() > 0 ==> !t.is_nan(),
    ensures
        !increasing_times(samples@) ==> r == Err::<Location, MeasureError>(
            MeasureError::InvalidParameter(NOT_SORTED),
        ),
        increasing_times(samples@) && (samples@.len() == 0 || less(t, samples@[0].t) || less(
            samples@[samples@.len() - 1].t,
            t,
        )) ==> r == Err::<Location, MeasureError>(MeasureError::NotFound),
        increasing_times(samples@) && !(samples@.len() == 0 || less(t, samples@[0].t) || less(
            samples@[samples@.len() - 1].t,
            t,
        )) ==> r is Ok,
        r matches Ok(loc) ==> located(samples@, t, loc) && !(loc is Outside),
{
    check_monotonic(samples)?;
    proof {
        lemma_increasing_is_strictly_sorted(samples@);
    }
    match locate(samples, t) {
        Location::Outside => Err(MeasureError::NotFound),
        loc => Ok(loc),
    }
}

/// The segment slope(s) that make the derivative at a time: one segment's slope, or the mean of
/// the slopes of the two segments meeting at a sample.
#[derive(Debug, Clone, Copy, PartialEq, Eq, Structural)]
pub enum Slope {
    /// The slope of the segment between the samples at this index and the next.
    Segment(usize),
    /// The mean of the slopes of the segments ending and starting at the sample at this index.
    Central(usize),
}

/// `sl` is the right slope at `t`: on the first sample, the first segment; on the last, the
/// last segment; on an interior sample, the central difference there; strictly inside a
/// segment, that segment.
pub open spec fn slope_fits(s: Seq<Sample>, t: Key, sl: Slope) -> bool {
    match sl {
        Slope::Segment(i) => i + 1 < s.len() && {
            ||| i == 0 && same(s[0].t, t)
            ||| i + 2 == s.len() && same(s[i + 1].t, t)
            ||| less(s[i as int].t, t) && less(t, s[i + 1].t)
        },
        Slope::Central(i) => 0 < i && i + 1 < s.len() && same(s[i as int].t, t),
    }
}

/// `DERIV ... AT=`: which slope gives the derivative of `samples` at `t`. Strictly inside a
/// segment it is that segment's slope; on an interior sample it is the central difference of
/// the two segments meeting there; on the first or last sample it is the one segment there.
///
/// Errors, in the order they are checked: [`MeasureError::InvalidParameter`] where the times do
/// not increase, [`MeasureError::EmptySeries`] for fewer than two samples, and
/// [`MeasureError::NotFound`] for a time outside the series.
#[verifier::spinoff_prover]
pub fn deriv_at(samples: &[Sample], t: Key) -> (r: Result<Slope, MeasureError>)
    requires
        increasing_times(samples@) && samples@.len() >= 2 ==> !t.is_nan(),
    ensures
        !increasing_times(samples@) ==> r == Err::<Slope, MeasureError>(
            MeasureError::InvalidParameter(NOT_SORTED),
        ),
        increasing_times(samples@) && samples@.len() < 2 ==> r == Err::<Slope, MeasureError>(
            MeasureError::EmptySeries,
        ),
        increasing_times(samples@) && samples@.len() >= 2 && (less(t, samples@[0].t) || less(
            samples@[samples@.len() - 1].t,
            t,
        )) ==> r == Err::<Slope, MeasureError>(MeasureError::NotFound),
        increasing_times(samples@) && samples@.len() >= 2 && !(less(t, samples@[0].t) || less(
            samples@[samples@.len() - 1].t,
            t,
        )) ==> r is Ok,
        r matches Ok(sl) ==> slope_fits(samples@, t, sl),
{
    check_monotonic(samples)?;
    let n = samples.len();
    if n < 2 {
        return Err(MeasureError::EmptySeries);
    }
    if is_less(t, samples[0].t) || is_less(samples[n - 1].t, t) {
        return Err(MeasureError::NotFound);
    }
    proof {
        lemma_increasing_is_strictly_sorted(samples@);
    }
    let loc = locate(samples, t);
    if matches!(loc, Location::Outside) {
        return Err(MeasureError::NotFound);
    }
    Ok(slope_at(samples, t, loc))
}

/// The slope for a time placed at `loc`: the one segment on the first or last sample, the
/// central difference on an interior sample, the segment it lies in otherwise.
fn slope_at(samples: &[Sample], t: Key, loc: Location) -> (sl: Slope)
    requires
        samples@.len() >= 2,
        located(samples@, t, loc),
        !(loc is Outside),
    ensures
        slope_fits(samples@, t, sl),
{
    let n = samples.len();
    match loc {
        Location::At(i) => {
            if i == 0 {
                Slope::Segment(0)
            } else if i + 1 < n {
                Slope::Central(i)
            } else {
                Slope::Segment(i - 1)
            }
        },
        Location::Between(i) => Slope::Segment(i - 1),
        Location::Outside => Slope::Segment(0),
    }
}

/// Which of the two series compared by a `WHEN <var> = <var2>` a time of the common grid comes
/// from.
#[derive(Debug, Clone, Copy, PartialEq, Eq, Structural)]
pub enum Side {
    /// The series being searched.
    Var,
    /// The series it is compared against.
    Other,
}

/// A time of the grid on which two series are compared: the sample it is the time of, and where
/// it falls in each series (where each is read by interpolation).
#[derive(Debug, Clone, Copy, PartialEq, Eq, Structural)]
pub struct GridPoint {
    /// The series whose sample gives this time.
    pub side: Side,
    /// The index of that sample.
    pub index: usize,
    /// Where the time falls among the samples of the searched series.
    pub var_at: Location,
    /// Where the time falls among the samples of the other series.
    pub other_at: Location,
}

/// `t` lies in the common domain `[lo, hi]`.
pub open spec fn in_overlap(t: Key, lo: Key, hi: Key) -> bool {
    less_eq(lo, t) && less_eq(t, hi)
}

/// The time of a grid entry.
pub open spec fn grid_time(v: Seq<Sample>, o: Seq<Sample>, p: (Side, usize)) -> Key {
    match p.0 {
        Side::Var => v[p.1 as int].t,
        Side::Other => o[p.1 as int].t,
    }
}

/// How many samples of `v` from index `i` on and of `o` from index `j` on are left to merge.
pub open spec fn grid_measure(v: Seq<Sample>, o: Seq<Sample>, i: int, j: int) -> int {
    (if i < v.len() {
        v.len() - i
    } else {
        0
    }) + (if j < o.len() {
        o.len() - j
    } else {
        0
    })
}

/// The common grid from `v[i..]` and `o[j..]`: the times of both series that lie in
/// `[lo, hi]`, merged in time order, a time of `v` before an equal time of `o`.
pub open spec fn grid_from(v: Seq<Sample>, o: Seq<Sample>, lo: Key, hi: Key, i: int, j: int) -> Seq<
    (Side, usize),
>
    decreases grid_measure(v, o, i, j),
    when 0 <= i && 0 <= j
{
    if i >= v.len() && j >= o.len() {
        Seq::empty()
    } else if i < v.len() && !in_overlap(v[i].t, lo, hi) {
        grid_from(v, o, lo, hi, i + 1, j)
    } else if j < o.len() && !in_overlap(o[j].t, lo, hi) {
        grid_from(v, o, lo, hi, i, j + 1)
    } else if j >= o.len() || (i < v.len() && less_eq(v[i].t, o[j].t)) {
        seq![(Side::Var, i as usize)] + grid_from(v, o, lo, hi, i + 1, j)
    } else {
        seq![(Side::Other, j as usize)] + grid_from(v, o, lo, hi, i, j + 1)
    }
}

/// The start of the common domain of two non-empty series.
pub open spec fn overlap_lo(v: Seq<Sample>, o: Seq<Sample>) -> Key {
    spec_key_max(v[0].t, o[0].t)
}

/// The end of the common domain of two non-empty series.
pub open spec fn overlap_hi(v: Seq<Sample>, o: Seq<Sample>) -> Key {
    spec_key_min(v[v.len() - 1].t, o[o.len() - 1].t)
}

/// The grid on which `WHEN <var> = <other>` compares two series, sampled on their own grids:
/// every sample time of either series inside their common domain, in time order (a time of
/// `var` before an equal time of `other`), each with where it falls in both series.
///
/// Errors, in the order they are checked: [`MeasureError::InvalidParameter`] where the times of
/// `var`, then of `other`, do not increase; [`MeasureError::EmptySeries`] where either is empty;
/// [`MeasureError::EmptyWindow`] where the common domain is a single point or empty.
#[verifier::spinoff_prover]
pub fn diff_grid(var: &[Sample], other: &[Sample]) -> (r: Result<Vec<GridPoint>, MeasureError>)
    ensures
        !increasing_times(var@) ==> r == Err::<Vec<GridPoint>, MeasureError>(
            MeasureError::InvalidParameter(NOT_SORTED),
        ),
        increasing_times(var@) && !increasing_times(other@) ==> r == Err::<
            Vec<GridPoint>,
            MeasureError,
        >(MeasureError::InvalidParameter(NOT_SORTED)),
        increasing_times(var@) && increasing_times(other@) && (var@.len() == 0 || other@.len()
            == 0) ==> r == Err::<Vec<GridPoint>, MeasureError>(MeasureError::EmptySeries),
        increasing_times(var@) && increasing_times(other@) && var@.len() > 0 && other@.len() > 0
            ==> (r is Ok <==> !less_eq(overlap_hi(var@, other@), overlap_lo(var@, other@))),
        increasing_times(var@) && increasing_times(other@) && var@.len() > 0 && other@.len() > 0
            && less_eq(overlap_hi(var@, other@), overlap_lo(var@, other@)) ==> r == Err::<
            Vec<GridPoint>,
            MeasureError,
        >(MeasureError::EmptyWindow),
        r matches Ok(points) ==> {
            let g = grid_from(var@, other@, overlap_lo(var@, other@), overlap_hi(var@, other@), 0, 0);
            &&& points@.len() == g.len()
            &&& forall|k: int|
                0 <= k < points@.len() ==> {
                    let p = #[trigger] points@[k];
                    &&& (p.side, p.index) == g[k]
                    &&& located(var@, grid_time(var@, other@, g[k]), p.var_at)
                    &&& !(p.var_at is Outside)
                    &&& located(other@, grid_time(var@, other@, g[k]), p.other_at)
                    &&& !(p.other_at is Outside)
                }
        },
{
    check_monotonic(var)?;
    check_monotonic(other)?;
    let nv = var.len();
    let no = other.len();
    if nv == 0 || no == 0 {
        return Err(MeasureError::EmptySeries);
    }
    proof {
        lemma_increasing_is_strictly_sorted(var@);
        lemma_increasing_is_strictly_sorted(other@);
        lemma_max_min_pick_an_argument(var@[0].t, other@[0].t);
        lemma_max_min_pick_an_argument(var@[nv - 1].t, other@[no - 1].t);
    }
    let lo = key_max(var[0].t, other[0].t);
    let hi = key_min(var[nv - 1].t, other[no - 1].t);
    if is_less_eq(hi, lo) {
        return Err(MeasureError::EmptyWindow);
    }
    let ghost g = grid_from(var@, other@, lo, hi, 0, 0);
    let ghost mut pairs: Seq<(Side, usize)> = Seq::empty();
    let mut out: Vec<GridPoint> = Vec::new();
    let mut i: usize = 0;
    let mut j: usize = 0;
    while i < nv || j < no
        invariant
            nv == var@.len(),
            no == other@.len(),
            nv > 0,
            no > 0,
            i <= nv,
            j <= no,
            sorted_times(var@),
            sorted_times(other@),
            lo == overlap_lo(var@, other@),
            hi == overlap_hi(var@, other@),
            less_eq(var@[0].t, lo),
            less_eq(other@[0].t, lo),
            less_eq(hi, var@[nv - 1].t),
            less_eq(hi, other@[no - 1].t),
            g == grid_from(var@, other@, lo, hi, 0, 0),
            g == pairs + grid_from(var@, other@, lo, hi, i as int, j as int),
            out@.len() == pairs.len(),
            forall|k: int|
                0 <= k < out@.len() ==> {
                    let p = #[trigger] out@[k];
                    &&& (p.side, p.index) == pairs[k]
                    &&& located(var@, grid_time(var@, other@, pairs[k]), p.var_at)
                    &&& !(p.var_at is Outside)
                    &&& located(other@, grid_time(var@, other@, pairs[k]), p.other_at)
                    &&& !(p.other_at is Outside)
                },
            forall|k: int|
                0 <= k < pairs.len() ==> in_overlap(grid_time(var@, other@, #[trigger] pairs[k]), lo, hi),
            forall|k: int|
                0 <= k < pairs.len() ==> match #[trigger] pairs[k].0 {
                    Side::Var => pairs[k].1 < nv,
                    Side::Other => pairs[k].1 < no,
                },
        decreases grid_measure(var@, other@, i as int, j as int),
    {
        let rest = Ghost(grid_from(var@, other@, lo, hi, i as int, j as int));
        if i < nv && !(is_less_eq(lo, var[i].t) && is_less_eq(var[i].t, hi)) {
            i = i + 1;
        } else if j < no && !(is_less_eq(lo, other[j].t) && is_less_eq(other[j].t, hi)) {
            j = j + 1;
        } else {
            let take_var = j >= no || (i < nv && is_less_eq(var[i].t, other[j].t));
            let t = if take_var {
                var[i].t
            } else {
                other[j].t
            };
            let var_at = locate(var, t);
            let other_at = locate(other, t);
            if take_var {
                out.push(GridPoint { side: Side::Var, index: i, var_at, other_at });
                proof {
                    assert(rest@ == seq![(Side::Var, i)] + grid_from(
                        var@,
                        other@,
                        lo,
                        hi,
                        i + 1,
                        j as int,
                    ));
                    pairs = pairs.push((Side::Var, i));
                    assert(g == pairs + grid_from(var@, other@, lo, hi, i + 1, j as int));
                }
                i = i + 1;
            } else {
                out.push(GridPoint { side: Side::Other, index: j, var_at, other_at });
                proof {
                    assert(rest@ == seq![(Side::Other, j)] + grid_from(
                        var@,
                        other@,
                        lo,
                        hi,
                        i as int,
                        j + 1,
                    ));
                    pairs = pairs.push((Side::Other, j));
                    assert(g == pairs + grid_from(var@, other@, lo, hi, i as int, j + 1));
                }
                j = j + 1;
            }
        }
    }
    proof {
        assert(grid_from(var@, other@, lo, hi, i as int, j as int) =~= Seq::empty());
        assert(g =~= pairs);
    }
    Ok(out)
}

/// Every entry of the grid from `v[i..]` and `o[j..]` is a sample at or after those indices
/// whose time lies in `[lo, hi]`.
pub proof fn lemma_grid_sound(v: Seq<Sample>, o: Seq<Sample>, lo: Key, hi: Key, i: int, j: int)
    requires
        0 <= i,
        0 <= j,
        v.len() <= usize::MAX,
        o.len() <= usize::MAX,
    ensures
        forall|k: int|
            0 <= k < grid_from(v, o, lo, hi, i, j).len() ==> {
                let p = #[trigger] grid_from(v, o, lo, hi, i, j)[k];
                &&& match p.0 {
                    Side::Var => i <= p.1 < v.len(),
                    Side::Other => j <= p.1 < o.len(),
                }
                &&& in_overlap(grid_time(v, o, p), lo, hi)
            },
    decreases grid_measure(v, o, i, j),
{
    let g = grid_from(v, o, lo, hi, i, j);
    if i >= v.len() && j >= o.len() {
    } else if i < v.len() && !in_overlap(v[i].t, lo, hi) {
        lemma_grid_sound(v, o, lo, hi, i + 1, j);
    } else if j < o.len() && !in_overlap(o[j].t, lo, hi) {
        lemma_grid_sound(v, o, lo, hi, i, j + 1);
    } else if j >= o.len() || (i < v.len() && less_eq(v[i].t, o[j].t)) {
        lemma_grid_sound(v, o, lo, hi, i + 1, j);
        let rest = grid_from(v, o, lo, hi, i + 1, j);
        assert(g == seq![(Side::Var, i as usize)] + rest);
        assert forall|k: int| 1 <= k < g.len() implies g[k] == rest[k - 1] by {}
    } else {
        lemma_grid_sound(v, o, lo, hi, i, j + 1);
        let rest = grid_from(v, o, lo, hi, i, j + 1);
        assert(g == seq![(Side::Other, j as usize)] + rest);
        assert forall|k: int| 1 <= k < g.len() implies g[k] == rest[k - 1] by {}
    }
}

/// The grid is in time order: the times of its entries never decrease.
#[verifier::spinoff_prover]
pub proof fn lemma_grid_sorted(v: Seq<Sample>, o: Seq<Sample>, lo: Key, hi: Key, i: int, j: int)
    requires
        0 <= i,
        0 <= j,
        v.len() <= usize::MAX,
        o.len() <= usize::MAX,
        sorted_times(v),
        sorted_times(o),
    ensures
        forall|k: int, m: int|
            0 <= k < m < grid_from(v, o, lo, hi, i, j).len() ==> less_eq(
                grid_time(v, o, #[trigger] grid_from(v, o, lo, hi, i, j)[k]),
                grid_time(v, o, #[trigger] grid_from(v, o, lo, hi, i, j)[m]),
            ),
    decreases grid_measure(v, o, i, j),
{
    let g = grid_from(v, o, lo, hi, i, j);
    if i >= v.len() && j >= o.len() {
    } else if i < v.len() && !in_overlap(v[i].t, lo, hi) {
        lemma_grid_sorted(v, o, lo, hi, i + 1, j);
    } else if j < o.len() && !in_overlap(o[j].t, lo, hi) {
        lemma_grid_sorted(v, o, lo, hi, i, j + 1);
    } else if j >= o.len() || (i < v.len() && less_eq(v[i].t, o[j].t)) {
        lemma_grid_sorted(v, o, lo, hi, i + 1, j);
        lemma_grid_sound(v, o, lo, hi, i + 1, j);
        let rest = grid_from(v, o, lo, hi, i + 1, j);
        assert forall|k: int, m: int| 0 <= k < m < g.len() implies less_eq(
            grid_time(v, o, #[trigger] g[k]),
            grid_time(v, o, #[trigger] g[m]),
        ) by {
            assert(g[m] == rest[m - 1]);
            if k > 0 {
                assert(g[k] == rest[k - 1]);
            } else {
                let p = rest[m - 1];
                match p.0 {
                    Side::Var => {
                        assert(less_eq(v[i].t, v[p.1 as int].t));
                    },
                    Side::Other => {
                        assert(less_eq(o[j].t, o[p.1 as int].t) || j == p.1);
                    },
                }
            }
        }
    } else {
        lemma_grid_sorted(v, o, lo, hi, i, j + 1);
        lemma_grid_sound(v, o, lo, hi, i, j + 1);
        let rest = grid_from(v, o, lo, hi, i, j + 1);
        assert forall|k: int, m: int| 0 <= k < m < g.len() implies less_eq(
            grid_time(v, o, #[trigger] g[k]),
            grid_time(v, o, #[trigger] g[m]),
        ) by {
            assert(g[m] == rest[m - 1]);
            if k > 0 {
                assert(g[k] == rest[k - 1]);
            } else {
                let p = rest[m - 1];
                match p.0 {
                    Side::Var => {
                        assert(less_eq(v[i].t, v[p.1 as int].t) || i == p.1);
                    },
                    Side::Other => {
                        assert(less_eq(o[j].t, o[p.1 as int].t));
                    },
                }
            }
        }
    }
}

/// The grid is complete: every sample of either series at or after the given indices whose time
/// lies in `[lo, hi]` is on it.
#[verifier::spinoff_prover]
pub proof fn lemma_grid_complete(v: Seq<Sample>, o: Seq<Sample>, lo: Key, hi: Key, i: int, j: int)
    requires
        0 <= i,
        0 <= j,
        v.len() <= usize::MAX,
        o.len() <= usize::MAX,
    ensures
        forall|a: int|
            i <= a < v.len() && in_overlap(#[trigger] v[a].t, lo, hi) ==> grid_from(
                v,
                o,
                lo,
                hi,
                i,
                j,
            ).contains((Side::Var, a as usize)),
        forall|b: int|
            j <= b < o.len() && in_overlap(#[trigger] o[b].t, lo, hi) ==> grid_from(
                v,
                o,
                lo,
                hi,
                i,
                j,
            ).contains((Side::Other, b as usize)),
    decreases grid_measure(v, o, i, j),
{
    let g = grid_from(v, o, lo, hi, i, j);
    if i >= v.len() && j >= o.len() {
    } else if i < v.len() && !in_overlap(v[i].t, lo, hi) {
        lemma_grid_complete(v, o, lo, hi, i + 1, j);
    } else if j < o.len() && !in_overlap(o[j].t, lo, hi) {
        lemma_grid_complete(v, o, lo, hi, i, j + 1);
    } else if j >= o.len() || (i < v.len() && less_eq(v[i].t, o[j].t)) {
        lemma_grid_complete(v, o, lo, hi, i + 1, j);
        let rest = grid_from(v, o, lo, hi, i + 1, j);
        assert(g == seq![(Side::Var, i as usize)] + rest);
        assert forall|a: int| i <= a < v.len() && in_overlap(#[trigger] v[a].t, lo, hi) implies g.contains(
            (Side::Var, a as usize),
        ) by {
            if a == i {
                assert(g[0] == (Side::Var, a as usize));
            } else {
                let k = choose|k: int| 0 <= k < rest.len() && rest[k] == (Side::Var, a as usize);
                assert(g[k + 1] == rest[k]);
            }
        }
        assert forall|b: int| j <= b < o.len() && in_overlap(#[trigger] o[b].t, lo, hi) implies g.contains(
            (Side::Other, b as usize),
        ) by {
            let k = choose|k: int| 0 <= k < rest.len() && rest[k] == (Side::Other, b as usize);
            assert(g[k + 1] == rest[k]);
        }
    } else {
        lemma_grid_complete(v, o, lo, hi, i, j + 1);
        let rest = grid_from(v, o, lo, hi, i, j + 1);
        assert(g == seq![(Side::Other, j as usize)] + rest);
        assert forall|b: int| j <= b < o.len() && in_overlap(#[trigger] o[b].t, lo, hi) implies g.contains(
            (Side::Other, b as usize),
        ) by {
            if b == j {
                assert(g[0] == (Side::Other, b as usize));
            } else {
                let k = choose|k: int| 0 <= k < rest.len() && rest[k] == (Side::Other, b as usize);
                assert(g[k + 1] == rest[k]);
            }
        }
        assert forall|a: int| i <= a < v.len() && in_overlap(#[trigger] v[a].t, lo, hi) implies g.contains(
            (Side::Var, a as usize),
        ) by {
            let k = choose|k: int| 0 <= k < rest.len() && rest[k] == (Side::Var, a as usize);
            assert(g[k + 1] == rest[k]);
        }
    }
}

/// The common grid of two increasing series, on the values themselves: with `lo` the later of
/// their first times and `hi` the earlier of their last times, every entry is a sample of one of
/// them whose time lies in `[lo, hi]`, the entries' times never decrease, and every sample of
/// either series whose time lies in `[lo, hi]` is an entry.
pub proof fn lemma_grid_by_value(v: Seq<Sample>, o: Seq<Sample>)
    requires
        0 < v.len() <= usize::MAX,
        0 < o.len() <= usize::MAX,
        increasing_times(v),
        increasing_times(o),
    ensures
        ({
            let lo = spec_key_max(v[0].t, o[0].t);
            let hi = spec_key_min(v[v.len() - 1].t, o[o.len() - 1].t);
            let g = grid_from(v, o, overlap_lo(v, o), overlap_hi(v, o), 0, 0);
            &&& forall|k: int|
                0 <= k < g.len() ==> {
                    let e = #[trigger] g[k];
                    let t = if e.0 == Side::Var {
                        v[e.1 as int].t
                    } else {
                        o[e.1 as int].t
                    };
                    &&& (e.0 == Side::Var ==> e.1 < v.len())
                    &&& (e.0 == Side::Other ==> e.1 < o.len())
                    &&& less_eq(lo, t)
                    &&& less_eq(t, hi)
                }
            &&& forall|k: int, m: int|
                0 <= k < m < g.len() ==> less_eq(
                    (if (#[trigger] g[k]).0 == Side::Var {
                        v[g[k].1 as int].t
                    } else {
                        o[g[k].1 as int].t
                    }),
                    (if (#[trigger] g[m]).0 == Side::Var {
                        v[g[m].1 as int].t
                    } else {
                        o[g[m].1 as int].t
                    }),
                )
            &&& forall|a: int|
                0 <= a < v.len() && less_eq(lo, #[trigger] v[a].t) && less_eq(v[a].t, hi)
                    ==> g.contains((Side::Var, a as usize))
            &&& forall|b: int|
                0 <= b < o.len() && less_eq(lo, #[trigger] o[b].t) && less_eq(o[b].t, hi)
                    ==> g.contains((Side::Other, b as usize))
        }),
{
    let lo = overlap_lo(v, o);
    let hi = overlap_hi(v, o);
    let g = grid_from(v, o, lo, hi, 0, 0);
    lemma_increasing_is_strictly_sorted(v);
    lemma_increasing_is_strictly_sorted(o);
    lemma_grid_sound(v, o, lo, hi, 0, 0);
    lemma_grid_sorted(v, o, lo, hi, 0, 0);
    lemma_grid_complete(v, o, lo, hi, 0, 0);
    assert forall|k: int| 0 <= k < g.len() implies {
        let e = #[trigger] g[k];
        let t = if e.0 == Side::Var {
            v[e.1 as int].t
        } else {
            o[e.1 as int].t
        };
        &&& (e.0 == Side::Var ==> e.1 < v.len())
        &&& (e.0 == Side::Other ==> e.1 < o.len())
        &&& less_eq(lo, t)
        &&& less_eq(t, hi)
    } by {
        assert(in_overlap(grid_time(v, o, g[k]), lo, hi));
    }
    assert forall|k: int, m: int| 0 <= k < m < g.len() implies less_eq(
        (if (#[trigger] g[k]).0 == Side::Var {
            v[g[k].1 as int].t
        } else {
            o[g[k].1 as int].t
        }),
        (if (#[trigger] g[m]).0 == Side::Var {
            v[g[m].1 as int].t
        } else {
            o[g[m].1 as int].t
        }),
    ) by {
        assert(less_eq(grid_time(v, o, g[k]), grid_time(v, o, g[m])));
    }
    assert forall|a: int| 0 <= a < v.len() && less_eq(lo, #[trigger] v[a].t) && less_eq(v[a].t, hi)
        implies g.contains((Side::Var, a as usize)) by {
        assert(in_overlap(v[a].t, lo, hi));
    }
    assert forall|b: int| 0 <= b < o.len() && less_eq(lo, #[trigger] o[b].t) && less_eq(o[b].t, hi)
        implies g.contains((Side::Other, b as usize)) by {
        assert(in_overlap(o[b].t, lo, hi));
    }
}

} // verus!
