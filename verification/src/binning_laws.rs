//! What binning does, said of steps, values and positions.
use vstd::prelude::*;

use crate::data::{
    bin_of, bins_needed, computes, hits, lemma_bin_nonneg, lemma_center_bound, lemma_points_count,
    lemma_points_layout, lemma_source_range, source, total, within, BinnedData, Bins, DataStore,
    Kernel, Moments, RawPoints, RawSeries, ScalarPoint, Series,
};
use crate::series_laws::law_bins_show_their_values;

verus! {

/// A step lies in its bin, which begins at a multiple of the width and ends at the next;
/// so it lies within half a width of the centre.
pub proof fn law_bins_hold_their_steps(step: u32, width: u32)
    requires
        width > 0,
    ensures
        0 <= bin_of(step, width),
        bin_of(step, width) * width <= step,
        step < (bin_of(step, width) + 1) * width,
        -width <= 2 * step - (2 * bin_of(step, width) + 1) * width <= width,
{
    let b = bin_of(step, width);
    lemma_bin_nonneg(step, width);
    vstd::arithmetic::div_mod::lemma_fundamental_div_mod(step as int, width as int);
    vstd::arithmetic::div_mod::lemma_mod_bound(step as int, width as int);
    assert(b * width == width * b) by (nonlinear_arith);
    assert((b + 1) * width == b * width + width) by (nonlinear_arith);
    assert((2 * b + 1) * width == 2 * (b * width) + width) by (nonlinear_arith);
}

/// How many points fall into a bin is how many of their steps lie in it.
proof fn lemma_hits_filter(
    points: Seq<(u32, u32)>,
    width: u32,
    b: int,
    pred: spec_fn((u32, u32)) -> bool,
)
    requires
        forall|p: (u32, u32)| #[trigger] pred(p) <==> bin_of(p.0, width) == b,
    ensures
        hits(points, width, b) == points.filter(pred).len(),
    decreases points.len(),
{
    reveal(Seq::filter);
    if points.len() > 0 {
        lemma_hits_filter(points.drop_last(), width, b, pred);
    }
}

/// In and out of a bin, and the bounds of the bin.
proof fn lemma_bin_bounds(step: u32, width: u32, b: int)
    requires
        width > 0,
    ensures
        bin_of(step, width) == b <==> b * width <= step < (b + 1) * width,
{
    let q = bin_of(step, width);
    law_bins_hold_their_steps(step, width);
    if b < q {
        assert((b + 1) * width <= q * width) by (nonlinear_arith)
            requires
                b + 1 <= q,
        ;
    }
    if q < b {
        assert((q + 1) * width <= b * width) by (nonlinear_arith)
            requires
                q + 1 <= b,
        ;
    }
}

/// A bin counts the points whose steps lie between its bounds.
pub proof fn law_counts_are_of_steps_in_bounds(points: Seq<(u32, u32)>, width: u32, b: int)
    requires
        width > 0,
    ensures
        hits(points, width, b) == points.filter(
            |p: (u32, u32)| b * width <= p.0 < (b + 1) * width,
        ).len(),
{
    let pred = |p: (u32, u32)| b * width <= p.0 < (b + 1) * width;
    assert forall|p: (u32, u32)| #[trigger] pred(p) <==> bin_of(p.0, width) == b by {
        lemma_bin_bounds(p.0, width, b);
    }
    lemma_hits_filter(points, width, b, pred);
}

/// There are bins up to the one of the last point, and no further.
pub proof fn law_bins_reach_the_last_point(points: Seq<(u32, u32)>, width: u32)
    requires
        width > 0,
        points.len() > 0,
    ensures
        bins_needed(points, width) >= 1,
        (bins_needed(points, width) - 1) * width <= points.last().0,
        points.last().0 < bins_needed(points, width) * width,
{
    law_bins_hold_their_steps(points.last().0, width);
}

/// A series that has taken in nothing has no bins.
pub proof fn law_new_series_are_empty()
    ensures
        Bins::empty().x.len() == 0,
        Bins::empty().line.len() == 0,
        Bins::empty().lower.len() == 0,
        Bins::empty().upper.len() == 0,
        Bins::empty().m2.len() == 0,
        Bins::empty().count.len() == 0,
        Bins::empty().processed == 0,
        RawSeries::empty().coords.len() == 0,
        RawSeries::empty().processed == 0,
        Series::fresh(true) == Series::Raw(RawSeries { coords: Seq::empty(), processed: 0 }),
        Series::fresh(false) is Binned,
        Series::fresh(false)->Binned_0 == Bins::empty(),
{
}

/// Well formed series have one entry of each sort per bin, and every series that is
/// shown point by point is well formed.
pub proof fn law_well_formed(s: Bins, raw: RawSeries)
    ensures
        s.wf() <==> s.x.len() == s.count.len() && s.line.len() == s.count.len() && s.lower.len()
            == s.count.len() && s.upper.len() == s.count.len() && s.m2.len() == s.count.len(),
        Series::Binned(s).wf() == s.wf(),
        Series::Raw(raw).wf(),
{
}

/// Nothing new, nothing done.
pub proof fn law_nothing_new_changes_nothing(
    s: Bins,
    g: Kernel,
    points: Seq<(u32, u32)>,
    width: u32,
)
    requires
        points.len() == 0 || s.processed >= points.len(),
    ensures
        s.updated(g, points, width) == s,
        s.admits(points, width),
{
}

/// New points can be taken in exactly if the width is not zero, the bins up to the last
/// point can be counted, no new point lies both beyond the bins there are and beyond the
/// bin of the last point, and no bin gets more points than can be counted.
pub proof fn law_what_can_be_taken_in(s: Bins, points: Seq<(u32, u32)>, width: u32)
    requires
        s.wf(),
        points.len() > 0,
        s.processed < points.len(),
    ensures
        s.admits(points, width) <==> {
            &&& width > 0
            &&& (points.last().0 as int / (width as int)) + 1 <= u32::MAX
            &&& forall|i: int|
                s.processed <= i < points.len() ==> ((#[trigger] points[i]).0 as int / (width as int))
                    < s.count.len() || (points[i].0 as int / (width as int)) <= (points.last().0 as int / (width as int))
            &&& forall|b: int|
                0 <= b && (b < s.count.len() || b <= (points.last().0 as int / (width as int)))
                    ==> (if b < s.count.len() {
                    s.count[b] as int
                } else {
                    0
                }) + #[trigger] hits(points.skip(s.processed as int), width, b) <= u32::MAX
        },
{
    let n = bins_needed(points, width);
    let fresh = points.skip(s.processed as int);
    if width > 0 {
        lemma_bin_nonneg(points.last().0, width);
        assert forall|b: int|
            0 <= b < s.room(n) implies #[trigger] s.grown(n, width).count[b] == (if b
            < s.count.len() {
            s.count[b]
        } else {
            0u32
        }) by {}
        if forall|i: int|
            s.processed <= i < points.len() ==> ((#[trigger] points[i]).0 as int / (width as int))
                < s.count.len() || (points[i].0 as int / (width as int)) <= (points.last().0 as int / (width as int)) {
            assert forall|i: int| 0 <= i < fresh.len() implies 0 <= bin_of(
                (#[trigger] fresh[i]).0,
                width,
            ) < s.room(n) by {
                assert(fresh[i] == points[i + s.processed]);
                lemma_bin_nonneg(fresh[i].0, width);
            }
            assert(within(fresh, width, s.room(n)));
        }
        if within(fresh, width, s.room(n)) {
            assert forall|i: int| s.processed <= i < points.len() implies ((#[trigger] points[i]).0 as int / (width as int)) < s.count.len() || (points[i].0 as int / (width as int))
                <= (points.last().0 as int / (width as int)) by {
                assert(fresh[i - s.processed] == points[i]);
            }
        }
    }
}

/// An update with new points notes how many there are. It keeps the bins there are, and
/// makes those up to the last point. Where it makes any, all centres stand in the middle
/// of their bins; each bin counts the new points whose steps lie in it.
pub proof fn law_update_counts_new_points(
    s: Bins,
    g: Kernel,
    points: Seq<(u32, u32)>,
    width: u32,
    b: int,
)
    requires
        s.wf(),
        s.admits(points, width),
        points.len() > 0,
        s.processed < points.len(),
        0 <= b < s.updated(g, points, width).count.len(),
    ensures
        ({
            let t = s.updated(g, points, width);
            let last = (points.last().0 as int / (width as int));
            &&& t.processed == points.len()
            &&& t.wf()
            &&& t.count.len() == (if s.count.len() > last {
                s.count.len() as int
            } else {
                last + 1
            })
            &&& s.count.len() > last ==> t.x == s.x
            &&& s.count.len() <= last ==> t.x[b] == (2 * b + 1) * width
            &&& t.count[b] == (if b < s.count.len() {
                s.count[b] as int
            } else {
                0
            }) + points.skip(s.processed as int).filter(
                |p: (u32, u32)| b * width <= p.0 < (b + 1) * width,
            ).len()
        }),
{
    let n = bins_needed(points, width);
    let fresh = points.skip(s.processed as int);
    let base = s.grown(n, width);
    lemma_bin_nonneg(points.last().0, width);
    law_bins_hold_their_steps(points.last().0, width);
    lemma_points_layout(base, g, g, fresh, width);
    assert(base.count[b] + hits(fresh, width, b) <= u32::MAX);
    lemma_points_count(base, g, fresh, width, b);
    law_counts_are_of_steps_in_bounds(fresh, width, b);
    if s.lower.len() < n {
        lemma_center_bound(b, n, width);
    }
}

/// What taking in points does to one bin: the kernel runs over the values of the points
/// whose steps lie in it, one after the other, and the last moments are shown.
proof fn lemma_trace(
    s: Bins,
    g: Kernel,
    points: Seq<(u32, u32)>,
    width: u32,
    b: int,
    pred: spec_fn((u32, u32)) -> bool,
    trace: Seq<Moments>,
)
    requires
        s.wf(),
        within(points, width, s.lower.len() as int),
        0 <= b < s.lower.len(),
        s.count[b] + hits(points, width, b) <= u32::MAX,
        forall|p: (u32, u32)| #[trigger] pred(p) <==> bin_of(p.0, width) == b,
        trace.len() == points.filter(pred).len() + 1,
        trace[0].mean == s.line[b].1,
        trace[0].m2 == s.m2[b],
        forall|i: int|
            0 <= i < points.filter(pred).len() ==> #[trigger] trace[i + 1] == g(
                trace[i].mean,
                trace[i].m2,
                (s.count[b] + i + 1) as u32,
                points.filter(pred)[i].1,
            ),
    ensures
        ({
            let t = s.with_points(g, points, width);
            let end = trace.last();
            &&& t.line[b].1 == end.mean
            &&& t.m2[b] == end.m2
            &&& points.filter(pred).len() > 0 ==> t.line[b].0 == s.x[b] && t.lower[b] == end.lower
                && t.upper[b] == end.upper
            &&& points.filter(pred).len() == 0 ==> t.line[b] == s.line[b] && t.lower[b]
                == s.lower[b] && t.upper[b] == s.upper[b]
        }),
    decreases points.len(),
{
    reveal(Seq::filter);
    if points.len() > 0 {
        let rest = points.drop_last();
        let p = points.last();
        let mine = points.filter(pred);
        assert forall|i: int| 0 <= i < rest.len() implies 0 <= bin_of((#[trigger] rest[i]).0, width)
            < s.lower.len() by {
            assert(rest[i] == points[i]);
        }
        assert(points[points.len() - 1] == p);
        lemma_points_layout(s, g, g, rest, width);
        if pred(p) {
            let short = trace.drop_last();
            assert(mine.drop_last() =~= rest.filter(pred));
            assert forall|i: int| 0 <= i < rest.filter(pred).len() implies #[trigger] short[i + 1]
                == g(
                short[i].mean,
                short[i].m2,
                (s.count[b] + i + 1) as u32,
                rest.filter(pred)[i].1,
            ) by {
                assert(short[i + 1] == trace[i + 1]);
                assert(mine[i] == rest.filter(pred)[i]);
            }
            lemma_trace(s, g, rest, width, b, pred, short);
            lemma_points_count(s, g, rest, width, b);
            lemma_hits_filter(rest, width, b, pred);
            let k = mine.len() - 1;
            assert(trace[k + 1] == g(
                trace[k].mean,
                trace[k].m2,
                (s.count[b] + k + 1) as u32,
                mine[k].1,
            ));
            assert(short.last() == trace[k]);
        } else {
            lemma_trace(s, g, rest, width, b, pred, trace);
        }
    }
}

/// An update with new points shows of a bin that gets some the moments after the last of
/// them. The moments go from what the bin showed, or zero where it is new, through the
/// values of the new points whose steps lie in the bin, in order; each time the kernel is
/// given the number of values so far with the new one.
pub proof fn law_update_runs_through_new_values(
    s: Bins,
    g: Kernel,
    points: Seq<(u32, u32)>,
    width: u32,
    b: int,
    mine: Seq<(u32, u32)>,
    trace: Seq<Moments>,
)
    requires
        s.wf(),
        s.admits(points, width),
        points.len() > 0,
        s.processed < points.len(),
        0 <= b < s.updated(g, points, width).count.len(),
        mine == points.skip(s.processed as int).filter(
            |p: (u32, u32)| b * width <= p.0 < (b + 1) * width,
        ),
        mine.len() > 0,
        trace.len() == mine.len() + 1,
        trace[0].mean == (if b < s.count.len() {
            s.line[b].1
        } else {
            0
        }),
        trace[0].m2 == (if b < s.count.len() {
            s.m2[b]
        } else {
            0
        }),
        forall|i: int|
            0 <= i < mine.len() ==> #[trigger] trace[i + 1] == g(
                trace[i].mean,
                trace[i].m2,
                ((if b < s.count.len() {
                    s.count[b] as int
                } else {
                    0
                }) + i + 1) as u32,
                mine[i].1,
            ),
    ensures
        ({
            let t = s.updated(g, points, width);
            &&& t.line[b] == (t.x[b], trace[mine.len() as int].mean)
            &&& t.m2[b] == trace[mine.len() as int].m2
            &&& t.lower[b] == trace[mine.len() as int].lower
            &&& t.upper[b] == trace[mine.len() as int].upper
        }),
{
    let n = bins_needed(points, width);
    let fresh = points.skip(s.processed as int);
    let base = s.grown(n, width);
    let pred = |p: (u32, u32)| b * width <= p.0 < (b + 1) * width;
    lemma_bin_nonneg(points.last().0, width);
    assert forall|p: (u32, u32)| #[trigger] pred(p) <==> bin_of(p.0, width) == b by {
        lemma_bin_bounds(p.0, width, b);
    }
    assert(mine == fresh.filter(pred));
    lemma_points_layout(base, g, g, fresh, width);
    assert(base.count[b] + hits(fresh, width, b) <= u32::MAX);
    lemma_hits_filter(fresh, width, b, pred);
    lemma_points_count(base, g, fresh, width, b);
    lemma_trace(base, g, fresh, width, b, pred, trace);
    assert(trace.last() == trace[mine.len() as int]);
}

/// An update with new points leaves a bin that gets none of them alone if it holds
/// points. If it is empty it repeats the bin before it, at its own centre, unless it is
/// the first or lies beyond the last point: then it stays as it was, or zero where it is
/// new.
pub proof fn law_update_leaves_other_bins(
    s: Bins,
    g: Kernel,
    points: Seq<(u32, u32)>,
    width: u32,
    b: int,
)
    requires
        s.wf(),
        s.admits(points, width),
        points.len() > 0,
        s.processed < points.len(),
        0 <= b < s.updated(g, points, width).count.len(),
        points.skip(s.processed as int).filter(
            |p: (u32, u32)| b * width <= p.0 < (b + 1) * width,
        ).len() == 0,
    ensures
        ({
            let t = s.updated(g, points, width);
            &&& t.m2[b] == (if b < s.count.len() {
                s.m2[b]
            } else {
                0
            })
            &&& (if t.count[b] == 0 && b >= 1 && b * width <= points.last().0 {
                t.line[b] == (t.x[b], t.line[b - 1].1) && t.lower[b] == t.lower[b - 1] && t.upper[b]
                    == t.upper[b - 1]
            } else if b < s.count.len() {
                t.line[b] == s.line[b] && t.lower[b] == s.lower[b] && t.upper[b] == s.upper[b]
            } else {
                t.line[b] == (0u64, 0u32) && t.lower[b] == 0 && t.upper[b] == 0
            })
        }),
{
    let n = bins_needed(points, width);
    let fresh = points.skip(s.processed as int);
    let base = s.grown(n, width);
    let pred = |p: (u32, u32)| b * width <= p.0 < (b + 1) * width;
    lemma_bin_nonneg(points.last().0, width);
    law_bins_hold_their_steps(points.last().0, width);
    assert forall|p: (u32, u32)| #[trigger] pred(p) <==> bin_of(p.0, width) == b by {
        lemma_bin_bounds(p.0, width, b);
    }
    lemma_points_layout(base, g, g, fresh, width);
    assert(base.count[b] + hits(fresh, width, b) <= u32::MAX);
    lemma_hits_filter(fresh, width, b, pred);
    let start = Moments { mean: base.line[b].1, m2: base.m2[b], lower: 0, upper: 0 };
    lemma_trace(base, g, fresh, width, b, pred, seq![start]);
    let filled = base.with_points(g, fresh, width);
    assert(b < n <==> b * width <= points.last().0) by {
        let q = n - 1;
        if b <= q {
            assert(b * width <= q * width) by (nonlinear_arith)
                requires
                    b <= q,
            ;
        } else {
            assert((q + 1) * width <= b * width) by (nonlinear_arith)
                requires
                    q + 1 <= b,
            ;
        }
    }
    if filled.count[b] == 0 && 1 <= b < n {
        lemma_source_range(filled.count, b - 1);
        assert(source(filled.count, b) == source(filled.count, b - 1));
        assert(b - 1 == 0 || filled.count[b - 1] != 0 ==> source(filled.count, b - 1) == b - 1);
    }
}

/// Taken in at once, every point has a bin that holds it, and is drawn no further than
/// half a width from its step.
pub proof fn law_points_are_drawn_near_their_steps(
    g: Kernel,
    points: Seq<(u32, u32)>,
    width: u32,
    i: int,
)
    requires
        Bins::empty().admits(points, width),
        0 <= i < points.len(),
    ensures
        ({
            let t = Bins::empty().updated(g, points, width);
            exists|b: int|
                0 <= b < t.count.len() && t.count[b] > 0 && (#[trigger] t.line[b]).0 == t.x[b]
                    && -width <= 2 * points[i].0 - t.line[b].0 <= width
        }),
{
    let b = bin_of(points[i].0, width);
    let t = Bins::empty().updated(g, points, width);
    let pred = |p: (u32, u32)| b * width <= p.0 < (b + 1) * width;
    assert(points.skip(0) =~= points);
    law_bins_hold_their_steps(points[i].0, width);
    lemma_bin_nonneg(points.last().0, width);
    assert(points.skip(0)[i] == points[i]);
    assert(within(points.skip(0), width, Bins::empty().room(bins_needed(points, width))));
    lemma_points_layout(
        Bins::empty().grown(bins_needed(points, width), width),
        g,
        g,
        points,
        width,
    );
    assert(0 <= b < t.count.len());
    law_update_counts_new_points(Bins::empty(), g, points, width, b);
    broadcast use vstd::seq_lib::group_filter_ensures;

    assert(pred(points[i]));
    assert(points.filter(pred).contains(points[i]));
    assert(points.filter(pred).len() > 0);
    law_counts_are_of_steps_in_bounds(points, width, b);
    law_bins_show_their_values(g, points, width, b);
    assert(t.line[b].0 == t.x[b]);
}

/// A series that is shown point by point keeps what it shows and adds, in order, the
/// points beyond those that it has taken in.
pub proof fn law_raw_update_appends(s: RawSeries, points: Seq<(u32, u32)>, i: int)
    ensures
        s.updated(points).processed == points.len(),
        s.updated(points).coords.len() == s.coords.len() + (if s.processed <= points.len() {
            points.len() - s.processed
        } else {
            0
        }),
        0 <= i < s.coords.len() ==> s.updated(points).coords[i] == s.coords[i],
        0 <= i && s.processed + i < points.len() ==> s.updated(points).coords[s.coords.len() + i]
            == points[s.processed + i],
{
}

/// An update keeps the sort of a series. Without a reset it goes on from what the series
/// holds, with a reset from nothing.
pub proof fn law_update_of_either_sort(
    bins: Bins,
    raw: RawSeries,
    g: Kernel,
    points: Seq<(u32, u32)>,
    width: u32,
)
    ensures
        Series::Binned(bins).updated(g, points, width, false) == Series::Binned(
            bins.updated(g, points, width),
        ),
        Series::Binned(bins).updated(g, points, width, true) == Series::Binned(
            Bins::empty().updated(g, points, width),
        ),
        Series::Raw(raw).updated(g, points, width, false) == Series::Raw(raw.updated(points)),
        Series::Raw(raw).updated(g, points, width, true) matches Series::Raw(r) && r.coords == points
            && r.processed == points.len(),
        Series::Binned(bins).admits(points, width, false) == bins.admits(points, width),
        Series::Binned(bins).admits(points, width, true) == Bins::empty().admits(points, width),
        Series::Raw(raw).admits(points, width, false),
        Series::Raw(raw).admits(points, width, true),
{
    let r = RawSeries::empty().updated(points);
    assert(r.coords =~= points);
}

/// Series of the same layout have the same bins at the same centres, with the same counts,
/// and have taken in as many points; of single points they show the same ones.
pub proof fn law_same_layout(a: Bins, b: Bins, r: RawSeries, t: RawSeries, i: int)
    ensures
        a.layout() == b.layout() ==> a.x == b.x && a.count == b.count && a.processed == b.processed
            && a.line.len() == b.line.len() && (0 <= i < a.line.len() ==> a.line[i].0
            == b.line[i].0),
        Series::Binned(a).same_layout(Series::Binned(b)) <==> a.layout() == b.layout(),
        Series::Raw(r).same_layout(Series::Raw(t)) <==> r == t,
        !Series::Binned(a).same_layout(Series::Raw(r)),
        !Series::Raw(r).same_layout(Series::Binned(a)),
{
    if a.layout() == b.layout() {
        assert(a.layout().x == b.layout().x && a.layout().count == b.layout().count
            && a.layout().processed == b.layout().processed);
        assert(a.layout().line_x.len() == b.layout().line_x.len());
        if 0 <= i < a.line.len() {
            assert(a.layout().line_x[i] == b.layout().line_x[i]);
        }
    }
}

/// What a store of either sort stands for.
pub proof fn law_stores_stand_for_their_fields(
    binned: BinnedData,
    raw: RawPoints,
    point: ScalarPoint,
)
    ensures
        binned@.x == binned.x_coords@,
        binned@.line == binned.line_coords@,
        binned@.lower == binned.lowers@,
        binned@.upper == binned.uppers@,
        binned@.m2 == binned.m2@,
        binned@.count == binned.num_elements@,
        binned@.processed == binned.processed_upto,
        raw@.coords == raw.coords@,
        raw@.processed == raw.processed_upto,
        DataStore::Binned(binned)@ == Series::Binned(binned@),
        DataStore::Raw(raw)@ == Series::Raw(raw@),
        point@.run == point.run_name@,
        point@.tag == point.tag@,
        point@.step == point.step,
        point@.value == point.value,
{
}

/// An executable function computes `g` if all that it can return is what `g` gives, and
/// it is total if it can be called on anything.
pub proof fn law_computing<F: Fn(u32, u32, u32, u32) -> Moments>(step: F, g: Kernel)
    ensures
        (forall|mean: u32, m2: u32, n: u32, value: u32, out: Moments| #[trigger]
            call_ensures(step, (mean, m2, n, value), out) ==> out == g(mean, m2, n, value))
            ==> computes(step, g),
        (forall|mean: u32, m2: u32, n: u32, value: u32| #[trigger]
            call_requires(step, (mean, m2, n, value))) ==> total(step),
{
}

} // verus!
