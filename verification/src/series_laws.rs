//! What holds of a series over its whole life.
use vstd::prelude::*;

use crate::data::{
    bin_of, bins_needed, doubled_center, hits, lemma_bin_nonneg, lemma_center_bound,
    lemma_points_count, lemma_points_layout, lemma_source_range, source, within, Bins,
    Kernel, Moments, RawSeries, Series,
};

verus! {

/// The bins hold exactly the points that were taken in: every one has a bin, each
/// bin counts those that fall into it, and the centres are those of `width`.
pub open spec fn faithful(s: Bins, points: Seq<(u32, u32)>, width: u32) -> bool {
    let taken = points.take(s.processed as int);
    &&& s.wf()
    &&& s.processed <= points.len()
    &&& within(taken, width, s.lower.len() as int)
    &&& forall|b: int|
        0 <= b < s.lower.len() ==> #[trigger] s.count[b] == hits(taken, width, b)
    &&& forall|i: int| 0 <= i < s.lower.len() ==> #[trigger] s.x[i] == doubled_center(i, width)
}

/// The number of values in all bins together.
pub open spec fn total_count(count: Seq<u32>) -> nat
    decreases count.len(),
{
    if count.len() == 0 {
        0
    } else {
        total_count(count.drop_last()) + count.last() as nat
    }
}

/// No step is smaller than the one before it.
pub open spec fn ordered(points: Seq<(u32, u32)>) -> bool {
    forall|i: int, j: int| 0 <= i <= j < points.len() ==> points[i].0 <= points[j].0
}

/// The points of two lists that fall into a bin, together.
pub proof fn lemma_hits_add(a: Seq<(u32, u32)>, c: Seq<(u32, u32)>, width: u32, b: int)
    ensures
        hits(a + c, width, b) == hits(a, width, b) + hits(c, width, b),
    decreases c.len(),
{
    if c.len() == 0 {
        assert(a + c =~= a);
    } else {
        lemma_hits_add(a, c.drop_last(), width, b);
        assert((a + c).drop_last() =~= a + c.drop_last());
        assert((a + c).last() == c.last());
    }
}

/// A bin beyond those of all points is hit by none.
pub proof fn lemma_hits_none(points: Seq<(u32, u32)>, width: u32, n: int, b: int)
    requires
        within(points, width, n),
        n <= b,
    ensures
        hits(points, width, b) == 0,
    decreases points.len(),
{
    if points.len() > 0 {
        let rest = points.drop_last();
        assert forall|i: int| 0 <= i < rest.len() implies 0 <= bin_of(
            (#[trigger] rest[i]).0,
            width,
        ) < n by {
            assert(rest[i] == points[i]);
        }
        assert(points[points.len() - 1] == points.last());
        lemma_hits_none(rest, width, n, b);
    }
}

/// A series that has taken in nothing is faithful to any points.
pub proof fn law_empty_is_faithful(points: Seq<(u32, u32)>, width: u32)
    ensures
        faithful(Bins::empty(), points, width),
{
    assert(points.take(0) =~= Seq::empty());
}

/// Updates at one width keep the bins faithful to the points: after each, the
/// bins hold all points there are, each in its bin.
pub proof fn law_updates_stay_faithful(
    s: Bins,
    g: Kernel,
    points: Seq<(u32, u32)>,
    more: Seq<(u32, u32)>,
    width: u32,
)
    requires
        faithful(s, points, width),
        points.is_prefix_of(more),
        s.admits(more, width),
    ensures
        faithful(s.updated(g, more, width), more, width),
        s.updated(g, more, width).processed == more.len(),
{
    assert(points.take(s.processed as int) =~= more.take(s.processed as int));
    if !s.up_to_date(more) {
        let n = bins_needed(more, width);
        let taken = more.take(s.processed as int);
        let fresh = more.skip(s.processed as int);
        let base = s.grown(n, width);
        let t = s.updated(g, more, width);
        assert(more.take(more.len() as int) =~= more);
        assert(taken + fresh =~= more);
        lemma_bin_nonneg(more.last().0, width);
        assert(bin_of(more.last().0, width) * width <= more.last().0) by {
            vstd::arithmetic::div_mod::lemma_fundamental_div_mod(
                more.last().0 as int,
                width as int,
            );
            vstd::arithmetic::mul::lemma_mul_is_commutative(
                bin_of(more.last().0, width),
                width as int,
            );
        }
        lemma_points_layout(base, g, g, fresh, width);
        assert(t.lower.len() == base.lower.len());
        assert forall|i: int| 0 <= i < more.len() implies 0 <= bin_of(
            (#[trigger] more[i]).0,
            width,
        ) < t.lower.len() by {
            if i < taken.len() {
                assert(taken[i] == more[i]);
            } else {
                assert(fresh[i - taken.len()] == more[i]);
            }
        }
        assert forall|b: int| 0 <= b < t.lower.len() implies #[trigger] t.count[b] == hits(
            more,
            width,
            b,
        ) by {
            assert(base.count[b] + hits(fresh, width, b) <= u32::MAX);
            lemma_points_count(base, g, fresh, width, b);
            lemma_hits_add(taken, fresh, width, b);
            if b >= s.lower.len() {
                lemma_hits_none(taken, width, s.lower.len() as int, b);
            } else {
                assert(s.count[b] == hits(taken, width, b));
            }
        }
        assert forall|i: int| 0 <= i < t.lower.len() implies #[trigger] t.x[i] == doubled_center(
            i,
            width,
        ) by {
            if s.lower.len() < n {
                lemma_center_bound(i, n, width);
            } else {
                assert(s.x[i] == doubled_center(i, width));
            }
        }
    }
}

spec fn hits_below(points: Seq<(u32, u32)>, width: u32, n: nat) -> nat
    decreases n,
{
    if n == 0 {
        0
    } else {
        hits_below(points, width, (n - 1) as nat) + hits(points, width, n - 1)
    }
}

proof fn lemma_hits_below_step(points: Seq<(u32, u32)>, width: u32, n: nat)
    requires
        points.len() > 0,
        0 <= bin_of(points.last().0, width),
    ensures
        hits_below(points, width, n) == hits_below(points.drop_last(), width, n) + if bin_of(
            points.last().0,
            width,
        ) < n {
            1nat
        } else {
            0nat
        },
    decreases n,
{
    if n > 0 {
        lemma_hits_below_step(points, width, (n - 1) as nat);
    }
}

proof fn lemma_hits_below_all(points: Seq<(u32, u32)>, width: u32, n: nat)
    requires
        within(points, width, n as int),
    ensures
        hits_below(points, width, n) == points.len(),
    decreases points.len(),
{
    if points.len() == 0 {
        lemma_hits_below_none(points, width, n);
    } else {
        let rest = points.drop_last();
        assert forall|i: int| 0 <= i < rest.len() implies 0 <= bin_of(
            (#[trigger] rest[i]).0,
            width,
        ) < n by {
            assert(rest[i] == points[i]);
        }
        assert(points[points.len() - 1] == points.last());
        lemma_hits_below_all(rest, width, n);
        lemma_hits_below_step(points, width, n);
    }
}

proof fn lemma_hits_below_none(points: Seq<(u32, u32)>, width: u32, n: nat)
    requires
        points.len() == 0,
    ensures
        hits_below(points, width, n) == 0,
    decreases n,
{
    if n > 0 {
        lemma_hits_below_none(points, width, (n - 1) as nat);
    }
}

proof fn lemma_total_is_hits_below(count: Seq<u32>, points: Seq<(u32, u32)>, width: u32)
    requires
        forall|b: int|
            0 <= b < count.len() ==> #[trigger] count[b] == hits(points, width, b),
    ensures
        total_count(count) == hits_below(points, width, count.len()),
    decreases count.len(),
{
    if count.len() > 0 {
        let rest = count.drop_last();
        assert forall|b: int| 0 <= b < rest.len() implies #[trigger] rest[b] == hits(
            points,
            width,
            b,
        ) by {
            assert(rest[b] == count[b]);
        }
        lemma_total_is_hits_below(rest, points, width);
        assert(count[count.len() - 1] == count.last());
    }
}

/// Every point that was taken in is counted, and in one bin only.
pub proof fn law_every_point_counts_once(s: Bins, points: Seq<(u32, u32)>, width: u32)
    requires
        faithful(s, points, width),
    ensures
        total_count(s.count) == s.processed,
{
    let taken = points.take(s.processed as int);
    lemma_total_is_hits_below(s.count, taken, width);
    lemma_hits_below_all(taken, width, s.count.len());
}

/// After an update with new points, an empty bin up to that of the last point
/// shows what the bin before it shows, at its own centre.
pub proof fn law_empty_bins_repeat(
    s: Bins,
    g: Kernel,
    points: Seq<(u32, u32)>,
    width: u32,
    i: int,
)
    requires
        s.wf(),
        s.admits(points, width),
        !s.up_to_date(points),
        1 <= i < bins_needed(points, width),
        s.updated(g, points, width).count[i] == 0,
    ensures
        s.updated(g, points, width).line[i] == (
            s.updated(g, points, width).x[i],
            s.updated(g, points, width).line[i - 1].1,
        ),
        s.updated(g, points, width).lower[i] == s.updated(g, points, width).lower[i - 1],
        s.updated(g, points, width).upper[i] == s.updated(g, points, width).upper[i - 1],
{
    let n = bins_needed(points, width);
    let fresh = points.skip(s.processed as int);
    let base = s.grown(n, width);
    let filled = base.with_points(g, fresh, width);
    lemma_points_layout(base, g, g, fresh, width);
    lemma_source_range(filled.count, i - 1);
    assert(source(filled.count, i) == source(filled.count, i - 1));
    assert(i - 1 == 0 || filled.count[i - 1] != 0 ==> source(filled.count, i - 1) == i - 1);
}

/// Taking in the same points again changes nothing.
pub proof fn law_update_settles(s: Bins, g: Kernel, points: Seq<(u32, u32)>, width: u32)
    ensures
        s.updated(g, points, width).updated(g, points, width) == s.updated(g, points, width),
{
}

/// How the points arrive does not matter to the counts: two updates, one after
/// the other, count as one update with all points does.
pub proof fn law_batches_count_alike(
    s: Bins,
    g: Kernel,
    points: Seq<(u32, u32)>,
    some: Seq<(u32, u32)>,
    all: Seq<(u32, u32)>,
    width: u32,
)
    requires
        faithful(s, points, width),
        points.is_prefix_of(some),
        some.is_prefix_of(all),
        s.admits(some, width),
        s.updated(g, some, width).admits(all, width),
        s.admits(all, width),
    ensures
        s.updated(g, some, width).updated(g, all, width).count == s.updated(g, all, width).count,
        s.updated(g, some, width).updated(g, all, width).x == s.updated(g, all, width).x,
        s.updated(g, some, width).updated(g, all, width).processed == s.updated(
            g,
            all,
            width,
        ).processed,
{
    let half = s.updated(g, some, width);
    let two = half.updated(g, all, width);
    let one = s.updated(g, all, width);
    assert(points.is_prefix_of(all));
    law_updates_stay_faithful(s, g, points, some, width);
    law_updates_stay_faithful(half, g, some, all, width);
    law_updates_stay_faithful(s, g, points, all, width);
    assert(two.lower.len() == one.lower.len()) by {
        lemma_updated_len(s, g, some, width);
        lemma_updated_len(half, g, all, width);
        lemma_updated_len(s, g, all, width);
        if !s.up_to_date(some) {
            let fresh = all.skip(s.processed as int);
            assert(fresh[some.len() - 1 - s.processed] == some.last());
        }
    }
    assert forall|b: int| 0 <= b < one.lower.len() implies two.count[b] == one.count[b] by {
        assert(two.count[b] == hits(all.take(all.len() as int), width, b));
        assert(one.count[b] == hits(all.take(all.len() as int), width, b));
    }
    assert(two.count =~= one.count);
    assert forall|b: int| 0 <= b < one.lower.len() implies two.x[b] == one.x[b] by {
        assert(two.x[b] == doubled_center(b, width));
        assert(one.x[b] == doubled_center(b, width));
    }
    assert(two.x =~= one.x);
}

proof fn lemma_updated_len(s: Bins, g: Kernel, points: Seq<(u32, u32)>, width: u32)
    requires
        s.wf(),
        s.admits(points, width),
    ensures
        s.up_to_date(points) ==> s.updated(g, points, width) == s,
        !s.up_to_date(points) ==> s.updated(g, points, width).lower.len() == s.room(
            bins_needed(points, width),
        ),
{
    if !s.up_to_date(points) {
        let n = bins_needed(points, width);
        lemma_points_layout(s.grown(n, width), g, g, points.skip(s.processed as int), width);
    }
}

/// The bins for the points, and the points in each of them, can be counted in 32
/// bits.
pub open spec fn countable(points: Seq<(u32, u32)>, width: u32) -> bool {
    &&& bins_needed(points, width) <= u32::MAX
    &&& forall|b: int|
        0 <= b < bins_needed(points, width) ==> #[trigger] hits(points, width, b) <= u32::MAX
}

/// Points in order of their steps can always be taken in, as long as the bins and
/// the points in each can be counted in 32 bits.
pub proof fn law_ordered_points_are_admitted(s: Bins, points: Seq<(u32, u32)>, width: u32)
    requires
        faithful(s, points, width),
        ordered(points),
        width > 0,
        points.len() > 0 ==> countable(points, width),
    ensures
        s.admits(points, width),
{
    if !s.up_to_date(points) {
        let n = bins_needed(points, width);
        let taken = points.take(s.processed as int);
        let fresh = points.skip(s.processed as int);
        let base = s.grown(n, width);
        assert forall|i: int| 0 <= i < fresh.len() implies 0 <= bin_of(
            (#[trigger] fresh[i]).0,
            width,
        ) < s.room(n) by {
            assert(fresh[i] == points[i + s.processed]);
            assert(points[points.len() - 1] == points.last());
            lemma_bin_nonneg(fresh[i].0, width);
            vstd::arithmetic::div_mod::lemma_div_is_ordered(
                fresh[i].0 as int,
                points.last().0 as int,
                width as int,
            );
        }
        assert forall|b: int| 0 <= b < s.room(n) implies base.count[b] + #[trigger] hits(
            fresh,
            width,
            b,
        ) <= u32::MAX by {
            assert(taken + fresh =~= points);
            lemma_hits_add(taken, fresh, width, b);
            if b < s.lower.len() {
                assert(s.count[b] == hits(taken, width, b));
            }
            if b < n {
                assert(hits(points, width, b) <= u32::MAX);
            } else {
                assert(within(fresh, width, n)) by {
                    assert forall|i: int| 0 <= i < fresh.len() implies 0 <= bin_of(
                        (#[trigger] fresh[i]).0,
                        width,
                    ) < n by {
                        assert(fresh[i] == points[i + s.processed]);
                        assert(points[points.len() - 1] == points.last());
                        lemma_bin_nonneg(fresh[i].0, width);
                        vstd::arithmetic::div_mod::lemma_div_is_ordered(
                            fresh[i].0 as int,
                            points.last().0 as int,
                            width as int,
                        );
                    }
                }
                lemma_hits_none(fresh, width, n, b);
            }
        }
    }
}

/// A series shown point by point shows every point, in order.
pub proof fn law_raw_series_show_every_point(
    s: RawSeries,
    points: Seq<(u32, u32)>,
    more: Seq<(u32, u32)>,
)
    requires
        s.processed <= points.len(),
        s.coords == points.take(s.processed as int),
        points.is_prefix_of(more),
    ensures
        s.updated(more).coords == more,
        s.updated(more).processed == more.len(),
{
    assert(points.take(s.processed as int) =~= more.take(s.processed as int));
    assert(s.updated(more).coords =~= more);
}

/// A reset forgets what the series held: the result is that of a new series of
/// the same kind.
pub proof fn law_reset_starts_over(
    s: Series,
    g: Kernel,
    points: Seq<(u32, u32)>,
    interval: u32,
)
    ensures
        s.updated(g, points, interval, true) == Series::fresh(s is Raw).updated(
            g,
            points,
            interval,
            false,
        ),
{
}

/// The values of the points that fall into bin `b`, in order.
pub open spec fn values_in(points: Seq<(u32, u32)>, width: u32, b: int) -> Seq<u32>
    decreases points.len(),
{
    if points.len() == 0 {
        Seq::empty()
    } else {
        let before = values_in(points.drop_last(), width, b);
        if bin_of(points.last().0, width) == b {
            before.push(points.last().1)
        } else {
            before
        }
    }
}

/// The moments of values, taken in one after the other, starting from zero.
pub open spec fn moments_of(g: Kernel, values: Seq<u32>) -> Moments
    decreases values.len(),
{
    if values.len() == 0 {
        Moments { mean: 0, m2: 0, lower: 0, upper: 0 }
    } else {
        let before = moments_of(g, values.drop_last());
        g(before.mean, before.m2, values.len() as u32, values.last())
    }
}

/// There are as many values as points.
proof fn lemma_values_len(points: Seq<(u32, u32)>, width: u32, b: int)
    ensures
        values_in(points, width, b).len() == hits(points, width, b),
    decreases points.len(),
{
    if points.len() > 0 {
        lemma_values_len(points.drop_last(), width, b);
    }
}

/// Before anything is carried forward, a bin holds the moments of its values.
proof fn lemma_bin_moments(g: Kernel, points: Seq<(u32, u32)>, width: u32, n: int, b: int)
    requires
        within(points, width, n),
        0 <= b < n,
        hits(points, width, b) <= u32::MAX,
    ensures
        ({
            let t = Bins::empty().grown(n, width).with_points(g, points, width);
            let m = moments_of(g, values_in(points, width, b));
            &&& t.line[b].1 == m.mean
            &&& t.m2[b] == m.m2
            &&& t.lower[b] == m.lower
            &&& t.upper[b] == m.upper
            &&& hits(points, width, b) > 0 ==> t.line[b].0 == t.x[b]
        }),
    decreases points.len(),
{
    if points.len() > 0 {
        let base = Bins::empty().grown(n, width);
        let rest = points.drop_last();
        let p = points.last();
        assert forall|i: int| 0 <= i < rest.len() implies 0 <= bin_of((#[trigger] rest[i]).0, width)
            < n by {
            assert(rest[i] == points[i]);
        }
        assert(points[points.len() - 1] == p);
        lemma_bin_moments(g, rest, width, n, b);
        lemma_points_layout(base, g, g, rest, width);
        if bin_of(p.0, width) == b {
            lemma_points_count(base, g, rest, width, b);
            lemma_values_len(rest, width, b);
            let values = values_in(points, width, b);
            assert(values.drop_last() =~= values_in(rest, width, b));
        }
    }
}

/// Taken in at once, a bin that holds points shows the moments of its own values, one
/// after the other, at its centre. No other point has a part in it.
pub proof fn law_bins_show_their_values(g: Kernel, points: Seq<(u32, u32)>, width: u32, b: int)
    requires
        Bins::empty().admits(points, width),
        points.len() > 0,
        0 <= b < bins_needed(points, width),
        hits(points, width, b) > 0,
    ensures
        ({
            let t = Bins::empty().updated(g, points, width);
            let m = moments_of(g, values_in(points, width, b));
            &&& t.count[b] == values_in(points, width, b).len()
            &&& t.line[b] == (t.x[b], m.mean)
            &&& t.x[b] == doubled_center(b, width)
            &&& t.m2[b] == m.m2
            &&& t.lower[b] == m.lower
            &&& t.upper[b] == m.upper
        }),
{
    let n = bins_needed(points, width);
    let base = Bins::empty().grown(n, width);
    assert(points.skip(0) =~= points);
    assert(base.count[b] + hits(points.skip(0), width, b) <= u32::MAX);
    lemma_bin_moments(g, points, width, n, b);
    lemma_points_layout(base, g, g, points, width);
    lemma_points_count(base, g, points, width, b);
    lemma_values_len(points, width, b);
    law_empty_is_faithful(points, width);
    law_updates_stay_faithful(Bins::empty(), g, points, points, width);
}

/// The points have the same values, and fall into the same bins.
pub open spec fn same_bins(a: Seq<(u32, u32)>, c: Seq<(u32, u32)>, width: u32) -> bool {
    a.len() == c.len() && forall|i: int|
        0 <= i < a.len() ==> bin_of((#[trigger] a[i]).0, width) == bin_of(
            (#[trigger] c[i]).0,
            width,
        ) && a[i].1 == c[i].1
}

proof fn lemma_same_bins_points(
    s: Bins,
    g: Kernel,
    a: Seq<(u32, u32)>,
    c: Seq<(u32, u32)>,
    width: u32,
)
    requires
        same_bins(a, c, width),
    ensures
        s.with_points(g, a, width) == s.with_points(g, c, width),
    decreases a.len(),
{
    if a.len() > 0 {
        let ra = a.drop_last();
        let rc = c.drop_last();
        assert forall|i: int| 0 <= i < ra.len() implies bin_of((#[trigger] ra[i]).0, width)
            == bin_of((#[trigger] rc[i]).0, width) && ra[i].1 == rc[i].1 by {
            assert(ra[i] == a[i] && rc[i] == c[i]);
        }
        lemma_same_bins_points(s, g, ra, rc, width);
        assert(a[a.len() - 1] == a.last() && c[c.len() - 1] == c.last());
    }
}

/// A step matters to a binned series only through the bin that it falls into.
pub proof fn law_steps_matter_through_bins(
    s: Bins,
    g: Kernel,
    a: Seq<(u32, u32)>,
    c: Seq<(u32, u32)>,
    width: u32,
)
    requires
        same_bins(a, c, width),
    ensures
        s.updated(g, a, width) == s.updated(g, c, width),
{
    if !s.up_to_date(a) {
        assert(a[a.len() - 1] == a.last() && c[c.len() - 1] == c.last());
        let fa = a.skip(s.processed as int);
        let fc = c.skip(s.processed as int);
        assert forall|i: int| 0 <= i < fa.len() implies bin_of((#[trigger] fa[i]).0, width)
            == bin_of((#[trigger] fc[i]).0, width) && fa[i].1 == fc[i].1 by {
            assert(fa[i] == a[i + s.processed] && fc[i] == c[i + s.processed]);
        }
        lemma_same_bins_points(s.grown(bins_needed(a, width), width), g, fa, fc, width);
    }
}

} // verus!
