//! How points arrive: all at once, or batch by batch.
use vstd::prelude::*;

use crate::data::{
    bin_of, bins_needed, hits, lemma_bin_nonneg, lemma_points_count, lemma_points_layout,
    lemma_source_range, source, within, Bins, Kernel,
};
use crate::series_laws::ordered;

verus! {

/// Bin `b` is empty although points lie beyond it: it shows what another bin shows.
pub open spec fn passed_over(points: Seq<(u32, u32)>, width: u32, b: int) -> bool {
    points.len() > 0 && 1 <= b < bins_needed(points, width) && hits(points, width, b) == 0
}

/// No point of `all` that comes after those of `some` falls into a bin that was
/// passed over.
pub open spec fn never_back(some: Seq<(u32, u32)>, all: Seq<(u32, u32)>, width: u32) -> bool {
    forall|i: int|
        some.len() <= i < all.len() ==> !passed_over(
            some,
            width,
            bin_of((#[trigger] all[i]).0, width),
        )
}

/// The same bins, but for what the bins that were passed over show; those are empty.
spec fn agree(p: Bins, q: Bins, some: Seq<(u32, u32)>, width: u32) -> bool {
    &&& p.wf()
    &&& q.wf()
    &&& p.x == q.x
    &&& p.m2 == q.m2
    &&& p.count == q.count
    &&& forall|i: int|
        0 <= i < p.count.len() && #[trigger] passed_over(some, width, i) ==> p.count[i] == 0
    &&& forall|i: int|
        0 <= i < p.count.len() && !#[trigger] passed_over(some, width, i) ==> p.line[i] == q.line[i]
            && p.lower[i] == q.lower[i] && p.upper[i] == q.upper[i]
}

proof fn lemma_agree_point(
    p: Bins,
    q: Bins,
    some: Seq<(u32, u32)>,
    g: Kernel,
    point: (u32, u32),
    width: u32,
)
    requires
        agree(p, q, some, width),
        0 <= bin_of(point.0, width) < p.lower.len(),
        !passed_over(some, width, bin_of(point.0, width)),
    ensures
        agree(p.with_point(g, point, width), q.with_point(g, point, width), some, width),
{
}

proof fn lemma_agree_points(
    p: Bins,
    q: Bins,
    some: Seq<(u32, u32)>,
    g: Kernel,
    points: Seq<(u32, u32)>,
    width: u32,
)
    requires
        agree(p, q, some, width),
        within(points, width, p.lower.len() as int),
        forall|i: int|
            0 <= i < points.len() ==> !passed_over(
                some,
                width,
                bin_of((#[trigger] points[i]).0, width),
            ),
    ensures
        agree(p.with_points(g, points, width), q.with_points(g, points, width), some, width),
    decreases points.len(),
{
    if points.len() > 0 {
        let rest = points.drop_last();
        assert forall|i: int| 0 <= i < rest.len() implies 0 <= bin_of((#[trigger] rest[i]).0, width)
            < p.lower.len() && !passed_over(some, width, bin_of(rest[i].0, width)) by {
            assert(rest[i] == points[i]);
        }
        assert(points[points.len() - 1] == points.last());
        lemma_agree_points(p, q, some, g, rest, width);
        lemma_points_layout(p, g, g, rest, width);
        lemma_agree_point(
            p.with_points(g, rest, width),
            q.with_points(g, rest, width),
            some,
            g,
            points.last(),
            width,
        );
    }
}

proof fn lemma_source_filled(count: Seq<u32>, i: int)
    requires
        0 <= i < count.len(),
    ensures
        source(count, i) == 0 || count[source(count, i)] != 0,
        0 <= source(count, i) <= i,
    decreases i,
{
    lemma_source_range(count, i);
    if i > 0 && count[i] == 0 {
        lemma_source_filled(count, i - 1);
    }
}

/// Carrying forward makes up for what bins that were passed over show.
proof fn lemma_agree_carried(p: Bins, q: Bins, some: Seq<(u32, u32)>, width: u32, n: int)
    requires
        agree(p, q, some, width),
        n <= p.lower.len(),
        some.len() > 0,
        bins_needed(some, width) <= n,
    ensures
        p.carried(n).line == q.carried(n).line,
        p.carried(n).lower == q.carried(n).lower,
        p.carried(n).upper == q.carried(n).upper,
{
    let a = p.carried(n);
    let b = q.carried(n);
    assert forall|i: int| 0 <= i < p.count.len() implies a.line[i] == b.line[i] && a.lower[i]
        == b.lower[i] && a.upper[i] == b.upper[i] by {
        if p.inherits(n, i) {
            lemma_source_filled(p.count, i);
            let k = source(p.count, i);
            assert(!passed_over(some, width, k));
        } else {
            assert(!passed_over(some, width, i));
        }
    }
    assert(a.line =~= b.line);
    assert(a.lower =~= b.lower);
    assert(a.upper =~= b.upper);
}

proof fn lemma_points_append(
    s: Bins,
    g: Kernel,
    a: Seq<(u32, u32)>,
    b: Seq<(u32, u32)>,
    width: u32,
)
    ensures
        s.with_points(g, a + b, width) == s.with_points(g, a, width).with_points(g, b, width),
    decreases b.len(),
{
    if b.len() == 0 {
        assert(a + b =~= a);
    } else {
        lemma_points_append(s, g, a, b.drop_last(), width);
        assert((a + b).drop_last() =~= a + b.drop_last());
        assert((a + b).last() == b.last());
    }
}

/// More bins can be made before or after points are taken in.
proof fn lemma_grown_commutes(g: Kernel, n: int, m: int, points: Seq<(u32, u32)>, width: u32)
    requires
        0 < n <= m,
        within(points, width, n),
    ensures
        Bins::empty().grown(n, width).with_points(g, points, width).grown(m, width)
            == Bins::empty().grown(m, width).with_points(g, points, width),
    decreases points.len(),
{
    let small = Bins::empty().grown(n, width);
    let large = Bins::empty().grown(m, width);
    if points.len() == 0 {
        assert(small.grown(m, width) =~= large);
    } else {
        let rest = points.drop_last();
        assert forall|i: int| 0 <= i < rest.len() implies 0 <= bin_of((#[trigger] rest[i]).0, width)
            < n by {
            assert(rest[i] == points[i]);
        }
        assert(points[points.len() - 1] == points.last());
        assert forall|i: int| 0 <= i < rest.len() implies 0 <= bin_of((#[trigger] rest[i]).0, width)
            < m by {
            assert(0 <= bin_of(rest[i].0, width) < n);
        }
        lemma_grown_commutes(g, n, m, rest, width);
        lemma_points_layout(small, g, g, rest, width);
        lemma_points_layout(large, g, g, rest, width);
        let before = small.with_points(g, rest, width);
        let b = bin_of(points.last().0, width);
        let after = before.with_point(g, points.last(), width);
        assert(before.grown(m, width) == large.with_points(g, rest, width));
        assert(after.grown(m, width) =~= before.grown(m, width).with_point(
            g,
            points.last(),
            width,
        ));
    }
}

/// How points arrive does not matter: taking in some and then the rest gives what
/// taking in all at once gives, unless a later point falls into a bin that was passed
/// over before.
pub proof fn law_batches_give_the_same(
    g: Kernel,
    some: Seq<(u32, u32)>,
    all: Seq<(u32, u32)>,
    width: u32,
)
    requires
        some.is_prefix_of(all),
        Bins::empty().admits(some, width),
        Bins::empty().admits(all, width),
        never_back(some, all, width),
    ensures
        Bins::empty().updated(g, some, width).updated(g, all, width) == Bins::empty().updated(
            g,
            all,
            width,
        ),
{
    let none = Bins::empty();
    if some.len() == 0 {
    } else if some.len() == all.len() {
        assert(some =~= all);
    } else {
        let later = all.skip(some.len() as int);
        let n = bins_needed(some, width);
        let m = bins_needed(all, width);
        assert(some.skip(0) =~= some);
        assert(all.skip(0) =~= all);
        assert(some + later =~= all);
        assert(all[some.len() - 1] == some.last());
        lemma_bin_nonneg(some.last().0, width);
        assert(n <= m);
        assert(within(some, width, n));
        assert(within(all, width, m));
        let filled = none.grown(n, width).with_points(g, some, width);
        let half = none.updated(g, some, width);
        lemma_points_layout(none.grown(n, width), g, g, some, width);
        let p = half.grown(m, width);
        let q = filled.grown(m, width);
        assert(agree(p, q, some, width)) by {
            assert forall|i: int|
                0 <= i < p.count.len() && #[trigger] passed_over(
                    some,
                    width,
                    i,
                ) implies p.count[i] == 0 by {
                assert(none.grown(n, width).count[i] + hits(some.skip(0), width, i) <= u32::MAX);
                lemma_points_count(none.grown(n, width), g, some, width, i);
            }
            assert forall|i: int|
                0 <= i < p.count.len() && !#[trigger] passed_over(
                    some,
                    width,
                    i,
                ) implies p.line[i] == q.line[i] && p.lower[i] == q.lower[i] && p.upper[i]
                == q.upper[i] by {
                if 1 <= i < n {
                    assert(none.grown(n, width).count[i] + hits(some.skip(0), width, i)
                        <= u32::MAX);
                    lemma_points_count(none.grown(n, width), g, some, width, i);
                }
            }
            assert(p.x =~= q.x);
            assert(p.count =~= q.count);
            assert(p.m2 =~= q.m2);
        }
        assert forall|i: int| 0 <= i < later.len() implies 0 <= bin_of(
            (#[trigger] later[i]).0,
            width,
        ) < m && !passed_over(some, width, bin_of(later[i].0, width)) by {
            assert(later[i] == all[some.len() + i]);
        }
        lemma_agree_points(p, q, some, g, later, width);
        lemma_points_layout(p, g, g, later, width);
        lemma_points_layout(q, g, g, later, width);
        lemma_agree_carried(
            p.with_points(g, later, width),
            q.with_points(g, later, width),
            some,
            width,
            m,
        );
        lemma_grown_commutes(g, n, m, some, width);
        lemma_points_append(none.grown(m, width), g, some, later, width);
        assert(half.updated(g, all, width) =~= none.updated(g, all, width));
    }
}

/// In points that are in order of their steps, none falls into a bin that was passed
/// over.
pub proof fn law_ordered_points_never_go_back(
    some: Seq<(u32, u32)>,
    all: Seq<(u32, u32)>,
    width: u32,
)
    requires
        some.is_prefix_of(all),
        ordered(all),
        width > 0,
    ensures
        never_back(some, all, width),
{
    assert forall|i: int| some.len() <= i < all.len() implies !passed_over(
        some,
        width,
        bin_of((#[trigger] all[i]).0, width),
    ) by {
        if some.len() > 0 {
            let b = bin_of(all[i].0, width);
            assert(all[some.len() - 1] == some.last());
            vstd::arithmetic::div_mod::lemma_div_is_ordered(
                some.last().0 as int,
                all[i].0 as int,
                width as int,
            );
            assert(hits(some, width, bin_of(some.last().0, width)) > 0);
        }
    }
}

} // verus!
