//! What holds of the worker and the shown series together, batch after batch.
use vstd::prelude::*;

use crate::arrival_laws::{law_batches_give_the_same, law_ordered_points_never_go_back};
use crate::cache::{lookup, SeriesMap};
use crate::data::{bins_needed, hits, lemma_hits_prefix, Bins, ControlMsg, Kernel, Series};
use crate::series_laws::{
    countable, faithful, law_empty_is_faithful, law_ordered_points_are_admitted,
    law_raw_series_show_every_point, law_updates_stay_faithful, lemma_hits_add, lemma_hits_none,
    ordered,
};
use crate::text::eval_tag;
use crate::worker::{
    asks_reset, basis, law_refreshed_series, lemma_same_series, logged, points_of, refreshable, refreshed, selected,
    WorkerState,
};

verus! {

/// A shown series agrees with the points of its tag and run. Evaluation tags are
/// shown point by point, all others are binned at the current width; a series that
/// lacks points belongs to a tag with `pending` points.
pub open spec fn in_step(
    series: Series,
    points: Seq<(u32, u32)>,
    interval: u32,
    eval: bool,
    pending: bool,
) -> bool {
    match series {
        Series::Raw(raw) => {
            &&& eval
            &&& raw.processed <= points.len()
            &&& raw.coords == points.take(raw.processed as int)
            &&& raw.processed < points.len() ==> pending
        },
        Series::Binned(bins) => {
            &&& !eval
            &&& faithful(bins, points, interval)
            &&& bins.processed < points.len() ==> pending
        },
    }
}

/// The shown series of a tag and a run is in step with the worker; one that is not
/// shown has no points, or its tag has pending points.
pub open spec fn shown_in_step(
    series: SeriesMap,
    w: WorkerState,
    tag: Seq<char>,
    run: Seq<char>,
) -> bool {
    match lookup(series, tag, run) {
        Some(s) => logged(w.points, tag, run) && in_step(
            s,
            points_of(w.points, tag, run),
            w.interval,
            eval_tag(tag),
            w.pending.contains(tag),
        ),
        None => logged(w.points, tag, run) ==> w.pending.contains(tag),
    }
}

/// All shown series are in step with the worker.
pub open spec fn consistent(series: SeriesMap, w: WorkerState) -> bool {
    forall|tag: Seq<char>, run: Seq<char>| #[trigger] shown_in_step(series, w, tag, run)
}

/// The tags are those that the batch asks for.
pub open spec fn asked_for(
    tags: Seq<Seq<char>>,
    w: WorkerState,
    reset: bool,
) -> bool {
    forall|tag: Seq<char>| #[trigger] tags.contains(tag) <==> w.due(reset, tag)
}

/// Messages only add points, at the end; they mark the tag of each; and only a
/// message about the bin width changes it.
pub proof fn law_messages_only_add(
    w: WorkerState,
    msgs: Seq<ControlMsg>,
    tag: Seq<char>,
    run: Seq<char>,
)
    ensures
        logged(w.points, tag, run) ==> logged(w.told_all(msgs).points, tag, run),
        points_of(w.points, tag, run).is_prefix_of(points_of(w.told_all(msgs).points, tag, run)),
        w.pending.contains(tag) ==> w.told_all(msgs).pending.contains(tag),
        !w.told_all(msgs).pending.contains(tag) ==> logged(w.points, tag, run) == logged(
            w.told_all(msgs).points,
            tag,
            run,
        ) && points_of(w.points, tag, run) == points_of(w.told_all(msgs).points, tag, run),
        !asks_reset(msgs) ==> w.told_all(msgs).interval == w.interval,
    decreases msgs.len(),
{
    if msgs.len() > 0 {
        let rest = msgs.drop_last();
        law_messages_only_add(w, rest, tag, run);
        assert(!asks_reset(msgs) ==> !asks_reset(rest)) by {
            if asks_reset(rest) {
                let k = choose|k: int| 0 <= k < rest.len() && #[trigger] rest[k] is ResetInterval;
                assert(msgs[k] is ResetInterval);
            }
        }
        assert(msgs[msgs.len() - 1] == msgs.last());
        let mid = w.told_all(rest);
        let end = w.told_all(msgs);
        let before = points_of(mid.points, tag, run);
        let after = points_of(end.points, tag, run);
        assert(before.is_prefix_of(after)) by {
            match msgs.last() {
                ControlMsg::NewPoint(p) => {
                    if p.tag@ == tag && p.run_name@ == run {
                        assert(after == before.push((p.step, p.value)));
                        assert(after.take(before.len() as int) =~= before);
                    } else {
                        assert(after == before);
                    }
                },
                ControlMsg::ResetInterval(_) => {
                    assert(after == before);
                },
            }
        }
        let first = points_of(w.points, tag, run);
        assert(first =~= after.take(first.len() as int));
    }
}

/// Whether tags are still marked does not matter to what is brought up to date: that
/// depends on the points and the bin width.
pub proof fn law_settling_does_not_matter(
    series: SeriesMap,
    w: WorkerState,
    tags: Seq<Seq<char>>,
    reset: bool,
    g: Kernel,
)
    ensures
        refreshable(series, w.settled(reset), tags, reset) == refreshable(series, w, tags, reset),
        refreshed(series, w.settled(reset), tags, reset, g) == refreshed(
            series,
            w,
            tags,
            reset,
            g,
        ),
{
    let s = w.settled(reset);
    assert forall|tag: Seq<char>, run: Seq<char>| #[trigger]
        selected(s, tags, tag, run) == selected(w, tags, tag, run) by {}
    if refreshable(series, s, tags, reset) {
        assert forall|tag: Seq<char>, run: Seq<char>| #[trigger]
            selected(w, tags, tag, run) implies basis(lookup(series, tag, run), tag).admits(
            points_of(w.points, tag, run),
            w.interval,
            reset,
        ) by {
            assert(selected(s, tags, tag, run));
        }
    }
    let a = refreshed(series, s, tags, reset, g);
    let b = refreshed(series, w, tags, reset, g);
    assert forall|tag: Seq<char>| a.contains_key(tag) <==> b.contains_key(tag) by {
        if exists|run: Seq<char>| selected(w, tags, tag, run) {
            let run = choose|run: Seq<char>| selected(w, tags, tag, run);
            assert(selected(s, tags, tag, run));
        }
    }
    assert(a.dom() =~= b.dom());
    assert forall|tag: Seq<char>, run: Seq<char>| #[trigger]
        lookup(a, tag, run) == lookup(b, tag, run) by {
        law_refreshed_series(series, s, tags, reset, g, tag, run);
        law_refreshed_series(series, w, tags, reset, g, tag, run);
    }
    lemma_same_series(a, b);
}

/// Each batch keeps the shown series consistent with the worker.
pub proof fn law_batch_keeps_consistent(
    series: SeriesMap,
    w: WorkerState,
    msgs: Seq<ControlMsg>,
    tags: Seq<Seq<char>>,
    g: Kernel,
)
    requires
        consistent(series, w),
        asked_for(tags, w.told_all(msgs), asks_reset(msgs)),
        refreshable(series, w.told_all(msgs), tags, asks_reset(msgs)),
    ensures
        consistent(
            refreshed(series, w.told_all(msgs), tags, asks_reset(msgs), g),
            w.told_all(msgs).settled(asks_reset(msgs)),
        ),
{
    let reset = asks_reset(msgs);
    let heard = w.told_all(msgs);
    let end = heard.settled(reset);
    let shown = refreshed(series, heard, tags, reset, g);
    assert forall|tag: Seq<char>, run: Seq<char>| #[trigger]
        shown_in_step(shown, end, tag, run) by {
        law_messages_only_add(w, msgs, tag, run);
        law_refreshed_series(series, heard, tags, reset, g, tag, run);
        assert(shown_in_step(series, w, tag, run));
        let was = points_of(w.points, tag, run);
        let now = points_of(heard.points, tag, run);
        assert(now.take(now.len() as int) =~= now);
        if selected(heard, tags, tag, run) {
            assert(tags.contains(tag));
            let from = basis(lookup(series, tag, run), tag);
            assert(from.admits(now, heard.interval, reset));
            match from {
                Series::Raw(raw) => {
                    assert(was.take(0) =~= Seq::empty());
                    law_raw_series_show_every_point(raw, was, now);
                },
                Series::Binned(bins) => {
                    if reset {
                        law_empty_is_faithful(was, heard.interval);
                        law_updates_stay_faithful(
                            Bins::empty(),
                            g,
                            was,
                            now,
                            heard.interval,
                        );
                    } else {
                        law_empty_is_faithful(was, w.interval);
                        law_updates_stay_faithful(bins, g, was, now, w.interval);
                    }
                },
            }
        } else {
            match lookup(series, tag, run) {
                Some(Series::Raw(raw)) => {
                    assert(was.take(raw.processed as int) =~= now.take(raw.processed as int));
                },
                _ => {},
            }
        }
    }
}

/// Once nothing is pending, everything that was logged is shown: evaluation tags
/// point by point and never binned, every other tag in bins of the current width
/// that hold each of its points.
pub proof fn law_everything_is_shown(
    series: SeriesMap,
    w: WorkerState,
    tag: Seq<char>,
    run: Seq<char>,
)
    requires
        consistent(series, w),
        !w.pending.contains(tag),
        logged(w.points, tag, run),
    ensures
        match lookup(series, tag, run) {
            Some(Series::Raw(raw)) => eval_tag(tag) && raw.coords == w.points[tag][run],
            Some(Series::Binned(bins)) => !eval_tag(tag) && faithful(
                bins,
                w.points[tag][run],
                w.interval,
            ) && bins.processed == w.points[tag][run].len(),
            None => false,
        },
{
    assert(shown_in_step(series, w, tag, run));
    let points = w.points[tag][run];
    assert(points.take(points.len() as int) =~= points);
}

/// Whatever is shown of an evaluation tag is shown point by point, and whatever is
/// shown of another tag is binned.
pub proof fn law_eval_tags_are_never_binned(
    series: SeriesMap,
    w: WorkerState,
    tag: Seq<char>,
    run: Seq<char>,
)
    requires
        consistent(series, w),
    ensures
        lookup(series, tag, run) matches Some(s) ==> (s is Raw <==> eval_tag(tag)),
{
    assert(shown_in_step(series, w, tag, run));
}

/// A batch that does not change the bin width leaves nothing pending.
pub proof fn law_batch_without_reset_settles(w: WorkerState, msgs: Seq<ControlMsg>, tag: Seq<char>)
    requires
        !asks_reset(msgs),
    ensures
        !w.told_all(msgs).settled(asks_reset(msgs)).pending.contains(tag),
{
}

/// After a batch that changes the bin width, every binned series that was logged is
/// the one that all its points give at the new width, starting from nothing.
pub proof fn law_new_width_rebins_everything(
    series: SeriesMap,
    w: WorkerState,
    msgs: Seq<ControlMsg>,
    tags: Seq<Seq<char>>,
    g: Kernel,
    tag: Seq<char>,
    run: Seq<char>,
)
    requires
        consistent(series, w),
        asks_reset(msgs),
        asked_for(tags, w.told_all(msgs), true),
        logged(w.told_all(msgs).points, tag, run),
        !eval_tag(tag),
    ensures
        lookup(refreshed(series, w.told_all(msgs), tags, true, g), tag, run) == Some(
            Series::Binned(
                Bins::empty().updated(
                    g,
                    points_of(w.told_all(msgs).points, tag, run),
                    w.told_all(msgs).interval,
                ),
            ),
        ),
{
    law_refreshed_series(series, w.told_all(msgs), tags, true, g, tag, run);
    assert(tags.contains(tag));
    assert(shown_in_step(series, w, tag, run));
}

/// The log is in order of its steps, and its bins and the points in each can be
/// counted in 32 bits.
pub open spec fn orderly(points: Seq<(u32, u32)>, interval: u32) -> bool {
    ordered(points) && (points.len() > 0 ==> interval > 0 && countable(points, interval))
}

/// All logs are orderly.
pub open spec fn all_orderly(w: WorkerState) -> bool {
    forall|tag: Seq<char>, run: Seq<char>|
        orderly(#[trigger] points_of(w.points, tag, run), w.interval)
}

/// All logs of tags that are binned are in order of their steps.
pub open spec fn binned_logs_ordered(w: WorkerState) -> bool {
    forall|tag: Seq<char>, run: Seq<char>|
        !eval_tag(tag) ==> ordered(#[trigger] points_of(w.points, tag, run))
}

/// An orderly log can be taken in from where a series stands.
pub proof fn lemma_orderly_admitted(s: Bins, points: Seq<(u32, u32)>, interval: u32)
    requires
        faithful(s, points, interval),
        orderly(points, interval),
    ensures
        s.admits(points, interval),
{
    if points.len() > 0 {
        law_ordered_points_are_admitted(s, points, interval);
    }
}

/// An ordered log that can be taken in from where a series stands is orderly, and so
/// is what was logged first of it.
pub proof fn lemma_admitted_orderly(s: Bins, points: Seq<(u32, u32)>, interval: u32, k: int)
    requires
        faithful(s, points, interval),
        ordered(points),
        s.admits(points, interval),
        !s.up_to_date(points),
        0 <= k <= points.len(),
    ensures
        interval > 0,
        orderly(points.take(k), interval),
{
    let some = points.take(k);
    let taken = points.take(s.processed as int);
    let fresh = points.skip(s.processed as int);
    let n = bins_needed(points, interval);
    if k > 0 {
        assert(some.last() == points[k - 1]);
        assert(points[points.len() - 1] == points.last());
        vstd::arithmetic::div_mod::lemma_div_is_ordered(
            points[k - 1].0 as int,
            points.last().0 as int,
            interval as int,
        );
        assert forall|b: int| 0 <= b < bins_needed(some, interval) implies #[trigger] hits(
            some,
            interval,
            b,
        ) <= u32::MAX by {
            assert(s.grown(n, interval).count[b] + hits(fresh, interval, b) <= u32::MAX);
            assert(taken + fresh =~= points);
            lemma_hits_add(taken, fresh, interval, b);
            if b < s.lower.len() {
                assert(s.count[b] == hits(taken, interval, b));
            } else {
                lemma_hits_none(taken, interval, s.lower.len() as int, b);
            }
            lemma_hits_prefix(points, interval, b, k);
        }
    }
}

/// Orderly logs can always be shown.
pub proof fn law_orderly_logs_are_refreshable(
    series: SeriesMap,
    w: WorkerState,
    msgs: Seq<ControlMsg>,
    tags: Seq<Seq<char>>,
)
    requires
        consistent(series, w),
        all_orderly(w.told_all(msgs)),
    ensures
        refreshable(series, w.told_all(msgs), tags, asks_reset(msgs)),
{
    let reset = asks_reset(msgs);
    let heard = w.told_all(msgs);
    assert forall|tag: Seq<char>, run: Seq<char>| #[trigger]
        selected(heard, tags, tag, run) implies basis(lookup(series, tag, run), tag).admits(
        points_of(heard.points, tag, run),
        heard.interval,
        reset,
    ) by {
        law_messages_only_add(w, msgs, tag, run);
        assert(shown_in_step(series, w, tag, run));
        let was = points_of(w.points, tag, run);
        let now = points_of(heard.points, tag, run);
        assert(orderly(now, heard.interval));
        law_empty_is_faithful(now, heard.interval);
        match basis(lookup(series, tag, run), tag) {
            Series::Raw(_) => {},
            Series::Binned(bins) => {
                if reset {
                    lemma_orderly_admitted(Bins::empty(), now, heard.interval);
                } else {
                    assert(was.take(bins.processed as int) =~= now.take(bins.processed as int));
                    lemma_orderly_admitted(bins, now, heard.interval);
                }
            },
        }
    }
}

/// A binned series is the one that its points give when they are all taken in at
/// once.
pub open spec fn as_if_at_once(
    series: SeriesMap,
    w: WorkerState,
    g: Kernel,
    tag: Seq<char>,
    run: Seq<char>,
) -> bool {
    lookup(series, tag, run) matches Some(Series::Binned(bins)) ==> bins == Bins::empty().updated(
        g,
        points_of(w.points, tag, run).take(bins.processed as int),
        w.interval,
    )
}

/// All binned series are as if their points had been taken in at once.
pub open spec fn all_as_if_at_once(series: SeriesMap, w: WorkerState, g: Kernel) -> bool {
    forall|tag: Seq<char>, run: Seq<char>| #[trigger] as_if_at_once(series, w, g, tag, run)
}

/// A worker that has heard nothing and an empty cache are consistent, and nothing is
/// shown otherwise than if its points had been taken in at once.
pub proof fn law_start_is_consistent(g: Kernel)
    ensures
        consistent(SeriesMap::empty(), WorkerState::initial()),
        all_as_if_at_once(SeriesMap::empty(), WorkerState::initial(), g),
{
}

/// A batch of messages leaves every binned series as if its points had been taken in
/// at once, as long as the logs of binned tags are in order and can be shown.
pub proof fn law_batches_do_not_matter(
    series: SeriesMap,
    w: WorkerState,
    msgs: Seq<ControlMsg>,
    tags: Seq<Seq<char>>,
    g: Kernel,
)
    requires
        consistent(series, w),
        all_as_if_at_once(series, w, g),
        asked_for(tags, w.told_all(msgs), asks_reset(msgs)),
        refreshable(series, w.told_all(msgs), tags, asks_reset(msgs)),
        binned_logs_ordered(w.told_all(msgs)),
    ensures
        all_as_if_at_once(
            refreshed(series, w.told_all(msgs), tags, asks_reset(msgs), g),
            w.told_all(msgs).settled(asks_reset(msgs)),
            g,
        ),
{
    let reset = asks_reset(msgs);
    let heard = w.told_all(msgs);
    let end = heard.settled(reset);
    let shown = refreshed(series, heard, tags, reset, g);
    assert forall|tag: Seq<char>, run: Seq<char>| #[trigger]
        as_if_at_once(shown, end, g, tag, run) by {
        law_messages_only_add(w, msgs, tag, run);
        law_refreshed_series(series, heard, tags, reset, g, tag, run);
        assert(shown_in_step(series, w, tag, run));
        assert(as_if_at_once(series, w, g, tag, run));
        let was = points_of(w.points, tag, run);
        let now = points_of(heard.points, tag, run);
        let width = heard.interval;
        assert(now.take(now.len() as int) =~= now);
        if selected(heard, tags, tag, run) {
            assert(tags.contains(tag));
            match basis(lookup(series, tag, run), tag) {
                Series::Raw(_) => {},
                Series::Binned(bins) => {
                    if !reset {
                        let k = bins.processed as int;
                        let some = now.take(k);
                        assert(was.take(k) =~= some);
                        assert(now.take(0) =~= Seq::empty());
                        law_empty_is_faithful(now, width);
                        assert(faithful(bins, now, width));
                        assert(bins.admits(now, width));
                        assert(ordered(now));
                        assert(bins == Bins::empty().updated(g, some, width));
                        if bins.up_to_date(now) {
                            assert(some =~= now);
                        } else {
                            lemma_admitted_orderly(bins, now, width, k);
                            lemma_admitted_orderly(bins, now, width, now.len() as int);
                            law_empty_is_faithful(some, width);
                            lemma_orderly_admitted(Bins::empty(), now, width);
                            lemma_orderly_admitted(Bins::empty(), some, width);
                            law_ordered_points_never_go_back(some, now, width);
                            law_batches_give_the_same(g, some, now, width);
                        }
                    }
                },
            }
        } else {
            match lookup(series, tag, run) {
                Some(Series::Binned(bins)) => {
                    assert(was.take(bins.processed as int) =~= now.take(bins.processed as int));
                },
                _ => {},
            }
        }
    }
}

/// Once nothing is pending, the series shown of a tag that is binned is the one that
/// its whole log gives, taken in at once at the current width.
pub proof fn law_the_whole_log_is_shown(
    series: SeriesMap,
    w: WorkerState,
    g: Kernel,
    tag: Seq<char>,
    run: Seq<char>,
)
    requires
        consistent(series, w),
        all_as_if_at_once(series, w, g),
        !w.pending.contains(tag),
        logged(w.points, tag, run),
        !eval_tag(tag),
    ensures
        lookup(series, tag, run) == Some(
            Series::Binned(Bins::empty().updated(g, w.points[tag][run], w.interval)),
        ),
{
    assert(shown_in_step(series, w, tag, run));
    assert(as_if_at_once(series, w, g, tag, run));
    let points = w.points[tag][run];
    assert(points.take(points.len() as int) =~= points);
}

} // verus!
