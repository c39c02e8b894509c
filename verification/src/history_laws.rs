//! What the worker and the shown series come to, said of the messages that were sent.
use vstd::prelude::*;

use crate::arrival_laws::{law_batches_give_the_same, law_ordered_points_never_go_back};
use crate::batches::{
    after_batch, batch_admitted, due_run, flag_stored, shown_after, shows_batch, Prepared,
};
use crate::cache::{entered, lookup, SeriesMap};
use crate::data::{
    blank, computes, Bins, ControlMsg, Kernel, Moments, RawSeries, ScalarPoint, Series,
};
use crate::series_laws::{
    faithful, law_empty_is_faithful, law_raw_series_show_every_point,
    law_updates_stay_faithful, ordered,
};
use crate::text_laws::law_eval_tags_by_characters;
use crate::worker::{
    asks_reset, basis, jobs_for, logged, points_of, refreshable, refreshed, same_shape, selected,
    with_outcomes, ComputeWorker, Job, Refreshed, WorkerState, DEFAULT_INTERVAL,
};
use crate::worker_laws::{
    as_if_at_once, law_messages_only_add, lemma_admitted_orderly, lemma_orderly_admitted,
    shown_in_step,
};

verus! {

/// A tag and a run have points if they stand in the store, and these are the points.
pub proof fn law_points_by_both_names(w: WorkerState, tag: Seq<char>, run: Seq<char>)
    ensures
        logged(w.points, tag, run) <==> w.points.contains_key(tag) && w.points[tag].contains_key(
            run,
        ),
        logged(w.points, tag, run) ==> points_of(w.points, tag, run) == w.points[tag][run],
        !logged(w.points, tag, run) ==> points_of(w.points, tag, run).len() == 0,
{
}

/// A worker that has heard nothing has no points, nothing pending, and a width of ten
/// thousand.
pub proof fn law_a_new_worker_knows_nothing(tag: Seq<char>)
    ensures
        !WorkerState::initial().points.contains_key(tag),
        !WorkerState::initial().pending.contains(tag),
        WorkerState::initial().interval == 10_000,
        DEFAULT_INTERVAL == 10_000,
{
}

/// A point is kept as it is, its step and its value, at the end of the points of its tag
/// and run; those of every other tag or run stay as they were. Its tag is marked, no other
/// is, and the width stays.
pub proof fn law_a_point_is_kept_as_it_is(
    w: WorkerState,
    p: ScalarPoint,
    tag: Seq<char>,
    run: Seq<char>,
)
    ensures
        ({
            let now = w.told(ControlMsg::NewPoint(p));
            let was = points_of(w.points, tag, run);
            let is = points_of(now.points, tag, run);
            &&& now.interval == w.interval
            &&& now.pending.contains(tag) <==> w.pending.contains(tag) || tag == p.tag@
            &&& now.points.contains_key(tag) <==> w.points.contains_key(tag) || tag == p.tag@
            &&& tag == p.tag@ && run == p.run_name@ ==> logged(now.points, tag, run) && is.len()
                == was.len() + 1 && is.subrange(0, was.len() as int) == was && is[was.len() as int].0
                == p.step && is[was.len() as int].1 == p.value
            &&& !(tag == p.tag@ && run == p.run_name@) ==> logged(now.points, tag, run) == logged(
                w.points,
                tag,
                run,
            ) && is == was
        }),
{
    let was = points_of(w.points, tag, run);
    let is = points_of(w.told(ControlMsg::NewPoint(p)).points, tag, run);
    if tag == p.tag@ && run == p.run_name@ {
        assert(is.subrange(0, was.len() as int) =~= was);
    }
}

/// A new width is taken over as it is, and nothing else changes.
pub proof fn law_a_width_is_taken_over(w: WorkerState, width: u32)
    ensures
        w.told(ControlMsg::ResetInterval(width)).interval == width,
        w.told(ControlMsg::ResetInterval(width)).points == w.points,
        w.told(ControlMsg::ResetInterval(width)).pending == w.pending,
{
}

/// Messages are heard one after the other; to hear some and then others is to hear them
/// all.
pub proof fn law_messages_are_heard_in_order(
    w: WorkerState,
    msgs: Seq<ControlMsg>,
    msg: ControlMsg,
    more: Seq<ControlMsg>,
)
    ensures
        w.told_all(Seq::empty()) == w,
        w.told_all(msgs.push(msg)) == w.told_all(msgs).told(msg),
        w.told_all(msgs + more) == w.told_all(msgs).told_all(more),
    decreases more.len(),
{
    assert(msgs.push(msg).drop_last() =~= msgs);
    if more.len() == 0 {
        assert(msgs + more =~= msgs);
    } else {
        law_messages_are_heard_in_order(w, msgs, msg, more.drop_last());
        assert((msgs + more).drop_last() =~= msgs + more.drop_last());
        assert((msgs + more).last() == more.last());
    }
}

/// The points of the messages about a tag and a run.
proof fn lemma_log(
    w: WorkerState,
    msgs: Seq<ControlMsg>,
    tag: Seq<char>,
    run: Seq<char>,
    about: spec_fn(ControlMsg) -> bool,
    content: spec_fn(ControlMsg) -> (u32, u32),
)
    requires
        forall|m: ControlMsg| #[trigger]
            about(m) <==> (m matches ControlMsg::NewPoint(p) && p.tag@ == tag && p.run_name@
                == run),
        forall|p: ScalarPoint| #[trigger]
            content(ControlMsg::NewPoint(p)) == (p.step, p.value),
    ensures
        points_of(w.told_all(msgs).points, tag, run) == points_of(w.points, tag, run)
            + msgs.filter(about).map_values(content),
        logged(w.told_all(msgs).points, tag, run) <==> logged(w.points, tag, run) || msgs.filter(
            about,
        ).len() > 0,
    decreases msgs.len(),
{
    reveal(Seq::filter);
    let sent = msgs.filter(about).map_values(content);
    let first = points_of(w.points, tag, run);
    if msgs.len() == 0 {
        assert(first + sent =~= first);
    } else {
        let rest = msgs.drop_last();
        lemma_log(w, rest, tag, run, about, content);
        let earlier = rest.filter(about).map_values(content);
        let mid = w.told_all(rest);
        match msgs.last() {
            ControlMsg::NewPoint(p) => {
                law_a_point_is_kept_as_it_is(mid, p, tag, run);
                if p.tag@ == tag && p.run_name@ == run {
                    assert(about(msgs.last()));
                    assert(sent =~= earlier.push(content(ControlMsg::NewPoint(p))));
                    assert(points_of(w.told_all(msgs).points, tag, run) =~= points_of(
                        mid.points,
                        tag,
                        run,
                    ).push((p.step, p.value)));
                    assert(first + sent =~= (first + earlier).push((p.step, p.value)));
                } else {
                    assert(!about(msgs.last()));
                }
            },
            ControlMsg::ResetInterval(_) => {
                assert(!about(msgs.last()));
            },
        }
    }
}

/// The points of a tag and a run are what they were, then the step and the value of each
/// message about them, in the order of the messages.
pub proof fn law_logs_are_what_was_sent(
    w: WorkerState,
    msgs: Seq<ControlMsg>,
    tag: Seq<char>,
    run: Seq<char>,
)
    ensures
        points_of(w.told_all(msgs).points, tag, run) == points_of(w.points, tag, run)
            + msgs.filter(
            |m: ControlMsg|
                m matches ControlMsg::NewPoint(p) && p.tag@ == tag && p.run_name@ == run,
        ).map_values(|m: ControlMsg| (m->NewPoint_0.step, m->NewPoint_0.value)),
{
    lemma_log(
        w,
        msgs,
        tag,
        run,
        |m: ControlMsg| m matches ControlMsg::NewPoint(p) && p.tag@ == tag && p.run_name@ == run,
        |m: ControlMsg| (m->NewPoint_0.step, m->NewPoint_0.value),
    );
}

/// Messages ask for a reset exactly if one of them changes the width.
pub proof fn law_resets_are_asked_for_by_message(msgs: Seq<ControlMsg>)
    ensures
        asks_reset(msgs) <==> exists|i: int|
            0 <= i < msgs.len() && (#[trigger] msgs[i]) is ResetInterval,
{
}

/// The width is that of the last message that changes it.
pub proof fn law_the_last_width_counts(w: WorkerState, msgs: Seq<ControlMsg>, i: int)
    requires
        0 <= i < msgs.len(),
        msgs[i] is ResetInterval,
        forall|j: int| i < j < msgs.len() ==> (#[trigger] msgs[j]) is NewPoint,
    ensures
        w.told_all(msgs).interval == msgs[i]->ResetInterval_0,
    decreases msgs.len(),
{
    let rest = msgs.drop_last();
    assert(msgs[msgs.len() - 1] == msgs.last());
    if i < rest.len() {
        assert forall|j: int| i < j < rest.len() implies (#[trigger] rest[j]) is NewPoint by {
            assert(msgs[j] is NewPoint);
        }
        law_the_last_width_counts(w, rest, i);
    }
}

/// Points do not change the width.
pub proof fn law_points_do_not_change_the_width(w: WorkerState, msgs: Seq<ControlMsg>)
    requires
        forall|j: int| 0 <= j < msgs.len() ==> (#[trigger] msgs[j]) is NewPoint,
    ensures
        w.told_all(msgs).interval == w.interval,
    decreases msgs.len(),
{
    if msgs.len() > 0 {
        let rest = msgs.drop_last();
        assert(msgs[msgs.len() - 1] == msgs.last());
        assert forall|j: int| 0 <= j < rest.len() implies (#[trigger] rest[j]) is NewPoint by {
            assert(msgs[j] is NewPoint);
        }
        law_points_do_not_change_the_width(w, rest);
    }
}

/// A tag is marked if it was, or if a point of it was sent.
pub proof fn law_points_mark_their_tags(w: WorkerState, msgs: Seq<ControlMsg>, tag: Seq<char>)
    ensures
        w.told_all(msgs).pending.contains(tag) <==> w.pending.contains(tag) || exists|i: int|
            0 <= i < msgs.len() && (#[trigger] msgs[i] matches ControlMsg::NewPoint(p) && p.tag@
                == tag),
    decreases msgs.len(),
{
    if msgs.len() > 0 {
        let rest = msgs.drop_last();
        law_points_mark_their_tags(w, rest, tag);
        assert(msgs[msgs.len() - 1] == msgs.last());
        if exists|i: int|
            0 <= i < rest.len() && (#[trigger] rest[i] matches ControlMsg::NewPoint(p) && p.tag@
                == tag) {
            let i = choose|i: int|
                0 <= i < rest.len() && (#[trigger] rest[i] matches ControlMsg::NewPoint(p)
                    && p.tag@ == tag);
            assert(msgs[i] == rest[i]);
        }
        if exists|i: int|
            0 <= i < msgs.len() && (#[trigger] msgs[i] matches ControlMsg::NewPoint(p) && p.tag@
                == tag) {
            let i = choose|i: int|
                0 <= i < msgs.len() && (#[trigger] msgs[i] matches ControlMsg::NewPoint(p)
                    && p.tag@ == tag);
            if i < rest.len() {
                assert(rest[i] == msgs[i]);
            }
        }
    }
}

/// After a batch the points and the width are those that it made. A batch that changes the
/// width leaves the marks as they are, any other takes them all away.
pub proof fn law_after_a_batch(w: WorkerState, msgs: Seq<ControlMsg>, tag: Seq<char>)
    ensures
        after_batch(w, msgs).points == w.told_all(msgs).points,
        after_batch(w, msgs).interval == w.told_all(msgs).interval,
        after_batch(w, msgs).pending.contains(tag) <==> asks_reset(msgs) && w.told_all(
            msgs,
        ).pending.contains(tag),
        w.told_all(msgs).settled(asks_reset(msgs)) == after_batch(w, msgs),
{
}

/// A batch that changes the width is about every tag with points that does not begin with
/// `eval/`; any other is about the marked tags. Of these, all runs with points are due.
pub proof fn law_what_is_due(
    w: WorkerState,
    msgs: Seq<ControlMsg>,
    tag: Seq<char>,
    run: Seq<char>,
)
    ensures
        due_run(w, msgs, tag, run) <==> w.told_all(msgs).points.contains_key(tag) && w.told_all(
            msgs,
        ).points[tag].contains_key(run) && (if asks_reset(msgs) {
            !(tag.len() >= 5 && tag[0] == 'e' && tag[1] == 'v' && tag[2] == 'a' && tag[3] == 'l'
                && tag[4] == '/')
        } else {
            w.told_all(msgs).pending.contains(tag)
        }),
        w.told_all(msgs).due(true, tag) <==> w.told_all(msgs).points.contains_key(tag)
            && !(tag.len() >= 5 && tag[0] == 'e' && tag[1] == 'v' && tag[2] == 'a' && tag[3] == 'l'
            && tag[4] == '/'),
        w.told_all(msgs).due(false, tag) <==> w.told_all(msgs).pending.contains(tag),
{
    law_eval_tags_by_characters(tag);
}

/// What a batch shows. A series that is due and not shown yet starts from nothing: point by
/// point if its tag begins with `eval/`, binned if not. One that is shown goes on from
/// where it is, or from nothing if the batch changes the width. All others, and the names,
/// are as they were.
pub proof fn law_what_a_batch_shows(
    series: SeriesMap,
    w: WorkerState,
    msgs: Seq<ControlMsg>,
    g: Kernel,
    tag: Seq<char>,
    run: Seq<char>,
)
    ensures
        ({
            let now = lookup(shown_after(series, w, msgs, g), tag, run);
            let was = lookup(series, tag, run);
            let points = points_of(w.told_all(msgs).points, tag, run);
            let width = w.told_all(msgs).interval;
            let eval = tag.len() >= 5 && tag[0] == 'e' && tag[1] == 'v' && tag[2] == 'a' && tag[3]
                == 'l' && tag[4] == '/';
            &&& !due_run(w, msgs, tag, run) ==> now == was
            &&& due_run(w, msgs, tag, run) ==> match was {
                None => if eval {
                    now matches Some(Series::Raw(raw)) && raw.coords == points && raw.processed
                        == points.len()
                } else {
                    now == Some(Series::Binned(Bins::empty().updated(g, points, width)))
                },
                Some(Series::Binned(bins)) => now == Some(
                    Series::Binned(
                        (if asks_reset(msgs) {
                            Bins::empty()
                        } else {
                            bins
                        }).updated(g, points, width),
                    ),
                ),
                Some(Series::Raw(raw)) => now matches Some(Series::Raw(next)) && (if asks_reset(
                    msgs,
                ) {
                    next.coords == points && next.processed == points.len()
                } else {
                    next == raw.updated(points)
                }),
            }
            &&& shown_after(series, w, msgs, g).contains_key(tag) <==> series.contains_key(tag)
                || exists|r: Seq<char>| due_run(w, msgs, tag, r)
        }),
{
    law_eval_tags_by_characters(tag);
    let points = points_of(w.told_all(msgs).points, tag, run);
    assert(RawSeries::empty().updated(points).coords =~= points);
}

/// A batch can be shown exactly if each series that is due can take in its points.
pub proof fn law_what_can_be_shown(series: SeriesMap, w: WorkerState, msgs: Seq<ControlMsg>)
    ensures
        batch_admitted(series, w, msgs) <==> forall|tag: Seq<char>, run: Seq<char>| #[trigger]
            due_run(w, msgs, tag, run) ==> match lookup(series, tag, run) {
                Some(Series::Raw(_)) => true,
                Some(Series::Binned(bins)) => (if asks_reset(msgs) {
                    Bins::empty()
                } else {
                    bins
                }).admits(points_of(w.told_all(msgs).points, tag, run), w.told_all(msgs).interval),
                None => (tag.len() >= 5 && tag[0] == 'e' && tag[1] == 'v' && tag[2] == 'a' && tag[3]
                    == 'l' && tag[4] == '/') || Bins::empty().admits(
                    points_of(w.told_all(msgs).points, tag, run),
                    w.told_all(msgs).interval,
                ),
            },
{
    assert forall|tag: Seq<char>, run: Seq<char>| #[trigger]
        due_run(w, msgs, tag, run) implies basis(lookup(series, tag, run), tag).admits(
        points_of(w.told_all(msgs).points, tag, run),
        w.told_all(msgs).interval,
        asks_reset(msgs),
    ) == match lookup(series, tag, run) {
        Some(Series::Raw(_)) => true,
        Some(Series::Binned(bins)) => (if asks_reset(msgs) {
            Bins::empty()
        } else {
            bins
        }).admits(points_of(w.told_all(msgs).points, tag, run), w.told_all(msgs).interval),
        None => (tag.len() >= 5 && tag[0] == 'e' && tag[1] == 'v' && tag[2] == 'a' && tag[3] == 'l'
            && tag[4] == '/') || Bins::empty().admits(
            points_of(w.told_all(msgs).points, tag, run),
            w.told_all(msgs).interval,
        ),
    } by {
        law_eval_tags_by_characters(tag);
    }
}

/// Outcomes are shown one by one; what is shown of a batch is its outcomes.
pub proof fn law_outcomes_are_shown(
    series: SeriesMap,
    done: Seq<Refreshed>,
    last: Refreshed,
    prepared: Prepared,
    msgs: Seq<ControlMsg>,
)
    ensures
        with_outcomes(series, Seq::empty()) == series,
        with_outcomes(series, done.push(last)) == with_outcomes(
            entered(series, last.tag@, last.run@, last.store@),
            done,
        ),
        prepared.shown(series) == with_outcomes(series, prepared.outcomes@),
        flag_stored(msgs) == Some(false) <==> asks_reset(msgs),
        flag_stored(msgs) != Some(true),
{
    assert(done.push(last).drop_last() =~= done);
}

/// What a refresh shows, of the tags that are named: a series that is not shown yet starts
/// from nothing, point by point if its tag begins with `eval/`, and one that is shown goes
/// on, or starts over after a reset. Nothing else is touched.
pub proof fn law_what_a_refresh_shows(
    series: SeriesMap,
    w: WorkerState,
    tags: Seq<Seq<char>>,
    reset: bool,
    g: Kernel,
    tag: Seq<char>,
    run: Seq<char>,
)
    ensures
        ({
            let now = lookup(refreshed(series, w, tags, reset, g), tag, run);
            let was = lookup(series, tag, run);
            let points = points_of(w.points, tag, run);
            let eval = tag.len() >= 5 && tag[0] == 'e' && tag[1] == 'v' && tag[2] == 'a' && tag[3]
                == 'l' && tag[4] == '/';
            &&& selected(w, tags, tag, run) <==> tags.contains(tag) && w.points.contains_key(tag)
                && w.points[tag].contains_key(run)
            &&& !selected(w, tags, tag, run) ==> now == was
            &&& selected(w, tags, tag, run) ==> match was {
                None => if eval {
                    now matches Some(Series::Raw(raw)) && raw.coords == points && raw.processed
                        == points.len()
                } else {
                    now == Some(Series::Binned(Bins::empty().updated(g, points, w.interval)))
                },
                Some(Series::Binned(bins)) => now == Some(
                    Series::Binned(
                        (if reset {
                            Bins::empty()
                        } else {
                            bins
                        }).updated(g, points, w.interval),
                    ),
                ),
                Some(Series::Raw(raw)) => now matches Some(Series::Raw(next)) && (if reset {
                    next.coords == points && next.processed == points.len()
                } else {
                    next == raw.updated(points)
                }),
            }
            &&& refreshed(series, w, tags, reset, g).contains_key(tag) <==> series.contains_key(tag)
                || exists|r: Seq<char>| selected(w, tags, tag, r)
        }),
{
    law_eval_tags_by_characters(tag);
    let points = points_of(w.points, tag, run);
    assert(RawSeries::empty().updated(points).coords =~= points);
}

/// A refresh can be made exactly if each series that is named can take in its points.
pub proof fn law_what_can_be_refreshed(
    series: SeriesMap,
    w: WorkerState,
    tags: Seq<Seq<char>>,
    reset: bool,
)
    ensures
        refreshable(series, w, tags, reset) <==> forall|tag: Seq<char>, run: Seq<char>| #[trigger]
            selected(w, tags, tag, run) ==> match lookup(series, tag, run) {
                Some(Series::Raw(_)) => true,
                Some(Series::Binned(bins)) => (if reset {
                    Bins::empty()
                } else {
                    bins
                }).admits(points_of(w.points, tag, run), w.interval),
                None => (tag.len() >= 5 && tag[0] == 'e' && tag[1] == 'v' && tag[2] == 'a' && tag[3]
                    == 'l' && tag[4] == '/') || Bins::empty().admits(
                    points_of(w.points, tag, run),
                    w.interval,
                ),
            },
{
    assert forall|tag: Seq<char>, run: Seq<char>| #[trigger]
        selected(w, tags, tag, run) implies basis(lookup(series, tag, run), tag).admits(
        points_of(w.points, tag, run),
        w.interval,
        reset,
    ) == match lookup(series, tag, run) {
        Some(Series::Raw(_)) => true,
        Some(Series::Binned(bins)) => (if reset {
            Bins::empty()
        } else {
            bins
        }).admits(points_of(w.points, tag, run), w.interval),
        None => (tag.len() >= 5 && tag[0] == 'e' && tag[1] == 'v' && tag[2] == 'a' && tag[3] == 'l'
            && tag[4] == '/') || Bins::empty().admits(points_of(w.points, tag, run), w.interval),
    } by {
        law_eval_tags_by_characters(tag);
    }
}

/// Where the values are computed by a function, what is shown after a batch is exactly what
/// the batch gives with it, and of whatever shape the values are, the tags, the runs, the
/// counts and the points are those that the batch gives.
pub proof fn law_batches_show_what_they_give<F: Fn(u32, u32, u32, u32) -> Moments>(
    now: SeriesMap,
    series: SeriesMap,
    w: WorkerState,
    msgs: Seq<ControlMsg>,
    step: F,
    g: Kernel,
    tag: Seq<char>,
    run: Seq<char>,
)
    requires
        shows_batch(now, series, w, msgs, step),
    ensures
        computes(step, g) ==> now == shown_after(series, w, msgs, g),
        now.contains_key(tag) <==> shown_after(series, w, msgs, g).contains_key(tag),
        match (lookup(now, tag, run), lookup(shown_after(series, w, msgs, blank()), tag, run)) {
            (Some(Series::Binned(a)), Some(Series::Binned(b))) => a.count == b.count && a.x == b.x
                && a.processed == b.processed && a.line.len() == b.line.len() && forall|i: int|
                0 <= i < a.line.len() ==> (#[trigger] a.line[i]).0 == b.line[i].0,
            (Some(Series::Raw(a)), Some(Series::Raw(b))) => a.coords == b.coords && a.processed
                == b.processed,
            (None, None) => true,
            _ => false,
        },
{
    let still = shown_after(series, w, msgs, blank());
    assert(now.contains_key(tag) == still.contains_key(tag)) by {
        assert(now.dom() == still.dom());
    }
    match (lookup(now, tag, run), lookup(still, tag, run)) {
        (Some(Series::Binned(a)), Some(Series::Binned(b))) => {
            assert(a.layout() == b.layout());
            assert(a.layout().line_x.len() == b.layout().line_x.len());
            assert(a.layout().x == b.layout().x && a.layout().count == b.layout().count
                && a.layout().processed == b.layout().processed);
            assert forall|i: int| 0 <= i < a.line.len() implies (#[trigger] a.line[i]).0
                == b.line[i].0 by {
                assert(a.layout().line_x[i] == b.layout().line_x[i]);
            }
        },
        _ => {},
    }
}

/// Shown series of the same shape have the same tags and runs, each of the same layout.
pub proof fn law_same_shape(a: SeriesMap, b: SeriesMap, tag: Seq<char>, run: Seq<char>)
    requires
        same_shape(a, b),
    ensures
        a.contains_key(tag) <==> b.contains_key(tag),
        (lookup(a, tag, run) is Some) == (lookup(b, tag, run) is Some),
        lookup(a, tag, run) is Some ==> lookup(a, tag, run)->0.same_layout(lookup(b, tag, run)->0),
{
    assert(a.contains_key(tag) == b.contains_key(tag)) by {
        assert(a.dom() == b.dom());
    }
}

/// The jobs of a refresh are one for each run of each tag that is named, with its points,
/// its series so far, and the width.
pub proof fn law_jobs_are_of_the_named_runs(
    asked: Seq<Job>,
    w: WorkerState,
    series: SeriesMap,
    tags: Seq<Seq<char>>,
    reset: bool,
    k: int,
    l: int,
    tag: Seq<char>,
    run: Seq<char>,
)
    requires
        jobs_for(asked, w, series, tags, reset),
    ensures
        0 <= k < asked.len() ==> {
            let job = asked[k];
            &&& tags.contains(job.tag@)
            &&& logged(w.points, job.tag@, job.run@)
            &&& job.points@ == points_of(w.points, job.tag@, job.run@)
            &&& job.interval == w.interval
            &&& job.reset == reset
        },
        0 <= k < l < asked.len() ==> asked[k].tag@ != asked[l].tag@ || asked[k].run@
            != asked[l].run@,
        tags.contains(tag) && logged(w.points, tag, run) ==> exists|i: int|
            0 <= i < asked.len() && (#[trigger] asked[i]).tag@ == tag && asked[i].run@ == run,
{
    if 0 <= k < asked.len() {
        assert(asked[k].fits(w, series, reset));
    }
    if tags.contains(tag) && logged(w.points, tag, run) {
        assert(selected(w, tags, tag, run));
    }
}

/// A job starts from the series so far, or from nothing, point by point if its tag begins
/// with `eval/`. It can be run if that series can take in the points, and its outcome is
/// that series with the points, under the same names.
pub proof fn law_jobs_update_their_series<F: Fn(u32, u32, u32, u32) -> Moments>(
    job: Job,
    outcome: Refreshed,
    step: F,
    g: Kernel,
)
    ensures
        job.previous matches Some(store) ==> job.start() == store@,
        job.previous is None && job.tag@.len() >= 5 && job.tag@[0] == 'e' && job.tag@[1] == 'v'
            && job.tag@[2] == 'a' && job.tag@[3] == 'l' && job.tag@[4] == '/' ==> job.start()
            == Series::fresh(true),
        job.previous is None && !(job.tag@.len() >= 5 && job.tag@[0] == 'e' && job.tag@[1] == 'v'
            && job.tag@[2] == 'a' && job.tag@[3] == 'l' && job.tag@[4] == '/') ==> job.start()
            == Series::fresh(false),
        job.admitted() <==> job.start().wf() && job.start().admits(
            job.points@,
            job.interval,
            job.reset,
        ),
        outcome.answers(job, step) ==> outcome.tag@ == job.tag@ && outcome.run@ == job.run@ && (
        computes(step, g) ==> outcome.store@ == job.start().updated(
            g,
            job.points@,
            job.interval,
            job.reset,
        )),
{
    law_eval_tags_by_characters(job.tag@);
}

/// What the memory of the worker stands for: the points under the names that they are kept
/// under, the width, and the marked tags.
pub proof fn law_memory_stands_for_its_entries(
    worker: ComputeWorker,
    tag: Seq<char>,
    run: Seq<char>,
)
    ensures
        worker@.interval == worker.current_interval,
        worker@.pending.contains(tag) <==> worker.pending_tags@.contains_key(tag),
        worker@.points.contains_key(tag) <==> worker.raw_store@.contains_key(tag),
        worker@.points.contains_key(tag) ==> (worker@.points[tag].contains_key(run)
            <==> worker.raw_store@[tag]@.contains_key(run)),
        worker@.points.contains_key(tag) && worker@.points[tag].contains_key(run)
            ==> worker@.points[tag][run] == worker.raw_store@[tag]@[run]@,
        worker.wf() <==> worker.raw_store.wf() && worker.pending_tags.wf() && forall|t: Seq<char>|
            worker.raw_store@.contains_key(t) ==> (#[trigger] worker.raw_store@[t]).wf(),
{
}

/// What is shown and what the worker knows after batches, from the start.
pub open spec fn after_batches(batches: Seq<Seq<ControlMsg>>, g: Kernel) -> (SeriesMap, WorkerState)
    decreases batches.len(),
{
    if batches.len() == 0 {
        (Map::empty(), WorkerState::initial())
    } else {
        let (series, w) = after_batches(batches.drop_last(), g);
        (shown_after(series, w, batches.last(), g), after_batch(w, batches.last()))
    }
}

/// Each batch can be shown when it comes.
pub open spec fn all_admitted(batches: Seq<Seq<ControlMsg>>, g: Kernel) -> bool
    decreases batches.len(),
{
    batches.len() > 0 ==> all_admitted(batches.drop_last(), g) && batch_admitted(
        after_batches(batches.drop_last(), g).0,
        after_batches(batches.drop_last(), g).1,
        batches.last(),
    )
}

/// One series stays in step over a batch.
proof fn lemma_batch_in_step(
    series: SeriesMap,
    w: WorkerState,
    msgs: Seq<ControlMsg>,
    g: Kernel,
    tag: Seq<char>,
    run: Seq<char>,
)
    requires
        shown_in_step(series, w, tag, run),
        batch_admitted(series, w, msgs),
    ensures
        shown_in_step(shown_after(series, w, msgs, g), after_batch(w, msgs), tag, run),
{
    let reset = asks_reset(msgs);
    let heard = w.told_all(msgs);
    law_messages_only_add(w, msgs, tag, run);
    law_what_a_batch_shows(series, w, msgs, g, tag, run);
    let was = points_of(w.points, tag, run);
    let now = points_of(heard.points, tag, run);
    assert(now.take(now.len() as int) =~= now);
    if due_run(w, msgs, tag, run) {
        let from = basis(lookup(series, tag, run), tag);
        assert(from.admits(now, heard.interval, reset));
        match from {
            Series::Raw(raw) => {
                assert(was.take(0) =~= Seq::empty());
                law_raw_series_show_every_point(raw, was, now);
            },
            Series::Binned(bins) => {
                if reset {
                    law_empty_is_faithful(was, heard.interval);
                    law_updates_stay_faithful(Bins::empty(), g, was, now, heard.interval);
                } else {
                    law_empty_is_faithful(was, w.interval);
                    law_updates_stay_faithful(bins, g, was, now, w.interval);
                }
            },
        }
    } else {
        match lookup(series, tag, run) {
            Some(Series::Raw(raw)) => {
                assert(was.take(raw.processed as int) =~= now.take(raw.processed as int));
            },
            _ => {},
        }
    }
}

/// One series with an ordered log stays as if its points had been taken in at once.
proof fn lemma_batch_at_once(
    series: SeriesMap,
    w: WorkerState,
    msgs: Seq<ControlMsg>,
    g: Kernel,
    tag: Seq<char>,
    run: Seq<char>,
)
    requires
        shown_in_step(series, w, tag, run),
        as_if_at_once(series, w, g, tag, run),
        batch_admitted(series, w, msgs),
        ordered(points_of(w.told_all(msgs).points, tag, run)),
    ensures
        as_if_at_once(shown_after(series, w, msgs, g), after_batch(w, msgs), g, tag, run),
{
    let reset = asks_reset(msgs);
    let heard = w.told_all(msgs);
    let width = heard.interval;
    law_messages_only_add(w, msgs, tag, run);
    law_what_a_batch_shows(series, w, msgs, g, tag, run);
    let was = points_of(w.points, tag, run);
    let now = points_of(heard.points, tag, run);
    assert(now.take(now.len() as int) =~= now);
    if due_run(w, msgs, tag, run) {
        match basis(lookup(series, tag, run), tag) {
            Series::Raw(_) => {},
            Series::Binned(bins) => {
                assert(basis(lookup(series, tag, run), tag).admits(now, width, reset));
                if !reset {
                    let k = bins.processed as int;
                    let some = now.take(k);
                    assert(was.take(k) =~= some);
                    assert(now.take(0) =~= Seq::empty());
                    law_empty_is_faithful(now, width);
                    assert(faithful(bins, now, width));
                    assert(bins == Bins::empty().updated(g, some, width));
                    if bins.up_to_date(now) {
                        assert(some =~= now);
                    } else {
                        lemma_admitted_orderly(bins, now, width, k);
                        lemma_admitted_orderly(bins, now, width, now.len() as int);
                        law_empty_is_faithful(some, width);
                        lemma_orderly_admitted(Bins::empty(), now, width);
                        lemma_orderly_admitted(Bins::empty(), some, width);
                        law_ordered_points_never_go_back(some, now, width);
                        law_batches_give_the_same(g, some, now, width);
                    }
                } else {
                    let t = Bins::empty().updated(g, now, width);
                    law_empty_is_faithful(now, width);
                    assert(Bins::empty().admits(now, width));
                    law_updates_stay_faithful(Bins::empty(), g, now, now, width);
                }
            },
        }
    } else {
        match lookup(series, tag, run) {
            Some(Series::Binned(bins)) => {
                assert(was.take(bins.processed as int) =~= now.take(bins.processed as int));
            },
            _ => {},
        }
    }
}

/// What every history comes to.
proof fn lemma_history(
    batches: Seq<Seq<ControlMsg>>,
    g: Kernel,
    tag: Seq<char>,
    run: Seq<char>,
    about: spec_fn(ControlMsg) -> bool,
    content: spec_fn(ControlMsg) -> (u32, u32),
)
    requires
        all_admitted(batches, g),
        forall|m: ControlMsg| #[trigger]
            about(m) <==> (m matches ControlMsg::NewPoint(p) && p.tag@ == tag && p.run_name@
                == run),
        forall|p: ScalarPoint| #[trigger]
            content(ControlMsg::NewPoint(p)) == (p.step, p.value),
    ensures
        ({
            let (series, w) = after_batches(batches, g);
            let sent = batches.flatten_alt().filter(about).map_values(content);
            &&& points_of(w.points, tag, run) == sent
            &&& logged(w.points, tag, run) <==> sent.len() > 0
            &&& shown_in_step(series, w, tag, run)
            &&& ordered(sent) ==> as_if_at_once(series, w, g, tag, run)
        }),
    decreases batches.len(),
{
    reveal(Seq::filter);
    if batches.len() > 0 {
        let rest = batches.drop_last();
        let msgs = batches.last();
        let (series, w) = after_batches(rest, g);
        lemma_history(rest, g, tag, run, about, content);
        lemma_log(w, msgs, tag, run, about, content);
        Seq::filter_distributes_over_add(rest.flatten_alt(), msgs, about);
        let earlier = rest.flatten_alt().filter(about).map_values(content);
        let later = msgs.filter(about).map_values(content);
        let sent = batches.flatten_alt().filter(about).map_values(content);
        assert(sent =~= earlier + later);
        lemma_batch_in_step(series, w, msgs, g, tag, run);
        if ordered(sent) {
            assert(ordered(earlier)) by {
                assert forall|i: int, j: int| 0 <= i <= j < earlier.len() implies earlier[i].0
                    <= earlier[j].0 by {
                    assert(sent[i] == earlier[i] && sent[j] == earlier[j]);
                }
            }
            lemma_batch_at_once(series, w, msgs, g, tag, run);
        }
    }
}

/// From the start on, whatever the batches are: the worker keeps, for every tag and run,
/// the steps and values of all messages about them, in order. Once a batch has not changed
/// the width, all of it is shown: of a tag that begins with `eval/` point by point, as it
/// was sent, and of any other in bins; and if the steps do not fall, these bins are the
/// ones that the whole log gives at once.
pub proof fn law_everything_sent_is_shown(
    batches: Seq<Seq<ControlMsg>>,
    g: Kernel,
    tag: Seq<char>,
    run: Seq<char>,
    sent: Seq<(u32, u32)>,
)
    requires
        all_admitted(batches, g),
        sent == batches.flatten_alt().filter(
            |m: ControlMsg|
                m matches ControlMsg::NewPoint(p) && p.tag@ == tag && p.run_name@ == run,
        ).map_values(|m: ControlMsg| (m->NewPoint_0.step, m->NewPoint_0.value)),
    ensures
        ({
            let (series, w) = after_batches(batches, g);
            let shown = lookup(series, tag, run);
            let eval = tag.len() >= 5 && tag[0] == 'e' && tag[1] == 'v' && tag[2] == 'a' && tag[3]
                == 'l' && tag[4] == '/';
            &&& points_of(w.points, tag, run) == sent
            &&& sent.len() == 0 ==> shown is None
            &&& shown is Some ==> (shown->0 is Raw <==> eval)
            &&& batches.len() > 0 && sent.len() > 0 && (forall|i: int|
                0 <= i < batches.last().len() ==> (#[trigger] batches.last()[i]) is NewPoint) ==> {
                &&& shown is Some
                &&& eval ==> shown->0->Raw_0.coords == sent
                &&& !eval ==> shown->0->Binned_0.processed == sent.len()
                &&& !eval && (forall|i: int, j: int|
                    0 <= i <= j < sent.len() ==> sent[i].0 <= sent[j].0) ==> shown == Some(
                    Series::Binned(Bins::empty().updated(g, sent, w.interval)),
                )
            }
        }),
{
    let about = |m: ControlMsg|
        m matches ControlMsg::NewPoint(p) && p.tag@ == tag && p.run_name@ == run;
    let content = |m: ControlMsg| (m->NewPoint_0.step, m->NewPoint_0.value);
    lemma_history(batches, g, tag, run, about, content);
    law_eval_tags_by_characters(tag);
    assert(sent.take(sent.len() as int) =~= sent);
    let (series, w) = after_batches(batches, g);
    if batches.len() > 0 && (forall|i: int|
        0 <= i < batches.last().len() ==> (#[trigger] batches.last()[i]) is NewPoint) {
        assert(!asks_reset(batches.last()));
        assert(!w.pending.contains(tag));
    }
}

} // verus!
