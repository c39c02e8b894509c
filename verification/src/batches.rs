//! A batch of messages as a whole: what it does to the worker, to the shown series, and
//! to the flag that says that the worker is busy with a new bin width.
use vstd::prelude::*;

use crate::cache::{all_wf, lookup, runs_of, texts, SeriesCache, SeriesMap};
use crate::data::{blank, computes, total, Bins, ControlMsg, Kernel, Moments, Series};
use crate::text::eval_tag;
use crate::worker::{
    all_can_run, asks_reset, basis, brings_up, law_refreshed_series, lemma_jobs_admitted,
    lemma_outcomes_bring_up, lemma_same_series, logged, points_of, refreshable, refreshed,
    run_in_parallel, same_shape, selected, show, with_outcomes, ComputeWorker, Refreshed,
    WorkerState,
};
use crate::worker_laws::{
    all_as_if_at_once, all_orderly, asked_for, binned_logs_ordered, consistent,
    law_batch_keeps_consistent, law_batches_do_not_matter, law_orderly_logs_are_refreshable,
    law_settling_does_not_matter, shown_in_step,
};

verus! {

/// A batch brings the series of this tag and run up to date.
pub open spec fn due_run(
    w: WorkerState,
    msgs: Seq<ControlMsg>,
    tag: Seq<char>,
    run: Seq<char>,
) -> bool {
    w.told_all(msgs).due(asks_reset(msgs), tag) && logged(w.told_all(msgs).points, tag, run)
}

/// Every series that a batch brings up to date can be updated.
pub open spec fn batch_admitted(series: SeriesMap, w: WorkerState, msgs: Seq<ControlMsg>) -> bool {
    forall|tag: Seq<char>, run: Seq<char>| #[trigger]
        due_run(w, msgs, tag, run) ==> basis(lookup(series, tag, run), tag).admits(
            points_of(w.told_all(msgs).points, tag, run),
            w.told_all(msgs).interval,
            asks_reset(msgs),
        )
}

/// What the worker knows after a batch.
pub open spec fn after_batch(w: WorkerState, msgs: Seq<ControlMsg>) -> WorkerState {
    w.told_all(msgs).settled(asks_reset(msgs))
}

/// What is shown after a batch: the series that are due are brought up to date, and all
/// others are as they were.
pub open spec fn shown_after(
    series: SeriesMap,
    w: WorkerState,
    msgs: Seq<ControlMsg>,
    g: Kernel,
) -> SeriesMap {
    Map::new(
        |tag: Seq<char>|
            series.contains_key(tag) || exists|run: Seq<char>| due_run(w, msgs, tag, run),
        |tag: Seq<char>|
            Map::new(
                |run: Seq<char>|
                    runs_of(series, tag).contains_key(run) || due_run(w, msgs, tag, run),
                |run: Seq<char>|
                    if due_run(w, msgs, tag, run) {
                        basis(lookup(series, tag, run), tag).updated(
                            g,
                            points_of(w.told_all(msgs).points, tag, run),
                            w.told_all(msgs).interval,
                            asks_reset(msgs),
                        )
                    } else {
                        runs_of(series, tag)[run]
                    },
            ),
    )
}

/// What a batch stores in the busy flag: once a new bin width has been dealt with, that
/// the worker is no longer busy; otherwise nothing.
pub open spec fn flag_stored(msgs: Seq<ControlMsg>) -> Option<bool> {
    if asks_reset(msgs) {
        Some(false)
    } else {
        None
    }
}

/// The tags that a batch asks for are brought up to date, as a whole batch does it.
pub proof fn law_batch_is_a_refresh(
    series: SeriesMap,
    w: WorkerState,
    msgs: Seq<ControlMsg>,
    tags: Seq<Seq<char>>,
    g: Kernel,
)
    requires
        asked_for(tags, w.told_all(msgs), asks_reset(msgs)),
    ensures
        refreshable(series, w.told_all(msgs), tags, asks_reset(msgs)) == batch_admitted(
            series,
            w,
            msgs,
        ),
        refreshed(series, w.told_all(msgs), tags, asks_reset(msgs), g) == shown_after(
            series,
            w,
            msgs,
            g,
        ),
{
    let heard = w.told_all(msgs);
    let reset = asks_reset(msgs);
    assert forall|tag: Seq<char>, run: Seq<char>|
        #![trigger selected(heard, tags, tag, run)]
        #![trigger due_run(w, msgs, tag, run)]
        selected(heard, tags, tag, run) == due_run(w, msgs, tag, run) by {
        assert(tags.contains(tag) <==> heard.due(reset, tag));
    }
    let a = refreshed(series, heard, tags, reset, g);
    let b = shown_after(series, w, msgs, g);
    assert forall|tag: Seq<char>| a.contains_key(tag) <==> b.contains_key(tag) by {
        if exists|run: Seq<char>| selected(heard, tags, tag, run) {
            let run = choose|run: Seq<char>| selected(heard, tags, tag, run);
            assert(due_run(w, msgs, tag, run));
        }
        if exists|run: Seq<char>| due_run(w, msgs, tag, run) {
            let run = choose|run: Seq<char>| due_run(w, msgs, tag, run);
            assert(selected(heard, tags, tag, run));
        }
    }
    assert(a.dom() =~= b.dom());
    assert forall|tag: Seq<char>, run: Seq<char>| #[trigger]
        lookup(a, tag, run) == lookup(b, tag, run) by {
        law_refreshed_series(series, heard, tags, reset, g, tag, run);
        if due_run(w, msgs, tag, run) {
            assert(b.contains_key(tag));
        } else {
            assert(!selected(heard, tags, tag, run));
        }
    }
    lemma_same_series(a, b);
}

/// A batch can be shown whenever the logs that it makes are orderly.
pub proof fn law_orderly_batches_are_admitted(
    series: SeriesMap,
    w: WorkerState,
    msgs: Seq<ControlMsg>,
)
    requires
        consistent(series, w),
        all_orderly(w.told_all(msgs)),
    ensures
        batch_admitted(series, w, msgs),
{
    let heard = w.told_all(msgs);
    assert forall|tag: Seq<char>, run: Seq<char>| #[trigger]
        due_run(w, msgs, tag, run) implies basis(lookup(series, tag, run), tag).admits(
        points_of(heard.points, tag, run),
        heard.interval,
        asks_reset(msgs),
    ) by {
        let tags = seq![tag];
        law_orderly_logs_are_refreshable(series, w, msgs, tags);
        assert(tags[0] == tag);
        assert(selected(heard, tags, tag, run));
    }
}

/// The worker never stores that it is busy. After a batch that changes the bin width it
/// stores that it is not, and every binned series that was logged is then the one that
/// all its points give at the new width; after any other batch it leaves the flag alone.
pub proof fn law_flag_is_cleared_once_rebinned(
    series: SeriesMap,
    w: WorkerState,
    msgs: Seq<ControlMsg>,
    g: Kernel,
    tag: Seq<char>,
    run: Seq<char>,
)
    requires
        consistent(series, w),
    ensures
        flag_stored(msgs) != Some(true),
        flag_stored(msgs) == Some(false) <==> asks_reset(msgs),
        flag_stored(msgs) is Some && logged(w.told_all(msgs).points, tag, run) && !eval_tag(tag)
            ==> lookup(shown_after(series, w, msgs, g), tag, run) == Some(
            Series::Binned(
                Bins::empty().updated(
                    g,
                    points_of(w.told_all(msgs).points, tag, run),
                    w.told_all(msgs).interval,
                ),
            ),
        ),
{
    if asks_reset(msgs) && logged(w.told_all(msgs).points, tag, run) && !eval_tag(tag) {
        assert(shown_in_step(series, w, tag, run));
        assert(due_run(w, msgs, tag, run));
    }
}

/// What a batch comes to, before it is shown.
pub struct Prepared {
    pub outcomes: Vec<Refreshed>,
    /// The bin width was changed.
    pub reset: bool,
}

impl Prepared {
    /// The series once the batch is shown.
    pub open spec fn shown(&self, series: SeriesMap) -> SeriesMap {
        with_outcomes(series, self.outcomes@)
    }

    /// Shows the batch, and says what is then to be stored in the busy flag.
    pub fn show(self, cache: &mut SeriesCache) -> (flag: Option<bool>)
        ensures
            final(cache)@ == self.shown(old(cache)@),
            flag == if self.reset {
                Some(false)
            } else {
                None
            },
    {
        let Prepared { outcomes, reset } = self;
        show(outcomes, cache);
        if reset {
            Some(false)
        } else {
            None
        }
    }
}

/// The series after a batch, where values are computed by `step`: well formed, of the
/// shape that the batch gives, and exactly what it gives where `step` computes a
/// function. Series that were consistent with the worker are so again, and ordered logs
/// are shown as if their points had been taken in at once.
pub open spec fn shows_batch<F: Fn(u32, u32, u32, u32) -> Moments>(
    now: SeriesMap,
    series: SeriesMap,
    w: WorkerState,
    msgs: Seq<ControlMsg>,
    step: F,
) -> bool {
    &&& all_wf(now)
    &&& same_shape(now, shown_after(series, w, msgs, blank()))
    &&& consistent(series, w) ==> consistent(now, after_batch(w, msgs))
    &&& forall|g: Kernel| #[trigger] computes(step, g) ==> now == shown_after(series, w, msgs, g)
    &&& forall|g: Kernel| #[trigger]
        computes(step, g) && consistent(series, w) && all_as_if_at_once(series, w, g)
            && binned_logs_ordered(w.told_all(msgs)) ==> all_as_if_at_once(
            now,
            after_batch(w, msgs),
            g,
        )
}

/// Consistency does not depend on the values in bins.
proof fn lemma_shape_consistent(a: SeriesMap, b: SeriesMap, w: WorkerState)
    requires
        all_wf(a),
        all_wf(b),
        same_shape(a, b),
        consistent(b, w),
    ensures
        consistent(a, w),
{
    assert forall|tag: Seq<char>, run: Seq<char>| #[trigger] shown_in_step(a, w, tag, run) by {
        assert(shown_in_step(b, w, tag, run));
        match (lookup(a, tag, run), lookup(b, tag, run)) {
            (Some(Series::Binned(p)), Some(Series::Binned(q))) => {
                assert(p.layout() == q.layout());
                assert(p.layout().count == p.count && q.layout().count == q.count);
                assert(p.layout().x == p.x && q.layout().x == q.x);
                assert(p.wf() && q.wf());
            },
            _ => {},
        }
    }
}

proof fn lemma_shows_batch<F: Fn(u32, u32, u32, u32) -> Moments>(
    done: Seq<Refreshed>,
    step: F,
    series: SeriesMap,
    w: WorkerState,
    msgs: Seq<ControlMsg>,
    tags: Seq<Seq<char>>,
)
    requires
        asked_for(tags, w.told_all(msgs), asks_reset(msgs)),
        batch_admitted(series, w, msgs),
        brings_up(done, step, series, after_batch(w, msgs), tags, asks_reset(msgs)),
    ensures
        shows_batch(with_outcomes(series, done), series, w, msgs, step),
{
    let heard = w.told_all(msgs);
    let reset = asks_reset(msgs);
    let now = with_outcomes(series, done);
    law_settling_does_not_matter(series, heard, tags, reset, blank());
    law_batch_is_a_refresh(series, w, msgs, tags, blank());
    if consistent(series, w) {
        let still = shown_after(series, w, msgs, blank());
        law_batch_keeps_consistent(series, w, msgs, tags, blank());
        assert(all_wf(still)) by {
            assert forall|tag: Seq<char>, run: Seq<char>|
                (#[trigger] lookup(still, tag, run)) is Some implies lookup(
                still,
                tag,
                run,
            )->0.wf() by {
                assert(shown_in_step(still, after_batch(w, msgs), tag, run));
            }
        }
        lemma_shape_consistent(now, still, after_batch(w, msgs));
    }
    assert forall|g: Kernel| #[trigger] computes(step, g) implies now == shown_after(
        series,
        w,
        msgs,
        g,
    ) by {
        law_settling_does_not_matter(series, heard, tags, reset, g);
        law_batch_is_a_refresh(series, w, msgs, tags, g);
    }
    assert forall|g: Kernel| #[trigger]
        computes(step, g) && consistent(series, w) && all_as_if_at_once(series, w, g)
            && binned_logs_ordered(heard) implies all_as_if_at_once(
        now,
        after_batch(w, msgs),
        g,
    ) by {
        law_batch_is_a_refresh(series, w, msgs, tags, g);
        law_batches_do_not_matter(series, w, msgs, tags, g);
    }
}

impl ComputeWorker {
    /// Takes in a batch of messages and computes what it comes to, without showing it
    /// yet. Where a series cannot be updated there is no outcome, and the messages are
    /// taken in all the same.
    pub fn prepare<F: Fn(u32, u32, u32, u32) -> Moments + Sync>(
        &mut self,
        messages: &[ControlMsg],
        cache: &SeriesCache,
        step: &F,
    ) -> (prepared: Option<Prepared>)
        requires
            old(self).wf(),
            all_wf(cache@),
            total(*step),
        ensures
            final(self).wf(),
            final(self)@ == after_batch(old(self)@, messages@),
            (prepared is Some) == batch_admitted(cache@, old(self)@, messages@),
            prepared matches Some(p) ==> p.reset == asks_reset(messages@) && shows_batch(
                p.shown(cache@),
                cache@,
                old(self)@,
                messages@,
                *step,
            ),
    {
        let ghost before = self@;
        let batch = self.absorb(messages);
        let ghost tags = texts(batch.tags@);
        let jobs = self.jobs(&batch, cache);
        let ghost asked = jobs@;
        proof {
            lemma_jobs_admitted(asked, self@, cache@, tags, batch.reset);
            law_settling_does_not_matter(
                cache@,
                before.told_all(messages@),
                tags,
                batch.reset,
                blank(),
            );
            law_batch_is_a_refresh(cache@, before, messages@, tags, blank());
        }
        if !all_can_run(&jobs) {
            return None;
        }
        let outcomes = run_in_parallel(jobs, step);
        proof {
            lemma_outcomes_bring_up(
                asked,
                outcomes@,
                *step,
                cache@,
                self@,
                tags,
                batch.reset,
            );
            lemma_shows_batch(outcomes@, *step, cache@, before, messages@, tags);
        }
        Some(Prepared { outcomes, reset: batch.reset })
    }

    /// Takes in a batch of messages and brings the shown series up to date. The answer is
    /// whether the bin width was changed, and so the worker no longer is busy with it.
    /// Where a series cannot be updated there is no answer: the messages are taken in, and
    /// what is shown stays as it was.
    pub fn take_in<F: Fn(u32, u32, u32, u32) -> Moments + Sync>(
        &mut self,
        messages: &[ControlMsg],
        cache: &mut SeriesCache,
        step: &F,
    ) -> (answer: Option<bool>)
        requires
            old(self).wf(),
            all_wf(old(cache)@),
            total(*step),
        ensures
            final(self).wf(),
            final(self)@ == after_batch(old(self)@, messages@),
            (answer is Some) == batch_admitted(old(cache)@, old(self)@, messages@),
            answer matches Some(reset) ==> reset == asks_reset(messages@) && shows_batch(
                final(cache)@,
                old(cache)@,
                old(self)@,
                messages@,
                *step,
            ),
            answer is None ==> final(cache)@ == old(cache)@,
    {
        match self.prepare(messages, cache, step) {
            Some(prepared) => Some(prepared.show(cache).is_some()),
            None => None,
        }
    }
}

} // verus!
