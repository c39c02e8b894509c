//! The compute worker: it keeps every point that was logged and brings the shown
//! series up to date, batch by batch.
use rayon::iter::IntoParallelIterator;
use rayon::iter::ParallelIterator;
use vstd::prelude::*;

use crate::cache::{
    all_wf, entered, law_read_after_write, lookup, runs_of, texts, SeriesCache, SeriesMap,
};
use crate::data::{
    blank, computes, total, ControlMsg, DataStore, Kernel, Moments, ScalarPoint, Series,
};
use crate::names::{as_map, index_of, lemma_index_unique, named, NameMap};
use crate::text::{eval_tag, is_eval};

verus! {

/// The bin width that the worker starts with.
pub const DEFAULT_INTERVAL: u32 = 10_000;

/// Points by tag and run, in the order in which they were logged.
pub type PointMap = Map<Seq<char>, Map<Seq<char>, Seq<(u32, u32)>>>;

/// The points of a tag and a run.
pub open spec fn points_of(points: PointMap, tag: Seq<char>, run: Seq<char>) -> Seq<(u32, u32)> {
    if logged(points, tag, run) {
        points[tag][run]
    } else {
        Seq::empty()
    }
}

/// The tag and the run have points.
pub open spec fn logged(points: PointMap, tag: Seq<char>, run: Seq<char>) -> bool {
    points.contains_key(tag) && points[tag].contains_key(run)
}

/// The points with one more at the end of its tag and run.
pub open spec fn with_logged(points: PointMap, p: ScalarPoint) -> PointMap {
    let runs = if points.contains_key(p.tag@) {
        points[p.tag@]
    } else {
        Map::empty()
    };
    points.insert(
        p.tag@,
        runs.insert(p.run_name@, points_of(points, p.tag@, p.run_name@).push((p.step, p.value))),
    )
}

/// What the worker knows.
#[verifier::ext_equal]
pub struct WorkerState {
    pub points: PointMap,
    /// The current bin width.
    pub interval: u32,
    /// Tags with points that may not have reached the shown series.
    pub pending: Set<Seq<char>>,
}

impl WorkerState {
    pub open spec fn initial() -> WorkerState {
        WorkerState { points: Map::empty(), interval: DEFAULT_INTERVAL, pending: Set::empty() }
    }

    /// After one message.
    pub open spec fn told(self, msg: ControlMsg) -> WorkerState {
        match msg {
            ControlMsg::NewPoint(p) => WorkerState {
                points: with_logged(self.points, p),
                pending: self.pending.insert(p.tag@),
                ..self
            },
            ControlMsg::ResetInterval(interval) => WorkerState { interval, ..self },
        }
    }

    /// After messages, in order.
    pub open spec fn told_all(self, msgs: Seq<ControlMsg>) -> WorkerState
        decreases msgs.len(),
    {
        if msgs.len() == 0 {
            self
        } else {
            self.told_all(msgs.drop_last()).told(msgs.last())
        }
    }

    /// After a batch: unless the bin width was changed, nothing is pending.
    pub open spec fn settled(self, reset: bool) -> WorkerState {
        if reset {
            self
        } else {
            WorkerState { pending: Set::empty(), ..self }
        }
    }

    /// The tags to bring up to date: after a change of the bin width all that are
    /// binned, otherwise those with new points.
    pub open spec fn due(self, reset: bool, tag: Seq<char>) -> bool {
        if reset {
            self.points.contains_key(tag) && !eval_tag(tag)
        } else {
            self.pending.contains(tag)
        }
    }
}

/// Some message changes the bin width.
pub open spec fn asks_reset(msgs: Seq<ControlMsg>) -> bool {
    exists|i: int| 0 <= i < msgs.len() && #[trigger] msgs[i] is ResetInterval
}

/// What the entries of a store of points stand for.
pub open spec fn stored(entries: Seq<(String, NameMap<Vec<(u32, u32)>>)>) -> PointMap {
    as_map(entries).map_values(
        |runs: NameMap<Vec<(u32, u32)>>| runs@.map_values(|points: Vec<(u32, u32)>| points@),
    )
}

/// The worker's memory.
#[derive(Debug)]
pub struct ComputeWorker {
    pub raw_store: NameMap<NameMap<Vec<(u32, u32)>>>,
    pub current_interval: u32,
    pub pending_tags: NameMap<()>,
}

impl View for ComputeWorker {
    type V = WorkerState;

    open spec fn view(&self) -> WorkerState {
        WorkerState {
            points: stored(self.raw_store.entries@),
            interval: self.current_interval,
            pending: self.pending_tags@.dom(),
        }
    }
}

/// What a batch of messages asks for.
#[derive(Debug)]
pub struct Batch {
    /// The bin width was changed, so binned series start over.
    pub reset: bool,
    /// The tags to bring up to date.
    pub tags: Vec<String>,
}

impl ComputeWorker {
    /// Names are in order, at both levels.
    pub open spec fn wf(&self) -> bool {
        &&& self.raw_store.wf()
        &&& forall|tag: Seq<char>|
            self.raw_store@.contains_key(tag) ==> (#[trigger] self.raw_store@[tag]).wf()
        &&& self.pending_tags.wf()
    }

    /// A worker that has heard nothing.
    pub fn new() -> (r: ComputeWorker)
        ensures
            r.wf(),
            r@ == WorkerState::initial(),
    {
        let r = ComputeWorker {
            raw_store: NameMap::new(),
            current_interval: DEFAULT_INTERVAL,
            pending_tags: NameMap::new(),
        };
        assert(r@.points =~= Map::empty());
        assert(r@.pending =~= Set::empty());
        r
    }

    /// Keeps one point.
    fn keep(&mut self, p: &ScalarPoint)
        requires
            old(self).wf(),
        ensures
            final(self).wf(),
            final(self)@ == old(self)@.told(ControlMsg::NewPoint(*p)),
    {
        let runs = self.raw_store.slot(&p.tag, NameMap::new());
        let points = runs.slot(&p.run_name, Vec::new());
        points.push((p.step, p.value));
        let mark = self.pending_tags.slot(&p.tag, ());
        *mark = ();
        proof {
            let want = old(self)@.told(ControlMsg::NewPoint(*p));
            assert(self@.points =~~= want.points);
            assert(self@.pending =~= want.pending);
        }
    }
}

/// The names of some entries, each once.
fn names_where<V>(map: &NameMap<V>, skip_eval: bool) -> (r: Vec<String>)
    requires
        map.wf(),
    ensures
        texts(r@).no_duplicates(),
        forall|name: Seq<char>| #[trigger]
            texts(r@).contains(name) <==> map@.contains_key(name) && !(skip_eval && eval_tag(name)),
{
    let mut r: Vec<String> = Vec::new();
    let mut i: usize = 0;
    while i < map.entries.len()
        invariant
            map.wf(),
            i <= map.entries@.len(),
            forall|k: int|
                0 <= k < r@.len() ==> exists|j: int|
                    0 <= j < i && #[trigger] map.entries@[j].0@ == #[trigger] r@[k]@ && !(skip_eval
                        && eval_tag(r@[k]@)),
            forall|j: int|
                0 <= j < i && !(skip_eval && eval_tag(map.entries@[j].0@)) ==> texts(r@).contains(
                    #[trigger] map.entries@[j].0@,
                ),
            texts(r@).no_duplicates(),
        decreases map.entries.len() - i,
    {
        let ghost before = r@;
        if !skip_eval || !is_eval(map.entries[i].0.as_str()) {
            let ghost name = map.entries@[i as int].0@;
            r.push(map.entries[i].0.clone());
            proof {
                assert(texts(r@) =~= texts(before).push(name));
                assert forall|k: int| 0 <= k < before.len() implies texts(before)[k] != name by {
                    let j = choose|j: int|
                        0 <= j < i && #[trigger] map.entries@[j].0@ == before[k]@ && !(skip_eval
                            && eval_tag(before[k]@));
                    lemma_index_unique(map.entries@, j);
                    lemma_index_unique(map.entries@, i as int);
                }
                assert(texts(r@)[r@.len() - 1] == name);
                assert forall|j: int|
                    0 <= j < i && !(skip_eval && eval_tag(map.entries@[j].0@)) implies texts(
                    r@,
                ).contains(#[trigger] map.entries@[j].0@) by {
                    let k = texts(before).index_of(map.entries@[j].0@);
                    assert(texts(before).contains(map.entries@[j].0@));
                    assert(texts(r@)[k] == map.entries@[j].0@);
                }
            }
        }
        i += 1;
    }
    proof {
        assert forall|name: Seq<char>| #[trigger] texts(r@).contains(name) implies map@.contains_key(
            name,
        ) && !(skip_eval && eval_tag(name)) by {
            let k = texts(r@).index_of(name);
            assert(r@[k]@ == name);
        }
        assert forall|name: Seq<char>|
            map@.contains_key(name) && !(skip_eval && eval_tag(name)) implies #[trigger] texts(
            r@,
        ).contains(name) by {
            let j = index_of(map.entries@, name);
            assert(map.entries@[j].0@ == name);
        }
    }
    r
}

impl ComputeWorker {
    /// Takes in a batch of messages and says what is to be done about them.
    pub fn absorb(&mut self, messages: &[ControlMsg]) -> (batch: Batch)
        requires
            old(self).wf(),
        ensures
            final(self).wf(),
            final(self)@ == old(self)@.told_all(messages@).settled(batch.reset),
            batch.reset == asks_reset(messages@),
            texts(batch.tags@).no_duplicates(),
            forall|tag: Seq<char>| #[trigger]
                texts(batch.tags@).contains(tag) <==> old(self)@.told_all(messages@).due(
                    batch.reset,
                    tag,
                ),
    {
        let mut reset: bool = false;
        let mut i: usize = 0;
        assert(messages@.take(0) =~= Seq::empty());
        while i < messages.len()
            invariant
                i <= messages.len(),
                self.wf(),
                self@ == old(self)@.told_all(messages@.take(i as int)),
                reset == asks_reset(messages@.take(i as int)),
            decreases messages.len() - i,
        {
            let ghost sofar = messages@.take(i as int);
            let ghost next = messages@.take(i + 1);
            proof {
                assert(next.drop_last() =~= sofar);
                assert(next.last() == messages@[i as int]);
                assert(reset ==> asks_reset(next)) by {
                    if reset {
                        let k = choose|k: int|
                            0 <= k < sofar.len() && #[trigger] sofar[k] is ResetInterval;
                        assert(next[k] is ResetInterval);
                    }
                }
            }
            match &messages[i] {
                ControlMsg::NewPoint(p) => {
                    self.keep(p);
                    assert(!reset ==> !asks_reset(next)) by {
                        if asks_reset(next) {
                            let k = choose|k: int|
                                0 <= k < next.len() && #[trigger] next[k] is ResetInterval;
                            assert(k < sofar.len() && sofar[k] is ResetInterval);
                        }
                    }
                },
                ControlMsg::ResetInterval(interval) => {
                    self.current_interval = *interval;
                    reset = true;
                    assert(next[i as int] is ResetInterval);
                },
            }
            i += 1;
        }
        assert(messages@.take(messages@.len() as int) =~= messages@);
        if reset {
            let tags = names_where(&self.raw_store, true);
            Batch { reset, tags }
        } else {
            let tags = names_where(&self.pending_tags, false);
            self.pending_tags = NameMap::new();
            assert(self@.pending =~= Set::empty());
            Batch { reset, tags }
        }
    }
}

/// One series to bring up to date.
pub struct Job<'a> {
    pub tag: String,
    pub run: String,
    pub points: &'a Vec<(u32, u32)>,
    /// The series as it is shown so far.
    pub previous: Option<DataStore>,
    pub interval: u32,
    pub reset: bool,
}

/// The series that an update starts from: the one that is shown, or a new one,
/// point by point for evaluation tags and binned for all others.
pub open spec fn basis(previous: Option<Series>, tag: Seq<char>) -> Series {
    match previous {
        Some(series) => series,
        None => Series::fresh(eval_tag(tag)),
    }
}

impl<'a> Job<'a> {
    pub open spec fn start(&self) -> Series {
        basis(
            match self.previous {
                Some(store) => Some(store@),
                None => None,
            },
            self.tag@,
        )
    }

    /// The update can be made.
    pub open spec fn admitted(&self) -> bool {
        self.start().wf() && self.start().admits(self.points@, self.interval, self.reset)
    }

    /// The series up to date.
    pub open spec fn result(&self, g: Kernel) -> Series {
        self.start().updated(g, self.points@, self.interval, self.reset)
    }

    /// The job is that of the worker's points and the shown series.
    pub open spec fn fits(&self, w: WorkerState, series: SeriesMap, reset: bool) -> bool {
        &&& logged(w.points, self.tag@, self.run@)
        &&& self.points@ == points_of(w.points, self.tag@, self.run@)
        &&& self.start() == basis(lookup(series, self.tag@, self.run@), self.tag@)
        &&& self.interval == w.interval
        &&& self.reset == reset
    }

    /// Whether the update can be made.
    pub fn can_run(&self) -> (ok: bool)
        requires
            self.start().wf(),
        ensures
            ok == self.admitted(),
    {
        match &self.previous {
            Some(store) => store.can_update(self.points.as_slice(), self.interval, self.reset),
            None => DataStore::fresh(is_eval(self.tag.as_str())).can_update(
                self.points.as_slice(),
                self.interval,
                self.reset,
            ),
        }
    }
}

/// A series brought up to date.
pub struct Refreshed {
    pub tag: String,
    pub run: String,
    pub store: DataStore,
}

impl Refreshed {
    /// The outcome of a job.
    pub open spec fn answers<F: Fn(u32, u32, u32, u32) -> Moments>(
        &self,
        job: Job,
        step: F,
    ) -> bool {
        &&& self.tag@ == job.tag@
        &&& self.run@ == job.run@
        &&& self.store@.wf()
        &&& self.store@.same_layout(job.result(blank()))
        &&& forall|g: Kernel| #[trigger] computes(step, g) ==> self.store@ == job.result(g)
    }
}

/// Brings one series up to date.
fn run_job<F: Fn(u32, u32, u32, u32) -> Moments>(job: Job, step: &F) -> (r: Refreshed)
    requires
        total(*step),
        job.admitted(),
    ensures
        r.answers(job, *step),
{
    let Job { tag, run, points, previous, interval, reset } = job;
    let mut store = match previous {
        Some(store) => store,
        None => DataStore::fresh(is_eval(tag.as_str())),
    };
    store.update(points.as_slice(), interval, reset, step);
    Refreshed { tag, run, store }
}

/// `IntoParallelIterator::into_par_iter` on a vector, `ParallelIterator::map` and
/// `collect`: every job is run once, on some thread, and the outcomes stand in the
/// order of the jobs.
#[verifier::external_body]
pub(crate) fn run_in_parallel<F: Fn(u32, u32, u32, u32) -> Moments + Sync>(
    jobs: Vec<Job>,
    step: &F,
) -> (outcomes: Vec<Refreshed>)
    requires
        total(*step),
        forall|k: int| 0 <= k < jobs@.len() ==> (#[trigger] jobs@[k]).admitted(),
    ensures
        outcomes@.len() == jobs@.len(),
        forall|k: int|
            0 <= k < outcomes@.len() ==> (#[trigger] outcomes@[k]).answers(jobs@[k], *step),
{
    jobs.into_par_iter().map(|job| run_job(job, step)).collect()
}

/// The tag is to be brought up to date, and the run has points.
pub open spec fn selected(
    w: WorkerState,
    tags: Seq<Seq<char>>,
    tag: Seq<char>,
    run: Seq<char>,
) -> bool {
    tags.contains(tag) && logged(w.points, tag, run)
}

/// The shown series after a batch: those that are selected are brought up to date,
/// and all others are as they were.
pub open spec fn refreshed(
    series: SeriesMap,
    w: WorkerState,
    tags: Seq<Seq<char>>,
    reset: bool,
    g: Kernel,
) -> SeriesMap {
    Map::new(
        |tag: Seq<char>|
            series.contains_key(tag) || exists|run: Seq<char>| selected(w, tags, tag, run),
        |tag: Seq<char>|
            Map::new(
                |run: Seq<char>|
                    runs_of(series, tag).contains_key(run) || selected(w, tags, tag, run),
                |run: Seq<char>|
                    if selected(w, tags, tag, run) {
                        basis(lookup(series, tag, run), tag).updated(
                            g,
                            points_of(w.points, tag, run),
                            w.interval,
                            reset,
                        )
                    } else {
                        runs_of(series, tag)[run]
                    },
            ),
    )
}

/// Every selected series can be updated.
pub open spec fn refreshable(
    series: SeriesMap,
    w: WorkerState,
    tags: Seq<Seq<char>>,
    reset: bool,
) -> bool {
    forall|tag: Seq<char>, run: Seq<char>| #[trigger]
        selected(w, tags, tag, run) ==> basis(lookup(series, tag, run), tag).admits(
            points_of(w.points, tag, run),
            w.interval,
            reset,
        )
}

/// The same tags and runs, and series that differ at most in what depends on the
/// values.
pub open spec fn same_shape(a: SeriesMap, b: SeriesMap) -> bool {
    &&& a.dom() == b.dom()
    &&& forall|tag: Seq<char>, run: Seq<char>|
        match (#[trigger] lookup(a, tag, run), lookup(b, tag, run)) {
            (Some(s), Some(t)) => s.same_layout(t),
            (None, None) => true,
            _ => false,
        }
}

/// Two series maps with the same tags and the same series are the same.
pub proof fn lemma_same_series(a: SeriesMap, b: SeriesMap)
    requires
        a.dom() == b.dom(),
        forall|tag: Seq<char>, run: Seq<char>| #[trigger]
            lookup(a, tag, run) == lookup(b, tag, run),
    ensures
        a == b,
{
    assert forall|tag: Seq<char>| a.contains_key(tag) implies a[tag] == b[tag] by {
        assert forall|run: Seq<char>| a[tag].contains_key(run) <==> b[tag].contains_key(run) by {
            assert(lookup(a, tag, run) == lookup(b, tag, run));
        }
        assert forall|run: Seq<char>| a[tag].contains_key(run) implies a[tag][run]
            == b[tag][run] by {
            assert(lookup(a, tag, run) == lookup(b, tag, run));
        }
        assert(a[tag] =~= b[tag]);
    }
    assert(a =~= b);
}

/// A selected series is brought up to date; any other is as it was.
pub proof fn law_refreshed_series(
    series: SeriesMap,
    w: WorkerState,
    tags: Seq<Seq<char>>,
    reset: bool,
    g: Kernel,
    tag: Seq<char>,
    run: Seq<char>,
)
    ensures
        selected(w, tags, tag, run) ==> lookup(
            refreshed(series, w, tags, reset, g),
            tag,
            run,
        ) == Some(
            basis(lookup(series, tag, run), tag).updated(
                g,
                points_of(w.points, tag, run),
                w.interval,
                reset,
            ),
        ),
        !selected(w, tags, tag, run) ==> lookup(refreshed(series, w, tags, reset, g), tag, run)
            == lookup(series, tag, run),
{
}

/// The series with outcomes set, from the last to the first.
pub open spec fn with_outcomes(series: SeriesMap, done: Seq<Refreshed>) -> SeriesMap
    decreases done.len(),
{
    if done.len() == 0 {
        series
    } else {
        let last = done.last();
        with_outcomes(entered(series, last.tag@, last.run@, last.store@), done.drop_last())
    }
}

/// Sets series to outcomes.
pub fn show(outcomes: Vec<Refreshed>, cache: &mut SeriesCache)
    ensures
        final(cache)@ == with_outcomes(old(cache)@, outcomes@),
{
    let mut left = outcomes;
    while left.len() > 0
        invariant
            with_outcomes(cache@, left@) == with_outcomes(old(cache)@, outcomes@),
        decreases left.len(),
    {
        let ghost was = left@;
        if let Some(outcome) = left.pop() {
            assert(left@ =~= was.drop_last());
            let Refreshed { tag, run, store } = outcome;
            cache.put(tag, run, store);
        }
    }
}

/// No two outcomes are of the same tag and run.
spec fn apart(done: Seq<Refreshed>) -> bool {
    forall|k: int, l: int|
        0 <= k < l < done.len() ==> (#[trigger] done[k].tag@, done[k].run@) != (
            #[trigger] done[l].tag@,
            done[l].run@,
        )
}

/// Some outcome is of this tag and run.
spec fn outcome_of(done: Seq<Refreshed>, tag: Seq<char>, run: Seq<char>) -> bool {
    exists|k: int| 0 <= k < done.len() && (#[trigger] done[k]).tag@ == tag && done[k].run@ == run
}

proof fn lemma_outcomes_shown(series: SeriesMap, done: Seq<Refreshed>)
    requires
        apart(done),
    ensures
        forall|tag: Seq<char>| #[trigger]
            with_outcomes(series, done).contains_key(tag) <==> series.contains_key(tag)
                || exists|k: int| 0 <= k < done.len() && (#[trigger] done[k]).tag@ == tag,
        forall|k: int|
            0 <= k < done.len() ==> lookup(
                with_outcomes(series, done),
                (#[trigger] done[k]).tag@,
                done[k].run@,
            ) == Some(done[k].store@),
        forall|tag: Seq<char>, run: Seq<char>|
            !outcome_of(done, tag, run) ==> #[trigger] lookup(
                with_outcomes(series, done),
                tag,
                run,
            ) == lookup(series, tag, run),
    decreases done.len(),
{
    if done.len() > 0 {
        let last = done.last();
        let rest = done.drop_last();
        let m = rest.len() as int;
        let next = entered(series, last.tag@, last.run@, last.store@);
        let end = with_outcomes(series, done);
        assert(done[m] == last);
        assert(apart(rest)) by {
            assert forall|k: int, l: int| 0 <= k < l < rest.len() implies (
                #[trigger] rest[k].tag@,
                rest[k].run@,
            ) != (#[trigger] rest[l].tag@, rest[l].run@) by {
                assert(rest[k] == done[k] && rest[l] == done[l]);
                assert((done[k].tag@, done[k].run@) != (done[l].tag@, done[l].run@));
            }
        }
        lemma_outcomes_shown(next, rest);
        assert(end == with_outcomes(next, rest));
        assert forall|tag: Seq<char>| #[trigger]
            end.contains_key(tag) <==> series.contains_key(tag) || exists|k: int|
                0 <= k < done.len() && (#[trigger] done[k]).tag@ == tag by {
            law_read_after_write(series, last.tag@, last.run@, last.store@, tag, last.run@);
            if exists|k: int| 0 <= k < rest.len() && (#[trigger] rest[k]).tag@ == tag {
                let k = choose|k: int| 0 <= k < rest.len() && (#[trigger] rest[k]).tag@ == tag;
                assert(done[k].tag@ == tag);
            }
            if exists|k: int| 0 <= k < done.len() && (#[trigger] done[k]).tag@ == tag {
                let k = choose|k: int| 0 <= k < done.len() && (#[trigger] done[k]).tag@ == tag;
                if k < m {
                    assert(rest[k].tag@ == tag);
                }
            }
        }
        assert forall|k: int| 0 <= k < done.len() implies lookup(
            end,
            (#[trigger] done[k]).tag@,
            done[k].run@,
        ) == Some(done[k].store@) by {
            if k < m {
                assert(rest[k] == done[k]);
            } else {
                assert(!outcome_of(rest, last.tag@, last.run@)) by {
                    assert forall|j: int| 0 <= j < rest.len() implies !((#[trigger] rest[j]).tag@
                        == last.tag@ && rest[j].run@ == last.run@) by {
                        assert((done[j].tag@, done[j].run@) != (done[m].tag@, done[m].run@));
                    }
                }
                assert(lookup(end, last.tag@, last.run@) == lookup(next, last.tag@, last.run@));
            }
        }
        assert forall|tag: Seq<char>, run: Seq<char>|
            !outcome_of(done, tag, run) implies #[trigger] lookup(end, tag, run) == lookup(
            series,
            tag,
            run,
        ) by {
            assert(!(done[m].tag@ == tag && done[m].run@ == run));
            assert(!outcome_of(rest, tag, run)) by {
                assert forall|j: int| 0 <= j < rest.len() implies !((#[trigger] rest[j]).tag@ == tag
                    && rest[j].run@ == run) by {
                    assert(!(done[j].tag@ == tag && done[j].run@ == run));
                }
            }
            law_read_after_write(series, last.tag@, last.run@, last.store@, tag, run);
        }
    }
}

/// The jobs are those of the tags that are to be brought up to date.
pub open spec fn jobs_for(
    asked: Seq<Job>,
    w: WorkerState,
    series: SeriesMap,
    tags: Seq<Seq<char>>,
    reset: bool,
) -> bool {
    &&& forall|k: int|
        0 <= k < asked.len() ==> (#[trigger] asked[k]).fits(w, series, reset) && selected(
            w,
            tags,
            asked[k].tag@,
            asked[k].run@,
        )
    &&& forall|k: int, l: int|
        0 <= k < l < asked.len() ==> (asked[k].tag@, asked[k].run@) != (
            asked[l].tag@,
            asked[l].run@,
        )
    &&& forall|tag: Seq<char>, run: Seq<char>| #[trigger]
        selected(w, tags, tag, run) ==> exists|k: int|
            0 <= k < asked.len() && (#[trigger] asked[k]).tag@ == tag && asked[k].run@ == run
}

/// Setting these outcomes brings the selected series up to date.
pub open spec fn brings_up<F: Fn(u32, u32, u32, u32) -> Moments>(
    done: Seq<Refreshed>,
    step: F,
    series: SeriesMap,
    w: WorkerState,
    tags: Seq<Seq<char>>,
    reset: bool,
) -> bool {
    &&& all_wf(with_outcomes(series, done))
    &&& same_shape(with_outcomes(series, done), refreshed(series, w, tags, reset, blank()))
    &&& forall|g: Kernel| #[trigger]
        computes(step, g) ==> with_outcomes(series, done) == refreshed(series, w, tags, reset, g)
}

/// The jobs can be run exactly if every selected series can be updated.
pub proof fn lemma_jobs_admitted(
    asked: Seq<Job>,
    w: WorkerState,
    series: SeriesMap,
    tags: Seq<Seq<char>>,
    reset: bool,
)
    requires
        all_wf(series),
        jobs_for(asked, w, series, tags, reset),
    ensures
        forall|k: int| 0 <= k < asked.len() ==> (#[trigger] asked[k]).start().wf(),
        refreshable(series, w, tags, reset) <==> forall|k: int|
            0 <= k < asked.len() ==> (#[trigger] asked[k]).admitted(),
{
    assert forall|k: int| 0 <= k < asked.len() implies (#[trigger] asked[k]).start().wf()
        && selected(w, tags, asked[k].tag@, asked[k].run@) by {
        assert(asked[k].fits(w, series, reset));
        assert(lookup(series, asked[k].tag@, asked[k].run@) matches Some(t) ==> t.wf());
    }
    if forall|k: int| 0 <= k < asked.len() ==> (#[trigger] asked[k]).admitted() {
        assert forall|tag: Seq<char>, run: Seq<char>| #[trigger]
            selected(w, tags, tag, run) implies basis(lookup(series, tag, run), tag).admits(
            points_of(w.points, tag, run),
            w.interval,
            reset,
        ) by {
            let k = choose|k: int|
                0 <= k < asked.len() && (#[trigger] asked[k]).tag@ == tag && asked[k].run@ == run;
            assert(asked[k].admitted());
            assert(asked[k].fits(w, series, reset));
        }
    }
    if refreshable(series, w, tags, reset) {
        assert forall|k: int| 0 <= k < asked.len() implies (#[trigger] asked[k]).admitted() by {
            assert(asked[k].fits(w, series, reset));
            assert(selected(w, tags, asked[k].tag@, asked[k].run@));
        }
    }
}

/// The outcomes of the jobs bring the selected series up to date.
pub proof fn lemma_outcomes_bring_up<F: Fn(u32, u32, u32, u32) -> Moments>(
    asked: Seq<Job>,
    done: Seq<Refreshed>,
    step: F,
    series: SeriesMap,
    w: WorkerState,
    tags: Seq<Seq<char>>,
    reset: bool,
)
    requires
        all_wf(series),
        jobs_for(asked, w, series, tags, reset),
        done.len() == asked.len(),
        forall|k: int| 0 <= k < done.len() ==> (#[trigger] done[k]).answers(asked[k], step),
    ensures
        brings_up(done, step, series, w, tags, reset),
{
    let end = with_outcomes(series, done);
    assert(apart(done)) by {
        assert forall|k: int, l: int| 0 <= k < l < done.len() implies (
            #[trigger] done[k].tag@,
            done[k].run@,
        ) != (#[trigger] done[l].tag@, done[l].run@) by {
            assert(done[k].answers(asked[k], step) && done[l].answers(asked[l], step));
            assert((asked[k].tag@, asked[k].run@) != (asked[l].tag@, asked[l].run@));
        }
    }
    lemma_outcomes_shown(series, done);
    assert forall|tag: Seq<char>, run: Seq<char>|
        !selected(w, tags, tag, run) implies #[trigger] lookup(end, tag, run) == lookup(
        series,
        tag,
        run,
    ) by {
        assert forall|k: int| 0 <= k < done.len() implies !((#[trigger] done[k]).tag@ == tag
            && done[k].run@ == run) by {
            assert(done[k].answers(asked[k], step));
            assert(asked[k].fits(w, series, reset));
            assert(selected(w, tags, asked[k].tag@, asked[k].run@));
        }
        assert(!outcome_of(done, tag, run));
    }
    assert forall|tag: Seq<char>, run: Seq<char>|
        selected(w, tags, tag, run) implies exists|k: int| #[trigger]
        answered(asked, done, step, end, tag, run, k) && asked[k].fits(w, series, reset) by {
        let k = choose|k: int|
            0 <= k < asked.len() && (#[trigger] asked[k]).tag@ == tag && asked[k].run@ == run;
        assert(done[k].answers(asked[k], step));
        assert(answered(asked, done, step, end, tag, run, k));
    }
    assert forall|g: Kernel, tag: Seq<char>| #[trigger]
        refreshed(series, w, tags, reset, g).contains_key(tag) <==> end.contains_key(tag) by {
        if series.contains_key(tag) {
        } else if exists|run: Seq<char>| selected(w, tags, tag, run) {
            let run = choose|run: Seq<char>| selected(w, tags, tag, run);
            let k = choose|k: int|
                0 <= k < asked.len() && (#[trigger] asked[k]).tag@ == tag && asked[k].run@ == run;
            assert(done[k].answers(asked[k], step));
            assert(done[k].tag@ == tag);
        } else if end.contains_key(tag) {
            let k = choose|k: int| 0 <= k < done.len() && (#[trigger] done[k]).tag@ == tag;
            assert(done[k].answers(asked[k], step));
            assert(asked[k].fits(w, series, reset));
            assert(selected(w, tags, asked[k].tag@, asked[k].run@));
        }
    }
    assert forall|tag: Seq<char>, run: Seq<char>|
        (#[trigger] lookup(end, tag, run)) is Some implies lookup(end, tag, run)->0.wf() by {
        if selected(w, tags, tag, run) {
            let k = choose|k: int| #[trigger]
                answered(asked, done, step, end, tag, run, k) && asked[k].fits(w, series, reset);
        } else {
            assert(lookup(series, tag, run) matches Some(t) ==> t.wf());
        }
    }
    let still = refreshed(series, w, tags, reset, blank());
    assert(end.dom() =~= still.dom());
    assert forall|tag: Seq<char>, run: Seq<char>|
        match (#[trigger] lookup(end, tag, run), lookup(still, tag, run)) {
            (Some(a), Some(b)) => a.same_layout(b),
            (None, None) => true,
            _ => false,
        } by {
        law_refreshed_series(series, w, tags, reset, blank(), tag, run);
        if selected(w, tags, tag, run) {
            let k = choose|k: int| #[trigger]
                answered(asked, done, step, end, tag, run, k) && asked[k].fits(w, series, reset);
        }
    }
    assert forall|g: Kernel| #[trigger] computes(step, g) implies end == refreshed(
        series,
        w,
        tags,
        reset,
        g,
    ) by {
        let want = refreshed(series, w, tags, reset, g);
        assert(end.dom() =~= want.dom());
        assert forall|tag: Seq<char>, run: Seq<char>| #[trigger]
            lookup(end, tag, run) == lookup(want, tag, run) by {
            law_refreshed_series(series, w, tags, reset, g, tag, run);
            if selected(w, tags, tag, run) {
                let k = choose|k: int| #[trigger]
                    answered(asked, done, step, end, tag, run, k) && asked[k].fits(
                        w,
                        series,
                        reset,
                    );
            }
        }
        lemma_same_series(end, want);
    }
}

/// Whether all jobs can be run.
pub(crate) fn all_can_run(jobs: &Vec<Job>) -> (ok: bool)
    requires
        forall|k: int| 0 <= k < jobs@.len() ==> (#[trigger] jobs@[k]).start().wf(),
    ensures
        ok == forall|k: int| 0 <= k < jobs@.len() ==> (#[trigger] jobs@[k]).admitted(),
{
    let mut k: usize = 0;
    while k < jobs.len()
        invariant
            k <= jobs@.len(),
            forall|j: int| 0 <= j < jobs@.len() ==> (#[trigger] jobs@[j]).start().wf(),
            forall|j: int| 0 <= j < k ==> (#[trigger] jobs@[j]).admitted(),
        decreases jobs.len() - k,
    {
        assert(jobs@[k as int].start().wf());
        if !jobs[k].can_run() {
            assert(!jobs@[k as int].admitted());
            return false;
        }
        k += 1;
    }
    true
}

/// The outcome of the `k`th job is that of the tag and the run, and it is shown.
spec fn answered<F: Fn(u32, u32, u32, u32) -> Moments>(
    asked: Seq<Job>,
    done: Seq<Refreshed>,
    step: F,
    series: SeriesMap,
    tag: Seq<char>,
    run: Seq<char>,
    k: int,
) -> bool {
    &&& 0 <= k < asked.len()
    &&& asked[k].tag@ == tag
    &&& asked[k].run@ == run
    &&& done[k].answers(asked[k], step)
    &&& lookup(series, tag, run) == Some(done[k].store@)
}

impl ComputeWorker {
    /// The jobs of one tag, one for each run.
    fn tag_jobs<'a>(&'a self, tag: &String, reset: bool, cache: &SeriesCache) -> (r: Vec<Job<'a>>)
        requires
            self.wf(),
        ensures
            forall|k: int|
                0 <= k < r@.len() ==> (#[trigger] r@[k]).tag@ == tag@ && r@[k].fits(
                    self@,
                    cache@,
                    reset,
                ),
            forall|k: int, l: int| 0 <= k < l < r@.len() ==> r@[k].run@ != r@[l].run@,
            forall|run: Seq<char>| #[trigger]
                logged(self@.points, tag@, run) ==> exists|k: int|
                    0 <= k < r@.len() && (#[trigger] r@[k]).run@ == run,
    {
        let mut r: Vec<Job<'a>> = Vec::new();
        let found = self.raw_store.get(tag.as_str());
        if let Some(runs) = found {
            assert(runs.wf());
            let mut i: usize = 0;
            while i < runs.entries.len()
                invariant
                    self.wf(),
                    runs.wf(),
                    self.raw_store@.contains_key(tag@),
                    *runs == self.raw_store@[tag@],
                    i <= runs.entries@.len(),
                    r@.len() == i,
                    forall|k: int|
                        0 <= k < r@.len() ==> (#[trigger] r@[k]).tag@ == tag@ && r@[k].fits(
                            self@,
                            cache@,
                            reset,
                        ),
                    forall|k: int|
                        0 <= k < r@.len() ==> (#[trigger] r@[k]).run@ == runs.entries@[k].0@,
                decreases runs.entries.len() - i,
            {
                let run: &String = &runs.entries[i].0;
                let points: &'a Vec<(u32, u32)> = &runs.entries[i].1;
                let previous = cache.get(tag.as_str(), run.as_str());
                let job = Job {
                    tag: tag.clone(),
                    run: run.clone(),
                    points,
                    previous,
                    interval: self.current_interval,
                    reset,
                };
                proof {
                    lemma_index_unique(runs.entries@, i as int);
                    assert(runs@.contains_key(run@) && runs@[run@] == *points);
                    assert(self@.points[tag@][run@] == points@);
                }
                r.push(job);
                i += 1;
            }
            proof {
                assert forall|k: int, l: int| 0 <= k < l < r@.len() implies r@[k].run@
                    != r@[l].run@ by {
                    lemma_index_unique(runs.entries@, k);
                    lemma_index_unique(runs.entries@, l);
                }
                assert forall|run: Seq<char>| #[trigger]
                    logged(self@.points, tag@, run) implies exists|k: int|
                    0 <= k < r@.len() && (#[trigger] r@[k]).run@ == run by {
                    let k = index_of(runs.entries@, run);
                    assert(named(runs.entries@, run));
                    assert(r@[k].run@ == run);
                }
            }
        }
        r
    }

    /// The jobs of a batch: one for each run of each tag that is to be brought up
    /// to date.
    pub fn jobs<'a>(&'a self, batch: &Batch, cache: &SeriesCache) -> (r: Vec<Job<'a>>)
        requires
            self.wf(),
            texts(batch.tags@).no_duplicates(),
        ensures
            jobs_for(r@, self@, cache@, texts(batch.tags@), batch.reset),
    {
        let mut r: Vec<Job<'a>> = Vec::new();
        let ghost tags = texts(batch.tags@);
        let mut t: usize = 0;
        while t < batch.tags.len()
            invariant
                self.wf(),
                tags == texts(batch.tags@),
                tags.no_duplicates(),
                t <= batch.tags@.len(),
                forall|k: int|
                    0 <= k < r@.len() ==> (#[trigger] r@[k]).fits(self@, cache@, batch.reset)
                        && exists|u: int| 0 <= u < t && #[trigger] tags[u] == r@[k].tag@,
                forall|k: int, l: int|
                    0 <= k < l < r@.len() ==> (r@[k].tag@, r@[k].run@) != (r@[l].tag@, r@[l].run@),
                forall|u: int, run: Seq<char>|
                    0 <= u < t && #[trigger] logged(self@.points, #[trigger] tags[u], run)
                        ==> exists|k: int|
                        0 <= k < r@.len() && (#[trigger] r@[k]).tag@ == tags[u] && r@[k].run@
                            == run,
            decreases batch.tags.len() - t,
        {
            let ghost was = r@;
            let mut more = self.tag_jobs(&batch.tags[t], batch.reset, cache);
            let ghost added = more@;
            r.append(&mut more);
            proof {
                assert(tags[t as int] == batch.tags@[t as int]@);
                assert forall|k: int| 0 <= k < r@.len() implies (#[trigger] r@[k]).fits(
                    self@,
                    cache@,
                    batch.reset,
                ) && exists|u: int| 0 <= u < t + 1 && #[trigger] tags[u] == r@[k].tag@ by {
                    if k < was.len() {
                        assert(r@[k] == was[k]);
                    } else {
                        assert(r@[k] == added[k - was.len()]);
                        assert(tags[t as int] == r@[k].tag@);
                    }
                }
                assert forall|k: int, l: int| 0 <= k < l < r@.len() implies (
                    r@[k].tag@,
                    r@[k].run@,
                ) != (r@[l].tag@, r@[l].run@) by {
                    if l < was.len() {
                        assert(r@[k] == was[k] && r@[l] == was[l]);
                    } else if k < was.len() {
                        assert(r@[k] == was[k]);
                        assert(r@[l] == added[l - was.len()]);
                        let u = choose|u: int| 0 <= u < t && #[trigger] tags[u] == r@[k].tag@;
                        assert(tags[u] != tags[t as int]);
                    } else {
                        assert(r@[k] == added[k - was.len()]);
                        assert(r@[l] == added[l - was.len()]);
                    }
                }
                assert forall|u: int, run: Seq<char>|
                    0 <= u < t + 1 && #[trigger] logged(
                        self@.points,
                        #[trigger] tags[u],
                        run,
                    ) implies exists|k: int|
                    0 <= k < r@.len() && (#[trigger] r@[k]).tag@ == tags[u] && r@[k].run@
                        == run by {
                    if u < t {
                        let k = choose|k: int|
                            0 <= k < was.len() && (#[trigger] was[k]).tag@ == tags[u]
                                && was[k].run@ == run;
                        assert(r@[k] == was[k]);
                    } else {
                        let k = choose|k: int|
                            0 <= k < added.len() && (#[trigger] added[k]).run@ == run;
                        assert(r@[was.len() + k] == added[k]);
                    }
                }
            }
            t += 1;
        }
        proof {
            assert forall|k: int| 0 <= k < r@.len() implies (#[trigger] r@[k]).fits(
                self@,
                cache@,
                batch.reset,
            ) && selected(self@, tags, r@[k].tag@, r@[k].run@) by {
                let u = choose|u: int| 0 <= u < t && #[trigger] tags[u] == r@[k].tag@;
                assert(tags.contains(r@[k].tag@));
            }
            assert forall|tag: Seq<char>, run: Seq<char>| #[trigger]
                selected(self@, tags, tag, run) implies exists|k: int|
                0 <= k < r@.len() && (#[trigger] r@[k]).tag@ == tag && r@[k].run@ == run by {
                let u = tags.index_of(tag);
                assert(tags[u] == tag);
                assert(logged(self@.points, tags[u], run));
            }
        }
        r
    }

    /// Whether every selected series can be updated.
    pub fn can_refresh(&self, batch: &Batch, cache: &SeriesCache) -> (ok: bool)
        requires
            self.wf(),
            texts(batch.tags@).no_duplicates(),
            all_wf(cache@),
        ensures
            ok == refreshable(cache@, self@, texts(batch.tags@), batch.reset),
    {
        let jobs = self.jobs(batch, cache);
        proof {
            lemma_jobs_admitted(jobs@, self@, cache@, texts(batch.tags@), batch.reset);
        }
        all_can_run(&jobs)
    }

    /// Brings the selected series up to date.
    pub fn refresh<F: Fn(u32, u32, u32, u32) -> Moments + Sync>(
        &self,
        batch: &Batch,
        cache: &mut SeriesCache,
        step: &F,
    )
        requires
            self.wf(),
            texts(batch.tags@).no_duplicates(),
            all_wf(old(cache)@),
            total(*step),
            refreshable(old(cache)@, self@, texts(batch.tags@), batch.reset),
        ensures
            all_wf(final(cache)@),
            same_shape(
                final(cache)@,
                refreshed(old(cache)@, self@, texts(batch.tags@), batch.reset, blank()),
            ),
            forall|g: Kernel| #[trigger]
                computes(*step, g) ==> final(cache)@ == refreshed(
                    old(cache)@,
                    self@,
                    texts(batch.tags@),
                    batch.reset,
                    g,
                ),
    {
        let jobs = self.jobs(batch, cache);
        let ghost asked = jobs@;
        proof {
            lemma_jobs_admitted(asked, self@, cache@, texts(batch.tags@), batch.reset);
        }
        let outcomes = run_in_parallel(jobs, step);
        proof {
            lemma_outcomes_bring_up(
                asked,
                outcomes@,
                *step,
                cache@,
                self@,
                texts(batch.tags@),
                batch.reset,
            );
        }
        show(outcomes, cache);
    }
}

} // verus!
