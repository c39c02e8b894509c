//! The series that are ready to be shown, by tag and run.
use dashmap::DashMap;
use vstd::prelude::*;

use crate::data::{DataStore, Series};

verus! {

/// Series by tag and run.
pub type SeriesMap = Map<Seq<char>, Map<Seq<char>, Series>>;

/// The runs of a tag; a tag that is not there has none.
pub open spec fn runs_of(series: SeriesMap, tag: Seq<char>) -> Map<Seq<char>, Series> {
    if series.contains_key(tag) {
        series[tag]
    } else {
        Map::empty()
    }
}

/// The series of a tag and a run.
pub open spec fn lookup(series: SeriesMap, tag: Seq<char>, run: Seq<char>) -> Option<Series> {
    if runs_of(series, tag).contains_key(run) {
        Some(runs_of(series, tag)[run])
    } else {
        None
    }
}

/// The series with that of one tag and run set.
pub open spec fn entered(
    series: SeriesMap,
    tag: Seq<char>,
    run: Seq<char>,
    value: Series,
) -> SeriesMap {
    series.insert(tag, runs_of(series, tag).insert(run, value))
}

/// The texts of a list of strings.
pub open spec fn texts(list: Seq<String>) -> Seq<Seq<char>> {
    list.map_values(|s: String| s@)
}

/// The outside map type, opaque here.
#[verifier::external_type_specification]
#[verifier::external_body]
#[verifier::reject_recursive_types(K)]
#[verifier::reject_recursive_types(V)]
#[verifier::reject_recursive_types(S)]
pub struct ExDashMap<K, V, S>(DashMap<K, V, S>);

/// What a nested map holds, as long as nobody else changes it.
pub uninterp spec fn held(map: DashMap<String, DashMap<String, DataStore>>) -> SeriesMap;

/// `DashMap::new`: a map with no entries.
#[verifier::external_body]
fn map_new() -> (map: DashMap<String, DashMap<String, DataStore>>)
    ensures
        held(map).dom().is_empty(),
{
    DashMap::new()
}

/// `DashMap::entry` and `or_default` on the outer map, then `DashMap::insert` on
/// the inner one: the runs of the tag are made if there are none, the series of the
/// run is set, and nothing else changes. The map is borrowed mutably, so no other
/// thread can reach it meanwhile.
#[verifier::external_body]
fn map_put(
    map: &mut DashMap<String, DashMap<String, DataStore>>,
    tag: String,
    run: String,
    store: DataStore,
)
    ensures
        held(*final(map)) == entered(held(*old(map)), tag@, run@, store@),
{
    map.entry(tag).or_default().insert(run, store);
}

/// `DashMap::get` on the outer and the inner map: a copy of the series of a tag and
/// a run, if both are there.
#[verifier::external_body]
fn map_get(
    map: &DashMap<String, DashMap<String, DataStore>>,
    tag: &str,
    run: &str,
) -> (store: Option<DataStore>)
    ensures
        match store {
            Some(s) => lookup(held(*map), tag@, run@) == Some(s@),
            None => lookup(held(*map), tag@, run@) is None,
        },
{
    map.get(tag).and_then(|runs| runs.get(run).map(|store| store.value().clone()))
}

/// `DashMap::iter` on the outer map: each tag once, in no particular order.
#[verifier::external_body]
fn map_tags(map: &DashMap<String, DashMap<String, DataStore>>) -> (tags: Vec<String>)
    ensures
        texts(tags@).no_duplicates(),
        texts(tags@).to_set() == held(*map).dom(),
{
    map.iter().map(|entry| entry.key().clone()).collect()
}

/// `DashMap::get` on the outer map and `DashMap::iter` on the inner one: if the tag is
/// there, each of its runs once, in no particular order.
#[verifier::external_body]
fn map_runs(
    map: &DashMap<String, DashMap<String, DataStore>>,
    tag: &str,
) -> (names: Option<Vec<String>>)
    ensures
        (names is Some) == held(*map).contains_key(tag@),
        names is Some ==> texts(names->0@).no_duplicates(),
        names is Some ==> texts(names->0@).to_set() == held(*map)[tag@].dom(),
{
    map.get(tag).map(|runs| runs.iter().map(|entry| entry.key().clone()).collect())
}

/// All series are well formed.
pub open spec fn all_wf(series: SeriesMap) -> bool {
    forall|tag: Seq<char>, run: Seq<char>|
        (#[trigger] lookup(series, tag, run)) matches Some(s) ==> s.wf()
}

/// The series that are ready to be shown.
pub struct SeriesCache {
    map: DashMap<String, DashMap<String, DataStore>>,
}

impl View for SeriesCache {
    type V = SeriesMap;

    closed spec fn view(&self) -> SeriesMap {
        held(self.map)
    }
}

impl SeriesCache {
    /// A cache with nothing in it.
    pub fn new() -> (r: SeriesCache)
        ensures
            r@ == SeriesMap::empty(),
    {
        let r = SeriesCache { map: map_new() };
        assert(r@ =~= SeriesMap::empty());
        r
    }

    /// A copy of the series of a tag and a run.
    pub fn get(&self, tag: &str, run: &str) -> (r: Option<DataStore>)
        ensures
            match r {
                Some(store) => lookup(self@, tag@, run@) == Some(store@),
                None => lookup(self@, tag@, run@) is None,
            },
    {
        map_get(&self.map, tag, run)
    }

    /// Sets the series of a tag and a run.
    pub fn put(&mut self, tag: String, run: String, store: DataStore)
        ensures
            final(self)@ == entered(old(self)@, tag@, run@, store@),
    {
        map_put(&mut self.map, tag, run, store);
    }

    /// Each tag, once.
    pub fn tags(&self) -> (r: Vec<String>)
        ensures
            texts(r@).no_duplicates(),
            texts(r@).to_set() == self@.dom(),
    {
        map_tags(&self.map)
    }

    /// Each run of a tag, once; a tag that is not there has none.
    pub fn runs(&self, tag: &str) -> (r: Vec<String>)
        ensures
            texts(r@).no_duplicates(),
            texts(r@).to_set() == runs_of(self@, tag@).dom(),
    {
        match map_runs(&self.map, tag) {
            Some(names) => names,
            None => {
                let none: Vec<String> = Vec::new();
                assert(texts(none@).to_set() =~= Set::empty());
                none
            },
        }
    }
}

/// Reading gives back what was written last, and writing one series leaves every
/// other as it was.
pub proof fn law_read_after_write(
    series: SeriesMap,
    tag: Seq<char>,
    run: Seq<char>,
    value: Series,
    other_tag: Seq<char>,
    other_run: Seq<char>,
)
    ensures
        lookup(entered(series, tag, run, value), tag, run) == Some(value),
        (other_tag, other_run) != (tag, run) ==> lookup(
            entered(series, tag, run, value),
            other_tag,
            other_run,
        ) == lookup(series, other_tag, other_run),
        entered(series, tag, run, value).dom() == series.dom().insert(tag),
{
    assert(entered(series, tag, run, value).dom() =~= series.dom().insert(tag));
}

} // verus!
