//! A map keyed by names, kept in the order of the names.
use vstd::prelude::*;

use crate::text::{
    before, is_before, lemma_before_irreflexive, lemma_before_total, lemma_before_transitive,
};

verus! {

/// A map from names to values. The entries stand in the order of their names, and
/// no name occurs twice.
#[derive(Debug)]
pub struct NameMap<V> {
    pub entries: Vec<(String, V)>,
}

/// The names in `entries` rise.
pub open spec fn rising<V>(entries: Seq<(String, V)>) -> bool {
    forall|i: int, j: int|
        0 <= i < j < entries.len() ==> before(#[trigger] entries[i].0@, #[trigger] entries[j].0@)
}

/// Some entry has this name.
pub open spec fn named<V>(entries: Seq<(String, V)>, name: Seq<char>) -> bool {
    exists|i: int| 0 <= i < entries.len() && #[trigger] entries[i].0@ == name
}

/// Where the entry of this name stands.
pub open spec fn index_of<V>(entries: Seq<(String, V)>, name: Seq<char>) -> int {
    choose|i: int| 0 <= i < entries.len() && #[trigger] entries[i].0@ == name
}

/// What a list of entries maps each name to.
pub open spec fn as_map<V>(entries: Seq<(String, V)>) -> Map<Seq<char>, V> {
    Map::new(
        |name: Seq<char>| named(entries, name),
        |name: Seq<char>| entries[index_of(entries, name)].1,
    )
}

impl<V> View for NameMap<V> {
    type V = Map<Seq<char>, V>;

    open spec fn view(&self) -> Map<Seq<char>, V> {
        as_map(self.entries@)
    }
}

/// In rising entries a name stands only once.
pub proof fn lemma_index_unique<V>(entries: Seq<(String, V)>, i: int)
    requires
        rising(entries),
        0 <= i < entries.len(),
    ensures
        named(entries, entries[i].0@),
        index_of(entries, entries[i].0@) == i,
{
    let name = entries[i].0@;
    let k = index_of(entries, name);
    assert(0 <= k < entries.len() && entries[k].0@ == name);
    lemma_before_irreflexive(name);
    if k < i {
        assert(before(entries[k].0@, entries[i].0@));
    }
    if i < k {
        assert(before(entries[i].0@, entries[k].0@));
    }
}

/// Changing the value of one entry changes the map there.
proof fn lemma_entry_changed<V>(
    was: Seq<(String, V)>,
    now: Seq<(String, V)>,
    at: int,
)
    requires
        rising(was),
        rising(now),
        0 <= at < now.len(),
        now.len() == was.len(),
        now[at].0 == was[at].0,
        forall|i: int| 0 <= i < now.len() && i != at ==> #[trigger] now[i] == was[i],
    ensures
        as_map(now) == as_map(was).insert(now[at].0@, now[at].1),
{
    let want = as_map(was).insert(now[at].0@, now[at].1);
    lemma_index_unique(now, at);
    assert forall|name: Seq<char>| as_map(now).contains_key(name) <==> want.contains_key(name) by {
        if named(was, name) {
            let i = index_of(was, name);
            assert(now[i].0@ == name);
        }
        if named(now, name) {
            let i = index_of(now, name);
            assert(was[i].0@ == name);
        }
    }
    assert forall|name: Seq<char>| as_map(now).contains_key(name) implies as_map(now)[name]
        == want[name] by {
        let i = index_of(now, name);
        assert(now[i].0@ == name);
        assert(was[i].0@ == name);
        lemma_index_unique(was, i);
        lemma_index_unique(now, i);
    }
    assert(as_map(now) =~= want);
}

/// Entering a new name changes the map there.
proof fn lemma_entry_entered<V>(
    was: Seq<(String, V)>,
    now: Seq<(String, V)>,
    at: int,
)
    requires
        rising(was),
        rising(now),
        0 <= at <= was.len(),
        now == was.insert(at, now[at]),
        !named(was, now[at].0@),
    ensures
        as_map(now) == as_map(was).insert(now[at].0@, now[at].1),
{
    let want = as_map(was).insert(now[at].0@, now[at].1);
    lemma_index_unique(now, at);
    assert forall|name: Seq<char>| as_map(now).contains_key(name) <==> want.contains_key(name) by {
        if named(was, name) {
            let i = index_of(was, name);
            assert(was[i].0@ == name);
            if i < at {
                assert(now[i].0@ == name);
            } else {
                assert(now[i + 1].0@ == name);
            }
        }
        if named(now, name) {
            let i = index_of(now, name);
            assert(now[i].0@ == name);
            if i < at {
                assert(was[i].0@ == name);
            } else if i > at {
                assert(was[i - 1].0@ == name);
            }
        }
    }
    assert forall|name: Seq<char>| as_map(now).contains_key(name) implies as_map(now)[name]
        == want[name] by {
        let i = index_of(now, name);
        assert(now[i].0@ == name);
        lemma_index_unique(now, i);
        if i < at {
            assert(was[i] == now[i]);
            lemma_index_unique(was, i);
        } else if i > at {
            assert(was[i - 1] == now[i]);
            lemma_index_unique(was, i - 1);
        }
    }
    assert(as_map(now) =~= want);
}

impl<V> NameMap<V> {
    pub open spec fn wf(&self) -> bool {
        rising(self.entries@)
    }

    /// A map with nothing in it.
    pub fn new() -> (r: NameMap<V>)
        ensures
            r.wf(),
            r.entries@.len() == 0,
            r@ == Map::<Seq<char>, V>::empty(),
    {
        let r = NameMap { entries: Vec::new() };
        assert(r@ =~= Map::<Seq<char>, V>::empty());
        r
    }

    /// The first position whose name does not come before `name`.
    fn position(&self, name: &str) -> (at: usize)
        requires
            self.wf(),
        ensures
            at <= self.entries@.len(),
            forall|i: int| 0 <= i < at ==> before(#[trigger] self.entries@[i].0@, name@),
            forall|i: int|
                at <= i < self.entries@.len() ==> !before(#[trigger] self.entries@[i].0@, name@),
    {
        let mut low: usize = 0;
        let mut high: usize = self.entries.len();
        while low < high
            invariant
                self.wf(),
                low <= high <= self.entries@.len(),
                forall|i: int| 0 <= i < low ==> before(#[trigger] self.entries@[i].0@, name@),
                forall|i: int|
                    high <= i < self.entries@.len() ==> !before(
                        #[trigger] self.entries@[i].0@,
                        name@,
                    ),
            decreases high - low,
        {
            let mid: usize = low + (high - low) / 2;
            if is_before(self.entries[mid].0.as_str(), name) {
                proof {
                    assert forall|i: int| 0 <= i <= mid implies before(
                        #[trigger] self.entries@[i].0@,
                        name@,
                    ) by {
                        if i < mid {
                            lemma_before_transitive(
                                self.entries@[i].0@,
                                self.entries@[mid as int].0@,
                                name@,
                            );
                        }
                    }
                }
                low = mid + 1;
            } else {
                proof {
                    assert forall|i: int| mid <= i < self.entries@.len() implies !before(
                        #[trigger] self.entries@[i].0@,
                        name@,
                    ) by {
                        if mid < i && before(self.entries@[i].0@, name@) {
                            lemma_before_transitive(
                                self.entries@[mid as int].0@,
                                self.entries@[i].0@,
                                name@,
                            );
                        }
                    }
                }
                high = mid;
            }
        }
        low
    }

    /// Whether the entry at `at`, as `position` gives it, has the name.
    fn holds(&self, at: usize, name: &str) -> (r: bool)
        requires
            self.wf(),
            at <= self.entries@.len(),
            forall|i: int| 0 <= i < at ==> before(#[trigger] self.entries@[i].0@, name@),
            forall|i: int|
                at <= i < self.entries@.len() ==> !before(#[trigger] self.entries@[i].0@, name@),
        ensures
            r == self@.contains_key(name@),
            r ==> at < self.entries@.len() && self.entries@[at as int].0@ == name@,
            !r ==> forall|i: int|
                at <= i < self.entries@.len() ==> before(name@, #[trigger] self.entries@[i].0@),
    {
        if at == self.entries.len() {
            proof {
                assert forall|i: int| 0 <= i < at implies #[trigger] self.entries@[i].0@
                    != name@ by {
                    lemma_before_irreflexive(name@);
                }
            }
            return false;
        }
        let later: bool = is_before(name, self.entries[at].0.as_str());
        proof {
            let here = self.entries@[at as int].0@;
            lemma_before_total(here, name@);
            lemma_before_irreflexive(name@);
            if later {
                assert forall|i: int| at <= i < self.entries@.len() implies before(
                    name@,
                    #[trigger] self.entries@[i].0@,
                ) by {
                    if at < i {
                        lemma_before_transitive(name@, here, self.entries@[i].0@);
                    }
                }
                assert forall|i: int| 0 <= i < self.entries@.len() implies #[trigger] self.entries@[i].0@
                    != name@ by {}
            } else {
                assert(self.entries@[at as int].0@ == name@);
            }
        }
        !later
    }

    /// The value of a name.
    pub fn get(&self, name: &str) -> (r: Option<&V>)
        requires
            self.wf(),
        ensures
            match r {
                Some(value) => self@.contains_key(name@) && *value == self@[name@],
                None => !self@.contains_key(name@),
            },
    {
        let at: usize = self.position(name);
        if self.holds(at, name) {
            proof {
                lemma_index_unique(self.entries@, at as int);
            }
            Some(&self.entries[at].1)
        } else {
            None
        }
    }

    /// The place of the value of a name; a name that is not there yet is entered
    /// with the value `fresh`.
    pub fn slot(&mut self, name: &String, fresh: V) -> (r: &mut V)
        requires
            old(self).wf(),
        ensures
            *r == if old(self)@.contains_key(name@) {
                old(self)@[name@]
            } else {
                fresh
            },
            final(self).wf(),
            final(self)@ == old(self)@.insert(name@, *final(r)),
    {
        let at: usize = self.position(name.as_str());
        if self.holds(at, name.as_str()) {
            proof {
                lemma_index_unique(self.entries@, at as int);
            }
            let ghost was = self.entries@;
            let r = &mut self.entries[at].1;
            proof {
                let now = was.update(at as int, (was[at as int].0, *final(r)));
                assert(rising(now));
                lemma_entry_changed(was, now, at as int);
            }
            r
        } else {
            let ghost was = self.entries@;
            self.entries.insert(at, (name.clone(), fresh));
            let ghost placed = self.entries@;
            let r = &mut self.entries[at].1;
            proof {
                let now = placed.update(at as int, (placed[at as int].0, *final(r)));
                assert(now =~= was.insert(at as int, now[at as int]));
                assert(rising(now));
                lemma_entry_entered(was, now, at as int);
            }
            r
        }
    }
}

} // verus!
