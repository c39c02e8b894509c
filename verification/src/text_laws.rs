//! What holds of texts, of maps keyed by names, and of the shown series, said of
//! characters and entries.
use vstd::prelude::*;

use crate::cache::{all_wf, entered, lookup, runs_of, texts, SeriesMap};
use crate::data::Series;
use crate::names::{index_of, lemma_index_unique, named, NameMap};
use crate::text::{
    before, eval_tag, law_sections_end_at_a_slash, section_name, stands_at, text_of,
};

verus! {

/// Evaluation tags are those whose first five characters are e, v, a, l and a slash,
/// whatever follows.
pub proof fn law_eval_tags_by_characters(tag: Seq<char>)
    ensures
        eval_tag(tag) <==> tag.len() >= 5 && tag[0] == 'e' && tag[1] == 'v' && tag[2] == 'a'
            && tag[3] == 'l' && tag[4] == '/',
{
    reveal_strlit("eval/");
    let five = "eval/"@;
    assert(five.len() == 5);
    if tag.len() >= 5 && tag[0] == 'e' && tag[1] == 'v' && tag[2] == 'a' && tag[3] == 'l' && tag[4]
        == '/' {
        assert(five =~= tag.subrange(0, 5));
    }
    if five.is_prefix_of(tag) {
        assert(forall|i: int| 0 <= i < 5 ==> five[i] == tag.subrange(0, 5)[i]);
        assert(five[0] == tag[0] && five[1] == tag[1] && five[2] == tag[2] && five[3] == tag[3]
            && five[4] == tag[4]);
    }
}

/// Whatever is put after `eval/` makes an evaluation tag; and a tag is one exactly if it
/// goes on after the section `eval`.
pub proof fn law_eval_tags_by_section(rest: Seq<char>, tag: Seq<char>)
    ensures
        eval_tag(seq!['e', 'v', 'a', 'l', '/'] + rest),
        eval_tag(tag) <==> section_name(tag) == seq!['e', 'v', 'a', 'l'] && tag.len() > 4,
{
    law_eval_tags_by_characters(seq!['e', 'v', 'a', 'l', '/'] + rest);
    law_eval_tags_by_characters(tag);
    law_sections_end_at_a_slash(tag);
    let section = section_name(tag);
    let four = seq!['e', 'v', 'a', 'l'];
    assert(section =~= tag.subrange(0, section.len() as int));
    assert(forall|i: int| 0 <= i < section.len() ==> section[i] == tag[i]);
    if eval_tag(tag) {
        if section.len() > 4 {
            assert(section[4] == '/');
            assert(section.contains('/'));
        }
        assert(section.len() == 4);
        assert(section =~= four);
    }
    if section == four && tag.len() > 4 {
        assert(section[0] == 'e' && section[1] == 'v' && section[2] == 'a' && section[3] == 'l');
    }
}

/// A text comes before another if, after a common beginning, it ends first or goes on
/// with a smaller character.
pub proof fn law_order_by_first_difference(a: Seq<char>, b: Seq<char>)
    ensures
        before(a, b) <==> exists|k: int|
            0 <= k <= a.len() && k < b.len() && #[trigger] a.subrange(0, k) == b.subrange(0, k) && (k
                == a.len() || a[k] < b[k]),
    decreases b.len(),
{
    if b.len() > 0 {
        if a.len() == 0 || a[0] < b[0] {
            assert(a.subrange(0, 0) =~= b.subrange(0, 0));
        } else {
            let ra = a.drop_first();
            let rb = b.drop_first();
            law_order_by_first_difference(ra, rb);
            if a[0] == b[0] && before(ra, rb) {
                let k = choose|k: int|
                    0 <= k <= ra.len() && k < rb.len() && #[trigger] ra.subrange(0, k)
                        == rb.subrange(0, k) && (k == ra.len() || ra[k] < rb[k]);
                assert(a.subrange(0, k + 1) =~= seq![a[0]] + ra.subrange(0, k));
                assert(b.subrange(0, k + 1) =~= seq![b[0]] + rb.subrange(0, k));
            }
            if exists|k: int|
                0 <= k <= a.len() && k < b.len() && #[trigger] a.subrange(0, k) == b.subrange(0, k)
                    && (k == a.len() || a[k] < b[k]) {
                let k = choose|k: int|
                    0 <= k <= a.len() && k < b.len() && #[trigger] a.subrange(0, k) == b.subrange(
                        0,
                        k,
                    ) && (k == a.len() || a[k] < b[k]);
                assert(k > 0);
                assert(a.subrange(0, k)[0] == a[0] && b.subrange(0, k)[0] == b[0]);
                assert(ra.subrange(0, k - 1) =~= a.subrange(0, k).drop_first());
                assert(rb.subrange(0, k - 1) =~= b.subrange(0, k).drop_first());
            }
        }
    }
}

/// A part stands at a position if each of its characters does.
pub proof fn law_parts_stand_by_characters(s: Seq<char>, part: Seq<char>, at: int)
    ensures
        stands_at(s, part, at) <==> 0 <= at && at + part.len() <= s.len() && forall|i: int|
            0 <= i < part.len() ==> s[at + i] == #[trigger] part[i],
{
    if 0 <= at && at + part.len() <= s.len() {
        let here = s.subrange(at, at + part.len());
        if here == part {
            assert forall|i: int| 0 <= i < part.len() implies s[at + i] == #[trigger] part[i] by {
                assert(here[i] == s[at + i]);
            }
        }
        if forall|i: int| 0 <= i < part.len() ==> s[at + i] == #[trigger] part[i] {
            assert(here =~= part);
        }
    }
}

/// The text of an optional string, and the texts of a list.
pub proof fn law_texts_are_of_the_strings(name: String, list: Seq<String>, i: int)
    ensures
        text_of(Some(name)) == Some(name@),
        text_of(None) is None,
        texts(list).len() == list.len(),
        0 <= i < list.len() ==> texts(list)[i] == list[i]@,
{
}

/// A map keyed by names holds exactly its entries, which stand in the order of their
/// names.
pub proof fn law_maps_hold_their_entries<V>(map: NameMap<V>, name: Seq<char>, i: int, j: int)
    requires
        map.wf(),
    ensures
        map@.contains_key(name) <==> exists|k: int|
            0 <= k < map.entries@.len() && (#[trigger] map.entries@[k]).0@ == name,
        0 <= i < map.entries@.len() ==> map@.contains_key(map.entries@[i].0@)
            && map@[map.entries@[i].0@] == map.entries@[i].1,
        0 <= i < j < map.entries@.len() ==> before(map.entries@[i].0@, map.entries@[j].0@),
{
    if 0 <= i < map.entries@.len() {
        lemma_index_unique(map.entries@, i);
    }
    if exists|k: int| 0 <= k < map.entries@.len() && (#[trigger] map.entries@[k]).0@ == name {
        let k = choose|k: int|
            0 <= k < map.entries@.len() && (#[trigger] map.entries@[k]).0@ == name;
        assert(map.entries@[k].0@ == name);
    }
    if named(map.entries@, name) {
        let k = index_of(map.entries@, name);
        assert(map.entries@[k].0@ == name);
    }
}

/// Entries in the order of their names are well formed, whatever they hold.
pub proof fn law_ordered_entries_are_well_formed<V>(map: NameMap<V>)
    requires
        forall|i: int, j: int|
            0 <= i < j < map.entries@.len() ==> before(
                #[trigger] map.entries@[i].0@,
                #[trigger] map.entries@[j].0@,
            ),
    ensures
        map.wf(),
{
}

/// The series of a tag and a run is the one under both names.
pub proof fn law_lookup_by_both_names(series: SeriesMap, tag: Seq<char>, run: Seq<char>)
    ensures
        (lookup(series, tag, run) is Some) == (series.contains_key(tag)
            && series[tag].contains_key(run)),
        lookup(series, tag, run) is Some ==> lookup(series, tag, run) == Some(series[tag][run]),
        series.contains_key(tag) ==> runs_of(series, tag) == series[tag],
        !series.contains_key(tag) ==> runs_of(series, tag) == Map::<Seq<char>, Series>::empty(),
{
}

/// Setting a series sets it under both names, adds no other name, and takes none away.
pub proof fn law_setting_adds_two_names(
    series: SeriesMap,
    tag: Seq<char>,
    run: Seq<char>,
    value: Series,
    other_tag: Seq<char>,
    other_run: Seq<char>,
)
    ensures
        ({
            let now = entered(series, tag, run, value);
            &&& now.contains_key(other_tag) <==> series.contains_key(other_tag) || other_tag == tag
            &&& now.contains_key(tag) && now[tag].contains_key(run) && now[tag][run] == value
            &&& now[tag].contains_key(other_run) <==> other_run == run || (series.contains_key(tag)
                && series[tag].contains_key(other_run))
            &&& other_run != run && series.contains_key(tag) && series[tag].contains_key(other_run)
                ==> now[tag][other_run] == series[tag][other_run]
            &&& other_tag != tag && series.contains_key(other_tag) ==> now[other_tag]
                == series[other_tag]
        }),
{
}

/// Series are all well formed exactly if each that is held is.
pub proof fn law_all_are_well_formed(series: SeriesMap)
    ensures
        all_wf(series) <==> forall|tag: Seq<char>, run: Seq<char>|
            series.contains_key(tag) && series[tag].contains_key(run) ==> (
            #[trigger] series[tag][run]).wf(),
{
    if all_wf(series) {
        assert forall|tag: Seq<char>, run: Seq<char>|
            series.contains_key(tag) && series[tag].contains_key(run) implies (
        #[trigger] series[tag][run]).wf() by {
            assert(lookup(series, tag, run) == Some(series[tag][run]));
        }
    }
}

} // verus!
