//! The dashboard window: what is on screen, and what happens on each event.
use vstd::prelude::*;
use vstd::string::StringExecFns;

use crate::cache::{texts, SeriesCache};
use crate::data::{ControlMsg, ScalarPoint};
use crate::names::NameMap;
use crate::text::{section_name, section_of, text_of};
use crate::worker::DEFAULT_INTERVAL;

verus! {

/// The smallest bin width that can be chosen.
pub const MIN_INTERVAL: u32 = 300;

/// The largest bin width that can be chosen.
pub const MAX_INTERVAL: u32 = 100_000;

/// The nearest bin width that can be chosen.
pub open spec fn kept_in_range(width: u32) -> u32 {
    if width < MIN_INTERVAL {
        MIN_INTERVAL
    } else if width > MAX_INTERVAL {
        MAX_INTERVAL
    } else {
        width
    }
}

/// The nearest bin width that can be chosen.
pub fn slider_width(width: u32) -> (r: u32)
    ensures
        r == kept_in_range(width),
        MIN_INTERVAL <= r <= MAX_INTERVAL,
{
    if width < MIN_INTERVAL {
        MIN_INTERVAL
    } else if width > MAX_INTERVAL {
        MAX_INTERVAL
    } else {
        width
    }
}

/// What the window remembers.
#[derive(Debug)]
pub struct Board {
    /// The tag that fills the window; otherwise all tags are shown small.
    pub maximized_tag: Option<String>,
    /// The bin width that is chosen.
    pub step_interval: u32,
}

/// What can happen to the window.
#[derive(Debug)]
pub enum UiEvent {
    /// A point was read from a file.
    PointReceived(ScalarPoint),
    /// Whether the worker is busy with a new bin width.
    Busy(bool),
    /// The state of the slider for the bin width. A slider never leaves its range.
    Slider { value: u32, changed: bool, dragged: bool, drag_stopped: bool },
    /// The button that leads back to all tags.
    BackClicked,
    /// The button that saves the plot.
    ExportClicked,
    /// The button that lets a tag fill the window.
    ExpandClicked(String),
}

/// What is to be done about an event.
#[derive(Debug)]
pub struct UiEffect {
    /// A message for the worker.
    pub forward: Option<ControlMsg>,
    /// The worker counts as busy from now on.
    pub start_processing: bool,
    pub repaint: bool,
    /// The window is to be captured, for a file of this name.
    pub screenshot: Option<String>,
}

/// The tag with its slashes replaced.
pub open spec fn flattened(tag: Seq<char>) -> Seq<char> {
    Seq::new(
        tag.len(),
        |i: int|
            if tag[i] == '/' {
                '_'
            } else {
                tag[i]
            },
    )
}

/// The file name that goes with a tag.
pub open spec fn export_name(tag: Seq<char>) -> Seq<char> {
    flattened(tag) + ".png"@
}

/// The file name that goes with a tag.
pub fn export_file_name(tag: &str) -> (name: String)
    ensures
        name@ == export_name(tag@),
{
    let len: usize = tag.unicode_len();
    let mut name = String::new();
    let mut i: usize = 0;
    while i < len
        invariant
            len == tag@.len(),
            i <= len,
            name@ =~= flattened(tag@).take(i as int),
        decreases len - i,
    {
        let part: &str = tag.substring_char(i, i + 1);
        proof {
            assert(part@ =~= seq![tag@[i as int]]);
            reveal_strlit("_");
            assert("_"@ =~= seq!['_']);
        }
        if tag.get_char(i) == '/' {
            name.append("_");
        } else {
            name.append(part);
        }
        i += 1;
    }
    assert(flattened(tag@).take(len as int) =~= flattened(tag@));
    name.append(".png");
    name
}

impl UiEffect {
    /// Nothing is to be done.
    pub open spec fn is_none(&self) -> bool {
        self.forward is None && !self.start_processing && !self.repaint && self.screenshot is None
    }

    fn none() -> (r: UiEffect)
        ensures
            r.is_none(),
    {
        UiEffect { forward: None, start_processing: false, repaint: false, screenshot: None }
    }
}

impl Board {
    /// All tags are shown, at the width that the worker starts with.
    pub fn new() -> (r: Board)
        ensures
            r.maximized_tag is None,
            r.step_interval == DEFAULT_INTERVAL,
            r.in_range(),
    {
        Board { maximized_tag: None, step_interval: DEFAULT_INTERVAL }
    }

    /// The chosen bin width is one that can be chosen.
    pub open spec fn in_range(&self) -> bool {
        MIN_INTERVAL <= self.step_interval <= MAX_INTERVAL
    }

    /// Where an event leads, and what is to be done about it.
    pub open spec fn responds(&self, event: UiEvent, next: Board, effect: UiEffect) -> bool {
        match event {
            UiEvent::PointReceived(p) => {
                &&& next == *self
                &&& effect.forward == Some(ControlMsg::NewPoint(p))
                &&& effect.repaint
                &&& !effect.start_processing
                &&& effect.screenshot is None
            },
            UiEvent::Busy(busy) => {
                &&& next == *self
                &&& effect.forward is None
                &&& effect.repaint == busy
                &&& !effect.start_processing
                &&& effect.screenshot is None
            },
            UiEvent::Slider { value, changed, dragged, drag_stopped } => {
                &&& next.maximized_tag == self.maximized_tag
                &&& next.step_interval == kept_in_range(value)
                &&& effect.forward == if drag_stopped {
                    Some(ControlMsg::ResetInterval(kept_in_range(value)))
                } else {
                    None
                }
                &&& effect.start_processing == drag_stopped
                &&& effect.repaint == (changed || dragged || drag_stopped)
                &&& effect.screenshot is None
            },
            UiEvent::BackClicked => {
                &&& next.maximized_tag is None
                &&& next.step_interval == self.step_interval
                &&& effect.forward is None
                &&& !effect.start_processing
                &&& effect.repaint == (self.maximized_tag is Some)
                &&& effect.screenshot is None
            },
            UiEvent::ExportClicked => {
                &&& next == *self
                &&& effect.forward is None
                &&& !effect.start_processing
                &&& effect.repaint == (self.maximized_tag is Some)
                &&& text_of(effect.screenshot) == match self.maximized_tag {
                    Some(tag) => Some(export_name(tag@)),
                    None => None,
                }
            },
            UiEvent::ExpandClicked(tag) => {
                &&& next.maximized_tag == Some(tag)
                &&& next.step_interval == self.step_interval
                &&& effect.is_none()
            },
        }
    }

    /// Takes in an event. The chosen bin width stays one that can be chosen, and so is
    /// each that the worker is told.
    pub fn handle(&mut self, event: UiEvent) -> (effect: UiEffect)
        ensures
            old(self).responds(event, *final(self), effect),
            old(self).in_range() ==> final(self).in_range(),
            effect.forward matches Some(ControlMsg::ResetInterval(width)) ==> MIN_INTERVAL <= width
                <= MAX_INTERVAL,
    {
        let mut effect = UiEffect::none();
        match event {
            UiEvent::PointReceived(p) => {
                effect.forward = Some(ControlMsg::NewPoint(p));
                effect.repaint = true;
            },
            UiEvent::Busy(busy) => {
                effect.repaint = busy;
            },
            UiEvent::Slider { value, changed, dragged, drag_stopped } => {
                self.step_interval = slider_width(value);
                if changed || dragged {
                    effect.repaint = true;
                }
                if drag_stopped {
                    effect.start_processing = true;
                    effect.repaint = true;
                    effect.forward = Some(ControlMsg::ResetInterval(self.step_interval));
                }
            },
            UiEvent::BackClicked => {
                if self.maximized_tag.is_some() {
                    self.maximized_tag = None;
                    effect.repaint = true;
                }
            },
            UiEvent::ExportClicked => {
                if let Some(tag) = &self.maximized_tag {
                    effect.screenshot = Some(export_file_name(tag.as_str()));
                    effect.repaint = true;
                }
            },
            UiEvent::ExpandClicked(tag) => {
                self.maximized_tag = Some(tag);
            },
        }
        effect
    }
}

/// The tags that belong to a section, in the order in which they are given.
pub open spec fn tags_in(tags: Seq<Seq<char>>, section: Seq<char>) -> Seq<Seq<char>>
    decreases tags.len(),
{
    if tags.len() == 0 {
        Seq::empty()
    } else {
        let before = tags_in(tags.drop_last(), section);
        if section_name(tags.last()) == section {
            before.push(tags.last())
        } else {
            before
        }
    }
}

/// The tags in a list of sections, by section.
pub open spec fn sectioned(sections: NameMap<Vec<String>>) -> Map<Seq<char>, Seq<Seq<char>>> {
    sections@.map_values(|tags: Vec<String>| texts(tags@))
}

/// Every section that a tag belongs to, with its tags.
pub open spec fn grouped(tags: Seq<Seq<char>>) -> Map<Seq<char>, Seq<Seq<char>>> {
    Map::new(
        |section: Seq<char>| tags_in(tags, section).len() > 0,
        |section: Seq<char>| tags_in(tags, section),
    )
}

/// Groups tags by section, the sections in the order of their names.
pub fn sections(tags: &Vec<String>) -> (r: NameMap<Vec<String>>)
    ensures
        r.wf(),
        sectioned(r) == grouped(texts(tags@)),
{
    let mut r: NameMap<Vec<String>> = NameMap::new();
    let ghost all = texts(tags@);
    let mut i: usize = 0;
    assert(all.take(0) =~= Seq::empty());
    assert(sectioned(r) =~= grouped(all.take(0)));
    while i < tags.len()
        invariant
            i <= tags.len(),
            all == texts(tags@),
            r.wf(),
            sectioned(r) == grouped(all.take(i as int)),
        decreases tags.len() - i,
    {
        let ghost was = r;
        let ghost sofar = all.take(i as int);
        let ghost next = all.take(i + 1);
        proof {
            assert(next.drop_last() =~= sofar);
            assert(next.last() == tags@[i as int]@);
        }
        let section = section_of(tags[i].as_str());
        let ghost name = section@;
        let ghost listed = if was@.contains_key(name) {
            texts(was@[name]@)
        } else {
            Seq::empty()
        };
        proof {
            assert(grouped(sofar).contains_key(name) == sectioned(was).contains_key(name));
            if was@.contains_key(name) {
                assert(sectioned(was)[name] == tags_in(sofar, name));
            }
            assert(listed =~= tags_in(sofar, name));
        }
        let place = r.slot(&section, Vec::new());
        let ghost held = place@;
        place.push(tags[i].clone());
        let ghost pushed = place@;
        proof {
            assert(texts(pushed) =~= texts(held).push(tags@[i as int]@));
            assert(texts(held) =~= listed);
            assert(sectioned(r) =~= sectioned(was).insert(name, tags_in(next, name)));
            assert(sectioned(r) =~= grouped(next));
        }
        i += 1;
    }
    assert(all.take(all.len() as int) =~= all);
    r
}

/// The tags in the cache, by section.
pub fn overview(cache: &SeriesCache) -> (r: NameMap<Vec<String>>)
    ensures
        r.wf(),
        exists|tags: Seq<Seq<char>>| #[trigger]
            tags.no_duplicates() && tags.to_set() == cache@.dom() && sectioned(r) == grouped(tags),
{
    let tags = cache.tags();
    let r = sections(&tags);
    assert(texts(tags@).no_duplicates());
    r
}

/// The chosen bin width always is one that can be chosen, and so is each that the worker
/// is told: the one that is chosen then, and never zero.
pub proof fn law_widths_stay_in_range(
    board: Board,
    event: UiEvent,
    next: Board,
    effect: UiEffect,
)
    requires
        board.in_range(),
        board.responds(event, next, effect),
    ensures
        next.in_range(),
        effect.forward matches Some(ControlMsg::ResetInterval(width)) ==> width
            == next.step_interval && MIN_INTERVAL <= width <= MAX_INTERVAL,
{
}

/// The window starts with a width that can be chosen.
pub proof fn law_first_width_is_in_range(board: Board)
    requires
        board.step_interval == DEFAULT_INTERVAL,
    ensures
        board.in_range(),
{
}

/// Letting a tag fill the window and going back leaves the window as it was.
pub proof fn law_back_undoes_expand(
    board: Board,
    tag: String,
    expanded: Board,
    first: UiEffect,
    back: Board,
    second: UiEffect,
)
    requires
        board.maximized_tag is None,
        board.responds(UiEvent::ExpandClicked(tag), expanded, first),
        expanded.responds(UiEvent::BackClicked, back, second),
    ensures
        back == board,
{
}

pub proof fn lemma_tags_in(tags: Seq<Seq<char>>, section: Seq<char>, tag: Seq<char>)
    ensures
        tags_in(tags, section).contains(tag) <==> tags.contains(tag) && section_name(tag)
            == section,
    decreases tags.len(),
{
    if tags.len() > 0 {
        let rest = tags.drop_last();
        lemma_tags_in(rest, section, tag);
        let before = tags_in(rest, section);
        assert(tags =~= rest.push(tags.last()));
        if tags.contains(tag) && tag != tags.last() {
            let k = tags.index_of(tag);
            assert(rest[k] == tag);
        }
        if rest.contains(tag) {
            let k = rest.index_of(tag);
            assert(tags[k] == tag);
        }
        assert(tags[tags.len() - 1] == tags.last());
        if section_name(tags.last()) == section {
            let now = tags_in(tags, section);
            assert(now == before.push(tags.last()));
            assert(now[before.len() as int] == tags.last());
            if before.contains(tag) {
                let k = before.index_of(tag);
                assert(now[k] == tag);
            }
            if now.contains(tag) && tag != tags.last() {
                let k = now.index_of(tag);
                assert(before[k] == tag);
            }
        }
    }
}

/// Every tag stands in its section and in no other.
pub proof fn law_tags_have_one_section(
    tags: Seq<Seq<char>>,
    tag: Seq<char>,
    section: Seq<char>,
)
    requires
        tags.contains(tag),
    ensures
        grouped(tags).contains_key(section_name(tag)),
        grouped(tags)[section_name(tag)].contains(tag),
        grouped(tags).contains_key(section) && grouped(tags)[section].contains(tag) ==> section
            == section_name(tag),
{
    lemma_tags_in(tags, section_name(tag), tag);
    lemma_tags_in(tags, section, tag);
    let k = tags_in(tags, section_name(tag)).index_of(tag);
    assert(tags_in(tags, section_name(tag))[k] == tag);
}

} // verus!
