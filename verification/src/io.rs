//! Which files are read, from where on, and the points that they hold.
use std::collections::HashMap;
use vstd::prelude::*;

use crate::data::{PointView, ScalarPoint};
use crate::events::{
    decoded, intact, read_events, reads_on, views, EventView, LoggedEvent, LoggedValue, ValueView,
};
use crate::text::{begins_with, mentions, stands_at, text_of};

verus! {

broadcast use vstd::std_specs::hash::group_hash_axioms;

/// The points in a list.
pub open spec fn point_views(points: Seq<ScalarPoint>) -> Seq<PointView> {
    points.map_values(|p: ScalarPoint| p@)
}

/// The points in the values of a summary: one for each plain scalar, in order.
pub open spec fn value_points(values: Seq<ValueView>, step: i64, run: Seq<char>) -> Seq<PointView>
    decreases values.len(),
{
    if values.len() == 0 {
        Seq::empty()
    } else {
        let before = value_points(values.drop_last(), step, run);
        match values.last().simple {
            Some(value) => before.push(
                PointView { run, tag: values.last().tag, step: step as u32, value },
            ),
            None => before,
        }
    }
}

/// The points in an event; one that is no summary has none.
pub open spec fn event_points(event: EventView, run: Seq<char>) -> Seq<PointView> {
    match event.summary {
        Some(values) => value_points(values, event.step, run),
        None => Seq::empty(),
    }
}

/// The points in events, in order.
pub open spec fn scalar_points(events: Seq<EventView>, run: Seq<char>) -> Seq<PointView>
    decreases events.len(),
{
    if events.len() == 0 {
        Seq::empty()
    } else {
        scalar_points(events.drop_last(), run) + event_points(events.last(), run)
    }
}

/// Adds the points in the values of a summary to `points`. A step keeps its lowest
/// 32 bits.
fn add_values(points: &mut Vec<ScalarPoint>, values: &Vec<LoggedValue>, step: i64, run: &String)
    ensures
        point_views(final(points)@) == point_views(old(points)@) + value_points(
            values@.map_values(|value: LoggedValue| value@),
            step,
            run@,
        ),
{
    let ghost all = values@.map_values(|value: LoggedValue| value@);
    let ghost start = point_views(points@);
    let mut i: usize = 0;
    assert(start + value_points(all.take(0), step, run@) =~= start);
    while i < values.len()
        invariant
            i <= values.len(),
            all == values@.map_values(|value: LoggedValue| value@),
            point_views(points@) == start + value_points(all.take(i as int), step, run@),
        decreases values.len() - i,
    {
        let ghost was = points@;
        proof {
            assert(all.take(i + 1).drop_last() =~= all.take(i as int));
            assert(all.take(i + 1).last() == values@[i as int]@);
        }
        if let Some(value) = values[i].simple {
            #[verifier::truncate]
            let low: u32 = step as u32;
            let point = ScalarPoint {
                run_name: run.clone(),
                tag: values[i].tag.clone(),
                step: low,
                value,
            };
            points.push(point);
            assert(point_views(points@) =~= point_views(was).push(point@));
        }
        i += 1;
        assert(point_views(points@) =~= start + value_points(all.take(i as int), step, run@));
    }
    assert(all.take(all.len() as int) =~= all);
}

/// The points in events.
pub fn points_in(events: &Vec<LoggedEvent>, run: &String) -> (points: Vec<ScalarPoint>)
    ensures
        point_views(points@) == scalar_points(views(events@), run@),
{
    let mut points: Vec<ScalarPoint> = Vec::new();
    let ghost all = views(events@);
    let mut i: usize = 0;
    assert(point_views(points@) =~= scalar_points(all.take(0), run@));
    while i < events.len()
        invariant
            i <= events.len(),
            all == views(events@),
            point_views(points@) == scalar_points(all.take(i as int), run@),
        decreases events.len() - i,
    {
        let ghost was = point_views(points@);
        proof {
            assert(all.take(i + 1).drop_last() =~= all.take(i as int));
            assert(all.take(i + 1).last() == events@[i as int]@);
        }
        match &events[i].summary {
            Some(values) => {
                add_values(&mut points, values, events[i].step, run);
            },
            None => {
                assert(was + Seq::<PointView>::empty() =~= was);
            },
        }
        i += 1;
    }
    assert(all.take(all.len() as int) =~= all);
    points
}

/// The run that a file belongs to: the name of its directory, or `root`.
pub open spec fn run_name_spec(parent: Option<Seq<char>>) -> Seq<char> {
    match parent {
        Some(name) => name,
        None => "root"@,
    }
}

/// The run that a file belongs to.
pub fn run_name(parent: Option<String>) -> (run: String)
    ensures
        run@ == run_name_spec(text_of(parent)),
{
    match parent {
        Some(name) => name,
        None => "root".to_owned(),
    }
}

/// How far each file has been read. Files are known by number.
#[derive(Debug)]
pub struct FileOffsets {
    pub known: HashMap<u64, u64>,
}

impl View for FileOffsets {
    type V = Map<u64, u64>;

    open spec fn view(&self) -> Map<u64, u64> {
        self.known@
    }
}

/// How far a file has been read; one that is not known, not at all.
pub open spec fn offset_of(offsets: Map<u64, u64>, file: u64) -> u64 {
    if offsets.contains_key(file) {
        offsets[file]
    } else {
        0
    }
}

impl FileOffsets {
    /// No file has been read.
    pub fn new() -> (r: FileOffsets)
        ensures
            r@ == Map::<u64, u64>::empty(),
    {
        FileOffsets { known: HashMap::new() }
    }

    /// How far a file has been read.
    pub fn offset(&self, file: u64) -> (r: u64)
        ensures
            r == offset_of(self@, file),
    {
        match self.known.get(&file) {
            Some(offset) => *offset,
            None => 0,
        }
    }
}

/// Points that were read from a file.
#[derive(Debug)]
pub struct FileRead {
    pub points: Vec<ScalarPoint>,
    /// The file goes on with a record that announces more than a buffer can hold.
    pub oversized: bool,
}

/// What is read from a file: the points in its bytes, up to a record that cannot be
/// held.
pub open spec fn read_from(bytes: Seq<u8>, parent: Option<Seq<char>>) -> (Seq<PointView>, bool) {
    (scalar_points(decoded(bytes).0, run_name_spec(parent)), decoded(bytes).1)
}

/// The points in a file, of which `bytes` are all bytes, or those from an offset on.
/// `parent` is the name of its directory. The file can be read on after a whole event,
/// with the same outcome as if it were read at once.
pub fn process_single_file(bytes: &[u8], parent: Option<String>) -> (r: FileRead)
    ensures
        (point_views(r.points@), r.oversized) == read_from(bytes@, text_of(parent)),
        intact(bytes@) ==> reads_on(bytes@),
{
    let run = run_name(parent);
    let (events, oversized) = read_events(bytes);
    let points = points_in(&events, &run);
    FileRead { points, oversized }
}

impl FileOffsets {
    /// How far each file has been read, once this one has been read to `len`; a file
    /// of unknown length, and one that could not be read to its end, stays where it
    /// was.
    pub open spec fn after(
        offsets: Map<u64, u64>,
        file: u64,
        oversized: bool,
        len: Option<u64>,
    ) -> Map<u64, u64> {
        match len {
            Some(len) => if oversized {
                offsets
            } else {
                offsets.insert(file, len)
            },
            None => offsets,
        }
    }

    /// Notes that a file has been read to its end, at `len`.
    pub fn finish(&mut self, file: u64, read: &FileRead, len: Option<u64>)
        ensures
            final(self)@ == FileOffsets::after(old(self)@, file, read.oversized, len),
    {
        if !read.oversized {
            if let Some(len) = len {
                self.known.insert(file, len);
            }
        }
    }

    /// Whether a file of `current_len` bytes holds more than has been read.
    pub fn has_grown(&self, file: u64, current_len: u64) -> (r: bool)
        ensures
            r == (current_len > offset_of(self@, file)),
    {
        current_len > self.offset(file)
    }
}

/// Reads what was added to a file of `current_len` bytes. `bytes` are those from the
/// offset up to which it has been read; a file that has not grown is left alone.
pub fn process_new_events(
    file: u64,
    current_len: u64,
    bytes: &[u8],
    parent: Option<String>,
    offsets: &mut FileOffsets,
) -> (r: FileRead)
    ensures
        current_len > offset_of(old(offsets)@, file) ==> (point_views(r.points@), r.oversized)
            == read_from(bytes@, text_of(parent)) && (intact(bytes@) ==> reads_on(bytes@)),
        current_len <= offset_of(old(offsets)@, file) ==> r.points@.len() == 0 && !r.oversized,
        final(offsets)@ == if current_len > offset_of(old(offsets)@, file) {
            FileOffsets::after(old(offsets)@, file, r.oversized, Some(current_len))
        } else {
            old(offsets)@
        },
{
    if offsets.has_grown(file, current_len) {
        let read = process_single_file(bytes, parent);
        offsets.finish(file, &read, Some(current_len));
        read
    } else {
        FileRead { points: Vec::new(), oversized: false }
    }
}

/// The names of event files start with this.
pub open spec fn event_file_name(name: Option<Seq<char>>) -> bool {
    name matches Some(text) && "events.out.tfevents"@.is_prefix_of(text)
}

/// The path mentions event files.
pub open spec fn event_path(path: Seq<char>) -> bool {
    exists|at: int| stands_at(path, "tfevents"@, at)
}

/// Whether a file name is that of an event file.
pub fn is_event_file_name(name: &Option<String>) -> (r: bool)
    ensures
        r == event_file_name(text_of(*name)),
{
    match name {
        Some(text) => begins_with(text.as_str(), "events.out.tfevents"),
        None => false,
    }
}

/// Whether a path mentions event files.
pub fn is_event_path(path: &str) -> (r: bool)
    ensures
        r == event_path(path@),
{
    mentions(path, "tfevents")
}

/// What happened to a watched file.
#[derive(Clone, Copy, Debug, PartialEq, Eq, Structural)]
pub enum FileEventKind {
    Any,
    Access,
    Create,
    Modify,
    Remove,
    Other,
}

/// The `i`th of the files that an event is about is to be read.
pub open spec fn monitored(kind: FileEventKind, names: Seq<Option<String>>, i: int) -> bool {
    kind == FileEventKind::Modify && 0 <= i < names.len() && event_file_name(text_of(names[i]))
}

/// Which of the files that an event is about are to be read, in order: of a
/// modification, the event files.
pub fn start_live_monitor(kind: FileEventKind, names: &Vec<Option<String>>) -> (chosen: Vec<usize>)
    ensures
        forall|k: int, l: int| 0 <= k < l < chosen@.len() ==> chosen@[k] < chosen@[l],
        forall|k: int|
            0 <= k < chosen@.len() ==> monitored(kind, names@, #[trigger] chosen@[k] as int),
        forall|i: usize| #[trigger] monitored(kind, names@, i as int) ==> chosen@.contains(i),
{
    let mut chosen: Vec<usize> = Vec::new();
    if kind != FileEventKind::Modify {
        return chosen;
    }
    let mut i: usize = 0;
    while i < names.len()
        invariant
            i <= names.len(),
            kind == FileEventKind::Modify,
            forall|k: int, l: int| 0 <= k < l < chosen@.len() ==> chosen@[k] < chosen@[l],
            forall|k: int|
                0 <= k < chosen@.len() ==> #[trigger] chosen@[k] < i && monitored(
                    kind,
                    names@,
                    chosen@[k] as int,
                ),
            forall|j: usize|
                j < i && #[trigger] monitored(kind, names@, j as int) ==> chosen@.contains(j),
        decreases names.len() - i,
    {
        let ghost was = chosen@;
        if is_event_file_name(&names[i]) {
            chosen.push(i);
            proof {
                assert(chosen@[was.len() as int] == i);
                assert forall|j: usize|
                    j < i + 1 && #[trigger] monitored(
                        kind,
                        names@,
                        j as int,
                    ) implies chosen@.contains(j) by {
                    if j < i {
                        let k = was.index_of(j);
                        assert(was.contains(j));
                        assert(chosen@[k] == j);
                    }
                }
            }
        }
        i += 1;
    }
    chosen
}

/// What a directory entry is.
#[derive(Clone, Copy, Debug, PartialEq, Eq, Structural)]
pub enum EntryKind {
    Directory,
    File,
    Other,
}

/// One entry of a directory.
#[derive(Debug)]
pub struct DirEntry {
    pub kind: EntryKind,
    /// The file name, where it has one.
    pub name: Option<String>,
    pub path: String,
}

/// By what a scan knows the files to read.
#[derive(Clone, Copy, Debug, PartialEq, Eq, Structural)]
pub enum ScanRule {
    /// The name is that of an event file.
    FileName,
    /// The path mentions event files.
    WholePath,
}

/// What a scan does about a directory entry.
#[derive(Clone, Copy, Debug, PartialEq, Eq, Structural)]
pub enum ScanStep {
    /// Scans the directory, at this depth.
    Descend(usize),
    Read,
    Skip,
}

/// The entry is a file that the scan reads.
pub open spec fn wanted(rule: ScanRule, entry: DirEntry) -> bool {
    entry.kind == EntryKind::File && match rule {
        ScanRule::FileName => event_file_name(text_of(entry.name)),
        ScanRule::WholePath => event_path(entry.path@),
    }
}

/// What a scan at `depth` does about an entry.
pub open spec fn scan_step(rule: ScanRule, depth: usize, entry: DirEntry) -> ScanStep {
    if entry.kind == EntryKind::Directory {
        ScanStep::Descend((depth + 1) as usize)
    } else if wanted(rule, entry) {
        ScanStep::Read
    } else {
        ScanStep::Skip
    }
}

/// Whether a directory at `depth` is listed at all.
pub fn is_listed(depth: usize, max_depth: usize) -> (r: bool)
    ensures
        r == (depth <= max_depth),
{
    depth <= max_depth
}

/// Some entry is a directory.
pub open spec fn holds_directory(entries: Seq<DirEntry>) -> bool {
    exists|i: int| 0 <= i < entries.len() && (#[trigger] entries[i]).kind == EntryKind::Directory
}

/// What a scan does about the entries of a directory at `depth`, one step for each.
/// Below `max_depth` nothing is done.
pub fn visit_dirs(
    rule: ScanRule,
    depth: usize,
    max_depth: usize,
    entries: &Vec<DirEntry>,
) -> (steps: Vec<ScanStep>)
    requires
        depth <= max_depth && holds_directory(entries@) ==> depth < usize::MAX,
    ensures
        depth > max_depth ==> steps@.len() == 0,
        depth <= max_depth ==> steps@.len() == entries@.len() && forall|i: int|
            0 <= i < steps@.len() ==> #[trigger] steps@[i] == scan_step(rule, depth, entries@[i]),
{
    let mut steps: Vec<ScanStep> = Vec::new();
    if !is_listed(depth, max_depth) {
        return steps;
    }
    let mut i: usize = 0;
    while i < entries.len()
        invariant
            i <= entries.len(),
            holds_directory(entries@) ==> depth < usize::MAX,
            steps@.len() == i,
            forall|k: int|
                0 <= k < i ==> #[trigger] steps@[k] == scan_step(rule, depth, entries@[k]),
        decreases entries.len() - i,
    {
        let entry = &entries[i];
        assert(entry.kind == entries@[i as int].kind);
        let step = match entry.kind {
            EntryKind::Directory => ScanStep::Descend(depth + 1),
            EntryKind::File => {
                let chosen: bool = match rule {
                    ScanRule::FileName => is_event_file_name(&entry.name),
                    ScanRule::WholePath => is_event_path(entry.path.as_str()),
                };
                if chosen {
                    ScanStep::Read
                } else {
                    ScanStep::Skip
                }
            },
            EntryKind::Other => ScanStep::Skip,
        };
        steps.push(step);
        i += 1;
    }
    steps
}

/// Reading on never goes back: a file that has grown counts as read further than
/// before, or as far as before where it could not be read to its end; and no other
/// file is touched.
pub proof fn law_offsets_only_advance(
    offsets: Map<u64, u64>,
    file: u64,
    current_len: u64,
    oversized: bool,
    other: u64,
)
    requires
        current_len > offset_of(offsets, file),
    ensures
        offset_of(FileOffsets::after(offsets, file, oversized, Some(current_len)), file) == if oversized {
            offset_of(offsets, file)
        } else {
            current_len
        },
        other != file ==> offset_of(
            FileOffsets::after(offsets, file, oversized, Some(current_len)),
            other,
        ) == offset_of(offsets, other),
{
}

/// A file that has been read to its end and has not grown is not read again.
pub proof fn law_nothing_is_read_twice(offsets: Map<u64, u64>, file: u64, len: u64, now: u64)
    requires
        now <= len,
    ensures
        !(now > offset_of(FileOffsets::after(offsets, file, false, Some(len)), file)),
{
}

proof fn lemma_value_points_run(values: Seq<ValueView>, step: i64, run: Seq<char>, i: int)
    requires
        0 <= i < value_points(values, step, run).len(),
    ensures
        value_points(values, step, run)[i].run == run,
    decreases values.len(),
{
    if i < value_points(values.drop_last(), step, run).len() {
        lemma_value_points_run(values.drop_last(), step, run, i);
    }
}

/// All points in a file belong to the run of the file.
pub proof fn law_points_belong_to_run(events: Seq<EventView>, run: Seq<char>, i: int)
    requires
        0 <= i < scalar_points(events, run).len(),
    ensures
        scalar_points(events, run)[i].run == run,
    decreases events.len(),
{
    let before = scalar_points(events.drop_last(), run);
    if i < before.len() {
        law_points_belong_to_run(events.drop_last(), run, i);
    } else {
        match events.last().summary {
            Some(values) => {
                lemma_value_points_run(values, events.last().step, run, i - before.len());
            },
            None => {},
        }
    }
}

/// The points of two lists of events are those of the first, then those of the
/// second.
pub proof fn law_points_concatenate(a: Seq<EventView>, b: Seq<EventView>, run: Seq<char>)
    ensures
        scalar_points(a + b, run) == scalar_points(a, run) + scalar_points(b, run),
    decreases b.len(),
{
    if b.len() == 0 {
        assert(a + b =~= a);
        assert(scalar_points(a, run) + scalar_points(b, run) =~= scalar_points(a, run));
    } else {
        law_points_concatenate(a, b.drop_last(), run);
        assert((a + b).drop_last() =~= a + b.drop_last());
        assert((a + b).last() == b.last());
        assert(scalar_points(a, run) + scalar_points(b, run) =~= scalar_points(a, run)
            + scalar_points(b.drop_last(), run) + event_points(b.last(), run));
    }
}

/// A file that grows is read as if it were read at once: first the points in what
/// there was, which ended with a whole event, then those in what was added.
pub proof fn law_growing_files_read_on(
    bytes: Seq<u8>,
    added: Seq<u8>,
    parent: Option<Seq<char>>,
)
    requires
        reads_on(bytes),
        bytes.len() + added.len() <= usize::MAX,
    ensures
        read_from(bytes + added, parent) == (
            read_from(bytes, parent).0 + read_from(added, parent).0,
            read_from(added, parent).1,
        ),
{
    law_points_concatenate(decoded(bytes).0, decoded(added).0, run_name_spec(parent));
    assert(decoded(bytes + added) == (decoded(bytes).0 + decoded(added).0, decoded(added).1));
}

} // verus!
