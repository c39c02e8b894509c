//! What reading event files does, said of records, values and file names.
use vstd::bytes::spec_u64_from_le_bytes;
use vstd::prelude::*;

use crate::data::{PointView, ScalarPoint};
use crate::events::{
    decoded, first_record, header_intact, intact, oversized, reads_on, views, EventView,
    LoggedEvent, LoggedValue, Record, RecordView, ValueView,
};
use crate::io::{
    event_file_name, event_path, event_points, holds_directory, monitored, offset_of, point_views,
    read_from, run_name_spec, scalar_points, scan_step, value_points, wanted, DirEntry, EntryKind,
    FileEventKind, FileOffsets, ScanRule, ScanStep,
};
use crate::text::stands_at;

verus! {

/// A step keeps its lowest 32 bits: what is left of it after whole multiples of two to
/// the thirty-second.
pub proof fn law_steps_keep_their_lowest_bits(step: i64)
    ensures
        (step as u32) as int == step as int % 0x1_0000_0000,
{
    if step >= 0 {
        let wide = step as u64;
        assert(wide as u32 == wide % 0x1_0000_0000) by (bit_vector);
        assert(step as u32 == (step as u64) as u32) by (bit_vector);
    } else {
        assert(step as u32 == step - ((step >> 32) * 0x1_0000_0000)) by (bit_vector);
        let high = (step >> 32) as int;
        assert(-0x8000_0000 <= step >> 32 && step >> 32 <= 0x7fff_ffff) by (bit_vector);
        let low = (step as u32) as int;
        assert(step as int == high * 0x1_0000_0000 + low);
        vstd::arithmetic::div_mod::lemma_fundamental_div_mod_converse(
            step as int,
            0x1_0000_0000,
            high,
            low,
        );
    }
}

/// The points of values, one by one.
proof fn lemma_value_points(
    values: Seq<ValueView>,
    step: i64,
    run: Seq<char>,
    plain: spec_fn(ValueView) -> bool,
    k: int,
)
    requires
        forall|v: ValueView| #[trigger] plain(v) <==> v.simple is Some,
    ensures
        value_points(values, step, run).len() == values.filter(plain).len(),
        0 <= k < values.filter(plain).len() ==> {
            let point = value_points(values, step, run)[k];
            let value = values.filter(plain)[k];
            point.run == run && point.tag == value.tag && value.simple == Some(point.value)
                && point.step == step as u32
        },
    decreases values.len(),
{
    reveal(Seq::filter);
    if values.len() > 0 {
        lemma_value_points(values.drop_last(), step, run, plain, k);
    }
}

/// The points in a summary are its plain scalars, all of them and nothing else, whatever
/// their values are: the `k`th has the tag and the bits of the `k`th plain scalar, and the
/// lowest 32 bits of the step.
pub proof fn law_points_are_the_plain_scalars(
    values: Seq<ValueView>,
    step: i64,
    run: Seq<char>,
    k: int,
)
    ensures
        value_points(values, step, run).len() == values.filter(
            |v: ValueView| v.simple is Some,
        ).len(),
        0 <= k < values.filter(|v: ValueView| v.simple is Some).len() ==> {
            let point = value_points(values, step, run)[k];
            let value = values.filter(|v: ValueView| v.simple is Some)[k];
            &&& point.run == run
            &&& point.tag == value.tag
            &&& Some(point.value) == value.simple
            &&& point.step as int == step as int % 0x1_0000_0000
        },
{
    lemma_value_points(values, step, run, |v: ValueView| v.simple is Some, k);
    law_steps_keep_their_lowest_bits(step);
}

/// The points in events are those in the first event, then those in the second, and so
/// on; an event that is no summary has none.
pub proof fn law_points_by_event(events: Seq<EventView>, event: EventView, run: Seq<char>)
    ensures
        scalar_points(Seq::empty(), run) == Seq::<PointView>::empty(),
        scalar_points(seq![event], run) == event_points(event, run),
        scalar_points(events.push(event), run) == scalar_points(events, run) + event_points(
            event,
            run,
        ),
        event.summary is None ==> event_points(event, run).len() == 0,
        event.summary matches Some(values) ==> event_points(event, run) == value_points(
            values,
            event.step,
            run,
        ),
{
    assert(events.push(event).drop_last() =~= events);
    assert(seq![event].drop_last() =~= Seq::empty());
    assert(Seq::<PointView>::empty() + event_points(event, run) =~= event_points(event, run));
}

/// There are as many points in events as there are plain scalars in all their summaries
/// together.
pub proof fn law_every_plain_scalar_is_a_point(events: Seq<EventView>, run: Seq<char>)
    ensures
        scalar_points(events, run).len() == events.fold_left(
            0int,
            |n: int, event: EventView|
                n + (if event.summary is Some {
                    event.summary->0.filter(|v: ValueView| v.simple is Some).len() as int
                } else {
                    0
                }),
        ),
    decreases events.len(),
{
    if events.len() > 0 {
        law_every_plain_scalar_is_a_point(events.drop_last(), run);
        let event = events.last();
        if event.summary is Some {
            law_points_are_the_plain_scalars(event.summary->0, event.step, run, 0);
        }
    }
}

/// Bytes are read record by record. An event stands before what the bytes after it give;
/// anything else at the front is passed over; and a record that announces more than can
/// be held ends the reading.
pub proof fn law_bytes_are_read_record_by_record(bytes: Seq<u8>)
    requires
        bytes.len() > 0,
    ensures
        oversized(bytes) ==> decoded(bytes).0.len() == 0 && decoded(bytes).1,
        !oversized(bytes) && first_record(bytes).1 < bytes.len() ==> {
            let (record, left) = first_record(bytes);
            let after = decoded(bytes.subrange(bytes.len() - left, bytes.len() as int));
            &&& decoded(bytes).1 == after.1
            &&& record matches RecordView::Event(event) ==> decoded(bytes).0.len() == after.0.len()
                + 1 && decoded(bytes).0[0] == event && decoded(bytes).0.drop_first() == after.0
            &&& record !is Event ==> decoded(bytes).0 == after.0
        },
{
    let (record, left) = first_record(bytes);
    if !oversized(bytes) && left < bytes.len() {
        assert(bytes.skip(bytes.len() - left) =~= bytes.subrange(
            bytes.len() - left,
            bytes.len() as int,
        ));
        let after = decoded(bytes.skip(bytes.len() - left));
        if let RecordView::Event(event) = record {
            assert((seq![event] + after.0).drop_first() =~= after.0);
        }
    }
}

/// No bytes, no events.
pub proof fn law_no_bytes_give_nothing()
    ensures
        decoded(Seq::empty()).0.len() == 0,
        !decoded(Seq::empty()).1,
        intact(Seq::empty()),
{
}

/// A record is too large if its header is there and intact, and the length in it is more
/// than a buffer can hold.
pub proof fn law_too_large_by_header(bytes: Seq<u8>)
    ensures
        oversized(bytes) <==> bytes.len() >= 12 && header_intact(bytes.subrange(0, 12))
            && spec_u64_from_le_bytes(bytes.subrange(0, 8)) as usize > isize::MAX,
{
    if bytes.len() >= 12 {
        assert(bytes.take(12) =~= bytes.subrange(0, 12));
        assert(bytes.take(8) =~= bytes.subrange(0, 8));
    }
}

/// Bytes that are whole events are those that begin with one and go on so; and whatever is
/// added to bytes that can be read on from is read as it is by itself.
pub proof fn law_reading_on(bytes: Seq<u8>, more: Seq<u8>)
    ensures
        bytes.len() > 0 && !oversized(bytes) && first_record(bytes).0 is Event && first_record(
            bytes,
        ).1 < bytes.len() && intact(
            bytes.subrange(bytes.len() - first_record(bytes).1, bytes.len() as int),
        ) ==> intact(bytes),
        reads_on(bytes) && bytes.len() + more.len() <= usize::MAX ==> decoded(bytes + more).0
            == decoded(bytes).0 + decoded(more).0 && decoded(bytes + more).1 == decoded(more).1,
{
    let left = first_record(bytes).1;
    if bytes.len() > 0 && left < bytes.len() {
        assert(bytes.skip(bytes.len() - left) =~= bytes.subrange(
            bytes.len() - left,
            bytes.len() as int,
        ));
    }
    if reads_on(bytes) && bytes.len() + more.len() <= usize::MAX {
        assert(decoded(bytes + more) == (decoded(bytes).0 + decoded(more).0, decoded(more).1));
    }
}

/// What is read of a file is the points of the events in its bytes, under the name of its
/// directory, or `root` where it has none.
pub proof fn law_files_are_read_under_their_directory(
    bytes: Seq<u8>,
    name: Seq<char>,
    parent: Option<Seq<char>>,
)
    ensures
        read_from(bytes, Some(name)).0 == scalar_points(decoded(bytes).0, name),
        read_from(bytes, None).0 == scalar_points(decoded(bytes).0, seq!['r', 'o', 'o', 't']),
        read_from(bytes, parent).1 == decoded(bytes).1,
        run_name_spec(Some(name)) == name,
        run_name_spec(None) == seq!['r', 'o', 'o', 't'],
{
    reveal_strlit("root");
    assert("root"@ =~= seq!['r', 'o', 'o', 't']);
}

/// What records, events, values and points stand for.
pub proof fn law_records_stand_for_their_fields(
    value: LoggedValue,
    event: LoggedEvent,
    events: Seq<LoggedEvent>,
    points: Seq<ScalarPoint>,
    i: int,
)
    ensures
        value@.tag == value.tag@,
        value@.simple == value.simple,
        event@.step == event.step,
        (event@.summary is Some) == (event.summary is Some),
        event.summary matches Some(values) ==> event@.summary->0.len() == values@.len() && (0 <= i
            < values@.len() ==> event@.summary->0[i] == values@[i]@),
        Record::End@ == RecordView::End,
        Record::Damaged@ == RecordView::Damaged,
        Record::Event(event)@ == RecordView::Event(event@),
        views(events).len() == events.len(),
        0 <= i < events.len() ==> views(events)[i] == events[i]@,
        point_views(points).len() == points.len(),
        0 <= i < points.len() ==> point_views(points)[i] == points[i]@,
{
}

/// How far a file has been read is what was noted for it, or nothing. Noting a length
/// changes it for that file alone, and not where it is unknown or the file could not be
/// read to its end.
pub proof fn law_offsets_are_as_noted(
    offsets: Map<u64, u64>,
    file: u64,
    oversized: bool,
    len: u64,
    known: FileOffsets,
)
    ensures
        offsets.contains_key(file) ==> offset_of(offsets, file) == offsets[file],
        !offsets.contains_key(file) ==> offset_of(offsets, file) == 0,
        FileOffsets::after(offsets, file, oversized, None) == offsets,
        FileOffsets::after(offsets, file, true, Some(len)) == offsets,
        FileOffsets::after(offsets, file, false, Some(len)) == offsets.insert(file, len),
        known@ == known.known@,
{
}

/// The characters that names of event files begin with.
proof fn lemma_event_file_prefix(text: Seq<char>)
    ensures
        "events.out.tfevents"@.is_prefix_of(text) <==> text.len() >= 19 && text.subrange(0, 19)
            == seq![
            'e', 'v', 'e', 'n', 't', 's', '.', 'o', 'u', 't', '.', 't', 'f', 'e', 'v', 'e', 'n',
            't', 's',
        ],
{
    reveal_strlit("events.out.tfevents");
    assert("events.out.tfevents"@ =~= seq![
        'e', 'v', 'e', 'n', 't', 's', '.', 'o', 'u', 't', '.', 't', 'f', 'e', 'v', 'e', 'n', 't',
        's',
    ]);
}

/// Event files are those whose names begin with `events.out.tfevents`, character by
/// character, whatever follows; a path mentions event files if `tfevents` stands anywhere
/// in it.
pub proof fn law_event_files_by_characters(name: Seq<char>, path: Seq<char>)
    ensures
        !event_file_name(None),
        event_file_name(Some(name)) <==> name.len() >= 19 && name.subrange(0, 19) == seq![
            'e', 'v', 'e', 'n', 't', 's', '.', 'o', 'u', 't', '.', 't', 'f', 'e', 'v', 'e', 'n',
            't', 's',
        ],
        event_path(path) <==> exists|at: int|
            0 <= at && at + 8 <= path.len() && #[trigger] path.subrange(at, at + 8) == seq![
                't', 'f', 'e', 'v', 'e', 'n', 't', 's',
            ],
{
    lemma_event_file_prefix(name);
    reveal_strlit("tfevents");
    let part = "tfevents"@;
    assert(part =~= seq!['t', 'f', 'e', 'v', 'e', 'n', 't', 's']);
    if event_path(path) {
        let at = choose|at: int| stands_at(path, part, at);
        assert(path.subrange(at, at + 8) == part);
    }
    if exists|at: int|
        0 <= at && at + 8 <= path.len() && #[trigger] path.subrange(at, at + 8) == seq![
            't', 'f', 'e', 'v', 'e', 'n', 't', 's',
        ] {
        let at = choose|at: int|
            0 <= at && at + 8 <= path.len() && #[trigger] path.subrange(at, at + 8) == seq![
                't', 'f', 'e', 'v', 'e', 'n', 't', 's',
            ];
        assert(stands_at(path, part, at));
    }
}

/// Of what happens to files only modifications matter, and of the files only event files.
pub proof fn law_only_modified_event_files_matter(
    kind: FileEventKind,
    names: Seq<Option<String>>,
    i: int,
)
    ensures
        monitored(kind, names, i) <==> kind == FileEventKind::Modify && 0 <= i < names.len()
            && names[i] is Some && event_file_name(Some(names[i]->0@)),
{
}

/// A scan descends into every directory, one deeper; it reads every file that its rule
/// names; and it passes over all else.
pub proof fn law_scan_steps(rule: ScanRule, depth: usize, entry: DirEntry)
    ensures
        entry.kind == EntryKind::Directory && depth < usize::MAX ==> scan_step(rule, depth, entry)
            == ScanStep::Descend((depth + 1) as usize),
        entry.kind == EntryKind::File && rule == ScanRule::FileName ==> (scan_step(
            rule,
            depth,
            entry,
        ) == ScanStep::Read <==> entry.name is Some && event_file_name(Some(entry.name->0@))),
        entry.kind == EntryKind::File && rule == ScanRule::WholePath ==> (scan_step(
            rule,
            depth,
            entry,
        ) == ScanStep::Read <==> event_path(entry.path@)),
        entry.kind == EntryKind::File && scan_step(rule, depth, entry) != ScanStep::Read
            ==> scan_step(rule, depth, entry) == ScanStep::Skip,
        entry.kind == EntryKind::Other ==> scan_step(rule, depth, entry) == ScanStep::Skip,
        wanted(rule, entry) <==> scan_step(rule, depth, entry) == ScanStep::Read,
{
}

/// A listing holds a directory exactly if one of its entries is one.
pub proof fn law_listings_hold_directories(entries: Seq<DirEntry>)
    ensures
        holds_directory(entries) <==> exists|i: int|
            0 <= i < entries.len() && (#[trigger] entries[i]).kind == EntryKind::Directory,
{
}

} // verus!
