use scalarboard::data::ScalarPoint;
use scalarboard::events::read_events;
use scalarboard::io::{
    is_event_file_name, is_event_path, is_listed, points_in, process_new_events,
    process_single_file, run_name, start_live_monitor, visit_dirs, DirEntry, EntryKind,
    FileEventKind, FileOffsets, ScanRule, ScanStep,
};
use tfrecord::protobuf::event::What;
use tfrecord::protobuf::summary::value::Value::{SimpleValue, Tensor};
use tfrecord::protobuf::{summary, Event, Summary};
use tfrecord::RecordWriter;

/// The bytes of an event file with these events.
fn file_of(events: Vec<Event>) -> Vec<u8> {
    let mut bytes: Vec<u8> = Vec::new();
    let mut writer: RecordWriter<Event, &mut Vec<u8>> =
        RecordWriter::from_writer(&mut bytes).unwrap();
    for event in events {
        writer.send(event).unwrap();
    }
    writer.flush().unwrap();
    drop(writer);
    bytes
}

fn event(step: i64, what: Option<What>) -> Event {
    Event { wall_time: 0.0, step, source_metadata: None, what }
}

fn value(tag: &str, value: Option<summary::value::Value>) -> summary::Value {
    summary::Value {
        node_name: String::new(),
        tag: tag.to_string(),
        metadata: None,
        value,
    }
}

fn scalar(tag: &str, step: i64, x: f32) -> Event {
    let values = vec![value(tag, Some(SimpleValue(x)))];
    event(step, Some(What::Summary(Summary { value: values })))
}

fn plain(points: &[ScalarPoint]) -> Vec<(String, String, u32, f32)> {
    points
        .iter()
        .map(|p| (p.run_name.clone(), p.tag.clone(), p.step, f32::from_bits(p.value)))
        .collect()
}

fn expected(list: &[(&str, &str, u32, f32)]) -> Vec<(String, String, u32, f32)> {
    list.iter().map(|p| (p.0.to_string(), p.1.to_string(), p.2, p.3)).collect()
}

#[test]
fn scalars_are_read_in_order() {
    let bytes = file_of(vec![
        event(0, Some(What::FileVersion("brain.Event:2".to_string()))),
        scalar("train/loss", 1, 0.5),
        event(
            7,
            Some(What::Summary(Summary {
                value: vec![
                    value("a", Some(SimpleValue(1.0))),
                    value("b", None),
                    value("c", Some(Tensor(Default::default()))),
                    value("d", Some(SimpleValue(-2.5))),
                ],
            })),
        ),
        event(9, None),
    ]);
    let (events, oversized) = read_events(&bytes);
    assert!(!oversized);
    assert_eq!(events.len(), 4);
    assert!(events[0].summary.is_none());
    assert_eq!(events[2].summary.as_ref().map(|v| v.len()), Some(4));
    let points = points_in(&events, &"run".to_string());
    assert_eq!(
        plain(&points),
        expected(&[("run", "train/loss", 1, 0.5), ("run", "a", 7, 1.0), ("run", "d", 7, -2.5)])
    );
}

#[test]
fn steps_keep_their_lowest_bits() {
    let bytes = file_of(vec![scalar("t", (1i64 << 32) + 5, 1.0), scalar("t", -1, 1.0)]);
    let points = points_in(&read_events(&bytes).0, &"r".to_string());
    assert_eq!(points[0].step, 5);
    assert_eq!(points[1].step, u32::MAX);
}

#[test]
fn damaged_records_are_passed_over() {
    let first = file_of(vec![scalar("t", 1, 1.0)]);
    let second = file_of(vec![scalar("t", 2, 2.0)]);
    // A wrong byte in the event of the first record.
    let mut damaged = first.clone();
    damaged[14] ^= 0xff;
    damaged.extend_from_slice(&second);
    let points = points_in(&read_events(&damaged).0, &"r".to_string());
    assert_eq!(plain(&points), expected(&[("r", "t", 2, 2.0)]));
    // A cut off record at the end.
    let mut cut = first.clone();
    cut.extend_from_slice(&second[..second.len() - 3]);
    let points = points_in(&read_events(&cut).0, &"r".to_string());
    assert_eq!(plain(&points), expected(&[("r", "t", 1, 1.0)]));
    for end in 0..8 {
        let (events, oversized) = read_events(&first[..end]);
        assert!(events.is_empty() && !oversized);
    }
}

#[test]
fn bytes_that_are_no_records_give_nothing() {
    let noise: Vec<u8> = (0..1000u32).map(|i| (i * 37 % 251) as u8).collect();
    let (events, oversized) = read_events(&noise);
    assert!(events.is_empty());
    assert!(!oversized);
    let high = vec![0xffu8; 64];
    assert!(read_events(&high).0.is_empty());
    assert!(!read_events(&high).1);
}

/// The checksum of an announced length.
fn checksum(bytes: &[u8]) -> u32 {
    let mut crc: u32 = !0;
    for byte in bytes {
        crc ^= *byte as u32;
        for _ in 0..8 {
            crc = if crc & 1 == 1 { (crc >> 1) ^ 0x82f6_3b78 } else { crc >> 1 };
        }
    }
    let crc = !crc;
    ((crc >> 15) | (crc << 17)).wrapping_add(0xa282_ead8)
}

#[test]
fn a_record_without_its_end_takes_all_that_follows() {
    let good = file_of(vec![scalar("t", 1, 1.0)]);
    let length = 1000u64.to_le_bytes();
    let mut bytes = good.clone();
    bytes.extend_from_slice(&length);
    bytes.extend_from_slice(&checksum(&length).to_le_bytes());
    bytes.extend_from_slice(&good);
    let (events, oversized) = read_events(&bytes);
    assert_eq!(events.len(), 1);
    assert!(!oversized);
}

#[test]
fn a_record_that_cannot_be_held_ends_the_reading() {
    let good = file_of(vec![scalar("t", 1, 1.0)]);
    assert_eq!(good[8..12], checksum(&good[..8]).to_le_bytes());
    let length = u64::MAX.to_le_bytes();
    let mut bytes = good.clone();
    bytes.extend_from_slice(&length);
    bytes.extend_from_slice(&checksum(&length).to_le_bytes());
    bytes.extend_from_slice(&good);
    let (events, oversized) = read_events(&bytes);
    assert_eq!(events.len(), 1);
    assert!(oversized);
    let mut offsets = FileOffsets::new();
    let read = process_new_events(1, bytes.len() as u64, &bytes, None, &mut offsets);
    assert_eq!(read.points.len(), 1);
    assert!(read.oversized);
    assert_eq!(offsets.offset(1), 0);
    let whole = process_single_file(&bytes, None);
    assert!(whole.oversized);
    offsets.finish(1, &whole, Some(9));
    assert_eq!(offsets.offset(1), 0);
}

#[test]
fn only_what_was_added_is_read() {
    let mut bytes = file_of(vec![scalar("t", 1, 1.0)]);
    let first_len = bytes.len() as u64;
    let mut offsets = FileOffsets::new();
    assert_eq!(offsets.offset(3), 0);
    let read = process_single_file(&bytes, Some("run".to_string()));
    offsets.finish(3, &read, Some(first_len));
    assert_eq!(plain(&read.points), expected(&[("run", "t", 1, 1.0)]));
    assert_eq!(offsets.offset(3), first_len);
    assert_eq!(offsets.offset(4), 0);

    assert!(!offsets.has_grown(3, first_len));
    assert!(offsets.has_grown(3, first_len + 1));
    let same = process_new_events(3, first_len, &[], Some("run".to_string()), &mut offsets);
    assert!(same.points.is_empty());
    assert_eq!(offsets.offset(3), first_len);

    bytes.extend_from_slice(&file_of(vec![scalar("t", 2, 2.0), scalar("u", 3, 3.0)]));
    let start = offsets.offset(3) as usize;
    let more = process_new_events(
        3,
        bytes.len() as u64,
        &bytes[start..],
        Some("run".to_string()),
        &mut offsets,
    );
    assert_eq!(plain(&more.points), expected(&[("run", "t", 2, 2.0), ("run", "u", 3, 3.0)]));
    assert_eq!(offsets.offset(3), bytes.len() as u64);

    // A file that has become shorter is left alone.
    let shorter = process_new_events(3, 5, &bytes, Some("run".to_string()), &mut offsets);
    assert!(shorter.points.is_empty());
    assert_eq!(offsets.offset(3), bytes.len() as u64);
}

#[test]
fn a_growing_file_is_read_as_if_at_once() {
    let first = file_of(vec![scalar("t", 1, 1.0), scalar("u", 2, 2.0)]);
    let mut whole = first.clone();
    let added = file_of(vec![scalar("t", 3, 3.0)]);
    whole.extend_from_slice(&added);
    let mut pieces: Vec<ScalarPoint> = Vec::new();
    let mut offsets = FileOffsets::new();
    let len = first.len() as u64;
    let mut start = process_single_file(&first, None);
    offsets.finish(1, &start, Some(len));
    pieces.append(&mut start.points);
    let len = whole.len() as u64;
    pieces.append(&mut process_new_events(1, len, &added, None, &mut offsets).points);
    let at_once = process_single_file(&whole, None).points;
    assert_eq!(plain(&pieces), plain(&at_once));
    assert_eq!(at_once.len(), 3);
    assert_eq!(offsets.offset(1), len);
}

#[test]
fn a_file_of_unknown_length_stays_unread() {
    let bytes = file_of(vec![scalar("t", 1, 1.0)]);
    let mut offsets = FileOffsets::new();
    let read = process_single_file(&bytes, None);
    offsets.finish(3, &read, None);
    assert_eq!(plain(&read.points), expected(&[("root", "t", 1, 1.0)]));
    assert_eq!(offsets.offset(3), 0);
}

#[test]
fn runs_are_named_after_the_directory() {
    assert_eq!(run_name(Some("PPO_3".to_string())), "PPO_3");
    assert_eq!(run_name(None), "root");
}

#[test]
fn event_files_are_known_by_name_or_path() {
    assert!(is_event_file_name(&Some("events.out.tfevents.17.host".to_string())));
    assert!(!is_event_file_name(&Some("my.events.out.tfevents".to_string())));
    assert!(!is_event_file_name(&None));
    assert!(is_event_path("/logs/old.tfevents.bak"));
    assert!(is_event_path("/tfevents/readme.txt"));
    assert!(!is_event_path("/logs/readme.txt"));
}

#[test]
fn modified_event_files_are_read() {
    let names = vec![
        Some("events.out.tfevents.1".to_string()),
        None,
        Some("readme.txt".to_string()),
        Some("events.out.tfevents.2".to_string()),
    ];
    assert_eq!(start_live_monitor(FileEventKind::Modify, &names), vec![0, 3]);
    for kind in [
        FileEventKind::Any,
        FileEventKind::Access,
        FileEventKind::Create,
        FileEventKind::Remove,
        FileEventKind::Other,
    ] {
        assert!(start_live_monitor(kind, &names).is_empty());
    }
}

fn entry(kind: EntryKind, name: &str) -> DirEntry {
    DirEntry { kind, name: Some(name.to_string()), path: format!("/logs/{}", name) }
}

#[test]
fn scans_descend_and_read() {
    let entries = vec![
        entry(EntryKind::Directory, "events.out.tfevents"),
        entry(EntryKind::File, "events.out.tfevents.1"),
        entry(EntryKind::File, "copy of tfevents"),
        entry(EntryKind::File, "readme.txt"),
        entry(EntryKind::Other, "events.out.tfevents.2"),
    ];
    assert_eq!(
        visit_dirs(ScanRule::FileName, 2, 2, &entries),
        vec![ScanStep::Descend(3), ScanStep::Read, ScanStep::Skip, ScanStep::Skip, ScanStep::Skip]
    );
    assert_eq!(
        visit_dirs(ScanRule::WholePath, 0, 2, &entries),
        vec![ScanStep::Descend(1), ScanStep::Read, ScanStep::Read, ScanStep::Skip, ScanStep::Skip]
    );
    assert!(visit_dirs(ScanRule::FileName, 3, 2, &entries).is_empty());
    let files = vec![entry(EntryKind::File, "events.out.tfevents.1")];
    assert_eq!(
        visit_dirs(ScanRule::FileName, usize::MAX, usize::MAX, &files),
        vec![ScanStep::Read]
    );
    assert!(is_listed(2, 2));
    assert!(!is_listed(3, 2));
}

/// A directory with its entries, each with what is inside.
struct Tree {
    kind: EntryKind,
    name: &'static str,
    inside: Vec<Tree>,
}

fn file(name: &'static str) -> Tree {
    Tree { kind: EntryKind::File, name, inside: Vec::new() }
}

fn directory(name: &'static str, inside: Vec<Tree>) -> Tree {
    Tree { kind: EntryKind::Directory, name, inside }
}

fn scan(trees: &[Tree], depth: usize, max_depth: usize, at: &[usize], read: &mut Vec<Vec<usize>>) {
    let entries: Vec<DirEntry> = trees.iter().map(|tree| entry(tree.kind, tree.name)).collect();
    let steps = visit_dirs(ScanRule::FileName, depth, max_depth, &entries);
    for (i, step) in steps.into_iter().enumerate() {
        let mut position = at.to_vec();
        position.push(i);
        match step {
            ScanStep::Descend(deeper) => scan(&trees[i].inside, deeper, max_depth, &position, read),
            ScanStep::Read => read.push(position),
            ScanStep::Skip => {}
        }
    }
}

#[test]
fn a_scan_reads_each_event_file_within_reach_once() {
    let trees = vec![
        file("events.out.tfevents.0"),
        directory(
            "a",
            vec![
                file("notes.txt"),
                file("events.out.tfevents.1"),
                directory("b", vec![file("events.out.tfevents.2"), directory("c", Vec::new())]),
            ],
        ),
        file("events.out.tfevents.0"),
    ];
    let reads = |depth: usize, max_depth: usize| {
        let mut read: Vec<Vec<usize>> = Vec::new();
        scan(&trees, depth, max_depth, &[], &mut read);
        read
    };
    assert_eq!(reads(0, 0), vec![vec![0], vec![2]]);
    assert_eq!(reads(0, 1), vec![vec![0], vec![1, 1], vec![2]]);
    assert_eq!(reads(0, 2), vec![vec![0], vec![1, 1], vec![1, 2, 0], vec![2]]);
    assert_eq!(reads(0, 9), reads(0, 2));
    assert_eq!(reads(3, 4), reads(0, 1));
    assert!(reads(1, 0).is_empty());
}
