//! Event files: records one after the other, each a length, a checksum of the
//! length, an event, and a checksum of the event.
use tfrecord::protobuf::event::What;
use tfrecord::protobuf::summary::value::Value::SimpleValue;
use vstd::bytes::spec_u64_from_le_bytes;
use vstd::prelude::*;
use vstd::slice::slice_subrange;

verus! {

/// One value of a summary: its tag and, if it is a plain scalar, the bit pattern of
/// the number.
#[derive(Debug)]
pub struct LoggedValue {
    pub tag: String,
    pub simple: Option<u32>,
}

/// One event: its step and, if it is a summary, the values.
#[derive(Debug)]
pub struct LoggedEvent {
    pub step: i64,
    pub summary: Option<Vec<LoggedValue>>,
}

/// What stands at the front of the bytes of an event file.
#[derive(Debug)]
pub enum Record {
    /// Nothing: the bytes are at an end.
    End,
    /// A record that is cut off, fails a checksum or is no event.
    Damaged,
    Event(LoggedEvent),
}

pub struct ValueView {
    pub tag: Seq<char>,
    pub simple: Option<u32>,
}

pub struct EventView {
    pub step: i64,
    pub summary: Option<Seq<ValueView>>,
}

pub enum RecordView {
    End,
    Damaged,
    Event(EventView),
}

impl View for LoggedValue {
    type V = ValueView;

    open spec fn view(&self) -> ValueView {
        ValueView { tag: self.tag@, simple: self.simple }
    }
}

impl View for LoggedEvent {
    type V = EventView;

    open spec fn view(&self) -> EventView {
        EventView {
            step: self.step,
            summary: match self.summary {
                Some(values) => Some(values@.map_values(|value: LoggedValue| value@)),
                None => None,
            },
        }
    }
}

impl View for Record {
    type V = RecordView;

    open spec fn view(&self) -> RecordView {
        match self {
            Record::End => RecordView::End,
            Record::Damaged => RecordView::Damaged,
            Record::Event(event) => RecordView::Event(event@),
        }
    }
}

/// The last four of twelve bytes are the checksum of the first eight.
pub uninterp spec fn header_intact(header: Seq<u8>) -> bool;

/// The length that the record at the front announces, if its header is intact.
pub open spec fn announced(rest: Seq<u8>) -> Option<usize> {
    if rest.len() >= 12 && header_intact(rest.take(12)) {
        Some(spec_u64_from_le_bytes(rest.take(8)) as usize)
    } else {
        None
    }
}

/// `tfrecord::io::sync::try_read_len` with the integrity check: the length of the
/// record at the front, as eight bytes in little endian order, where all twelve
/// bytes of the header are there and the checksum is right.
#[verifier::external_body]
fn read_length(rest: &[u8]) -> (length: Option<usize>)
    ensures
        length == (if rest@.len() >= 12 && header_intact(rest@.take(12)) {
            Some(spec_u64_from_le_bytes(rest@.take(8)) as usize)
        } else {
            None
        }),
{
    let mut reader: &[u8] = rest;
    tfrecord::io::sync::try_read_len(&mut reader, true).ok().flatten()
}

/// The record at the front announces more bytes than any buffer can hold.
pub open spec fn oversized(rest: Seq<u8>) -> bool {
    announced(rest) matches Some(length) && length > isize::MAX
}

/// The record at the front, and how many bytes stand after it.
pub uninterp spec fn first_record(rest: Seq<u8>) -> (RecordView, usize);

/// `RecordIter::from_reader` with the default configuration and one call of `next`:
/// the record at the front and the number of bytes that are left. Only at the end of
/// the bytes is there no record, and every record takes up at least one byte. An event
/// takes up the header, a checksum and what is announced; bytes that stand after it
/// do not matter to it. A record that announces more than a buffer can hold makes the
/// reader panic, and is left out.
#[verifier::external_body]
fn read_record(rest: &[u8]) -> (read: (Record, usize))
    requires
        !oversized(rest@),
    ensures
        (read.0@, read.1) == first_record(rest@),
        read.0 is End <==> rest@.len() == 0,
        rest@.len() > 0 ==> read.1 < rest@.len(),
        read.0 is Event ==> read.1 + 16 <= rest@.len(),
        read.0 is Event ==> forall|more: Seq<u8>|
            read.1 + more.len() <= usize::MAX ==> #[trigger] first_record(rest@ + more) == (
                read.0@,
                (read.1 + more.len()) as usize,
            ),
{
    let mut reader: &[u8] = rest;
    let next = tfrecord::EventIter::from_reader(&mut reader, Default::default()).next();
    let record = match next {
        None => Record::End,
        Some(Err(_)) => Record::Damaged,
        Some(Ok(event)) => Record::Event(LoggedEvent { step: event.step, summary: match event.what {
            Some(What::Summary(summary)) => Some(summary.value.into_iter().map(|v| LoggedValue {
                tag: v.tag,
                simple: match v.value { Some(SimpleValue(x)) => Some(x.to_bits()), _ => None },
            }).collect()),
            _ => None,
        } }),
    };
    (record, reader.len())
}

/// The events in the bytes of an event file, in order, and whether they end at a
/// record that announces more than a buffer can hold. Damaged records are passed
/// over.
pub open spec fn decoded(bytes: Seq<u8>) -> (Seq<EventView>, bool)
    decreases bytes.len(),
{
    if bytes.len() == 0 {
        (Seq::empty(), false)
    } else if oversized(bytes) {
        (Seq::empty(), true)
    } else {
        let (record, left) = first_record(bytes);
        if left >= bytes.len() {
            (Seq::empty(), false)
        } else {
            let (events, cut) = decoded(bytes.skip(bytes.len() - left));
            match record {
                RecordView::Event(event) => (seq![event] + events, cut),
                _ => (events, cut),
            }
        }
    }
}

/// The bytes are events, one after the other, and nothing else.
pub open spec fn intact(bytes: Seq<u8>) -> bool
    decreases bytes.len(),
{
    bytes.len() == 0 || {
        let (record, left) = first_record(bytes);
        !oversized(bytes) && record is Event && left < bytes.len() && intact(
            bytes.skip(bytes.len() - left),
        )
    }
}

/// Whatever is added to the bytes is read as it would be by itself.
pub open spec fn reads_on(bytes: Seq<u8>) -> bool {
    forall|more: Seq<u8>|
        bytes.len() + more.len() <= usize::MAX ==> #[trigger] decoded(bytes + more) == (
            decoded(bytes).0 + decoded(more).0,
            decoded(more).1,
        )
}

/// The texts and numbers of a list of events.
pub open spec fn views(events: Seq<LoggedEvent>) -> Seq<EventView> {
    events.map_values(|event: LoggedEvent| event@)
}

/// Reads the events in the bytes of an event file. The second part of the result
/// says that they end at a record that announces more than a buffer can hold. Where
/// the bytes end with a whole event, a file that goes on with more can be read from
/// there, with the same outcome as if it were read at once.
pub fn read_events(bytes: &[u8]) -> (r: (Vec<LoggedEvent>, bool))
    ensures
        (views(r.0@), r.1) == decoded(bytes@),
        intact(bytes@) ==> reads_on(bytes@),
{
    let mut events: Vec<LoggedEvent> = Vec::new();
    let mut at: usize = 0;
    let ghost mut whole: bool = true;
    proof {
        assert(bytes@.skip(0) =~= bytes@);
        assert(views(events@) + decoded(bytes@).0 =~= decoded(bytes@).0);
        assert forall|more: Seq<u8>| #[trigger] decoded(bytes@ + more) == (
            views(events@) + decoded(bytes@.skip(0) + more).0,
            decoded(bytes@.skip(0) + more).1,
        ) by {
            let all = decoded(bytes@ + more);
            assert(views(events@) + all.0 =~= all.0);
        }
    }
    while at < bytes.len()
        invariant
            at <= bytes.len(),
            decoded(bytes@).0 == views(events@) + decoded(bytes@.skip(at as int)).0,
            decoded(bytes@).1 == decoded(bytes@.skip(at as int)).1,
            intact(bytes@) ==> whole && intact(bytes@.skip(at as int)),
            whole ==> forall|more: Seq<u8>|
                bytes@.len() + more.len() <= usize::MAX ==> #[trigger] decoded(bytes@ + more) == (
                    views(events@) + decoded(bytes@.skip(at as int) + more).0,
                    decoded(bytes@.skip(at as int) + more).1,
                ),
        decreases bytes.len() - at,
    {
        let rest: &[u8] = slice_subrange(bytes, at, bytes.len());
        let ghost here = bytes@.skip(at as int);
        assert(rest@ =~= here);
        if let Some(length) = read_length(rest) {
            if length > isize::MAX as usize {
                assert(oversized(here));
                assert(views(events@) + decoded(here).0 =~= views(events@));
                return (events, true);
            }
        }
        let (record, left) = read_record(rest);
        let ghost was = events@;
        let ghost after = here.skip(here.len() - left);
        at = bytes.len() - left;
        assert(after =~= bytes@.skip(at as int));
        if let Record::Event(event) = record {
            events.push(event);
            proof {
                assert(views(events@) =~= views(was).push(event@));
                assert(views(was) + (seq![event@] + decoded(after).0) =~= views(events@) + decoded(
                    after,
                ).0);
                if whole {
                    assert forall|more: Seq<u8>|
                        bytes@.len() + more.len() <= usize::MAX implies #[trigger] decoded(
                        bytes@ + more,
                    ) == (
                        views(events@) + decoded(after + more).0,
                        decoded(after + more).1,
                    ) by {
                        let longer = here + more;
                        assert(longer.take(12) =~= here.take(12));
                        assert(longer.take(8) =~= here.take(8));
                        assert(first_record(longer) == (
                            RecordView::Event(event@),
                            (left + more.len()) as usize,
                        ));
                        assert(longer.skip(longer.len() - (left + more.len())) =~= after + more);
                        let tail = decoded(after + more);
                        assert(decoded(longer) == (seq![event@] + tail.0, tail.1));
                        assert(views(was) + (seq![event@] + tail.0) =~= views(events@) + tail.0);
                    }
                }
            }
        } else {
            proof {
                whole = false;
            }
        }
    }
    proof {
        assert(views(events@) + Seq::<EventView>::empty() =~= views(events@));
        assert(bytes@.skip(bytes@.len() as int) =~= Seq::empty());
        if intact(bytes@) {
            assert forall|more: Seq<u8>|
                bytes@.len() + more.len() <= usize::MAX implies #[trigger] decoded(bytes@ + more)
                == (decoded(bytes@).0 + decoded(more).0, decoded(more).1) by {
                assert(Seq::<u8>::empty() + more =~= more);
            }
        }
    }
    (events, false)
}

} // verus!
