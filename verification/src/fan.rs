//! The events that the kernel reports on directories, read from its buffer.

use crate::path::{join_path, joined_path};
use crate::text::{lemma_views_push, views};
use vstd::prelude::*;
use vstd::utf8::{decode_utf8, valid_utf8};

verus! {

/// A directory entry was made.
pub const FAN_CREATE: u64 = 0x0000_0100;

/// A directory entry was deleted.
pub const FAN_DELETE: u64 = 0x0000_0200;

/// The queue was full and events were lost.
pub const FAN_Q_OVERFLOW: u64 = 0x0000_4000;

/// A directory entry was moved.
pub const FAN_RENAME: u64 = 0x1000_0000;

/// The entry is a directory.
pub const FAN_ONDIR: u64 = 0x4000_0000;

/// The length of what every event begins with.
pub const EVENT_METADATA_LEN: usize = 24;

/// The record names the parent directory and the entry in it.
pub const FAN_EVENT_INFO_TYPE_DFID_NAME: u8 = 2;

/// The record names where a moved entry was.
pub const FAN_EVENT_INFO_TYPE_OLD_DFID_NAME: u8 = 10;

/// The record names where a moved entry went.
pub const FAN_EVENT_INFO_TYPE_NEW_DFID_NAME: u8 = 12;

/// The place of the file handle in a record.
pub const HANDLE_OFFSET: usize = 12;

/// The length of what a file handle begins with.
pub const HANDLE_HEADER_LEN: usize = 8;

/// The text that `bytes` encode; none where they are not UTF-8.
///
/// This rests on `String::from_utf8`: that it accepts exactly the valid encodings, and
/// that the text it returns is the one encoded.
#[verifier::external_body]
fn utf8_text(bytes: Vec<u8>) -> (r: Option<String>)
    ensures
        r is Some <==> valid_utf8(bytes@),
        r matches Some(s) ==> s@ == decode_utf8(bytes@),
{
    String::from_utf8(bytes).ok()
}

/// The number of two bytes at `at`; `big` where the larger byte comes first.
pub open spec fn u16_at(b: Seq<u8>, at: int, big: bool) -> int {
    if big {
        b[at] * 0x100 + b[at + 1]
    } else {
        b[at] + b[at + 1] * 0x100
    }
}

/// The number of four bytes at `at`.
pub open spec fn u32_at(b: Seq<u8>, at: int, big: bool) -> int {
    if big {
        u16_at(b, at, big) * 0x1_0000 + u16_at(b, at + 2, big)
    } else {
        u16_at(b, at, big) + u16_at(b, at + 2, big) * 0x1_0000
    }
}

/// The number of eight bytes at `at`.
pub open spec fn u64_at(b: Seq<u8>, at: int, big: bool) -> int {
    if big {
        u32_at(b, at, big) * 0x1_0000_0000 + u32_at(b, at + 4, big)
    } else {
        u32_at(b, at, big) + u32_at(b, at + 4, big) * 0x1_0000_0000
    }
}

/// Reads a number of two bytes.
fn read_u16(b: &Vec<u8>, at: usize, big: bool) -> (r: u16)
    requires
        at + 2 <= b.len(),
    ensures
        r == u16_at(b@, at as int, big),
{
    let first: u16 = b[at] as u16;
    let second: u16 = b[at + 1] as u16;
    if big {
        first * 0x100 + second
    } else {
        first + second * 0x100
    }
}

/// Reads a number of four bytes.
fn read_u32(b: &Vec<u8>, at: usize, big: bool) -> (r: u32)
    requires
        at + 4 <= b.len(),
    ensures
        r == u32_at(b@, at as int, big),
{
    let first: u32 = read_u16(b, at, big) as u32;
    let second: u32 = read_u16(b, at + 2, big) as u32;
    if big {
        first * 0x1_0000 + second
    } else {
        first + second * 0x1_0000
    }
}

/// Reads a number of eight bytes.
fn read_u64(b: &Vec<u8>, at: usize, big: bool) -> (r: u64)
    requires
        at + 8 <= b.len(),
    ensures
        r == u64_at(b@, at as int, big),
{
    let first: u64 = read_u32(b, at, big) as u64;
    let second: u64 = read_u32(b, at + 4, big) as u64;
    if big {
        first * 0x1_0000_0000 + second
    } else {
        first + second * 0x1_0000_0000
    }
}

/// The bytes before the first that is zero.
pub open spec fn before_nul(b: Seq<u8>) -> Seq<u8>
    decreases b.len(),
{
    if b.len() == 0 || b[0] == 0 {
        Seq::empty()
    } else {
        seq![b[0]] + before_nul(b.skip(1))
    }
}

/// Copies the bytes of `b[from..to]` before the first that is zero.
fn take_until_nul(b: &Vec<u8>, from: usize, to: usize) -> (r: Vec<u8>)
    requires
        from <= to <= b@.len(),
    ensures
        r@ == before_nul(b@.subrange(from as int, to as int)),
{
    let mut out: Vec<u8> = Vec::new();
    let mut i: usize = from;
    assert(out@ + before_nul(b@.subrange(i as int, to as int)) =~= before_nul(
        b@.subrange(from as int, to as int),
    ));
    while i < to && b[i] != 0
        invariant
            from <= i <= to <= b@.len(),
            out@ + before_nul(b@.subrange(i as int, to as int)) == before_nul(
                b@.subrange(from as int, to as int),
            ),
        decreases to - i,
    {
        let ghost rest = b@.subrange(i as int, to as int);
        out.push(b[i]);
        i = i + 1;
        assert(rest.skip(1) =~= b@.subrange(i as int, to as int));
        assert(out@ + before_nul(b@.subrange(i as int, to as int)) =~= out@.drop_last()
            + before_nul(rest));
    }
    assert(out@ + Seq::<u8>::empty() =~= out@);
    out
}

/// A record that names a directory entry: where the handle of its parent lies in the
/// buffer, and its name.
pub struct RecordInfo {
    pub handle_from: int,
    pub handle_to: int,
    pub name: Seq<char>,
}

/// A record that names a directory entry.
#[derive(Debug)]
pub struct NameRecord {
    pub handle_from: usize,
    pub handle_to: usize,
    pub name: String,
}

impl View for NameRecord {
    type V = RecordInfo;

    open spec fn view(&self) -> RecordInfo {
        RecordInfo {
            handle_from: self.handle_from as int,
            handle_to: self.handle_to as int,
            name: self.name@,
        }
    }
}

/// What a record says, where there is one.
pub open spec fn record_view(r: Option<NameRecord>) -> Option<RecordInfo> {
    match r {
        Some(record) => Some(record@),
        None => None,
    }
}

/// Whether a record of this type names a directory entry.
pub open spec fn names_entry(kind: u8) -> bool {
    kind == FAN_EVENT_INFO_TYPE_DFID_NAME || kind == FAN_EVENT_INFO_TYPE_OLD_DFID_NAME || kind
        == FAN_EVENT_INFO_TYPE_NEW_DFID_NAME
}

/// The record in `b[from..to]`; none where it is of another type, cut short, or
/// names nothing.
pub open spec fn record_of(b: Seq<u8>, from: int, to: int, big: bool) -> Option<RecordInfo> {
    let len = u16_at(b, from + 2, big);
    let end = HANDLE_OFFSET + HANDLE_HEADER_LEN + u32_at(b, from + HANDLE_OFFSET, big);
    let bytes = before_nul(b.subrange(from + end, from + len));
    if to - from < HANDLE_OFFSET + HANDLE_HEADER_LEN || !names_entry(b[from]) || len > to - from
        || end >= len {
        None
    } else if bytes.len() == 0 || !valid_utf8(bytes) {
        None
    } else {
        Some(
            RecordInfo {
                handle_from: from + HANDLE_OFFSET,
                handle_to: from + end,
                name: decode_utf8(bytes),
            },
        )
    }
}

/// Reads the record in `b[from..to]`.
fn parse_dfid_name(b: &Vec<u8>, from: usize, to: usize, big: bool) -> (r: Option<NameRecord>)
    requires
        from <= to <= b@.len(),
    ensures
        record_view(r) == record_of(b@, from as int, to as int, big),
{
    let room: usize = to - from;
    if room < HANDLE_OFFSET + HANDLE_HEADER_LEN {
        return None;
    }
    let kind: u8 = b[from];
    let len: usize = read_u16(b, from + 2, big) as usize;
    if kind != FAN_EVENT_INFO_TYPE_DFID_NAME && kind != FAN_EVENT_INFO_TYPE_OLD_DFID_NAME && kind
        != FAN_EVENT_INFO_TYPE_NEW_DFID_NAME {
        return None;
    }
    if len > room {
        return None;
    }
    let handle_bytes: u32 = read_u32(b, from + HANDLE_OFFSET, big);
    if len <= HANDLE_OFFSET + HANDLE_HEADER_LEN || handle_bytes >= (len - HANDLE_OFFSET
        - HANDLE_HEADER_LEN) as u32 {
        return None;
    }
    let end: usize = HANDLE_OFFSET + HANDLE_HEADER_LEN + handle_bytes as usize;
    let bytes = take_until_nul(b, from + end, from + len);
    if bytes.len() == 0 {
        return None;
    }
    match utf8_text(bytes) {
        Some(name) => Some(
            NameRecord { handle_from: from + HANDLE_OFFSET, handle_to: from + end, name },
        ),
        None => None,
    }
}

/// Where a moved entry was and went, as the last records in `b[at..end]` say; `old`
/// and `new` where there are none.
pub open spec fn sides(
    b: Seq<u8>,
    at: int,
    end: int,
    big: bool,
    old_side: Option<RecordInfo>,
    new_side: Option<RecordInfo>,
) -> (Option<RecordInfo>, Option<RecordInfo>)
    decreases end - at,
{
    let len = u16_at(b, at + 2, big);
    if end - at < 4 || len < 4 || at + len > end {
        (old_side, new_side)
    } else {
        let record = record_of(b, at, at + len, big);
        if b[at] == FAN_EVENT_INFO_TYPE_OLD_DFID_NAME {
            sides(b, at + len, end, big, record, new_side)
        } else if b[at] == FAN_EVENT_INFO_TYPE_NEW_DFID_NAME {
            sides(b, at + len, end, big, old_side, record)
        } else {
            sides(b, at + len, end, big, old_side, new_side)
        }
    }
}

/// Reads where a moved entry was and went.
fn parse_sides(b: &Vec<u8>, from: usize, end: usize, big: bool) -> (r: (
    Option<NameRecord>,
    Option<NameRecord>,
))
    requires
        from <= end <= b@.len(),
    ensures
        (record_view(r.0), record_view(r.1)) == sides(b@, from as int, end as int, big, None, None),
{
    let mut old_side: Option<NameRecord> = None;
    let mut new_side: Option<NameRecord> = None;
    let mut at: usize = from;
    while end - at >= 4
        invariant
            from <= at <= end <= b@.len(),
            sides(b@, at as int, end as int, big, record_view(old_side), record_view(new_side))
                == sides(b@, from as int, end as int, big, None, None),
        ensures
            (record_view(old_side), record_view(new_side)) == sides(
                b@,
                from as int,
                end as int,
                big,
                None,
                None,
            ),
        decreases end - at,
    {
        let len: usize = read_u16(b, at + 2, big) as usize;
        if len < 4 || len > end - at {
            break;
        }
        let kind: u8 = b[at];
        if kind == FAN_EVENT_INFO_TYPE_OLD_DFID_NAME {
            old_side = parse_dfid_name(b, at, at + len, big);
        } else if kind == FAN_EVENT_INFO_TYPE_NEW_DFID_NAME {
            new_side = parse_dfid_name(b, at, at + len, big);
        }
        at = at + len;
    }
    (old_side, new_side)
}

/// An event as the buffer states it: parents are still handles.
pub enum EventInfo {
    Created(RecordInfo),
    Deleted(RecordInfo),
    Moved(Option<RecordInfo>, Option<RecordInfo>),
}

/// An event as the buffer states it.
#[derive(Debug)]
pub enum RawEvent {
    /// A directory was made.
    Created(NameRecord),
    /// A directory was deleted.
    Deleted(NameRecord),
    /// A directory was moved; a side is missing where it could not be read.
    Moved(Option<NameRecord>, Option<NameRecord>),
}

impl View for RawEvent {
    type V = EventInfo;

    open spec fn view(&self) -> EventInfo {
        match *self {
            RawEvent::Created(r) => EventInfo::Created(r@),
            RawEvent::Deleted(r) => EventInfo::Deleted(r@),
            RawEvent::Moved(a, b) => EventInfo::Moved(record_view(a), record_view(b)),
        }
    }
}

/// The event in `b[at..at + len]`; none where it is of no interest.
pub open spec fn event_at(b: Seq<u8>, at: int, len: int, big: bool) -> Option<EventInfo> {
    let mask = u64_at(b, at + 8, big) as u64;
    let from = at + EVENT_METADATA_LEN;
    if mask & FAN_ONDIR == 0 {
        None
    } else if mask & FAN_RENAME != 0 {
        let both = sides(b, from, at + len, big, None, None);
        if both.0 is None && both.1 is None {
            None
        } else {
            Some(EventInfo::Moved(both.0, both.1))
        }
    } else {
        match record_of(b, from, at + len, big) {
            Some(record) => if mask & FAN_CREATE != 0 {
                Some(EventInfo::Created(record))
            } else if mask & FAN_DELETE != 0 {
                Some(EventInfo::Deleted(record))
            } else {
                None
            },
            None => None,
        }
    }
}

/// Whether an event begins at `at` and lies in the buffer whole.
pub open spec fn whole_at(b: Seq<u8>, at: int, big: bool) -> bool {
    at + EVENT_METADATA_LEN <= b.len() && EVENT_METADATA_LEN <= u32_at(b, at, big) && at + u32_at(
        b,
        at,
        big,
    ) <= b.len()
}

/// The events of the buffer from `at` on, up to one that is not whole.
pub open spec fn events_from(b: Seq<u8>, at: int, big: bool) -> Seq<EventInfo>
    decreases b.len() - at,
{
    let len = u32_at(b, at, big);
    if !whole_at(b, at, big) {
        Seq::empty()
    } else {
        match event_at(b, at, len, big) {
            Some(event) => seq![event] + events_from(b, at + len, big),
            None => events_from(b, at + len, big),
        }
    }
}

/// Whether an event from `at` on says that events were lost.
pub open spec fn lost_from(b: Seq<u8>, at: int, big: bool) -> bool
    decreases b.len() - at,
{
    whole_at(b, at, big) && ((u64_at(b, at + 8, big) as u64) & FAN_Q_OVERFLOW != 0 || lost_from(
        b,
        at + u32_at(b, at, big),
        big,
    ))
}

/// Reads the event in `b[at..at + len]`.
fn parse_event(b: &Vec<u8>, at: usize, len: usize, big: bool) -> (r: Option<RawEvent>)
    requires
        EVENT_METADATA_LEN <= len,
        at + len <= b.len(),
    ensures
        match r {
            Some(event) => Some(event@),
            None => None,
        } == event_at(b@, at as int, len as int, big),
{
    let mask: u64 = read_u64(b, at + 8, big);
    if mask & FAN_ONDIR == 0 {
        return None;
    }
    let from: usize = at + EVENT_METADATA_LEN;
    if mask & FAN_RENAME != 0 {
        let both = parse_sides(b, from, at + len, big);
        if both.0.is_none() && both.1.is_none() {
            None
        } else {
            Some(RawEvent::Moved(both.0, both.1))
        }
    } else {
        match parse_dfid_name(b, from, at + len, big) {
            Some(record) => if mask & FAN_CREATE != 0 {
                Some(RawEvent::Created(record))
            } else if mask & FAN_DELETE != 0 {
                Some(RawEvent::Deleted(record))
            } else {
                None
            },
            None => None,
        }
    }
}

/// What a buffer of the kernel says.
#[derive(Debug)]
pub struct EventBuffer {
    /// The events on directories, in order.
    pub events: Vec<RawEvent>,
    /// Whether events were lost.
    pub overflow: bool,
}

/// Reads a buffer of events; `big` where the machine stores the larger byte first.
pub fn parse_events(b: &Vec<u8>, big: bool) -> (r: EventBuffer)
    ensures
        views(r.events@) == events_from(b@, 0, big),
        r.overflow == lost_from(b@, 0, big),
{
    let mut events: Vec<RawEvent> = Vec::new();
    let mut overflow: bool = false;
    let mut at: usize = 0;
    assert(views(events@) + events_from(b@, 0, big) =~= events_from(b@, 0, big));
    while b.len() - at >= EVENT_METADATA_LEN
        invariant
            at <= b@.len(),
            views(events@) + events_from(b@, at as int, big) == events_from(b@, 0, big),
            (overflow || lost_from(b@, at as int, big)) == lost_from(b@, 0, big),
        ensures
            views(events@) == events_from(b@, 0, big),
            overflow == lost_from(b@, 0, big),
        decreases b@.len() - at,
    {
        let len: u32 = read_u32(b, at, big);
        if len < EVENT_METADATA_LEN as u32 || len as u64 > (b.len() - at) as u64 {
            assert(views(events@) + Seq::<EventInfo>::empty() =~= views(events@));
            break;
        }
        let mask: u64 = read_u64(b, at + 8, big);
        if mask & FAN_Q_OVERFLOW != 0 {
            overflow = true;
        }
        if let Some(event) = parse_event(b, at, len as usize, big) {
            let ghost rest = events_from(b@, at + len, big);
            proof {
                lemma_views_push(events@, event);
                assert(views(events@).push(event@) + rest =~= views(events@) + (seq![event@]
                    + rest));
            }
            events.push(event);
        }
        at = at + len as usize;
        assert(views(events@) + Seq::<EventInfo>::empty() =~= views(events@));
    }
    EventBuffer { events, overflow }
}

/// Whether a record's handle lies in a buffer of `len` bytes, header and all.
pub open spec fn in_buffer(r: RecordInfo, len: int) -> bool {
    0 <= r.handle_from && r.handle_from + HANDLE_HEADER_LEN <= r.handle_to && r.handle_to <= len
        && r.name.len() > 0
}

/// A record read from a part of the buffer lies in it.
proof fn lemma_record_in_buffer(b: Seq<u8>, from: int, to: int, big: bool)
    requires
        0 <= from <= to <= b.len(),
    ensures
        record_of(b, from, to, big) matches Some(r) ==> in_buffer(r, b.len() as int),
{
    if record_of(b, from, to, big) is Some {
        let len = u16_at(b, from + 2, big);
        let end = HANDLE_OFFSET + HANDLE_HEADER_LEN + u32_at(b, from + HANDLE_OFFSET, big);
        let bytes = before_nul(b.subrange(from + end, from + len));
        assert(decode_utf8(bytes).len() > 0);
    }
}

/// The records on both sides of a move lie in the buffer.
proof fn lemma_sides_in_buffer(
    b: Seq<u8>,
    at: int,
    end: int,
    big: bool,
    old_side: Option<RecordInfo>,
    new_side: Option<RecordInfo>,
)
    requires
        0 <= at <= end <= b.len(),
        old_side matches Some(r) ==> in_buffer(r, b.len() as int),
        new_side matches Some(r) ==> in_buffer(r, b.len() as int),
    ensures
        ({
            let both = sides(b, at, end, big, old_side, new_side);
            &&& both.0 matches Some(r) ==> in_buffer(r, b.len() as int)
            &&& both.1 matches Some(r) ==> in_buffer(r, b.len() as int)
        }),
    decreases end - at,
{
    let len = u16_at(b, at + 2, big);
    if end - at >= 4 && len >= 4 && at + len <= end {
        lemma_record_in_buffer(b, at, at + len, big);
        let record = record_of(b, at, at + len, big);
        if b[at] == FAN_EVENT_INFO_TYPE_OLD_DFID_NAME {
            lemma_sides_in_buffer(b, at + len, end, big, record, new_side);
        } else if b[at] == FAN_EVENT_INFO_TYPE_NEW_DFID_NAME {
            lemma_sides_in_buffer(b, at + len, end, big, old_side, record);
        } else {
            lemma_sides_in_buffer(b, at + len, end, big, old_side, new_side);
        }
    }
}

/// Whether every handle that an event refers to lies in a buffer of `len` bytes.
pub open spec fn event_in_buffer(e: EventInfo, len: int) -> bool {
    match e {
        EventInfo::Created(r) => in_buffer(r, len),
        EventInfo::Deleted(r) => in_buffer(r, len),
        EventInfo::Moved(a, b) => {
            &&& a is Some || b is Some
            &&& a matches Some(r) ==> in_buffer(r, len)
            &&& b matches Some(r) ==> in_buffer(r, len)
        },
    }
}

/// Law: whatever bytes a buffer holds, every event read from it names at least one
/// entry, and each handle lies inside the buffer.
pub proof fn law_events_in_buffer(b: Seq<u8>, at: int, big: bool, i: int)
    requires
        0 <= at,
        0 <= i < events_from(b, at, big).len(),
    ensures
        event_in_buffer(events_from(b, at, big)[i], b.len() as int),
    decreases b.len() - at,
{
    let len = u32_at(b, at, big);
    if whole_at(b, at, big) {
        let from = at + EVENT_METADATA_LEN;
        lemma_record_in_buffer(b, from, at + len, big);
        lemma_sides_in_buffer(b, from, at + len, big, None, None);
        match event_at(b, at, len, big) {
            Some(event) => {
                if i > 0 {
                    law_events_in_buffer(b, at + len, big, i - 1);
                }
            },
            None => {
                law_events_in_buffer(b, at + len, big, i);
            },
        }
    }
}

/// What happened to directories, by path.
pub enum PathEvent {
    Created(Seq<char>),
    Deleted(Seq<char>),
    Renamed(Seq<char>, Seq<char>),
}

/// What happened to a directory.
#[derive(Debug)]
pub enum DirEvent {
    Created(String),
    Deleted(String),
    Renamed(String, String),
}

impl View for DirEvent {
    type V = PathEvent;

    open spec fn view(&self) -> PathEvent {
        match *self {
            DirEvent::Created(p) => PathEvent::Created(p@),
            DirEvent::Deleted(p) => PathEvent::Deleted(p@),
            DirEvent::Renamed(p, q) => PathEvent::Renamed(p@, q@),
        }
    }
}

/// The path of a record's entry, where its parent could be found.
pub open spec fn entry_path(r: Option<RecordInfo>, parent: Option<Seq<char>>) -> Option<Seq<char>> {
    match (r, parent) {
        (Some(record), Some(dir)) => Some(joined_path(dir, record.name)),
        _ => None,
    }
}

/// The path of a record's entry.
fn join_entry(r: Option<&NameRecord>, parent: Option<&str>) -> (path: Option<String>)
    ensures
        match path {
            Some(p) => Some(p@),
            None => None,
        } == entry_path(
            match r {
                Some(record) => Some(record@),
                None => None,
            },
            match parent {
                Some(dir) => Some(dir@),
                None => None,
            },
        ),
{
    match r {
        Some(record) => match parent {
            Some(dir) => Some(join_path(dir, record.name.as_str())),
            None => None,
        },
        None => None,
    }
}

/// What an event means, given the paths of the parents that could be found. A move of
/// which only the source is known is a deletion; one of which only the target is
/// known makes a directory.
pub open spec fn event_of(
    e: EventInfo,
    first: Option<Seq<char>>,
    second: Option<Seq<char>>,
) -> Option<PathEvent> {
    match e {
        EventInfo::Created(r) => match entry_path(Some(r), first) {
            Some(p) => Some(PathEvent::Created(p)),
            None => None,
        },
        EventInfo::Deleted(r) => match entry_path(Some(r), first) {
            Some(p) => Some(PathEvent::Deleted(p)),
            None => None,
        },
        EventInfo::Moved(a, b) => match (entry_path(a, first), entry_path(b, second)) {
            (Some(p), Some(q)) => Some(PathEvent::Renamed(p, q)),
            (Some(p), None) => Some(PathEvent::Deleted(p)),
            (None, Some(q)) => Some(PathEvent::Created(q)),
            (None, None) => None,
        },
    }
}

impl RawEvent {
    /// The record whose parent is to be found first.
    pub fn first(&self) -> (r: Option<&NameRecord>)
        ensures
            match r {
                Some(record) => Some(record@),
                None => None,
            } == match self@ {
                EventInfo::Created(record) => Some(record),
                EventInfo::Deleted(record) => Some(record),
                EventInfo::Moved(a, b) => a,
            },
    {
        match self {
            RawEvent::Created(record) => Some(record),
            RawEvent::Deleted(record) => Some(record),
            RawEvent::Moved(Some(record), _) => Some(record),
            RawEvent::Moved(None, _) => None,
        }
    }

    /// The record whose parent is to be found second.
    pub fn second(&self) -> (r: Option<&NameRecord>)
        ensures
            match r {
                Some(record) => Some(record@),
                None => None,
            } == match self@ {
                EventInfo::Created(record) => None,
                EventInfo::Deleted(record) => None,
                EventInfo::Moved(a, b) => b,
            },
    {
        match self {
            RawEvent::Moved(_, Some(record)) => Some(record),
            _ => None,
        }
    }

    /// What the event means, given the paths of the parents of both records; a path is
    /// missing where it could not be found.
    pub fn resolve(&self, first: Option<&str>, second: Option<&str>) -> (r: Option<DirEvent>)
        ensures
            match r {
                Some(event) => Some(event@),
                None => None,
            } == event_of(
                self@,
                match first {
                    Some(dir) => Some(dir@),
                    None => None,
                },
                match second {
                    Some(dir) => Some(dir@),
                    None => None,
                },
            ),
    {
        let from = join_entry(self.first(), first);
        let to = join_entry(self.second(), second);
        match self {
            RawEvent::Created(_) => match from {
                Some(p) => Some(DirEvent::Created(p)),
                None => None,
            },
            RawEvent::Deleted(_) => match from {
                Some(p) => Some(DirEvent::Deleted(p)),
                None => None,
            },
            RawEvent::Moved(_, _) => match (from, to) {
                (Some(p), Some(q)) => Some(DirEvent::Renamed(p, q)),
                (Some(p), None) => Some(DirEvent::Deleted(p)),
                (None, Some(q)) => Some(DirEvent::Created(q)),
                (None, None) => None,
            },
        }
    }
}

/// Law: a number of two bytes counts the one byte for what it is and the other 256 times;
/// which one depends on the machine, and read on the other kind of machine the bytes
/// change places. Numbers of four and eight bytes are made of two halves in the same way.
pub proof fn law_numbers(b: Seq<u8>, at: int)
    ensures
        u16_at(b, at, false) == b[at] + 256 * b[at + 1],
        u16_at(b, at, true) == 256 * b[at] + b[at + 1],
        u32_at(b, at, false) == u16_at(b, at, false) + 65536 * u16_at(b, at + 2, false),
        u32_at(b, at, true) == 65536 * u16_at(b, at, true) + u16_at(b, at + 2, true),
        u64_at(b, at, false) == u32_at(b, at, false) + 4294967296 * u32_at(b, at + 4, false),
        u64_at(b, at, true) == 4294967296 * u32_at(b, at, true) + u32_at(b, at + 4, true),
{
}

/// What stands before the first zero byte.
proof fn lemma_before_nul(b: Seq<u8>, n: int)
    requires
        0 <= n <= b.len(),
        forall|i: int| 0 <= i < n ==> #[trigger] b[i] != 0,
        n < b.len() ==> b[n] == 0,
    ensures
        before_nul(b) == b.take(n),
    decreases b.len(),
{
    if n == 0 {
        assert(b.take(0) =~= Seq::empty());
    } else {
        let rest = b.skip(1);
        assert(forall|i: int| 0 <= i < n - 1 ==> #[trigger] rest[i] == b[i + 1]);
        lemma_before_nul(rest, n - 1);
        assert(seq![b[0]] + rest.take(n - 1) =~= b.take(n));
    }
}

/// Law: a record that names an entry is read as the kernel writes it: behind its header
/// the file handle of the parent, with its own length, and behind that the name, up to a
/// zero byte or the end of the record.
pub proof fn law_record(
    b: Seq<u8>,
    from: int,
    to: int,
    big: bool,
    len: int,
    handle: int,
    name: Seq<u8>,
)
    requires
        0 <= from,
        from + len <= to <= b.len(),
        b[from] == 2 || b[from] == 10 || b[from] == 12,
        u16_at(b, from + 2, big) == len,
        u32_at(b, from + 12, big) == handle,
        0 <= handle,
        0 < name.len(),
        20 + handle + name.len() <= len,
        b.subrange(from + 20 + handle, from + 20 + handle + name.len()) == name,
        forall|i: int| 0 <= i < name.len() ==> #[trigger] name[i] != 0,
        20 + handle + name.len() < len ==> b[from + 20 + handle + name.len()] == 0,
        valid_utf8(name),
    ensures
        record_of(b, from, to, big) == Some(
            RecordInfo {
                handle_from: from + 12,
                handle_to: from + 20 + handle,
                name: decode_utf8(name),
            },
        ),
{
    let rest = b.subrange(from + 20 + handle, from + len);
    let n = name.len() as int;
    assert(forall|i: int| 0 <= i < n ==> #[trigger] rest[i] == name[i]) by {
        assert forall|i: int| 0 <= i < n implies #[trigger] rest[i] == name[i] by {
            assert(b.subrange(from + 20 + handle, from + 20 + handle + n)[i] == name[i]);
        }
    }
    lemma_before_nul(rest, n);
    assert(rest.take(n) =~= name);
}

/// Law: an event counts only where it is on a directory. One that made an entry is a
/// creation, one that deleted an entry a deletion, of the entry that its record names.
pub proof fn law_made_or_deleted(b: Seq<u8>, at: int, len: int, big: bool)
    ensures
        ({
            let mask = u64_at(b, at + 8, big) as u64;
            let record = record_of(b, at + 24, at + len, big);
            &&& mask & 0x4000_0000 == 0 ==> event_at(b, at, len, big) is None
            &&& mask & 0x4000_0000 != 0 && mask & 0x1000_0000 == 0 ==> match record {
                Some(r) => (mask & 0x100 != 0 ==> event_at(b, at, len, big) == Some(
                    EventInfo::Created(r),
                )) && (mask & 0x100 == 0 && mask & 0x200 != 0 ==> event_at(b, at, len, big) == Some(
                    EventInfo::Deleted(r),
                )) && (mask & 0x100 == 0 && mask & 0x200 == 0 ==> event_at(b, at, len, big)
                    is None),
                None => event_at(b, at, len, big) is None,
            }
        }),
{
}

/// Law: a move of a directory carries two records, one of where the entry was and one of
/// where it went, in either order; each is taken for its side.
pub proof fn law_moved_entry(b: Seq<u8>, at: int, first: int, second: int, big: bool)
    requires
        0 <= at,
        u64_at(b, at + 8, big) as u64 & 0x4000_0000 != 0,
        u64_at(b, at + 8, big) as u64 & 0x1000_0000 != 0,
        u16_at(b, at + 24 + 2, big) == first,
        u16_at(b, at + 24 + first + 2, big) == second,
        first >= 4,
        second >= 4,
        (b[at + 24] == 10 && b[at + 24 + first] == 12) || (b[at + 24] == 12 && b[at + 24 + first]
            == 10),
    ensures
        ({
            let x = record_of(b, at + 24, at + 24 + first, big);
            let y = record_of(b, at + 24 + first, at + 24 + first + second, big);
            let (was, went) = if b[at + 24] == 10 {
                (x, y)
            } else {
                (y, x)
            };
            event_at(b, at, 24 + first + second, big) == if was is None && went is None {
                None
            } else {
                Some(EventInfo::Moved(was, went))
            }
        }),
{
    let end = at + 24 + first + second;
    let x = record_of(b, at + 24, at + 24 + first, big);
    let y = record_of(b, at + 24 + first, end, big);
    if b[at + 24] == 10 {
        assert(sides(b, at + 24, end, big, None, None) == sides(
            b,
            at + 24 + first,
            end,
            big,
            x,
            None,
        ));
        assert(sides(b, at + 24 + first, end, big, x, None) == sides(b, end, end, big, x, y));
    } else {
        assert(sides(b, at + 24, end, big, None, None) == sides(
            b,
            at + 24 + first,
            end,
            big,
            None,
            x,
        ));
        assert(sides(b, at + 24 + first, end, big, None, x) == sides(b, end, end, big, y, x));
    }
}

/// Law: the events of a buffer are read one behind the other, each as long as it says, up
/// to one that is cut short; events were lost exactly where one of them says so.
pub proof fn law_events_in_turn(b: Seq<u8>, at: int, big: bool)
    ensures
        ({
            let len = u32_at(b, at, big);
            let next = events_from(b, at + len, big);
            let whole = at + 24 <= b.len() && 24 <= len && at + len <= b.len();
            &&& !whole ==> events_from(b, at, big).len() == 0 && !lost_from(b, at, big)
            &&& whole ==> events_from(b, at, big) == match event_at(b, at, len, big) {
                Some(e) => seq![e] + next,
                None => next,
            }
            &&& whole ==> (lost_from(b, at, big) <==> u64_at(b, at + 8, big) as u64 & 0x4000 != 0
                || lost_from(b, at + len, big))
        }),
{
}

/// Law: an entry lies below its parent. A move of which both ends are known is a rename
/// from the one to the other; of one whose source alone is known, the source is gone; of
/// one whose target alone is known, the target is made.
pub proof fn law_event_paths(a: RecordInfo, b: RecordInfo, from: Seq<char>, to: Seq<char>)
    ensures
        ({
            let p = joined_path(from, a.name);
            let q = joined_path(to, b.name);
            let moved = EventInfo::Moved(Some(a), Some(b));
            &&& event_of(EventInfo::Created(a), Some(from), None) == Some(PathEvent::Created(p))
            &&& event_of(EventInfo::Deleted(a), Some(from), None) == Some(PathEvent::Deleted(p))
            &&& event_of(moved, Some(from), Some(to)) == Some(PathEvent::Renamed(p, q))
            &&& event_of(moved, Some(from), None) == Some(PathEvent::Deleted(p))
            &&& event_of(moved, None, Some(to)) == Some(PathEvent::Created(q))
            &&& event_of(moved, None, None) is None
            &&& event_of(EventInfo::Moved(Some(a), None), Some(from), Some(to)) == Some(
                PathEvent::Deleted(p),
            )
            &&& event_of(EventInfo::Moved(None, Some(b)), Some(from), Some(to)) == Some(
                PathEvent::Created(q),
            )
            &&& event_of(EventInfo::Created(a), None, Some(to)) is None
            &&& event_of(EventInfo::Deleted(a), None, Some(to)) is None
        }),
{
}

/// Law: a record that is cut off, that is of another kind, whose file handle leaves no room
/// for a name, or whose name is empty names nothing.
pub proof fn law_no_record(b: Seq<u8>, from: int, to: int, big: bool)
    requires
        0 <= from,
        from + 20 <= to <= b.len(),
    ensures
        ({
            let len = u16_at(b, from + 2, big);
            let end = 20 + u32_at(b, from + 12, big);
            (b[from] != 2 && b[from] != 10 && b[from] != 12) || from + len > to || end >= len
                || b[from + end] == 0 ==> record_of(b, from, to, big) is None
        }),
{
    let len = u16_at(b, from + 2, big);
    let end = 20 + u32_at(b, from + 12, big);
    if from + len <= to && end < len && b[from + end] == 0 {
        let rest = b.subrange(from + end, from + len);
        assert(rest[0] == b[from + end]);
        assert(before_nul(rest).len() == 0);
    }
}

} // verus!
