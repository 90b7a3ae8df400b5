use gd::daemon::{
    describe_fanotify_error, fallback_off, read_timestamp, scan_message, startup_plan, watch_mode,
    write_timestamp, FanError, Occasion, Polled, Startup, Waiting, Watch, WatchStep,
};
use gd::fan::{parse_events, DirEvent, RawEvent, FAN_CREATE, FAN_DELETE, FAN_ONDIR,
    FAN_Q_OVERFLOW, FAN_RENAME};
use gd::scanner::ScanResult;



fn big() -> bool {
    u16::from_ne_bytes([0, 1]) == 1
}

/// A record of the given type: header, file system, handle, name.
fn record(kind: u8, handle: &[u8], name: &[u8]) -> Vec<u8> {
    let len = 20 + handle.len() + name.len() + 1;
    let mut out = vec![kind, 0];
    out.extend_from_slice(&(len as u16).to_ne_bytes());
    out.extend_from_slice(&[7; 8]);
    out.extend_from_slice(&(handle.len() as u32).to_ne_bytes());
    out.extend_from_slice(&[0; 4]);
    out.extend_from_slice(handle);
    out.extend_from_slice(name);
    out.push(0);
    out
}

fn event(mask: u64, info: &[u8]) -> Vec<u8> {
    let mut out = Vec::new();
    out.extend_from_slice(&((24 + info.len()) as u32).to_ne_bytes());
    out.extend_from_slice(&[3, 0, 24, 0]);
    out.extend_from_slice(&mask.to_ne_bytes());
    out.extend_from_slice(&[0; 8]);
    out.extend_from_slice(info);
    out
}

fn resolved(buffer: &Vec<u8>, first: Option<&str>, second: Option<&str>) -> Vec<String> {
    parse_events(buffer, big())
        .events
        .iter()
        .filter_map(|e| e.resolve(first, second))
        .map(|e| match e {
            DirEvent::Created(p) => format!("+{p}"),
            DirEvent::Deleted(p) => format!("-{p}"),
            DirEvent::Renamed(p, q) => format!("{p}>{q}"),
        })
        .collect()
}

#[test]
fn directory_events_are_read() {
    let mut buffer = event(FAN_CREATE | FAN_ONDIR, &record(2, b"hh", b"new"));
    buffer.extend(event(FAN_DELETE | FAN_ONDIR, &record(2, b"hhhh", "文件".as_bytes())));
    buffer.extend(event(FAN_CREATE, &record(2, b"hh", b"file")));
    assert_eq!(resolved(&buffer, Some("/h"), None), vec!["+/h/new", "-/h/文件"]);
    let parsed = parse_events(&buffer, big());
    assert!(!parsed.overflow);
    match &parsed.events[0] {
        RawEvent::Created(r) => {
            // The handle starts behind the metadata and the record's first twelve bytes.
            assert_eq!((r.handle_from, r.handle_to), (36, 46));
            assert_eq!(&buffer[r.handle_from + 8..r.handle_to], b"hh");
        }
        other => panic!("{other:?}"),
    }
}

#[test]
fn parent_that_is_not_found_drops_the_event() {
    let buffer = event(FAN_CREATE | FAN_ONDIR, &record(2, b"hh", b"new"));
    assert!(resolved(&buffer, None, Some("/h")).is_empty());
}

#[test]
fn move_has_two_sides() {
    let mut info = record(10, b"aa", b"from");
    info.extend(record(12, b"bbb", b"to"));
    let buffer = event(FAN_RENAME | FAN_ONDIR, &info);
    assert_eq!(resolved(&buffer, Some("/a"), Some("/b")), vec!["/a/from>/b/to"]);
    // A lone source is a deletion, a lone target a creation.
    assert_eq!(resolved(&buffer, Some("/a"), None), vec!["-/a/from"]);
    assert_eq!(resolved(&buffer, None, Some("/b")), vec!["+/b/to"]);
    assert!(resolved(&buffer, None, None).is_empty());
    let buffer = event(FAN_RENAME | FAN_ONDIR, &record(12, b"bbb", b"to"));
    assert_eq!(resolved(&buffer, Some("/a"), Some("/b")), vec!["+/b/to"]);
}

#[test]
fn broken_records_are_passed_over() {
    let bad_type = record(3, b"hh", b"x");
    let no_name = record(2, b"hh", b"");
    let not_text = record(2, b"hh", &[0xff, 0xfe]);
    let mut long_handle = record(2, b"hh", b"x");
    long_handle[12..16].copy_from_slice(&1000u32.to_ne_bytes());
    let mut long_record = record(2, b"hh", b"x");
    long_record[2..4].copy_from_slice(&1000u16.to_ne_bytes());
    let short = vec![2u8; 10];
    for info in [bad_type, no_name, not_text, long_handle, long_record, short] {
        let mut buffer = event(FAN_CREATE | FAN_ONDIR, &info);
        buffer.extend(event(FAN_CREATE | FAN_ONDIR, &record(2, b"hh", b"good")));
        assert_eq!(resolved(&buffer, Some("/h"), None), vec!["+/h/good"]);
    }
}

#[test]
fn buffer_is_read_up_to_a_cut_event() {
    let mut buffer = event(FAN_CREATE | FAN_ONDIR, &record(2, b"hh", b"good"));
    let whole = buffer.len();
    buffer.extend(event(FAN_CREATE | FAN_ONDIR, &record(2, b"hh", b"cut")));
    buffer.pop();
    assert_eq!(resolved(&buffer, Some("/h"), None), vec!["+/h/good"]);
    // An event that claims to be shorter than its metadata ends the buffer.
    buffer[whole..whole + 4].copy_from_slice(&8u32.to_ne_bytes());
    assert_eq!(resolved(&buffer, Some("/h"), None), vec!["+/h/good"]);
    assert!(resolved(&vec![], Some("/h"), None).is_empty());
}

#[test]
fn lost_events_are_noted() {
    let buffer = event(FAN_Q_OVERFLOW, &[]);
    let parsed = parse_events(&buffer, big());
    assert!(parsed.overflow && parsed.events.is_empty());
}

#[test]
fn byte_order_matters() {
    let buffer = event(FAN_CREATE | FAN_ONDIR, &record(2, b"hh", b"new"));
    assert_eq!(parse_events(&buffer, big()).events.len(), 1);
    assert_eq!(parse_events(&buffer, !big()).events.len(), 0);
}

const S: u64 = 1000;

#[test]
fn lost_events_wait_for_a_quiet_moment() {
    let mut w = Watch::new(0);
    assert_eq!(
        w.polled(Polled::Events { overflow: true }, S),
        WatchStep { announce: true, flush: false, catchup: false }
    );
    assert_eq!(
        w.polled(Polled::Events { overflow: true }, 6 * S),
        WatchStep { announce: false, flush: true, catchup: false }
    );
    assert_eq!(
        w.polled(Polled::Failed, 7 * S),
        WatchStep { announce: false, flush: false, catchup: false }
    );
    assert_eq!(
        w.polled(Polled::Quiet, 9 * S),
        WatchStep { announce: false, flush: true, catchup: true }
    );
    w.caught_up(20 * S);
    assert!(!w.polled(Polled::Quiet, 22 * S).catchup);
    // Five minutes lie between two catch-ups at least.
    w.polled(Polled::Events { overflow: true }, 30 * S);
    assert!(!w.polled(Polled::Quiet, 319 * S).catchup);
    assert!(w.polled(Polled::Quiet, 320 * S).catchup);
}

#[test]
fn lost_events_do_not_wait_for_ever() {
    let mut w = Watch::new(0);
    w.polled(Polled::Events { overflow: true }, S);
    assert!(!w.polled(Polled::Events { overflow: false }, 600 * S).catchup);
    assert!(w.polled(Polled::Events { overflow: false }, 601 * S).catchup);
}

#[test]
fn waiting_tries_and_catches_up_every_half_hour() {
    let mut w = Waiting::new(0);
    assert!(!w.retry_due(1799 * S));
    assert!(w.retry_due(1800 * S));
    assert!(!w.retry_due(1802 * S));
    assert!(!w.catchup_due(1799 * S, false));
    assert!(w.catchup_due(1800 * S, false));
    assert!(!w.catchup_due(1800 * S, true));
    w.caught_up(1805 * S);
    assert!(!w.catchup_due(3600 * S, false));
}

#[test]
fn start_depends_on_what_is_known() {
    assert_eq!(startup_plan(false, false, true, Some(5), 100), Startup::Build);
    assert_eq!(startup_plan(true, false, true, Some(5), 100), Startup::Off);
    assert_eq!(startup_plan(true, true, true, Some(5), 100), Startup::Catchup(None));
    assert_eq!(startup_plan(true, false, false, Some(41), 100), Startup::Brief(59));
    assert_eq!(startup_plan(true, false, false, Some(40), 100), Startup::Catchup(None));
    assert_eq!(startup_plan(true, false, false, Some(130), 100), Startup::Catchup(Some(30)));
    assert_eq!(startup_plan(true, false, false, None, 100), Startup::Unknown);
}

#[test]
fn timestamp_is_read_back() {
    assert_eq!(read_timestamp(&write_timestamp(1_700_000_000, false)), Some(1_700_000_000));
    assert_eq!(write_timestamp(1_700_000_000, true), "0");
    assert_eq!(read_timestamp(" 12\n"), Some(12));
    assert_eq!(read_timestamp("+7"), Some(7));
    for bad in ["", "x", "-1", "1 2", "18446744073709551616", "+", "1_000"] {
        assert_eq!(read_timestamp(bad), None, "{bad:?}");
    }
    assert_eq!(read_timestamp("18446744073709551615"), Some(u64::MAX));
}

#[test]
fn mode_is_named() {
    assert_eq!(watch_mode(true, true), "fanotify");
    assert_eq!(watch_mode(false, true), "off");
    assert_eq!(watch_mode(false, false), "poll");
    assert!(fallback_off(Some("off")));
    assert!(!fallback_off(Some("poll")));
    assert!(!fallback_off(None));
}

#[test]
fn daemon_says_what_it_did() {
    let done = ScanResult { count: 3, aborted: false };
    let cut = ScanResult { count: 3, aborted: true };
    let none = ScanResult { count: 0, aborted: false };
    assert_eq!(scan_message(Occasion::Build, done).unwrap(), "gd-daemon: indexed 3 dirs.");
    assert_eq!(scan_message(Occasion::Downtime, none).unwrap(), "gd-daemon: added 0 new dirs.");
    assert_eq!(scan_message(Occasion::Interval, done).unwrap(), "gd-daemon: catchup added 3 dirs.");
    assert_eq!(scan_message(Occasion::Interval, none), None);
    assert_eq!(
        scan_message(Occasion::Overflow, none).unwrap(),
        "gd-daemon: overflow catchup done, 0 dirs added."
    );
    assert_eq!(
        scan_message(Occasion::Interval, cut).unwrap(),
        "gd-daemon: scan interrupted by shutdown signal."
    );
    assert_eq!(describe_fanotify_error(FanError::Other, "no"), "no");
    assert!(describe_fanotify_error(FanError::Denied, "no").starts_with("no — missing capabilities"));
    assert!(describe_fanotify_error(FanError::CrossDevice, "no").contains("btrfs"));
}
