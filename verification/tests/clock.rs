//! The clock and the entries it timestamps.

use ptl::timelog::{now, LogEntry, Timelog, MAX_SECS};

#[test]
fn now_is_well_formed() {
    let t = now();
    assert!(0 <= t.secs && t.secs <= MAX_SECS);
    assert!(-86_400 < t.offset && t.offset < 86_400);
    // the clock reads a present-day instant, not the epoch default
    assert!(t.secs > 1_000_000_000);
}

#[test]
fn new_entry_is_open_and_owned() {
    let e = LogEntry::new("a@b.c");
    assert_eq!(e.email, "a@b.c".to_string());
    assert!(e.stop.is_none());
    assert!(e.start.secs > 0);
}

#[test]
fn new_log_holds_one_open_entry() {
    let t = Timelog::new("a@b.c");
    assert_eq!(t.entries.len(), 1);
    assert_eq!(t.entries[0].email, "a@b.c".to_string());
    assert!(t.entries[0].stop.is_none());
}
