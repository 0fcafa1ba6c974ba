//! The start, stop and total operations as pure steps over a log.

use ptl::ops::{start_op, stop_op, total_op, StartOutcome, StopOutcome, TotalOutcome};
use ptl::timelog::{LogEntry, Timelog, Timestamp};

fn ts(secs: i64) -> Timestamp {
    Timestamp { secs, offset: 0 }
}

fn closed_entry(email: &str, start: i64, stop: i64) -> LogEntry {
    LogEntry { email: email.to_string(), start: ts(start), stop: Some(ts(stop)) }
}

fn open_entry(email: &str, start: i64) -> LogEntry {
    LogEntry { email: email.to_string(), start: ts(start), stop: None }
}

#[test]
fn start_on_missing_log_creates_one_open_entry() {
    match start_op(None, "a@b.c", ts(1_000)) {
        StartOutcome::Write(t) => {
            assert_eq!(t.entries.len(), 1);
            assert_eq!(t.entries[0].email, "a@b.c".to_string());
            assert_eq!(t.entries[0].start.secs, 1_000);
            assert!(t.entries[0].stop.is_none());
        },
        StartOutcome::AlreadyOpen => panic!("a missing log must start a session"),
    }
}

#[test]
fn start_with_open_last_entry_mutates_nothing() {
    let log = Timelog { entries: vec![open_entry("a@b.c", 500)] };
    match start_op(Some(log), "a@b.c", ts(1_000)) {
        StartOutcome::AlreadyOpen => {},
        StartOutcome::Write(_) => panic!("an open session must not be restarted"),
    }
}

#[test]
fn start_with_open_entry_of_another_identity_still_warns() {
    let log = Timelog { entries: vec![open_entry("other@x.y", 500)] };
    match start_op(Some(log), "a@b.c", ts(1_000)) {
        StartOutcome::AlreadyOpen => {},
        StartOutcome::Write(_) => panic!("an open session must not be restarted, whoever owns it"),
    }
}

#[test]
fn start_after_closed_entry_appends_one() {
    let log = Timelog { entries: vec![closed_entry("a@b.c", 100, 200)] };
    match start_op(Some(log), "a@b.c", ts(1_000)) {
        StartOutcome::Write(t) => {
            assert_eq!(t.entries.len(), 2);
            assert_eq!(t.entries[0].email, "a@b.c".to_string());
            assert_eq!(t.entries[0].stop, Some(ts(200)));
            assert_eq!(t.entries[1].start.secs, 1_000);
            assert!(t.entries[1].stop.is_none());
        },
        StartOutcome::AlreadyOpen => panic!("a closed session must allow a new one"),
    }
}

#[test]
fn stop_closes_the_open_entry_of_the_same_identity() {
    let log = Timelog { entries: vec![closed_entry("a@b.c", 100, 200), open_entry("a@b.c", 500)] };
    match stop_op(Some(log), "a@b.c", ts(5_900)) {
        StopOutcome::Write(t) => {
            assert_eq!(t.entries.len(), 2);
            assert_eq!(t.entries[0].stop, Some(ts(200)));
            let stop = t.entries[1].stop.expect("the session must be closed");
            assert!(stop.secs >= t.entries[1].start.secs);
            assert_eq!(stop.secs, 5_900);
        },
        _ => panic!("an open session of this identity must be stopped"),
    }
}

#[test]
fn stop_never_sets_a_stop_before_the_start() {
    let log = Timelog { entries: vec![open_entry("a@b.c", 500)] };
    match stop_op(Some(log), "a@b.c", ts(100)) {
        StopOutcome::Write(t) => {
            let stop = t.entries[0].stop.expect("the session must be closed");
            assert!(stop.secs >= t.entries[0].start.secs);
        },
        _ => panic!("an open session of this identity must be stopped"),
    }
}

#[test]
fn stop_with_closed_last_entry_mutates_nothing() {
    let log = Timelog { entries: vec![closed_entry("a@b.c", 100, 200)] };
    match stop_op(Some(log), "a@b.c", ts(1_000)) {
        StopOutcome::NotOpen => {},
        _ => panic!("a closed session must not be stopped again"),
    }
}

#[test]
fn stop_with_anothers_open_entry_mutates_nothing() {
    let log = Timelog { entries: vec![open_entry("other@x.y", 500)] };
    match stop_op(Some(log), "a@b.c", ts(1_000)) {
        StopOutcome::NotOpen => {},
        _ => panic!("another identity's session must not be stopped"),
    }
}

#[test]
fn stop_with_missing_log_is_a_silent_no_op() {
    match stop_op(None, "a@b.c", ts(1_000)) {
        StopOutcome::NoLog => {},
        _ => panic!("a missing log leaves nothing to stop"),
    }
}

#[test]
fn total_reports_hours_and_total_minutes_of_one_duration() {
    // one closed entry of 90 minutes: reported as 1 hour and 90 minutes,
    // both derived from the same 5400 seconds
    let log = Timelog { entries: vec![closed_entry("a@b.c", 1_000, 1_000 + 90 * 60)] };
    match total_op(Some(&log), "a@b.c") {
        TotalOutcome::Report { hours, minutes } => {
            assert_eq!(hours, 1);
            assert_eq!(minutes, 90);
        },
        TotalOutcome::NoLog => panic!("a present log must be totalled"),
    }
}

#[test]
fn total_counts_only_the_matching_identity() {
    let log = Timelog {
        entries: vec![
            closed_entry("a@b.c", 0, 3_600),
            closed_entry("other@x.y", 0, 7_200),
            closed_entry("a@b.c", 10_000, 10_060),
        ],
    };
    match total_op(Some(&log), "a@b.c") {
        TotalOutcome::Report { hours, minutes } => {
            assert_eq!(hours, 1);
            assert_eq!(minutes, 61);
        },
        TotalOutcome::NoLog => panic!("a present log must be totalled"),
    }
}

#[test]
fn total_counts_an_open_entry_as_zero() {
    let log = Timelog { entries: vec![closed_entry("a@b.c", 0, 3_600), open_entry("a@b.c", 10_000)] };
    match total_op(Some(&log), "a@b.c") {
        TotalOutcome::Report { hours, minutes } => {
            assert_eq!(hours, 1);
            assert_eq!(minutes, 60);
        },
        TotalOutcome::NoLog => panic!("a present log must be totalled"),
    }
}

#[test]
fn total_with_missing_log_reports_nothing() {
    match total_op(None, "a@b.c") {
        TotalOutcome::NoLog => {},
        TotalOutcome::Report { .. } => panic!("a missing log has no total"),
    }
}
