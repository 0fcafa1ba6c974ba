//! The log file's textual format: writing, reading, and the round trip.

use ptl::codec::{parse_log, serialize_log};
use ptl::digits::dec_i64;
use ptl::timelog::{identity_ok, LogEntry, Timelog, Timestamp};

fn ts(secs: i64, offset: i32) -> Timestamp {
    Timestamp { secs, offset }
}

#[test]
fn one_closed_entry_serializes_exactly() {
    let log = Timelog {
        entries: vec![LogEntry {
            email: "a@b.c".to_string(),
            start: ts(1_000, -3_600),
            stop: Some(ts(6_400, -3_600)),
        }],
    };
    let text = serialize_log(&log);
    assert_eq!(
        text,
        "[[entries]]\nemail = \"a@b.c\"\nstart = 1000\nstart_offset = -3600\nstop = 6400\nstop_offset = -3600\n"
    );
}

#[test]
fn one_open_entry_serializes_without_stop_lines() {
    let log = Timelog {
        entries: vec![LogEntry { email: "a@b.c".to_string(), start: ts(42, 0), stop: None }],
    };
    let text = serialize_log(&log);
    assert_eq!(text, "[[entries]]\nemail = \"a@b.c\"\nstart = 42\nstart_offset = 0\n");
}

#[test]
fn serialized_log_parses_back_equal() {
    let log = Timelog {
        entries: vec![
            LogEntry {
                email: "a@b.c".to_string(),
                start: ts(1_000, -3_600),
                stop: Some(ts(6_400, -3_600)),
            },
            LogEntry {
                email: "other@x.y".to_string(),
                start: ts(7_000, 7_200),
                stop: Some(ts(7_000, 0)),
            },
            LogEntry { email: "a@b.c".to_string(), start: ts(9_000, 0), stop: None },
        ],
    };
    let text = serialize_log(&log);
    let back = parse_log(&text).expect("a serialized log must parse");
    assert_eq!(back.entries.len(), log.entries.len());
    for (a, b) in back.entries.iter().zip(log.entries.iter()) {
        assert_eq!(a.email, b.email);
        assert_eq!(a.start, b.start);
        assert_eq!(a.stop, b.stop);
    }
}

#[test]
fn parse_accepts_a_hand_written_file() {
    let text = "[[entries]]\nemail = \"a@b.c\"\nstart = 100\nstart_offset = 0\nstop = 200\nstop_offset = 0\n[[entries]]\nemail = \"a@b.c\"\nstart = 300\nstart_offset = 0\n";
    let log = parse_log(text).expect("a well-formed file must parse");
    assert_eq!(log.entries.len(), 2);
    assert_eq!(log.entries[0].stop, Some(ts(200, 0)));
    assert_eq!(log.entries[1].start, ts(300, 0));
    assert!(log.entries[1].stop.is_none());
}

#[test]
fn parse_rejects_malformed_text() {
    assert!(parse_log("").is_none());
    assert!(parse_log("not a log").is_none());
    assert!(parse_log("[[entries]]\nemail = \"a@b.c\"\n").is_none());
    assert!(parse_log("[[entries]]\nemail = \"a@b.c\nstart = 1\nstart_offset = 0\n").is_none());
    assert!(parse_log("[[entries]]\nemail = \"a@b.c\"\nstart = x\nstart_offset = 0\n").is_none());
}

#[test]
fn parse_rejects_values_the_data_model_refuses() {
    // a stop before its start
    assert!(parse_log(
        "[[entries]]\nemail = \"a@b.c\"\nstart = 200\nstart_offset = 0\nstop = 100\nstop_offset = 0\n"
    )
    .is_none());
    // a negative start
    assert!(parse_log("[[entries]]\nemail = \"a@b.c\"\nstart = -5\nstart_offset = 0\n").is_none());
    // an offset of a whole day
    assert!(
        parse_log("[[entries]]\nemail = \"a@b.c\"\nstart = 5\nstart_offset = 86400\n").is_none()
    );
    // seconds past the representable range
    assert!(parse_log(
        "[[entries]]\nemail = \"a@b.c\"\nstart = 9999999999999\nstart_offset = 0\n"
    )
    .is_none());
}

#[test]
fn parse_rejects_trailing_text() {
    assert!(parse_log("[[entries]]\nemail = \"a@b.c\"\nstart = 1\nstart_offset = 0\nx").is_none());
}

#[test]
fn decimal_images_are_exact() {
    assert_eq!(dec_i64(0), "0".to_string());
    assert_eq!(dec_i64(90), "90".to_string());
    assert_eq!(dec_i64(-3600), "-3600".to_string());
    assert_eq!(dec_i64(253_402_300_799), "253402300799".to_string());
}

#[test]
fn identities_the_format_can_carry() {
    assert!(identity_ok("a@b.c"));
    assert!(identity_ok("anonymous"));
    assert!(identity_ok(""));
    assert!(!identity_ok("a\"b"));
    assert!(!identity_ok("a\nb"));
}
