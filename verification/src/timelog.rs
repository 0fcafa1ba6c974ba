//! The data model: timestamps, log entries, and the log itself.

use vstd::prelude::*;
use vstd::string::StrSliceExecFns;

verus! {

/// Largest number of seconds since the Unix epoch that the log's textual
/// format can carry (the last second of year 9999).
pub const MAX_SECS: i64 = 253_402_300_799;

/// A local timestamp: seconds since the Unix epoch, together with the local
/// offset from UTC in seconds. Subtraction of two timestamps compares the
/// epoch seconds alone; the offset only records how the wall clock read.
#[derive(Clone, Copy, PartialEq, Eq, Structural, Debug)]
pub struct Timestamp {
    pub secs: i64,
    pub offset: i32,
}

impl Timestamp {
    /// A timestamp the log can hold: epoch seconds within the representable
    /// range, offset strictly within one day, as offsets are.
    pub open spec fn wf(self) -> bool {
        &&& 0 <= self.secs <= MAX_SECS
        &&& -86_400 < self.offset < 86_400
    }
}

/// The ghost image of one entry: who, when started, when (if yet) stopped.
pub ghost struct LogEntryV {
    pub email: Seq<char>,
    pub start: Timestamp,
    pub stop: Option<Timestamp>,
}

impl LogEntryV {
    /// Structural soundness of an entry: timestamps in range, and a stop,
    /// once present, never earlier than the start.
    pub open spec fn wf(self) -> bool {
        &&& self.start.wf()
        &&& match self.stop {
            Some(t) => t.wf() && t.secs >= self.start.secs,
            None => true,
        }
    }

    /// An entry still open: no stop recorded yet.
    pub open spec fn is_open(self) -> bool {
        self.stop is None
    }
}

/// One work session: the identity that opened it, when it started, and when
/// it stopped (`None` while still running).
pub struct LogEntry {
    pub email: String,
    pub start: Timestamp,
    pub stop: Option<Timestamp>,
}

impl View for LogEntry {
    type V = LogEntryV;

    open spec fn view(&self) -> LogEntryV {
        LogEntryV { email: self.email@, start: self.start, stop: self.stop }
    }
}

/// The identity that can stand inside the log's textual format: its quoted
/// form ends at the first `"` and cannot span lines.
pub open spec fn email_ok(s: Seq<char>) -> bool {
    forall|i: int| 0 <= i < s.len() ==> s[i] != '"' && s[i] != '\n'
}

/// Every entry of a log sequence is well-formed, and the log is never empty:
/// it comes into being holding its first entry.
pub open spec fn log_wf(s: Seq<LogEntryV>) -> bool {
    &&& s.len() >= 1
    &&& forall|i: int| 0 <= i < s.len() ==> (#[trigger] s[i]).wf()
}

/// Every identity in the log can stand in the textual format.
pub open spec fn log_emails_ok(s: Seq<LogEntryV>) -> bool {
    forall|i: int| 0 <= i < s.len() ==> email_ok((#[trigger] s[i]).email)
}

/// At most one entry is open, and it is the last one: the log models a
/// single open-or-closed session machine.
pub open spec fn closed_except_last(s: Seq<LogEntryV>) -> bool {
    forall|i: int| 0 <= i < s.len() - 1 ==> !(#[trigger] s[i]).is_open()
}

/// The ordered history of sessions.
pub struct Timelog {
    pub entries: Vec<LogEntry>,
}

impl View for Timelog {
    type V = Seq<LogEntryV>;

    open spec fn view(&self) -> Seq<LogEntryV> {
        self.entries@.map(|i: int, e: LogEntry| e@)
    }
}

impl LogEntry {
    /// Open a new session for `e`, started now.
    pub fn new(e: &str) -> (r: LogEntry)
        ensures
            r@.email == e@,
            r@.start.wf(),
            r@.stop is None,
            r@.wf(),
    {
        LogEntry { email: e.to_owned(), start: now(), stop: None }
    }
}

impl Timelog {
    /// A fresh log holding a single open session for `e`.
    pub fn new(e: &str) -> (r: Timelog)
        ensures
            r@.len() == 1,
            r@[0].email == e@,
            r@[0].start.wf(),
            r@[0].stop is None,
            log_wf(r@),
            closed_except_last(r@),
    {
        let entry = LogEntry::new(e);
        let mut entries: Vec<LogEntry> = Vec::new();
        entries.push(entry);
        Timelog { entries }
    }
}

/// Whether an identity can stand inside the log's textual format.
pub fn identity_ok(s: &str) -> (b: bool)
    ensures
        b == email_ok(s@),
{
    let n = s.unicode_len();
    let mut i: usize = 0;
    while i < n
        invariant
            n == s@.len(),
            0 <= i <= n,
            forall|k: int| 0 <= k < i ==> #[trigger] s@[k] != '"' && s@[k] != '\n',
        decreases n - i,
    {
        let c = s.get_char(i);
        if c == '"' || c == '\n' {
            return false;
        }
        i = i + 1;
    }
    true
}

/// Relies on chrono::Local::now, DateTime::timestamp and
/// FixedOffset::local_minus_utc: the current instant as whole seconds since
/// the Unix epoch, and the local offset from UTC in seconds, which chrono's
/// constructors keep strictly within one day.
#[verifier::external_body]
fn now_parts() -> (r: (i64, i32))
    ensures
        -86_400 < r.1 < 86_400,
{
    let t = chrono::Local::now();
    (t.timestamp(), t.offset().local_minus_utc())
}

/// The current local time, clamped into the representable range, so that
/// every timestamp this library creates is well-formed whatever the
/// platform clock reports.
pub fn now() -> (r: Timestamp)
    ensures
        r.wf(),
{
    let (secs, offset) = now_parts();
    let secs: i64 = if secs < 0 {
        0
    } else if secs > MAX_SECS {
        MAX_SECS
    } else {
        secs
    };
    Timestamp { secs, offset }
}

} // verus!
