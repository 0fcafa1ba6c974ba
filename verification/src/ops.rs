//! The three operations over a log: start a session, stop it, total the time.
//!
//! Each is a pure step of the session state machine: it takes the log as it
//! was read (or `None` when no log file exists), the resolved identity, and
//! for the mutating steps the current time, and says what to write back and
//! what to report. The caller performs the reading and writing.

use vstd::prelude::*;

use crate::timelog::closed_except_last;
use crate::timelog::email_ok;
use crate::timelog::log_emails_ok;
use crate::timelog::log_wf;
use crate::timelog::LogEntry;
use crate::timelog::LogEntryV;
use crate::timelog::Timelog;
use crate::timelog::Timestamp;
use crate::timelog::MAX_SECS;

verus! {

/// What `start` decided: a new log to persist, or a warning that the last
/// session is still open and nothing may change.
pub enum StartOutcome {
    Write(Timelog),
    AlreadyOpen,
}

/// What `stop` decided: a new log to persist; a warning that no session of
/// this identity is open; or that there is no log at all, a silent no-op.
pub enum StopOutcome {
    Write(Timelog),
    NotOpen,
    NoLog,
}

/// What `total` decided: the accumulated duration, reported as whole hours
/// and as whole minutes, both derived from the same count of seconds; or
/// that there is no log to read.
pub enum TotalOutcome {
    Report { hours: u128, minutes: u128 },
    NoLog,
}

/// The entry that `start` appends: an open session for `email` begun at
/// `now`.
pub open spec fn opened(email: Seq<char>, now: Timestamp) -> LogEntryV {
    LogEntryV { email: email, start: now, stop: None }
}

/// The entry that `stop` leaves in place of `e`: the same session, closed
/// at `now` — held up to its own start if the clock reads earlier, so that
/// a stop never precedes its start.
pub open spec fn closed(e: LogEntryV, now: Timestamp) -> LogEntryV {
    LogEntryV {
        email: e.email,
        start: e.start,
        stop: Some(
            if now.secs >= e.start.secs {
                now
            } else {
                e.start
            },
        ),
    }
}

/// The seconds one entry contributes to a total: stop minus start when the
/// entry is closed, and zero while it is open (an open session counts
/// nothing, not time elapsed so far).
pub open spec fn entry_secs(e: LogEntryV) -> int {
    match e.stop {
        Some(t) => t.secs - e.start.secs,
        None => 0,
    }
}

/// The seconds all entries belonging to `email` contribute together.
pub open spec fn total_secs(s: Seq<LogEntryV>, email: Seq<char>) -> int
    decreases s.len(),
{
    if s.len() == 0 {
        0
    } else {
        total_secs(s.drop_last(), email) + if s.last().email == email {
            entry_secs(s.last())
        } else {
            0
        }
    }
}

/// An open entry contributes nothing: appending it leaves every total as it
/// was, whomever it belongs to.
pub proof fn lemma_open_entry_counts_zero(s: Seq<LogEntryV>, e: LogEntryV, email: Seq<char>)
    requires
        e.stop is None,
    ensures
        total_secs(s.push(e), email) == total_secs(s, email),
{
    assert(s.push(e).drop_last() =~= s);
}

/// Begin a session. With no log yet, the new log holds exactly one open
/// entry for `email`, started at `now`. With a log whose last entry is
/// still open — whomever it belongs to — nothing changes and the caller is
/// told so. Otherwise one open entry for `email` is appended.
pub fn start_op(log: Option<Timelog>, email: &str, now: Timestamp) -> (r: StartOutcome)
    requires
        now.wf(),
        log matches Some(l) ==> log_wf(l@),
    ensures
        match log {
            None => r matches StartOutcome::Write(t) && t@ =~= seq![opened(email@, now)],
            Some(l) => {
                if l@.last().is_open() {
                    r is AlreadyOpen
                } else {
                    r matches StartOutcome::Write(t) && t@ =~= l@.push(opened(email@, now))
                }
            },
        },
        r matches StartOutcome::Write(t) ==> {
            &&& log_wf(t@)
            &&& (match log {
                None => true,
                Some(l) => closed_except_last(l@),
            }) ==> closed_except_last(t@)
            &&& (email_ok(email@) && (match log {
                None => true,
                Some(l) => log_emails_ok(l@),
            })) ==> log_emails_ok(t@)
        },
{
    match log {
        None => {
            let mut entries: Vec<LogEntry> = Vec::new();
            entries.push(LogEntry { email: email.to_owned(), start: now, stop: None });
            StartOutcome::Write(Timelog { entries })
        },
        Some(mut l) => {
            let last = l.entries.len() - 1;
            if l.entries[last].stop.is_none() {
                StartOutcome::AlreadyOpen
            } else {
                l.entries.push(LogEntry { email: email.to_owned(), start: now, stop: None });
                StartOutcome::Write(l)
            }
        },
    }
}

/// End the current session. With no log there is nothing to stop. When the
/// last entry is already closed, or belongs to another identity, nothing
/// changes and the caller is told so. Otherwise the last entry is closed at
/// `now` and the rest of the log is kept as it was.
pub fn stop_op(log: Option<Timelog>, email: &str, now: Timestamp) -> (r: StopOutcome)
    requires
        now.wf(),
        log matches Some(l) ==> log_wf(l@),
    ensures
        r is NoLog <==> log is None,
        match log {
            None => r is NoLog,
            Some(l) => {
                if !l@.last().is_open() || l@.last().email != email@ {
                    r is NotOpen
                } else {
                    r matches StopOutcome::Write(t) && {
                        &&& t@ =~= l@.update(l@.len() - 1, closed(l@.last(), now))
                        &&& t@.len() == l@.len()
                        &&& log_wf(t@)
                        &&& t@.last().stop matches Some(s) && s.secs >= t@.last().start.secs
                        &&& (closed_except_last(l@) ==> closed_except_last(t@))
                        &&& (log_emails_ok(l@) ==> log_emails_ok(t@))
                    }
                }
            },
        },
{
    match log {
        None => StopOutcome::NoLog,
        Some(mut l) => {
            let target: String = email.to_owned();
            let last = l.entries.len() - 1;
            proof {
                assert(l@.len() == l.entries@.len());
                assert(l@[last as int] == l.entries@[last as int]@);
                assert(l@.last() == l@[last as int]);
            }
            if l.entries[last].stop.is_some() || !(l.entries[last].email == target) {
                StopOutcome::NotOpen
            } else {
                let ghost old_v = l@;
                let em = l.entries[last].email.clone();
                let start = l.entries[last].start;
                let stop = if now.secs >= start.secs {
                    now
                } else {
                    start
                };
                l.entries[last] = LogEntry { email: em, start, stop: Some(stop) };
                proof {
                    assert(l@ =~= old_v.update(old_v.len() - 1, closed(old_v.last(), now)));
                }
                StopOutcome::Write(l)
            }
        },
    }
}

/// Total the time `email` has logged. With no log there is nothing to
/// report. Otherwise every closed entry of `email` contributes its stop
/// minus its start, open entries contribute zero, and the sum of seconds is
/// reported twice over: as whole hours and as whole minutes, each derived
/// independently from the same duration.
pub fn total_op(log: Option<&Timelog>, email: &str) -> (r: TotalOutcome)
    requires
        log matches Some(l) ==> log_wf(l@),
    ensures
        r is NoLog <==> log is None,
        match log {
            None => r is NoLog,
            Some(l) => r matches TotalOutcome::Report { hours, minutes } && {
                &&& hours == total_secs(l@, email@) / 3600
                &&& minutes == total_secs(l@, email@) / 60
            },
        },
{
    match log {
        None => TotalOutcome::NoLog,
        Some(l) => {
            let target: String = email.to_owned();
            let ghost v = l@;
            let ghost em = email@;
            let mut sum: u128 = 0;
            let n = l.entries.len();
            let mut i: usize = 0;
            proof {
                assert(v.subrange(0, 0) =~= Seq::<LogEntryV>::empty());
            }
            while i < n
                invariant
                    n == l.entries.len(),
                    v == l@,
                    em == email@,
                    target@ == em,
                    log_wf(v),
                    0 <= i <= n,
                    sum == total_secs(v.subrange(0, i as int), em),
                    sum <= i * (MAX_SECS as u128),
                decreases n - i,
            {
                proof {
                    assert(v.subrange(0, i + 1).drop_last() =~= v.subrange(0, i as int));
                    assert(v[i as int].wf());
                    assert((i + 1) * (MAX_SECS as u128) == i * (MAX_SECS as u128) + (
                    MAX_SECS as u128)) by (nonlinear_arith);
                    assert(i * (MAX_SECS as u128) <= (usize::MAX as u128) * (MAX_SECS as u128))
                        by (nonlinear_arith)
                        requires
                            0 <= i <= usize::MAX,
                    ;
                }
                let add_secs: i64 = if l.entries[i].email == target {
                    match l.entries[i].stop {
                        Some(t) => t.secs - l.entries[i].start.secs,
                        None => 0,
                    }
                } else {
                    0
                };
                sum = sum + add_secs as u128;
                i = i + 1;
            }
            proof {
                assert(v.subrange(0, n as int) =~= v);
            }
            TotalOutcome::Report { hours: sum / 3600, minutes: sum / 60 }
        },
    }
}

} // verus!
