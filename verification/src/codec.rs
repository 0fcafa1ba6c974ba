//! The log file's textual format: serializing a log, parsing one back, and
//! the proof that parsing undoes serializing.
//!
//! An entry is written as a small table: a header line, the identity as a
//! quoted string, and each timestamp as its epoch seconds and its offset
//! from UTC in seconds, one keyed line each. The stop lines are absent
//! while the session is open.

use vstd::prelude::*;
use vstd::string::StrSliceExecFns;
use vstd::string::StringExecFns;

use crate::digits::dec_i64;
use crate::digits::dec_int;
use crate::digits::digits_val;
use crate::digits::is_digit;
use crate::digits::lemma_digits_val_bound;
use crate::digits::lemma_number_round_trip;
use crate::digits::lemma_scan_digits_exact;
use crate::digits::lemma_scan_digits_lower;
use crate::digits::lemma_scan_digits_range;
use crate::digits::sp_number;
use crate::digits::MAX_DIGITS;
use crate::timelog::email_ok;
use crate::timelog::log_emails_ok;
use crate::timelog::log_wf;
use crate::timelog::LogEntry;
use crate::timelog::LogEntryV;
use crate::timelog::Timelog;
use crate::timelog::Timestamp;
use crate::timelog::MAX_SECS;

verus! {

/// The opening of every entry, up to the quote that begins the identity.
pub open spec fn lit_head() -> Seq<char> {
    "[[entries]]\nemail = \""@
}

/// From the quote that closes the identity to the start seconds.
pub open spec fn lit_sep1() -> Seq<char> {
    "\"\nstart = "@
}

/// From the start seconds to the start offset.
pub open spec fn lit_sep2() -> Seq<char> {
    "\nstart_offset = "@
}

/// The end of a keyed line.
pub open spec fn lit_nl() -> Seq<char> {
    "\n"@
}

/// The key that begins the stop lines.
pub open spec fn lit_stop() -> Seq<char> {
    "stop = "@
}

/// From the stop seconds to the stop offset.
pub open spec fn lit_sep3() -> Seq<char> {
    "\nstop_offset = "@
}

/// The start lines one entry serializes to: header, identity, start
/// seconds and start offset.
pub open spec fn sp_ser_start(e: LogEntryV) -> Seq<char> {
    lit_head() + e.email + lit_sep1() + dec_int(e.start.secs as int) + lit_sep2() + dec_int(
        e.start.offset as int,
    ) + lit_nl()
}

/// The stop lines a closed entry serializes to: stop seconds and stop
/// offset.
pub open spec fn sp_ser_stop(t: Timestamp) -> Seq<char> {
    lit_stop() + dec_int(t.secs as int) + lit_sep3() + dec_int(t.offset as int) + lit_nl()
}

/// The text one entry serializes to.
pub open spec fn sp_ser_entry(e: LogEntryV) -> Seq<char> {
    sp_ser_start(e) + (match e.stop {
        None => Seq::<char>::empty(),
        Some(t) => sp_ser_stop(t),
    })
}

/// The text a whole log serializes to: its entries, one after the other.
pub open spec fn sp_ser(s: Seq<LogEntryV>) -> Seq<char>
    decreases s.len(),
{
    if s.len() == 0 {
        Seq::<char>::empty()
    } else {
        sp_ser_entry(s[0]) + sp_ser(s.drop_first())
    }
}

/// The literal `lit` read at position `i`: the position just past it, or
/// nothing when the text there differs.
pub open spec fn sp_lit(s: Seq<char>, i: int, lit: Seq<char>) -> Option<int> {
    if 0 <= i && i + lit.len() <= s.len() && s.subrange(i, i + lit.len() as int) == lit {
        Some(i + lit.len() as int)
    } else {
        None
    }
}

/// The position of the quote that closes an identity begun at `i`: the
/// identity may not span lines, so a newline before the quote fails.
pub open spec fn scan_quote(s: Seq<char>, i: int) -> Option<int>
    decreases s.len() - i
        when 0 <= i <= s.len()
{
    if i >= s.len() {
        None
    } else if s[i] == '"' {
        Some(i)
    } else if s[i] == '\n' {
        Some(i)
    } else {
        scan_quote(s, i + 1)
    }
}

/// One entry read at position `i`: the entry and the position just past
/// it, or nothing when the text there does not follow the format or holds
/// values the data model refuses.
pub open spec fn sp_entry(s: Seq<char>, i: int) -> Option<(LogEntryV, int)> {
    match sp_lit(s, i, lit_head()) {
        None => None,
        Some(j) => match scan_quote(s, j) {
            None => None,
            Some(q) => if !(q < s.len() && s[q] == '"') {
                None
            } else {
                let email = s.subrange(j, q);
                match sp_lit(s, q, lit_sep1()) {
                    None => None,
                    Some(k) => match sp_number(s, k) {
                        None => None,
                        Some((ssecs, k2)) => if !(0 <= ssecs <= MAX_SECS as int) {
                            None
                        } else {
                            match sp_lit(s, k2, lit_sep2()) {
                                None => None,
                                Some(k3) => match sp_number(s, k3) {
                                    None => None,
                                    Some((soff, k4)) => if !(-86_400 < soff < 86_400) {
                                        None
                                    } else {
                                        match sp_lit(s, k4, lit_nl()) {
                                            None => None,
                                            Some(m) => sp_entry_stop(
                                                s,
                                                m,
                                                email,
                                                Timestamp {
                                                    secs: ssecs as i64,
                                                    offset: soff as i32,
                                                },
                                            ),
                                        }
                                    },
                                },
                            }
                        },
                    },
                }
            },
        },
    }
}

/// The stop lines of an entry read at position `m`, after the start lines
/// gave `email` and `start`: absent stop lines close the entry here.
pub open spec fn sp_entry_stop(s: Seq<char>, m: int, email: Seq<char>, start: Timestamp) -> Option<
    (LogEntryV, int),
> {
    match sp_lit(s, m, lit_stop()) {
        None => Some((LogEntryV { email, start, stop: None }, m)),
        Some(p) => match sp_number(s, p) {
            None => None,
            Some((tsecs, p2)) => if !(start.secs as int <= tsecs <= MAX_SECS as int) {
                None
            } else {
                match sp_lit(s, p2, lit_sep3()) {
                    None => None,
                    Some(p3) => match sp_number(s, p3) {
                        None => None,
                        Some((toff, p4)) => if !(-86_400 < toff < 86_400) {
                            None
                        } else {
                            match sp_lit(s, p4, lit_nl()) {
                                None => None,
                                Some(end) => Some(
                                    (
                                        LogEntryV {
                                            email,
                                            start,
                                            stop: Some(
                                                Timestamp { secs: tsecs as i64, offset: toff as i32 },
                                            ),
                                        },
                                        end,
                                    ),
                                ),
                            }
                        },
                    },
                }
            },
        },
    }
}

/// All entries from position `i` to the end of the text.
pub open spec fn sp_entries(s: Seq<char>, i: int) -> Option<Seq<LogEntryV>>
    decreases s.len() - i
        when 0 <= i <= s.len()
{
    if i == s.len() {
        Some(Seq::<LogEntryV>::empty())
    } else {
        match sp_entry(s, i) {
            None => None,
            Some((e, j)) => if !(i < j <= s.len()) {
                None
            } else {
                match sp_entries(s, j) {
                    None => None,
                    Some(r) => Some(seq![e] + r),
                }
            },
        }
    }
}

/// A whole log file: its entries, of which there must be at least one.
pub open spec fn sp_parse(s: Seq<char>) -> Option<Seq<LogEntryV>> {
    match sp_entries(s, 0) {
        None => None,
        Some(es) => if es.len() == 0 {
            None
        } else {
            Some(es)
        },
    }
}

/// A literal that stands in the text, right after `x`, is read there.
proof fn lemma_lit_at(s: Seq<char>, x: Seq<char>, lit: Seq<char>, y: Seq<char>)
    requires
        s == x + lit + y,
    ensures
        sp_lit(s, x.len() as int, lit) == Some(x.len() + lit.len() as int),
{
    assert(s.subrange(x.len() as int, x.len() + lit.len() as int) =~= lit);
}

/// The quote scan stops exactly at the first quote.
proof fn lemma_scan_quote_exact(s: Seq<char>, i: int, q: int)
    requires
        0 <= i <= q < s.len(),
        forall|k: int| i <= k < q ==> #[trigger] s[k] != '"' && s[k] != '\n',
        s[q] == '"',
    ensures
        scan_quote(s, i) == Some(q),
    decreases q - i,
{
    if i < q {
        assert(s[i] != '"' && s[i] != '\n');
        lemma_scan_quote_exact(s, i + 1, q);
    }
}

/// An identity that stands in the text, right after `x` and closed by a
/// quote, is scanned to exactly that quote.
proof fn lemma_scan_quote_at(s: Seq<char>, x: Seq<char>, email: Seq<char>, y: Seq<char>)
    requires
        s == x + email + y,
        email_ok(email),
        y.len() > 0,
        y[0] == '"',
    ensures
        scan_quote(s, x.len() as int) == Some(x.len() + email.len() as int),
{
    let i = x.len() as int;
    let q = i + email.len() as int;
    assert(s[q] == y[0]);
    assert forall|k: int| i <= k < q implies #[trigger] s[k] != '"' && s[k] != '\n' by {
        assert(s[k] == email[k - i]);
    }
    lemma_scan_quote_exact(s, i, q);
}

/// Whatever position the quote scan reports, no quote or newline stands
/// before it, it holds a quote or newline, and it lies within the text.
proof fn lemma_scan_quote_props(s: Seq<char>, i: int)
    requires
        0 <= i <= s.len(),
    ensures
        scan_quote(s, i) matches Some(q) ==> i <= q < s.len() && (forall|k: int|
            i <= k < q ==> #[trigger] s[k] != '"' && s[k] != '\n'),
    decreases s.len() - i,
{
    if i < s.len() && s[i] != '"' && s[i] != '\n' {
        lemma_scan_quote_props(s, i + 1);
    }
}

/// Whatever a number read reports, the position moves forward and stays
/// within the text.
proof fn lemma_sp_number_props(s: Seq<char>, i: int)
    requires
        0 <= i <= s.len(),
    ensures
        sp_number(s, i) matches Some((v, j)) ==> i < j <= s.len(),
{
    let neg = i < s.len() && s[i] == '-';
    let d0 = if neg {
        i + 1
    } else {
        i
    };
    if d0 <= s.len() {
        lemma_scan_digits_range(s, d0);
    }
}

/// Whatever an entry read reports, the position moves forward, and the
/// entry is well-formed with an identity the format can carry.
pub proof fn lemma_sp_entry_props(s: Seq<char>, i: int)
    requires
        0 <= i <= s.len(),
    ensures
        sp_entry(s, i) matches Some((e, j)) ==> i < j <= s.len() && e.wf() && email_ok(e.email),
{
    reveal_strlit("[[entries]]\nemail = \"");
    reveal_strlit("\"\nstart = ");
    reveal_strlit("\nstart_offset = ");
    reveal_strlit("\n");
    reveal_strlit("stop = ");
    reveal_strlit("\nstop_offset = ");
    if let Some(j0) = sp_lit(s, i, lit_head()) {
        lemma_scan_quote_props(s, j0);
        if let Some(q) = scan_quote(s, j0) {
            if q < s.len() && s[q] == '"' {
                assert(email_ok(s.subrange(j0, q))) by {
                    assert forall|k: int| 0 <= k < s.subrange(j0, q).len() implies s.subrange(
                        j0,
                        q,
                    )[k] != '"' && s.subrange(j0, q)[k] != '\n' by {
                        assert(s.subrange(j0, q)[k] == s[j0 + k]);
                    }
                }
                if let Some(k1) = sp_lit(s, q, lit_sep1()) {
                    lemma_sp_number_props(s, k1);
                    if let Some((ssecs, k2)) = sp_number(s, k1) {
                        if let Some(k3) = sp_lit(s, k2, lit_sep2()) {
                            lemma_sp_number_props(s, k3);
                            if let Some((soff, k4)) = sp_number(s, k3) {
                                if let Some(m) = sp_lit(s, k4, lit_nl()) {
                                    if let Some(p) = sp_lit(s, m, lit_stop()) {
                                        lemma_sp_number_props(s, p);
                                        if let Some((tsecs, p2)) = sp_number(s, p) {
                                            if let Some(p3) = sp_lit(s, p2, lit_sep3()) {
                                                lemma_sp_number_props(s, p3);
                                            }
                                        }
                                    }
                                }
                            }
                        }
                    }
                }
            }
        }
    }
}

/// Whatever a whole read reports, every entry is well-formed with an
/// identity the format can carry.
pub proof fn lemma_sp_entries_props(s: Seq<char>, i: int)
    requires
        0 <= i <= s.len(),
    ensures
        sp_entries(s, i) matches Some(es) ==> (forall|n: int|
            0 <= n < es.len() ==> (#[trigger] es[n]).wf()) && (forall|n: int|
            0 <= n < es.len() ==> email_ok((#[trigger] es[n]).email)),
    decreases s.len() - i,
{
    if i == s.len() {
    } else {
        lemma_sp_entry_props(s, i);
        if let Some((e, j)) = sp_entry(s, i) {
            if i < j <= s.len() {
                lemma_sp_entries_props(s, j);
                if let Some(r) = sp_entries(s, j) {
                    assert forall|n: int| 0 <= n < (seq![e] + r).len() implies (#[trigger] (seq![e]
                        + r)[n]).wf() && email_ok((seq![e] + r)[n].email) by {
                        if n > 0 {
                            assert((seq![e] + r)[n] == r[n - 1]);
                        }
                    }
                }
            }
        }
    }
}

/// Reading the printed start lines of an entry, whatever follows them,
/// yields its identity and start and stops right after them.
#[verifier::spinoff_prover]
#[verifier::rlimit(100)]
proof fn lemma_start_lines(pre: Seq<char>, e: LogEntryV, y: Seq<char>)
    requires
        e.wf(),
        email_ok(e.email),
    ensures
        ({
            let s = pre + sp_ser_start(e) + y;
            let i = pre.len() as int;
            let j = i + lit_head().len() as int;
            let q = j + e.email.len() as int;
            let k1 = q + lit_sep1().len() as int;
            let k2 = k1 + dec_int(e.start.secs as int).len() as int;
            let k3 = k2 + lit_sep2().len() as int;
            let k4 = k3 + dec_int(e.start.offset as int).len() as int;
            let m = k4 + lit_nl().len() as int;
            &&& sp_lit(s, i, lit_head()) == Some(j)
            &&& scan_quote(s, j) == Some(q)
            &&& q < s.len() && s[q] == '"'
            &&& s.subrange(j, q) == e.email
            &&& sp_lit(s, q, lit_sep1()) == Some(k1)
            &&& sp_number(s, k1) == Some((e.start.secs as int, k2))
            &&& sp_lit(s, k2, lit_sep2()) == Some(k3)
            &&& sp_number(s, k3) == Some((e.start.offset as int, k4))
            &&& sp_lit(s, k4, lit_nl()) == Some(m)
            &&& m == i + sp_ser_start(e).len()
        }),
{
    reveal_strlit("[[entries]]\nemail = \"");
    reveal_strlit("\"\nstart = ");
    reveal_strlit("\nstart_offset = ");
    reveal_strlit("\n");
    let d1 = dec_int(e.start.secs as int);
    let d2 = dec_int(e.start.offset as int);
    let s = pre + sp_ser_start(e) + y;
    let i = pre.len() as int;

    // the header literal
    let y1 = e.email + lit_sep1() + d1 + lit_sep2() + d2 + lit_nl() + y;
    assert(s =~= pre + lit_head() + y1);
    lemma_lit_at(s, pre, lit_head(), y1);
    let j = i + lit_head().len() as int;

    // the identity, scanned to its closing quote
    let x2 = pre + lit_head();
    let y2 = lit_sep1() + d1 + lit_sep2() + d2 + lit_nl() + y;
    assert(s =~= x2 + e.email + y2);
    assert(y2[0] == lit_sep1()[0]);
    lemma_scan_quote_at(s, x2, e.email, y2);
    let q = j + e.email.len() as int;
    assert(s[q] == '"');
    assert(s.subrange(j, q) =~= e.email);

    // the separator up to the start seconds
    let x3 = x2 + e.email;
    let y3 = d1 + lit_sep2() + d2 + lit_nl() + y;
    assert(s =~= x3 + lit_sep1() + y3);
    lemma_lit_at(s, x3, lit_sep1(), y3);
    let k1 = q + lit_sep1().len() as int;

    // the start seconds
    let x4 = x3 + lit_sep1();
    let y4 = lit_sep2() + d2 + lit_nl() + y;
    assert(s =~= x4 + d1 + y4);
    assert(y4[0] == lit_sep2()[0]);
    assert(!is_digit(y4[0]));
    lemma_number_round_trip(x4, e.start.secs as int, y4);
    let k2 = k1 + d1.len() as int;

    // the separator up to the start offset
    let x5 = x4 + d1;
    let y5 = d2 + lit_nl() + y;
    assert(s =~= x5 + lit_sep2() + y5);
    lemma_lit_at(s, x5, lit_sep2(), y5);
    let k3 = k2 + lit_sep2().len() as int;

    // the start offset
    let x6 = x5 + lit_sep2();
    let y6 = lit_nl() + y;
    assert(s =~= x6 + d2 + y6);
    assert(y6[0] == lit_nl()[0]);
    assert(!is_digit(y6[0]));
    lemma_number_round_trip(x6, e.start.offset as int, y6);
    let k4 = k3 + d2.len() as int;

    // the line end after the start lines
    let x7 = x6 + d2;
    assert(s =~= x7 + lit_nl() + y);
    lemma_lit_at(s, x7, lit_nl(), y);
}

/// Reading the printed stop lines of a closed entry yields its stop and
/// stops right after them.
#[verifier::spinoff_prover]
#[verifier::rlimit(100)]
proof fn lemma_stop_lines(x: Seq<char>, t: Timestamp, rest: Seq<char>)
    requires
        t.wf(),
    ensures
        ({
            let s = x + sp_ser_stop(t) + rest;
            let m = x.len() as int;
            let p = m + lit_stop().len() as int;
            let p2 = p + dec_int(t.secs as int).len() as int;
            let p3 = p2 + lit_sep3().len() as int;
            let p4 = p3 + dec_int(t.offset as int).len() as int;
            let end = p4 + lit_nl().len() as int;
            &&& sp_lit(s, m, lit_stop()) == Some(p)
            &&& sp_number(s, p) == Some((t.secs as int, p2))
            &&& sp_lit(s, p2, lit_sep3()) == Some(p3)
            &&& sp_number(s, p3) == Some((t.offset as int, p4))
            &&& sp_lit(s, p4, lit_nl()) == Some(end)
            &&& end == m + sp_ser_stop(t).len()
        }),
{
    reveal_strlit("stop = ");
    reveal_strlit("\nstop_offset = ");
    reveal_strlit("\n");
    let d3 = dec_int(t.secs as int);
    let d4 = dec_int(t.offset as int);
    let s = x + sp_ser_stop(t) + rest;
    let m = x.len() as int;

    // the stop key
    let y8 = d3 + lit_sep3() + d4 + lit_nl() + rest;
    assert(s =~= x + lit_stop() + y8);
    lemma_lit_at(s, x, lit_stop(), y8);
    let p = m + lit_stop().len() as int;

    // the stop seconds
    let x9 = x + lit_stop();
    let y9 = lit_sep3() + d4 + lit_nl() + rest;
    assert(s =~= x9 + d3 + y9);
    assert(y9[0] == lit_sep3()[0]);
    assert(!is_digit(y9[0]));
    lemma_number_round_trip(x9, t.secs as int, y9);
    let p2 = p + d3.len() as int;

    // the separator up to the stop offset
    let x10 = x9 + d3;
    let y10 = d4 + lit_nl() + rest;
    assert(s =~= x10 + lit_sep3() + y10);
    lemma_lit_at(s, x10, lit_sep3(), y10);
    let p3 = p2 + lit_sep3().len() as int;

    // the stop offset
    let x11 = x10 + lit_sep3();
    let y11 = lit_nl() + rest;
    assert(s =~= x11 + d4 + y11);
    assert(y11[0] == lit_nl()[0]);
    assert(!is_digit(y11[0]));
    lemma_number_round_trip(x11, t.offset as int, y11);
    let p4 = p3 + d4.len() as int;

    // the line end after the stop lines
    let x12 = x11 + d4;
    assert(s =~= x12 + lit_nl() + rest);
    lemma_lit_at(s, x12, lit_nl(), rest);
}

/// Reading the printed image of one entry, with either nothing or another
/// entry's header after it, gives the entry back and stops right after it.
#[verifier::spinoff_prover]
#[verifier::rlimit(100)]
proof fn lemma_entry_round_trip(pre: Seq<char>, e: LogEntryV, rest: Seq<char>)
    requires
        e.wf(),
        email_ok(e.email),
        rest.len() == 0 || rest[0] == '[',
    ensures
        sp_entry(pre + sp_ser_entry(e) + rest, pre.len() as int) == Some(
            (e, pre.len() + sp_ser_entry(e).len() as int),
        ),
{
    reveal_strlit("[[entries]]\nemail = \"");
    reveal_strlit("stop = ");
    let body = sp_ser_entry(e);
    let s = pre + body + rest;
    let i = pre.len() as int;
    let start = Timestamp { secs: e.start.secs, offset: e.start.offset };
    assert(start == e.start);
    let j = i + lit_head().len() as int;
    let q = j + e.email.len() as int;
    let m = i + sp_ser_start(e).len() as int;
    match e.stop {
        None => {
            assert(s =~= pre + sp_ser_start(e) + rest);
            lemma_start_lines(pre, e, rest);
            // nothing follows this entry's start lines: the stop key must
            // not be readable here
            assert(body.len() == sp_ser_start(e).len());
            assert(s.len() == m + rest.len());
            assert(sp_lit(s, m, lit_stop()) is None) by {
                if m + lit_stop().len() <= s.len() && s.subrange(
                    m,
                    m + lit_stop().len() as int,
                ) == lit_stop() {
                    assert(rest.len() >= lit_stop().len());
                    assert(s.subrange(m, m + lit_stop().len() as int)[0] == s[m]);
                    assert(s[m] == rest[0]);
                    assert(lit_stop()[0] == 's');
                }
            }
            assert(sp_entry_stop(s, m, s.subrange(j, q), start) == Some((e, m)));
        },
        Some(t) => {
            let x8 = pre + sp_ser_start(e);
            assert(s =~= pre + sp_ser_start(e) + (sp_ser_stop(t) + rest));
            lemma_start_lines(pre, e, sp_ser_stop(t) + rest);
            assert(s =~= x8 + sp_ser_stop(t) + rest);
            lemma_stop_lines(x8, t, rest);
            let end = m + sp_ser_stop(t).len() as int;
            assert(end == i + body.len());
            assert(sp_entry_stop(s, m, s.subrange(j, q), start) == Some((e, end)));
        },
    }
}

/// A serialized run of entries begins with the header's bracket.
proof fn lemma_sp_ser_first(es: Seq<LogEntryV>)
    requires
        es.len() > 0,
    ensures
        sp_ser(es).len() > 0,
        sp_ser(es)[0] == '[',
{
    reveal_strlit("[[entries]]\nemail = \"");
    assert(sp_ser(es) == sp_ser_entry(es[0]) + sp_ser(es.drop_first()));
    assert(sp_ser_entry(es[0])[0] == lit_head()[0]);
    assert(sp_ser(es)[0] == sp_ser_entry(es[0])[0]);
}

/// Reading a printed run of entries, placed after any prefix, gives the
/// run back.
proof fn lemma_entries_round_trip(pre: Seq<char>, es: Seq<LogEntryV>)
    requires
        forall|n: int| 0 <= n < es.len() ==> (#[trigger] es[n]).wf(),
        forall|n: int| 0 <= n < es.len() ==> email_ok((#[trigger] es[n]).email),
    ensures
        sp_entries(pre + sp_ser(es), pre.len() as int) == Some(es),
    decreases es.len(),
{
    reveal_strlit("[[entries]]\nemail = \"");
    let s = pre + sp_ser(es);
    let i = pre.len() as int;
    if es.len() == 0 {
        assert(sp_ser(es).len() == 0);
        assert(i == s.len());
        assert(es =~= Seq::<LogEntryV>::empty());
    } else {
        let e = es[0];
        let tail = es.drop_first();
        let rest = sp_ser(tail);
        assert(sp_ser(es) == sp_ser_entry(e) + rest);
        assert(s =~= pre + sp_ser_entry(e) + rest);
        if tail.len() > 0 {
            lemma_sp_ser_first(tail);
        }
        lemma_entry_round_trip(pre, e, rest);
        let j = i + sp_ser_entry(e).len() as int;
        assert(sp_entry(s, i) == Some((e, j)));
        assert(sp_ser_entry(e).len() >= lit_head().len());
        let pre2 = pre + sp_ser_entry(e);
        assert(forall|n: int| 0 <= n < tail.len() ==> (#[trigger] tail[n]).wf());
        assert(forall|n: int| 0 <= n < tail.len() ==> email_ok((#[trigger] tail[n]).email));
        lemma_entries_round_trip(pre2, tail);
        assert(pre2 + rest =~= s);
        assert(sp_entries(s, j) == Some(tail));
        assert(seq![e] + tail =~= es);
    }
}

/// Parsing undoes serializing: a well-formed log whose identities the
/// format can carry reads back exactly as it was written, entry for entry
/// and field for field.
pub proof fn lemma_round_trip(es: Seq<LogEntryV>)
    requires
        log_wf(es),
        log_emails_ok(es),
    ensures
        sp_parse(sp_ser(es)) == Some(es),
{
    lemma_entries_round_trip(Seq::<char>::empty(), es);
    assert(Seq::<char>::empty() + sp_ser(es) =~= sp_ser(es));
}

/// Serializing one more entry appends its text.
proof fn lemma_sp_ser_snoc(s: Seq<LogEntryV>, e: LogEntryV)
    ensures
        sp_ser(s.push(e)) == sp_ser(s) + sp_ser_entry(e),
    decreases s.len(),
{
    if s.len() == 0 {
        assert(s.push(e)[0] == e);
        assert(s.push(e).drop_first() =~= Seq::<LogEntryV>::empty());
        assert(sp_ser(Seq::<LogEntryV>::empty()) == Seq::<char>::empty());
        assert(sp_ser(s.push(e)) == sp_ser_entry(e) + Seq::<char>::empty());
        assert(sp_ser_entry(e) + Seq::<char>::empty() =~= sp_ser_entry(e));
        assert(Seq::<char>::empty() + sp_ser_entry(e) =~= sp_ser_entry(e));
    } else {
        assert(s.push(e).drop_first() =~= s.drop_first().push(e));
        lemma_sp_ser_snoc(s.drop_first(), e);
        assert(s.push(e)[0] == s[0]);
        assert(sp_ser(s) == sp_ser_entry(s[0]) + sp_ser(s.drop_first()));
        assert(sp_ser(s.push(e)) == sp_ser_entry(s[0]) + sp_ser(s.drop_first().push(e)));
        assert(sp_ser_entry(s[0]) + (sp_ser(s.drop_first()) + sp_ser_entry(e)) =~= (sp_ser_entry(
            s[0],
        ) + sp_ser(s.drop_first())) + sp_ser_entry(e));
    }
}

/// Write a whole log in the format this module reads.
pub fn serialize_log(t: &Timelog) -> (r: String)
    requires
        log_wf(t@),
        log_emails_ok(t@),
    ensures
        r@ == sp_ser(t@),
{
    let ghost v = t@;
    let mut out = String::new();
    let n = t.entries.len();
    let mut i: usize = 0;
    proof {
        assert(v.subrange(0, 0) =~= Seq::<LogEntryV>::empty());
    }
    while i < n
        invariant
            n == t.entries.len(),
            v == t@,
            log_wf(v),
            log_emails_ok(v),
            0 <= i <= n,
            out@ == sp_ser(v.subrange(0, i as int)),
        decreases n - i,
    {
        proof {
            assert(v[i as int] == t.entries@[i as int]@);
            assert(v[i as int].wf());
        }
        let e = &t.entries[i];
        out.append("[[entries]]\nemail = \"");
        out.append(e.email.as_str());
        out.append("\"\nstart = ");
        let d1 = dec_i64(e.start.secs);
        out.append(d1.as_str());
        out.append("\nstart_offset = ");
        let d2 = dec_i64(e.start.offset as i64);
        out.append(d2.as_str());
        out.append("\n");
        match &e.stop {
            None => {
                proof {
                    assert(out@ =~= sp_ser(v.subrange(0, i as int)) + sp_ser_entry(v[i as int]));
                }
            },
            Some(ts) => {
                let ts = *ts;
                out.append("stop = ");
                let d3 = dec_i64(ts.secs);
                out.append(d3.as_str());
                out.append("\nstop_offset = ");
                let d4 = dec_i64(ts.offset as i64);
                out.append(d4.as_str());
                out.append("\n");
                proof {
                    assert(out@ =~= sp_ser(v.subrange(0, i as int)) + sp_ser_entry(v[i as int]));
                }
            },
        }
        proof {
            assert(v.subrange(0, i + 1) =~= v.subrange(0, i as int).push(v[i as int]));
            lemma_sp_ser_snoc(v.subrange(0, i as int), v[i as int]);
        }
        i = i + 1;
    }
    proof {
        assert(v.subrange(0, n as int) =~= v);
    }
    out
}

/// A decimal digit, read as such.
fn is_digit_exec(c: char) -> (b: bool)
    ensures
        b == is_digit(c),
{
    let u = c as u32;
    48 <= u && u <= 57
}

/// Read the literal `lit` at position `i`.
pub(crate) fn expect_lit(s: &str, n: usize, i: usize, lit: &str) -> (r: Option<usize>)
    requires
        n == s@.len(),
        i <= n,
    ensures
        match r {
            Some(j) => sp_lit(s@, i as int, lit@) == Some(j as int) && i <= j <= n,
            None => sp_lit(s@, i as int, lit@) is None,
        },
{
    let m = lit.unicode_len();
    if m > n - i {
        return None;
    }
    let mut k: usize = 0;
    while k < m
        invariant
            n == s@.len(),
            m == lit@.len(),
            i + m <= n,
            0 <= k <= m,
            forall|t: int| 0 <= t < k ==> s@[i + t] == lit@[t],
        decreases m - k,
    {
        if s.get_char(i + k) != lit.get_char(k) {
            proof {
                assert(sp_lit(s@, i as int, lit@) is None) by {
                    if s@.subrange(i as int, i + m as int) == lit@ {
                        assert(s@.subrange(i as int, i + m as int)[k as int] == lit@[k as int]);
                        assert(s@[i + k] == lit@[k as int]);
                    }
                }
            }
            return None;
        }
        k = k + 1;
    }
    proof {
        assert(s@.subrange(i as int, i + m as int) =~= lit@);
    }
    Some(i + m)
}

/// Find the quote or newline that ends an identity begun at `i`.
pub(crate) fn scan_quote_exec(s: &str, n: usize, i: usize) -> (r: Option<usize>)
    requires
        n == s@.len(),
        i <= n,
    ensures
        match r {
            Some(q) => scan_quote(s@, i as int) == Some(q as int) && i <= q < n,
            None => scan_quote(s@, i as int) is None,
        },
{
    let mut j = i;
    while j < n
        invariant
            n == s@.len(),
            i <= j <= n,
            scan_quote(s@, i as int) == scan_quote(s@, j as int),
        decreases n - j,
    {
        let c = s.get_char(j);
        if c == '"' || c == '\n' {
            return Some(j);
        }
        j = j + 1;
    }
    None
}

/// Read a possibly signed number at position `i`.
fn parse_number(s: &str, n: usize, i: usize) -> (r: Option<(i64, usize)>)
    requires
        n == s@.len(),
        i <= n,
    ensures
        match r {
            Some((v, j)) => sp_number(s@, i as int) == Some((v as int, j as int)) && i <= j <= n,
            None => sp_number(s@, i as int) is None,
        },
{
    let neg = i < n && s.get_char(i) == '-';
    let d0 = if neg {
        i + 1
    } else {
        i
    };
    let mut j = d0;
    let mut acc: i64 = 0;
    while j < n && j - d0 <= MAX_DIGITS && is_digit_exec(s.get_char(j))
        invariant
            n == s@.len(),
            d0 <= j <= n,
            j - d0 <= MAX_DIGITS + 1,
            forall|t: int| d0 <= t < j ==> is_digit(#[trigger] s@[t]),
            acc == digits_val(s@.subrange(d0 as int, j as int)),
            0 <= acc,
        decreases n - j,
    {
        let c = s.get_char(j);
        proof {
            assert(forall|t: int|
                0 <= t < s@.subrange(d0 as int, j as int).len() ==> is_digit(
                    #[trigger] s@.subrange(d0 as int, j as int)[t],
                ));
            lemma_digits_val_bound(s@.subrange(d0 as int, j as int));
            assert(s@.subrange(d0 as int, j + 1).drop_last() =~= s@.subrange(d0 as int, j as int));
        }
        let d = (c as u32) - 48;
        acc = acc * 10 + (d as i64);
        j = j + 1;
    }
    let cnt = j - d0;
    if cnt == 0 {
        proof {
            if d0 <= n {
                lemma_scan_digits_exact(s@, d0 as int, d0 as int);
            }
        }
        return None;
    }
    if cnt > MAX_DIGITS {
        proof {
            lemma_scan_digits_lower(s@, d0 as int, j as int);
            lemma_scan_digits_range(s@, d0 as int);
        }
        return None;
    }
    proof {
        lemma_scan_digits_exact(s@, d0 as int, j as int);
        assert(forall|t: int|
            0 <= t < s@.subrange(d0 as int, j as int).len() ==> is_digit(
                #[trigger] s@.subrange(d0 as int, j as int)[t],
            ));
        lemma_digits_val_bound(s@.subrange(d0 as int, j as int));
    }
    let v = if neg {
        -acc
    } else {
        acc
    };
    Some((v, j))
}

/// Read one entry at position `i`.
fn parse_entry(s: &str, n: usize, i: usize) -> (r: Option<(LogEntry, usize)>)
    requires
        n == s@.len(),
        i <= n,
    ensures
        match r {
            Some((e, j)) => sp_entry(s@, i as int) == Some((e@, j as int)) && i < j <= n,
            None => sp_entry(s@, i as int) is None,
        },
{
    proof {
        lemma_sp_entry_props(s@, i as int);
    }
    let j = match expect_lit(s, n, i, "[[entries]]\nemail = \"") {
        None => {
            return None;
        },
        Some(j) => j,
    };
    let q = match scan_quote_exec(s, n, j) {
        None => {
            return None;
        },
        Some(q) => q,
    };
    if s.get_char(q) != '"' {
        return None;
    }
    let email = s.substring_char(j, q).to_owned();
    let k1 = match expect_lit(s, n, q, "\"\nstart = ") {
        None => {
            return None;
        },
        Some(k) => k,
    };
    let (ssecs, k2) = match parse_number(s, n, k1) {
        None => {
            return None;
        },
        Some(p) => p,
    };
    if !(0 <= ssecs && ssecs <= MAX_SECS) {
        return None;
    }
    let k3 = match expect_lit(s, n, k2, "\nstart_offset = ") {
        None => {
            return None;
        },
        Some(k) => k,
    };
    let (soff, k4) = match parse_number(s, n, k3) {
        None => {
            return None;
        },
        Some(p) => p,
    };
    if !(-86_400 < soff && soff < 86_400) {
        return None;
    }
    let m = match expect_lit(s, n, k4, "\n") {
        None => {
            return None;
        },
        Some(k) => k,
    };
    let start = Timestamp { secs: ssecs, offset: soff as i32 };
    match expect_lit(s, n, m, "stop = ") {
        None => Some((LogEntry { email, start, stop: None }, m)),
        Some(p) => {
            let (tsecs, p2) = match parse_number(s, n, p) {
                None => {
                    return None;
                },
                Some(x) => x,
            };
            if !(start.secs <= tsecs && tsecs <= MAX_SECS) {
                return None;
            }
            let p3 = match expect_lit(s, n, p2, "\nstop_offset = ") {
                None => {
                    return None;
                },
                Some(k) => k,
            };
            let (toff, p4) = match parse_number(s, n, p3) {
                None => {
                    return None;
                },
                Some(x) => x,
            };
            if !(-86_400 < toff && toff < 86_400) {
                return None;
            }
            let end = match expect_lit(s, n, p4, "\n") {
                None => {
                    return None;
                },
                Some(k) => k,
            };
            let stop = Timestamp { secs: tsecs, offset: toff as i32 };
            Some((LogEntry { email, start, stop: Some(stop) }, end))
        },
    }
}

/// Read a whole log file. The result is exactly what the format admits:
/// some log whenever the text follows it, and nothing otherwise — in
/// particular the parsed log is well-formed and never empty.
pub fn parse_log(s: &str) -> (r: Option<Timelog>)
    ensures
        match r {
            Some(t) => sp_parse(s@) == Some(t@) && log_wf(t@) && log_emails_ok(t@),
            None => sp_parse(s@) is None,
        },
{
    proof {
        lemma_sp_entries_props(s@, 0);
    }
    let n = s.unicode_len();
    let mut entries: Vec<LogEntry> = Vec::new();
    let mut i: usize = 0;
    while i < n
        invariant
            n == s@.len(),
            0 <= i <= n,
            (sp_entries(s@, i as int) matches Some(rest) ==> sp_entries(s@, 0) == Some(
                entries@.map(|k: int, e: LogEntry| e@) + rest,
            )),
            (sp_entries(s@, i as int) is None ==> sp_entries(s@, 0) is None),
        decreases n - i,
    {
        let ghost acc = entries@.map(|k: int, e: LogEntry| e@);
        match parse_entry(s, n, i) {
            None => {
                return None;
            },
            Some((e, j)) => {
                proof {
                    match sp_entries(s@, j as int) {
                        Some(rest) => {
                            assert(sp_entries(s@, i as int) == Some(seq![e@] + rest));
                            assert(acc + (seq![e@] + rest) =~= acc.push(e@) + rest);
                        },
                        None => {},
                    }
                }
                entries.push(e);
                proof {
                    assert(entries@.map(|k: int, e: LogEntry| e@) =~= acc.push(e@));
                }
                i = j;
            },
        }
    }
    if entries.len() == 0 {
        proof {
            assert(sp_entries(s@, n as int) == Some(Seq::<LogEntryV>::empty()));
            assert(entries@.map(|k: int, e: LogEntry| e@) + Seq::<LogEntryV>::empty()
                =~= Seq::<LogEntryV>::empty());
        }
        return None;
    }
    let t = Timelog { entries };
    proof {
        assert(sp_entries(s@, n as int) == Some(Seq::<LogEntryV>::empty()));
        assert(t@ + Seq::<LogEntryV>::empty() =~= t@);
        assert(t@.len() >= 1);
    }
    Some(t)
}

} // verus!
