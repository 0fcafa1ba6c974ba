//! Identity resolution: who owns the sessions this invocation touches.
//!
//! The identity comes from a per-user configuration file holding a line
//! `email = "..."`. When no file can be found, or no such line stands in
//! it, the sentinel identity `anonymous` is used. Locating and reading the
//! file is the caller's business; this module decides what the text means.

use vstd::prelude::*;
use vstd::string::StrSliceExecFns;
use vstd::string::StringExecFns;

use crate::codec::expect_lit;
use crate::codec::scan_quote;
use crate::codec::scan_quote_exec;
use crate::codec::sp_lit;

verus! {

/// The key that begins the identity line of a configuration file.
pub open spec fn lit_email_key() -> Seq<char> {
    "email = \""@
}

/// The position right after the next line break at or after `i`, or the
/// end of the text.
pub open spec fn sp_skip_line(s: Seq<char>, i: int) -> int
    decreases s.len() - i
        when 0 <= i <= s.len()
{
    if i >= s.len() {
        i
    } else if s[i] == '\n' {
        i + 1
    } else {
        sp_skip_line(s, i + 1)
    }
}

/// The configured identity, if the line at `i` is an identity line: the
/// key, the value in quotes, and nothing else before the line break.
pub open spec fn sp_email_line(s: Seq<char>, i: int) -> Option<Seq<char>> {
    match sp_lit(s, i, lit_email_key()) {
        None => None,
        Some(j) => match scan_quote(s, j) {
            None => None,
            Some(q) => if q < s.len() && s[q] == '"' && (q + 1 == s.len() || s[q + 1] == '\n') {
                Some(s.subrange(j, q))
            } else {
                None
            },
        },
    }
}

/// The configured identity of a whole configuration text: that of its
/// first identity line, if any line is one.
pub open spec fn sp_config_email(s: Seq<char>, i: int) -> Option<Seq<char>>
    decreases s.len() - i
        when 0 <= i <= s.len()
{
    if i >= s.len() {
        None
    } else {
        match sp_email_line(s, i) {
            Some(v) => Some(v),
            None => {
                let j = sp_skip_line(s, i);
                if !(i < j <= s.len()) {
                    None
                } else {
                    sp_config_email(s, j)
                }
            },
        }
    }
}

/// The identity of the current invocation.
pub struct Config {
    pub email: String,
}

impl Config {
    /// The sentinel identity used when no configuration is found.
    pub fn default() -> (c: Config)
        ensures
            c.email@ == "anonymous"@,
    {
        Config { email: "anonymous".to_owned() }
    }

    /// The email value this configuration holds.
    pub fn email(&self) -> (r: &String)
        ensures
            r@ == self.email@,
    {
        &self.email
    }

    /// Resolve the identity from the configuration file's text, when one
    /// was found: the first identity line decides, and a missing file or a
    /// text without one falls back to the sentinel.
    pub fn from_contents(text: Option<&str>) -> (c: Config)
        ensures
            match text {
                None => c.email@ == "anonymous"@,
                Some(t) => match sp_config_email(t@, 0) {
                    Some(v) => c.email@ == v,
                    None => c.email@ == "anonymous"@,
                },
            },
    {
        match text {
            None => Config::default(),
            Some(t) => {
                let n = t.unicode_len();
                let mut i: usize = 0;
                while i < n
                    invariant
                        text == Some(t),
                        n == t@.len(),
                        0 <= i <= n,
                        sp_config_email(t@, 0) == sp_config_email(t@, i as int),
                    decreases n - i,
                {
                    match expect_lit(t, n, i, "email = \"") {
                        None => {},
                        Some(j) => {
                            match scan_quote_exec(t, n, j) {
                                None => {},
                                Some(q) => {
                                    if t.get_char(q) == '"' && (q + 1 == n || t.get_char(q + 1)
                                        == '\n') {
                                        let v = t.substring_char(j, q).to_owned();
                                        proof {
                                            assert(sp_email_line(t@, i as int) == Some(
                                                t@.subrange(j as int, q as int),
                                            ));
                                            assert(sp_config_email(t@, i as int) == Some(
                                                t@.subrange(j as int, q as int),
                                            ));
                                        }
                                        return Config { email: v };
                                    }
                                },
                            }
                        },
                    }
                    proof {
                        assert(sp_email_line(t@, i as int) is None);
                    }
                    let j = skip_line(t, n, i);
                    i = j;
                }
                Config::default()
            },
        }
    }
}

/// Move past the current line.
fn skip_line(s: &str, n: usize, i: usize) -> (r: usize)
    requires
        n == s@.len(),
        i <= n,
    ensures
        r as int == sp_skip_line(s@, i as int),
        i <= r <= n,
        i < n ==> i < r,
{
    let mut j = i;
    while j < n
        invariant
            n == s@.len(),
            i <= j <= n,
            sp_skip_line(s@, i as int) == sp_skip_line(s@, j as int),
        decreases n - j,
    {
        if s.get_char(j) == '\n' {
            return j + 1;
        }
        j = j + 1;
    }
    j
}

} // verus!
