//! Decimal numbers as they stand in the log's textual format: printing a
//! value as digits, reading digits back, and the proof that the two agree.

use vstd::prelude::*;
use vstd::string::StringExecFns;

verus! {

/// The most digits a number in the log file may have: enough for every
/// second of the representable range, and few enough to read back without
/// overflow.
pub const MAX_DIGITS: usize = 12;

/// A decimal digit character.
pub open spec fn is_digit(c: char) -> bool {
    48 <= c as int <= 57
}

/// The value of one digit character.
pub open spec fn digit_val(c: char) -> int {
    c as int - 48
}

/// The digit character for one value in 0..10.
pub open spec fn digit_char(d: int) -> char {
    if d == 0 {
        '0'
    } else if d == 1 {
        '1'
    } else if d == 2 {
        '2'
    } else if d == 3 {
        '3'
    } else if d == 4 {
        '4'
    } else if d == 5 {
        '5'
    } else if d == 6 {
        '6'
    } else if d == 7 {
        '7'
    } else if d == 8 {
        '8'
    } else {
        '9'
    }
}

/// The usual decimal image of a natural number: most significant digit
/// first, no leading zeros.
pub open spec fn dec_nat(n: nat) -> Seq<char>
    decreases n,
{
    if n < 10 {
        seq![digit_char(n as int)]
    } else {
        dec_nat(n / 10).push(digit_char((n % 10) as int))
    }
}

/// The decimal image of an integer: a leading minus sign when negative.
pub open spec fn dec_int(n: int) -> Seq<char> {
    if n < 0 {
        seq!['-'] + dec_nat((-n) as nat)
    } else {
        dec_nat(n as nat)
    }
}

/// The value of a digit string, most significant digit first.
pub open spec fn digits_val(s: Seq<char>) -> int
    decreases s.len(),
{
    if s.len() == 0 {
        0
    } else {
        digits_val(s.drop_last()) * 10 + digit_val(s.last())
    }
}

/// Powers of ten.
pub open spec fn pow10(k: nat) -> int
    decreases k,
{
    if k == 0 {
        1
    } else {
        10 * pow10((k - 1) as nat)
    }
}

/// Digit characters carry their values back: printing is faithful digit by
/// digit.
pub proof fn lemma_digit_char(d: int)
    requires
        0 <= d < 10,
    ensures
        is_digit(digit_char(d)),
        digit_val(digit_char(d)) == d,
{
}

/// The decimal image of a natural number is made of digits and is never
/// empty.
pub proof fn lemma_dec_nat_digits(n: nat)
    ensures
        dec_nat(n).len() >= 1,
        forall|i: int| 0 <= i < dec_nat(n).len() ==> is_digit(#[trigger] dec_nat(n)[i]),
    decreases n,
{
    if n < 10 {
        lemma_digit_char(n as int);
    } else {
        lemma_dec_nat_digits(n / 10);
        lemma_digit_char((n % 10) as int);
        assert forall|i: int| 0 <= i < dec_nat(n).len() implies is_digit(
            #[trigger] dec_nat(n)[i],
        ) by {
            if i < dec_nat(n / 10).len() {
                assert(dec_nat(n)[i] == dec_nat(n / 10)[i]);
            }
        }
    }
}

/// Reading the decimal image of a natural number gives the number back.
pub proof fn lemma_dec_nat_val(n: nat)
    ensures
        digits_val(dec_nat(n)) == n,
    decreases n,
{
    if n < 10 {
        lemma_digit_char(n as int);
        assert(dec_nat(n).drop_last() =~= Seq::<char>::empty());
        assert(digits_val(Seq::<char>::empty()) == 0);
        assert(dec_nat(n).last() == digit_char(n as int));
    } else {
        lemma_dec_nat_val(n / 10);
        lemma_digit_char((n % 10) as int);
        assert(dec_nat(n).drop_last() =~= dec_nat(n / 10));
        assert(dec_nat(n).last() == digit_char((n % 10) as int));
        assert(digits_val(dec_nat(n)) == digits_val(dec_nat(n / 10)) * 10 + (n % 10));
        assert(n == (n / 10) * 10 + (n % 10)) by (nonlinear_arith);
    }
}

/// A number below the k-th power of ten prints in at most k digits.
pub proof fn lemma_dec_nat_len(n: nat, k: nat)
    requires
        k >= 1,
        n < pow10(k),
    ensures
        dec_nat(n).len() <= k,
    decreases k,
{
    if n < 10 {
    } else {
        assert(pow10(k) == 10 * pow10((k - 1) as nat));
        assert(n / 10 < pow10((k - 1) as nat)) by (nonlinear_arith)
            requires
                n < 10 * pow10((k - 1) as nat),
                n >= 10,
        ;
        assert(k - 1 >= 1) by {
            if k == 1 {
                assert(pow10(1) == 10);
            }
        }
        lemma_dec_nat_len(n / 10, (k - 1) as nat);
    }
}

/// Twelve digits cover the whole representable range of seconds.
pub proof fn lemma_dec_nat_len_max(n: nat)
    requires
        n < 1_000_000_000_000,
    ensures
        dec_nat(n).len() <= MAX_DIGITS,
{
    assert(pow10(12) == 1_000_000_000_000) by {
        reveal_with_fuel(pow10, 13);
    }
    lemma_dec_nat_len(n, 12);
}

/// First index at or after `i` that does not hold a digit (or the end).
pub open spec fn scan_digits(s: Seq<char>, i: int) -> int
    decreases s.len() - i
        when 0 <= i <= s.len()
{
    if i >= s.len() {
        i
    } else if is_digit(s[i]) {
        scan_digits(s, i + 1)
    } else {
        i
    }
}

/// The scan stays within the text and never moves backward.
pub proof fn lemma_scan_digits_range(s: Seq<char>, i: int)
    requires
        0 <= i <= s.len(),
    ensures
        i <= scan_digits(s, i) <= s.len(),
    decreases s.len() - i,
{
    if i < s.len() && is_digit(s[i]) {
        lemma_scan_digits_range(s, i + 1);
    }
}

/// The scan stops exactly where the digits stop.
pub proof fn lemma_scan_digits_exact(s: Seq<char>, i: int, j: int)
    requires
        0 <= i <= j <= s.len(),
        forall|k: int| i <= k < j ==> is_digit(#[trigger] s[k]),
        j == s.len() || !is_digit(s[j]),
    ensures
        scan_digits(s, i) == j,
    decreases j - i,
{
    if i < j {
        lemma_scan_digits_exact(s, i + 1, j);
    }
}

/// A run of digits keeps the scan going at least that far.
pub proof fn lemma_scan_digits_lower(s: Seq<char>, i: int, j: int)
    requires
        0 <= i <= j <= s.len(),
        forall|k: int| i <= k < j ==> is_digit(#[trigger] s[k]),
    ensures
        scan_digits(s, i) >= j,
    decreases j - i,
{
    if i < j {
        assert(is_digit(s[i]));
        lemma_scan_digits_lower(s, i + 1, j);
    } else {
        lemma_scan_digits_range(s, i);
    }
}

/// A possibly signed number at position `i`: its value and the position
/// just past it, or nothing when no digits stand there or too many do.
pub open spec fn sp_number(s: Seq<char>, i: int) -> Option<(int, int)> {
    if !(0 <= i <= s.len()) {
        None
    } else {
        let neg = i < s.len() && s[i] == '-';
        let d0 = if neg {
            i + 1
        } else {
            i
        };
        if !(d0 <= s.len()) {
            None
        } else {
            let end = scan_digits(s, d0);
            if end - d0 < 1 || end - d0 > MAX_DIGITS {
                None
            } else {
                let v = digits_val(s.subrange(d0, end));
                Some(
                    (
                        if neg {
                            -v
                        } else {
                            v
                        },
                        end,
                    ),
                )
            }
        }
    }
}

/// At most twelve digits stay under a million million.
pub proof fn lemma_digits_val_bound(s: Seq<char>)
    requires
        forall|k: int| 0 <= k < s.len() ==> is_digit(#[trigger] s[k]),
        s.len() <= MAX_DIGITS,
    ensures
        0 <= digits_val(s) < 1_000_000_000_000,
{
    lemma_digits_val_len_bound(s);
    lemma_pow10_mono(s.len(), 12);
    assert(pow10(12) == 1_000_000_000_000) by {
        reveal_with_fuel(pow10, 13);
    }
}

/// Powers of ten are positive and grow with the exponent.
pub proof fn lemma_pow10_mono(a: nat, b: nat)
    requires
        a <= b,
    ensures
        1 <= pow10(a) <= pow10(b),
    decreases b,
{
    if a == b {
        lemma_pow10_pos(a);
    } else {
        lemma_pow10_mono(a, (b - 1) as nat);
        assert(pow10(b) == 10 * pow10((b - 1) as nat));
    }
}

/// Powers of ten are at least one.
pub proof fn lemma_pow10_pos(k: nat)
    ensures
        pow10(k) >= 1,
    decreases k,
{
    if k > 0 {
        lemma_pow10_pos((k - 1) as nat);
    }
}

/// A digit string's value is bounded by a power of ten in its length.
pub proof fn lemma_digits_val_len_bound(s: Seq<char>)
    requires
        forall|k: int| 0 <= k < s.len() ==> is_digit(#[trigger] s[k]),
    ensures
        0 <= digits_val(s) < pow10(s.len()),
    decreases s.len(),
{
    if s.len() == 0 {
    } else {
        assert(forall|k: int|
            0 <= k < s.drop_last().len() ==> is_digit(#[trigger] s.drop_last()[k]));
        lemma_digits_val_len_bound(s.drop_last());
        assert(pow10(s.len()) == 10 * pow10((s.len() - 1) as nat));
        assert(digits_val(s.drop_last()) * 10 + digit_val(s.last()) < 10 * pow10(
            (s.len() - 1) as nat,
        )) by (nonlinear_arith)
            requires
                0 <= digits_val(s.drop_last()) < pow10((s.len() - 1) as nat),
                digit_val(s.last()) <= 9,
        ;
    }
}

/// Reading the printed image of `v`, with anything that is not a digit
/// right after it, gives `v` back and stops right after it.
pub proof fn lemma_number_round_trip(x: Seq<char>, v: int, y: Seq<char>)
    requires
        -1_000_000_000_000 < v < 1_000_000_000_000,
        y.len() > 0,
        !is_digit(y[0]),
    ensures
        sp_number(x + dec_int(v) + y, x.len() as int) == Some(
            (v, x.len() + dec_int(v).len() as int),
        ),
{
    let s = x + dec_int(v) + y;
    let i = x.len() as int;
    if v >= 0 {
        let d = dec_nat(v as nat);
        assert(dec_int(v) == d);
        lemma_dec_nat_digits(v as nat);
        lemma_dec_nat_len_max(v as nat);
        lemma_dec_nat_val(v as nat);
        assert forall|k: int| i <= k < i + d.len() implies is_digit(#[trigger] s[k]) by {
            assert(s[k] == d[k - i]);
        }
        assert(s[i] != '-') by {
            assert(s[i] == d[0]);
            assert(is_digit(d[0]));
        }
        assert(i + d.len() == s.len() || !is_digit(s[i + d.len()])) by {
            assert(s[i + d.len()] == y[0]);
        }
        lemma_scan_digits_exact(s, i, i + d.len());
        assert(s.subrange(i, i + d.len()) =~= d);
    } else {
        let d = dec_nat((-v) as nat);
        assert(dec_int(v) == seq!['-'] + d);
        lemma_dec_nat_digits((-v) as nat);
        lemma_dec_nat_len_max((-v) as nat);
        lemma_dec_nat_val((-v) as nat);
        assert(s[i] == '-') by {
            assert(s[i] == dec_int(v)[0]);
            assert(dec_int(v)[0] == '-');
        }
        let d0 = i + 1;
        assert forall|k: int| d0 <= k < d0 + d.len() implies is_digit(#[trigger] s[k]) by {
            assert(s[k] == dec_int(v)[k - i]);
            assert(dec_int(v)[k - i] == d[k - d0]);
        }
        assert(d0 + d.len() == s.len() || !is_digit(s[d0 + d.len()])) by {
            assert(s[d0 + d.len()] == y[0]);
        }
        lemma_scan_digits_exact(s, d0, d0 + d.len());
        assert(s.subrange(d0, d0 + d.len()) =~= d);
    }
}

/// The digit character for one value in 0..10, as text.
pub fn digit_str(d: u8) -> (r: &'static str)
    requires
        d < 10,
    ensures
        r@ =~= seq![digit_char(d as int)],
{
    proof {
        reveal_strlit("0");
        reveal_strlit("1");
        reveal_strlit("2");
        reveal_strlit("3");
        reveal_strlit("4");
        reveal_strlit("5");
        reveal_strlit("6");
        reveal_strlit("7");
        reveal_strlit("8");
        reveal_strlit("9");
    }
    if d == 0 {
        "0"
    } else if d == 1 {
        "1"
    } else if d == 2 {
        "2"
    } else if d == 3 {
        "3"
    } else if d == 4 {
        "4"
    } else if d == 5 {
        "5"
    } else if d == 6 {
        "6"
    } else if d == 7 {
        "7"
    } else if d == 8 {
        "8"
    } else {
        "9"
    }
}

/// Print a natural number in decimal.
pub fn dec_u64(n: u64) -> (r: String)
    ensures
        r@ == dec_nat(n as nat),
    decreases n,
{
    if n < 10 {
        let r = digit_str(n as u8).to_owned();
        proof {
            assert(r@ =~= dec_nat(n as nat));
        }
        r
    } else {
        let mut s = dec_u64(n / 10);
        s.append(digit_str((n % 10) as u8));
        proof {
            assert(s@ =~= dec_nat(n as nat));
        }
        s
    }
}

/// Print an integer in decimal, a minus sign first when negative.
pub fn dec_i64(n: i64) -> (r: String)
    requires
        n != i64::MIN,
    ensures
        r@ == dec_int(n as int),
{
    if n < 0 {
        let mut s = "-".to_owned();
        proof {
            reveal_strlit("-");
        }
        let d = dec_u64((-n) as u64);
        s.append(d.as_str());
        proof {
            assert(s@ =~= dec_int(n as int));
        }
        s
    } else {
        let r = dec_u64(n as u64);
        proof {
            assert(r@ =~= dec_int(n as int));
        }
        r
    }
}

} // verus!
