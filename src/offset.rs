//! UTC offsets written as a decimal number of hours, such as `5.5` or `-3.75`.
use vstd::arithmetic::div_mod::lemma_mod_multiples_basic;
use vstd::prelude::*;

use crate::error::LogbookError;
use crate::text::{digit_value, is_ascii_digit, is_digit, lemma_pow10_positive, pow10};

verus! {

/// The value of a string of decimal digits.
pub open spec fn digits_value(s: Seq<char>) -> int
    decreases s.len(),
{
    if s.len() == 0 {
        0
    } else {
        digits_value(s.drop_last()) * 10 + digit_value(s.last())
    }
}

/// How many decimal digits `s` starts with.
pub open spec fn leading_digits(s: Seq<char>) -> nat
    decreases s.len(),
{
    if s.len() > 0 && is_digit(s[0]) {
        1 + leading_digits(s.drop_first())
    } else {
        0
    }
}

pub open spec fn is_negative(s: Seq<char>) -> bool {
    s.len() > 0 && s[0] == '-'
}

/// The text without its sign.
pub open spec fn unsigned_part(s: Seq<char>) -> Seq<char> {
    if s.len() > 0 && (s[0] == '+' || s[0] == '-') {
        s.drop_first()
    } else {
        s
    }
}

/// The digits before the decimal point.
pub open spec fn whole_digits(s: Seq<char>) -> Seq<char> {
    unsigned_part(s).take(leading_digits(unsigned_part(s)) as int)
}

/// The digits after the decimal point (none without one).
pub open spec fn fraction_digits(s: Seq<char>) -> Seq<char> {
    let b = unsigned_part(s);
    let k = leading_digits(b);
    if k < b.len() {
        b.skip(k + 1int)
    } else {
        Seq::empty()
    }
}

/// An optional sign, one or more digits, then optionally a point and one or
/// more digits.
pub open spec fn is_decimal(s: Seq<char>) -> bool {
    let b = unsigned_part(s);
    let k = leading_digits(b);
    let f = fraction_digits(s);
    k > 0 && (k == b.len() || (b[k as int] == '.' && f.len() > 0 && leading_digits(f) == f.len()))
}

/// The first two digits of a fraction, read as hundredths.
pub open spec fn hundredths(f: Seq<char>) -> int {
    if f.len() == 0 {
        0
    } else if f.len() == 1 {
        10 * digit_value(f[0])
    } else {
        10 * digit_value(f[0]) + digit_value(f[1])
    }
}

/// A fraction of .0, .25, .5 or .75, trailing zeros allowed.
pub open spec fn is_quarter_fraction(f: Seq<char>) -> bool {
    hundredths(f) % 25 == 0 && forall|i: int| 2 <= i < f.len() ==> f[i] == '0'
}

/// The decimal number of hours in `s` as a count of quarter hours, when it is
/// a whole number of them.
pub open spec fn offset_quarters(s: Seq<char>) -> Option<int> {
    if is_decimal(s) && is_quarter_fraction(fraction_digits(s)) {
        let q = 4 * digits_value(whole_digits(s)) + hundredths(fraction_digits(s)) / 25;
        Some(
            if is_negative(s) {
                -q
            } else {
                q
            },
        )
    } else {
        None
    }
}

/// The offset in seconds east of UTC that the text names, when it is valid:
/// a whole number of quarter hours, less than a day either way.
pub open spec fn offset_seconds(s: Seq<char>) -> Option<int> {
    match offset_quarters(s) {
        Some(q) => if -96 < q < 96 {
            Some(900 * q)
        } else {
            None
        },
        None => None,
    }
}

proof fn lemma_leading_digits(s: Seq<char>, i: int)
    requires
        0 <= i <= s.len(),
        forall|j: int| 0 <= j < i ==> is_digit(s[j]),
        i == s.len() || !is_digit(s[i]),
    ensures
        leading_digits(s) == i,
    decreases i,
{
    if i > 0 {
        lemma_leading_digits(s.drop_first(), i - 1);
    }
}

proof fn lemma_leading_digits_are_digits(s: Seq<char>)
    ensures
        leading_digits(s) <= s.len(),
        forall|i: int| 0 <= i < leading_digits(s) ==> is_digit(s[i]),
    decreases s.len(),
{
    if s.len() > 0 && is_digit(s[0]) {
        lemma_leading_digits_are_digits(s.drop_first());
        assert forall|i: int| 0 <= i < leading_digits(s) implies is_digit(s[i]) by {
            if i > 0 {
                assert(s[i] == s.drop_first()[i - 1]);
            }
        }
    }
}

proof fn lemma_trailing_zeros(f: Seq<char>)
    requires
        f.len() >= 2,
        forall|i: int| 2 <= i < f.len() ==> f[i] == '0',
    ensures
        digits_value(f) == digits_value(f.take(2)) * pow10((f.len() - 2) as nat),
    decreases f.len(),
{
    if f.len() > 2 {
        let g = f.drop_last();
        assert(g.take(2) == f.take(2));
        assert(f.last() == '0');
        assert(forall|i: int| 2 <= i < g.len() ==> g[i] == f[i]);
        lemma_trailing_zeros(g);
        assert(pow10((f.len() - 2) as nat) == 10 * pow10((g.len() - 2) as nat));
        assert(digits_value(f) == digits_value(g) * 10);
        let a = digits_value(f.take(2));
        let p = pow10((g.len() - 2) as nat);
        assert(a * p * 10 == a * (10 * p)) by (nonlinear_arith);
        assert(digits_value(f) == a * (10 * p));
        assert(digits_value(f) == digits_value(f.take(2)) * pow10((f.len() - 2) as nat));
    } else {
        assert(f.take(2) == f);
        let z = (f.len() - 2) as nat;
        assert(z == 0);
        assert(pow10(z) == 1);
    }
}

/// A quarter-hour fraction of `n` digits, times four, is a multiple of `10^n`.
proof fn lemma_quarter_fraction_multiple(f: Seq<char>)
    requires
        is_quarter_fraction(f),
        forall|i: int| 0 <= i < f.len() ==> is_digit(f[i]),
    ensures
        (4 * digits_value(f)) % (pow10(f.len()) as int) == 0,
{
    let n = f.len();
    if n == 0 {
        assert(pow10(0) == 1);
        assert(digits_value(f) == 0);
        assert((4 * digits_value(f)) % (pow10(f.len()) as int) == 0);
    } else if n == 1 {
        assert(f.drop_last().len() == 0);
        assert(digits_value(f.drop_last()) == 0);
        assert(f.last() == f[0]);
        assert(digits_value(f) == digit_value(f[0]));
        assert(pow10(1) == 10 * pow10(0));
        let d = digit_value(f[0]);
        assert(is_digit(f[0]));
        assert(0 <= d <= 9);
        assert(d == 0 || d == 5);
        assert(pow10(f.len()) == 10);
        assert((4 * digits_value(f)) % (pow10(f.len()) as int) == 0);
    } else {
        lemma_trailing_zeros(f);
        let t = f.take(2);
        assert(t.drop_last().drop_last().len() == 0);
        assert(digits_value(t.drop_last().drop_last()) == 0);
        assert(t.drop_last().last() == f[0]);
        assert(t.last() == f[1]);
        assert(digits_value(t.drop_last()) == digit_value(f[0]));
        assert(digits_value(t) == hundredths(f));
        lemma_pow10_positive((n - 2) as nat);
        let h = hundredths(f);
        let p = pow10((n - 2) as nat);
        assert(pow10(n) == 100 * p) by {
            assert(pow10(n) == 10 * pow10((n - 1) as nat));
            assert(pow10((n - 1) as nat) == 10 * pow10((n - 2) as nat));
        }
        let c = 4 * h / 100;
        assert(4 * h == 100 * c);
        assert(4 * (h * p) == c * (100 * p)) by (nonlinear_arith)
            requires
                4 * h == 100 * c,
        ;
        lemma_mod_multiples_basic(c, (100 * p) as int);
        assert(4 * digits_value(f) == c * (100 * p));
        assert((4 * digits_value(f)) % (pow10(f.len()) as int) == 0);
    }
}

/// An offset whose hours are not a multiple of 0.25 is refused: for a decimal
/// `w.f` with `n` fraction digits where `4 * f` is not a multiple of `10^n`,
/// no offset is read.
pub proof fn lemma_non_quarter_offset_refused(s: Seq<char>)
    requires
        is_decimal(s),
        (4 * digits_value(fraction_digits(s))) % (pow10(fraction_digits(s).len()) as int) != 0,
    ensures
        offset_seconds(s) is None,
{
    if offset_quarters(s) is Some {
        lemma_leading_digits_are_digits(fraction_digits(s));
        lemma_quarter_fraction_multiple(fraction_digits(s));
    }
}

/// Reads a UTC offset given in hours, such as `5.5` or `-3.75`, as seconds
/// east of UTC.
pub fn parse_offset_hours(text: &str) -> (r: Result<i32, LogbookError>)
    ensures
        r matches Ok(secs) ==> offset_seconds(text@) == Some(secs as int),
        r is Err ==> offset_seconds(text@) is None && r == Err::<i32, LogbookError>(
            LogbookError::InvalidOffset,
        ),
{
    let s = text;
    let len = s.unicode_len();
    let mut i: usize = 0;
    let mut negative = false;
    if len > 0 {
        let c = s.get_char(0);
        if c == '+' || c == '-' {
            negative = c == '-';
            i = 1;
        }
    }
    let ghost b = unsigned_part(s@);
    let start = i;
    assert(b == s@.skip(start as int));
    // the whole hours, up to the first non-digit
    let mut whole: u64 = 0;
    let mut big = false;
    while i < len && is_ascii_digit(s.get_char(i))
        invariant
            len == s@.len(),
            s@ == text@,
            start <= i <= len,
            b == s@.skip(start as int),
            forall|j: int| 0 <= j < i - start ==> is_digit(b[j]),
            big ==> digits_value(b.take(i - start)) >= 24,
            !big ==> whole == digits_value(b.take(i - start)) && whole < 24,
        decreases len - i,
    {
        let d = s.get_char(i) as u64 - '0' as u64;
        assert(b.take(i - start + 1).drop_last() == b.take(i - start));
        if !big {
            if whole * 10 + d >= 24 {
                big = true;
            } else {
                whole = whole * 10 + d;
            }
        }
        i = i + 1;
    }
    proof {
        lemma_leading_digits(b, i - start);
        assert(whole_digits(s@) == b.take(i - start));
    }
    if i == start || big {
        proof {
            let f = fraction_digits(s@);
            lemma_leading_digits_are_digits(f);
            if is_decimal(s@) {
                assert(0 <= hundredths(f));
            }
        }
        return Err(LogbookError::InvalidOffset);
    }
    // the fraction, when there is one
    let mut hund: u64 = 0;
    if i < len {
        if s.get_char(i) != '.' || i + 1 == len {
            return Err(LogbookError::InvalidOffset);
        }
        let fstart = i + 1;
        let ghost f = s@.skip(fstart as int);
        assert(f == fraction_digits(s@));
        let mut j: usize = fstart;
        while j < len
            invariant
                len == s@.len(),
                s@ == text@,
                fstart <= j <= len,
                fstart < len,
                f == s@.skip(fstart as int),
                f == fraction_digits(s@),
                forall|k: int| 0 <= k < j - fstart ==> is_digit(f[k]),
                forall|k: int| 2 <= k < j - fstart ==> f[k] == '0',
                hund == (if j - fstart == 0 {
                    0
                } else if j - fstart == 1 {
                    10 * digit_value(f[0])
                } else {
                    10 * digit_value(f[0]) + digit_value(f[1])
                }),
            decreases len - j,
        {
            let c = s.get_char(j);
            assert(f[j - fstart] == c);
            if !is_ascii_digit(c) {
                proof {
                    lemma_leading_digits(f, j - fstart);
                }
                return Err(LogbookError::InvalidOffset);
            }
            let d = c as u64 - '0' as u64;
            if j - fstart == 0 {
                hund = 10 * d;
            } else if j - fstart == 1 {
                hund = hund + d;
            } else if d != 0 {
                assert(!is_quarter_fraction(f));
                return Err(LogbookError::InvalidOffset);
            }
            j = j + 1;
        }
        proof {
            lemma_leading_digits(f, f.len() as int);
        }
        if hund % 25 != 0 {
            return Err(LogbookError::InvalidOffset);
        }
    }
    let q = 4 * whole + hund / 25;
    if q >= 96 {
        return Err(LogbookError::InvalidOffset);
    }
    let secs = 900 * q as i32;
    Ok(if negative { -secs } else { secs })
}

} // verus!
