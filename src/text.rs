//! Decimal digit rendering shared by the date and path formats.
use vstd::prelude::*;

verus! {

/// `String::push` appends one character.
pub assume_specification[ String::push ](s: &mut String, ch: char)
    ensures
        final(s)@ == old(s)@.push(ch),
;

/// The ASCII character of a decimal digit.
pub open spec fn digit_char(d: int) -> char {
    if d == 0 {
        '0'
    } else if d == 1 {
        '1'
    } else if d == 2 {
        '2'
    } else if d == 3 {
        '3'
    } else if d == 4 {
        '4'
    } else if d == 5 {
        '5'
    } else if d == 6 {
        '6'
    } else if d == 7 {
        '7'
    } else if d == 8 {
        '8'
    } else {
        '9'
    }
}

/// The value of an ASCII decimal digit character.
pub open spec fn digit_value(c: char) -> int {
    (c as u32) - ('0' as u32)
}

pub open spec fn is_digit(c: char) -> bool {
    '0' <= c && c <= '9'
}

/// The lowest `w` decimal digits of `n`, most significant first.
pub open spec fn padded(n: nat, w: nat) -> Seq<char>
    decreases w,
{
    if w == 0 {
        Seq::empty()
    } else {
        padded(n / 10, (w - 1) as nat).push(digit_char((n % 10) as int))
    }
}

/// How many decimal digits `n` has (at least one).
pub open spec fn width_of(n: nat) -> nat
    decreases n,
{
    if n < 10 {
        1
    } else {
        1 + width_of(n / 10)
    }
}

pub open spec fn pow10(w: nat) -> nat
    decreases w,
{
    if w == 0 {
        1
    } else {
        10 * pow10((w - 1) as nat)
    }
}

/// `n` in decimal, zero-padded to at least `w` digits.
pub open spec fn decimal_min(n: nat, w: nat) -> Seq<char> {
    padded(n, if width_of(n) > w { width_of(n) } else { w })
}

pub proof fn lemma_padded_len(n: nat, w: nat)
    ensures
        padded(n, w).len() == w,
    decreases w,
{
    if w > 0 {
        lemma_padded_len(n / 10, (w - 1) as nat);
    }
}

pub proof fn lemma_digit_char_injective(a: int, b: int)
    requires
        0 <= a < 10,
        0 <= b < 10,
        digit_char(a) == digit_char(b),
    ensures
        a == b,
{
}

/// Zero-padded rendering to a fixed width tells apart the numbers that fit.
pub proof fn lemma_padded_injective(a: nat, b: nat, w: nat)
    requires
        a < pow10(w),
        b < pow10(w),
        padded(a, w) == padded(b, w),
    ensures
        a == b,
    decreases w,
{
    if w > 0 {
        let pa = padded(a / 10, (w - 1) as nat);
        let pb = padded(b / 10, (w - 1) as nat);
        lemma_padded_len(a / 10, (w - 1) as nat);
        lemma_padded_len(b / 10, (w - 1) as nat);
        assert(padded(a, w).last() == digit_char((a % 10) as int));
        assert(padded(b, w).last() == digit_char((b % 10) as int));
        lemma_digit_char_injective((a % 10) as int, (b % 10) as int);
        assert(padded(a, w).drop_last() == pa);
        assert(padded(b, w).drop_last() == pb);
        lemma_padded_injective(a / 10, b / 10, (w - 1) as nat);
    } else {
        assert(a == 0 && b == 0);
    }
}

pub proof fn lemma_pow10_positive(w: nat)
    ensures
        pow10(w) >= 1,
    decreases w,
{
    if w > 0 {
        lemma_pow10_positive((w - 1) as nat);
    }
}

pub proof fn lemma_pow10_monotone(a: nat, b: nat)
    requires
        a <= b,
    ensures
        pow10(a) <= pow10(b),
    decreases b,
{
    if a < b {
        lemma_pow10_monotone(a, (b - 1) as nat);
        lemma_pow10_positive((b - 1) as nat);
    }
}

/// A zero-padded rendering holds digits only.
pub proof fn lemma_padded_digits(n: nat, w: nat)
    ensures
        forall|i: int| 0 <= i < padded(n, w).len() ==> is_digit(#[trigger] padded(n, w)[i]),
    decreases w,
{
    if w > 0 {
        lemma_padded_digits(n / 10, (w - 1) as nat);
        let p = padded(n / 10, (w - 1) as nat);
        assert forall|i: int| 0 <= i < padded(n, w).len() implies is_digit(
            #[trigger] padded(n, w)[i],
        ) by {
            if i < p.len() {
                assert(padded(n, w)[i] == p[i]);
            }
        }
    }
}

/// Every number fits in as many digits as it has.
pub proof fn lemma_width_bound(n: nat)
    ensures
        n < pow10(width_of(n)),
        width_of(n) >= 1,
    decreases n,
{
    if n >= 10 {
        let q = n / 10;
        lemma_width_bound(q);
        let p = pow10(width_of(q));
        assert(n < 10 * p) by (nonlinear_arith)
            requires
                q < p,
                q == n / 10,
        ;
        assert(width_of(n) == 1 + width_of(q));
        assert(pow10(width_of(n)) == 10 * pow10((width_of(n) - 1) as nat));
    } else {
        assert(pow10(1) == 10 * pow10(0));
    }
}

pub proof fn lemma_pow10_small()
    ensures
        pow10(2) == 100,
        pow10(4) == 10000,
{
    assert(pow10(0) == 1);
    assert(pow10(1) == 10);
    assert(pow10(2) == 100);
    assert(pow10(3) == 1000);
    assert(pow10(4) == 10000);
}

/// Whether `c` is an ASCII decimal digit.
pub fn is_ascii_digit(c: char) -> (r: bool)
    ensures
        r == is_digit(c),
{
    '0' <= c && c <= '9'
}

/// The digit character for `d`.
pub fn digit_to_char(d: u64) -> (c: char)
    requires
        d < 10,
    ensures
        c == digit_char(d as int),
        is_digit(c),
        digit_value(c) == d,
{
    if d == 0 {
        '0'
    } else if d == 1 {
        '1'
    } else if d == 2 {
        '2'
    } else if d == 3 {
        '3'
    } else if d == 4 {
        '4'
    } else if d == 5 {
        '5'
    } else if d == 6 {
        '6'
    } else if d == 7 {
        '7'
    } else if d == 8 {
        '8'
    } else {
        '9'
    }
}

/// Appends the lowest `w` decimal digits of `n`.
pub fn push_padded(s: &mut String, n: u64, w: u64)
    ensures
        final(s)@ == old(s)@ + padded(n as nat, w as nat),
    decreases w,
{
    if w > 0 {
        push_padded(s, n / 10, w - 1);
        s.push(digit_to_char(n % 10));
    }
}

/// How many decimal digits `n` has.
pub fn width(n: u64) -> (r: u64)
    ensures
        r == width_of(n as nat),
        r <= n + 1,
    decreases n,
{
    if n < 10 {
        1
    } else {
        1 + width(n / 10)
    }
}

} // verus!
