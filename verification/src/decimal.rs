use vstd::prelude::*;
use crate::ascii::{MINUS, NINE, PLUS, ZERO};

verus! {

/// Whether `b` is an ASCII decimal digit.
pub open spec fn is_digit(b: u8) -> bool {
    ZERO <= b <= NINE
}

/// How many ASCII digits follow, without a break, from index `from` of `s`.
pub open spec fn digit_run(s: Seq<u8>, from: int) -> nat
    decreases s.len() - from,
{
    if 0 <= from < s.len() && is_digit(s[from]) {
        1 + digit_run(s, from + 1)
    } else {
        0
    }
}

/// The number that a sequence of ASCII digits writes in base ten.
pub open spec fn digits_value(d: Seq<u8>) -> nat
    decreases d.len(),
{
    if d.len() == 0 {
        0
    } else {
        digits_value(d.drop_last()) * 10 + (d.last() - ZERO) as nat
    }
}

/// What `atoi::atoi::<i64>` returns for `s`: an optional `+` or `-`, then the
/// longest run of ASCII digits; bytes after the run are ignored. There is no
/// number when `s` is empty or starts with neither a sign nor a digit, or when
/// the value does not fit in an `i64`. A sign with no digit after it reads as 0.
pub open spec fn atoi_value(s: Seq<u8>) -> Option<i64> {
    let signed = s.len() > 0 && (s[0] == PLUS || s[0] == MINUS);
    let offset: int = if signed { 1 } else { 0 };
    let n = digit_run(s, offset);
    let magnitude = digits_value(s.subrange(offset, offset + n));
    let value: int = if s.len() > 0 && s[0] == MINUS { -magnitude } else { magnitude as int };
    if offset + n == 0 || value < i64::MIN || value > i64::MAX {
        None
    } else {
        Some(value as i64)
    }
}

/// `atoi::atoi::<i64>`, which reads a signed decimal number from the front of
/// a byte slice; its result is `atoi_value` of the slice.
#[verifier::external_body]
pub(crate) fn atoi_i64(text: &[u8]) -> (r: Option<i64>)
    ensures
        r == atoi_value(text@),
{
    atoi::atoi::<i64>(text)
}

/// The ASCII digits of `n` in base ten, without leading zeros.
pub open spec fn digits_of(n: nat) -> Seq<u8>
    decreases n,
{
    if n < 10 {
        seq![(n + ZERO) as u8]
    } else {
        digits_of(n / 10).push((n % 10 + ZERO) as u8)
    }
}

/// How an integer is written in decimal: a `-` for negative values, then the
/// digits of its magnitude.
pub open spec fn decimal(v: int) -> Seq<u8> {
    if v < 0 {
        seq![MINUS] + digits_of((-v) as nat)
    } else {
        digits_of(v as nat)
    }
}

/// Appends the digits of `n` to `out`.
fn push_digits(out: &mut Vec<u8>, n: u64)
    ensures
        final(out)@ == old(out)@ + digits_of(n as nat),
    decreases n,
{
    if n >= 10 {
        push_digits(out, n / 10);
    }
    out.push((n % 10) as u8 + ZERO);
    proof {
        if n < 10 {
            assert(n % 10 == n);
        }
        assert(old(out)@ + digits_of(n as nat) =~= old(out)@ + (if n < 10 {
            seq![(n + ZERO) as u8]
        } else {
            digits_of((n / 10) as nat).push((n % 10 + ZERO) as u8)
        }));
    }
}

/// Appends the decimal form of `v` to `out`.
pub fn push_decimal(out: &mut Vec<u8>, v: i64)
    ensures
        final(out)@ == old(out)@ + decimal(v as int),
{
    if v < 0 {
        out.push(MINUS);
        let magnitude: u64 = (-(v + 1)) as u64 + 1;
        push_digits(out, magnitude);
        assert(out@ =~= old(out)@ + (seq![MINUS] + digits_of((-v) as nat)));
    } else {
        push_digits(out, v as u64);
    }
}

proof fn lemma_digits_of(n: nat)
    ensures
        digits_of(n).len() >= 1,
        forall|i: int| 0 <= i < digits_of(n).len() ==> is_digit(#[trigger] digits_of(n)[i]),
        digits_value(digits_of(n)) == n,
    decreases n,
{
    if n >= 10 {
        lemma_digits_of(n / 10);
        assert(digits_of(n).drop_last() =~= digits_of(n / 10));
        assert((n / 10) * 10 + n % 10 == n) by (nonlinear_arith);
        let last = digits_of(n).last();
        assert(last == (n % 10 + ZERO) as u8);
        assert(last - ZERO == n % 10);
        assert(digits_value(digits_of(n)) == digits_value(digits_of(n / 10)) * 10 + (last - ZERO) as nat);
    } else {
        assert(digits_of(n).drop_last() =~= Seq::<u8>::empty());
        assert(digits_value(digits_of(n)) == digits_value(Seq::<u8>::empty()) * 10 + (digits_of(n).last() - ZERO) as nat);
    }
}

proof fn lemma_digit_run_to_end(s: Seq<u8>, from: int)
    requires
        0 <= from <= s.len(),
        forall|i: int| from <= i < s.len() ==> is_digit(#[trigger] s[i]),
    ensures
        digit_run(s, from) == s.len() - from,
    decreases s.len() - from,
{
    if from < s.len() {
        lemma_digit_run_to_end(s, from + 1);
    }
}

/// Every byte of a decimal form is a digit or a minus sign.
pub proof fn lemma_decimal_bytes(v: int)
    ensures
        decimal(v).len() >= 1,
        forall|i: int|
            0 <= i < decimal(v).len() ==> is_digit(#[trigger] decimal(v)[i]) || decimal(v)[i]
                == MINUS,
{
    if v < 0 {
        lemma_digits_of((-v) as nat);
        let d = digits_of((-v) as nat);
        assert forall|i: int| 0 <= i < decimal(v).len() implies is_digit(
            #[trigger] decimal(v)[i],
        ) || decimal(v)[i] == MINUS by {
            if i > 0 {
                assert(decimal(v)[i] == d[i - 1]);
            }
        }
    } else {
        lemma_digits_of(v as nat);
    }
}

/// `atoi` reads back exactly the number that `decimal` writes.
pub proof fn lemma_atoi_decimal(v: i64)
    ensures
        atoi_value(decimal(v as int)) == Some(v),
{
    let s = decimal(v as int);
    if v < 0 {
        let d = digits_of((-v) as nat);
        lemma_digits_of((-v) as nat);
        assert(s[0] == MINUS);
        assert forall|i: int| 1 <= i < s.len() implies is_digit(#[trigger] s[i]) by {
            assert(s[i] == d[i - 1]);
        }
        lemma_digit_run_to_end(s, 1);
        assert(s.subrange(1, s.len() as int) =~= d);
    } else {
        let d = digits_of(v as nat);
        lemma_digits_of(v as nat);
        assert(is_digit(s[0]));
        lemma_digit_run_to_end(s, 0);
        assert(s.subrange(0, s.len() as int) =~= d);
    }
}

/// The decimal form of a number that is not negative starts with a digit.
pub proof fn lemma_decimal_nonneg_first(v: int)
    requires
        v >= 0,
    ensures
        is_digit(decimal(v)[0]),
{
    lemma_digits_of(v as nat);
}

proof fn lemma_digits_of_first(n: nat)
    ensures
        digits_of(n)[0] == ZERO ==> n == 0 && digits_of(n).len() == 1,
    decreases n,
{
    if n >= 10 {
        lemma_digits_of_first(n / 10);
        lemma_digits_of(n / 10);
        assert(digits_of(n)[0] == digits_of(n / 10)[0]);
    }
}

/// The decimal form of a number is the usual one: no sign before a number
/// that is not negative, `-` before a negative one, then at least one digit
/// and no leading zero (only 0 itself is written `0`).
pub proof fn law_decimal_form(v: int)
    ensures
        ({
            let d = if v < 0 { decimal(v).drop_first() } else { decimal(v) };
            &&& d.len() >= 1
            &&& forall|i: int| 0 <= i < d.len() ==> is_digit(#[trigger] d[i])
            &&& (d[0] == ZERO ==> v == 0 && d.len() == 1)
            &&& (v < 0 ==> decimal(v)[0] == MINUS)
        }),
{
    let m: nat = if v < 0 { (-v) as nat } else { v as nat };
    lemma_digits_of(m);
    lemma_digits_of_first(m);
    if v < 0 {
        assert(decimal(v).drop_first() =~= digits_of(m));
    }
}

} // verus!
