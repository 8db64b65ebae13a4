//! Decimal text of natural numbers. Writing: plain, zero-padded and
//! fixed-point, with the rounding rule that fixed-point output uses.
//! Reading: the magnitude that a field's text stands for.

use vstd::arithmetic::power::{lemma_pow_increases, lemma_pow_positive, pow};
use vstd::prelude::*;

verus! {

/// Why a field's text stands for no magnitude.
#[derive(Debug, Clone, Copy, PartialEq, Eq, Structural)]
pub enum ParseFailure {
    /// The text is not an optional `+` and then digits only.
    NotNumeric,
    /// The text is a number above the largest 64-bit magnitude.
    OutOfRange,
}

/// The character for a single decimal digit.
pub open spec fn digit_char(d: nat) -> char
    recommends
        d < 10,
{
    ((d + 48) as u8) as char
}

/// The decimal digits of `n`, most significant first, without leading zeros;
/// zero is the single digit `0`.
pub open spec fn decimal(n: nat) -> Seq<char>
    decreases n,
{
    if n < 10 {
        seq![digit_char(n)]
    } else {
        decimal(n / 10).push(digit_char(n % 10))
    }
}

/// The last `width` decimal digits of `n`, most significant first, with
/// zeros in front where `n` has fewer digits.
pub open spec fn decimal_padded(n: nat, width: nat) -> Seq<char>
    decreases width,
{
    if width == 0 {
        Seq::empty()
    } else {
        decimal_padded(n / 10, (width - 1) as nat).push(digit_char(n % 10))
    }
}

/// Whether `c` is one of the ten ASCII digits.
pub open spec fn is_digit(c: char) -> bool {
    '0' <= c <= '9'
}

/// The value of a digit character; zero for any other character.
pub open spec fn digit_value(c: char) -> nat {
    if is_digit(c) {
        (c as u32 - 48) as nat
    } else {
        0
    }
}

/// Whether every character of `text` is a digit.
pub open spec fn all_digits(text: Seq<char>) -> bool {
    forall|i: int| 0 <= i < text.len() ==> is_digit(#[trigger] text[i])
}

/// The number that a sequence of digits stands for in base ten.
pub open spec fn digits_value(digits: Seq<char>) -> nat
    decreases digits.len(),
{
    if digits.len() == 0 {
        0
    } else {
        10 * digits_value(digits.drop_last()) + digit_value(digits.last())
    }
}

/// The text without one leading `+`, if it has one.
pub open spec fn unsigned_part(text: Seq<char>) -> Seq<char> {
    if text.len() > 0 && text[0] == '+' {
        text.subrange(1, text.len() as int)
    } else {
        text
    }
}

/// Whether `text` is a number: after an optional `+`, one or more digits
/// and nothing else.
pub open spec fn is_number(text: Seq<char>) -> bool {
    unsigned_part(text).len() > 0 && all_digits(unsigned_part(text))
}

/// The magnitude that a field's text stands for. Text that is no number
/// stands for none; neither does a number that does not fit 64 bits.
pub open spec fn magnitude_of(text: Seq<char>) -> Result<u64, ParseFailure> {
    if !is_number(text) {
        Err(ParseFailure::NotNumeric)
    } else if digits_value(unsigned_part(text)) > u64::MAX {
        Err(ParseFailure::OutOfRange)
    } else {
        Ok(digits_value(unsigned_part(text)) as u64)
    }
}

/// Ten to the power `e`.
pub open spec fn pow10(e: nat) -> nat {
    pow(10, e) as nat
}

/// The integer nearest to `num / den`. A quotient exactly half way between
/// two integers goes to the even one.
pub open spec fn round_half_even(num: nat, den: nat) -> nat
    recommends
        den > 0,
{
    let q = num / den;
    let r = num % den;
    if 2 * r < den || (2 * r == den && q % 2 == 0) {
        q
    } else {
        q + 1
    }
}

/// The text of `scaled / 10^places` with exactly `places` digits after the
/// decimal point. With no places there is no point either.
pub open spec fn fixed_point(scaled: nat, places: nat) -> Seq<char> {
    if places == 0 {
        decimal(scaled)
    } else {
        decimal(scaled / pow10(places)) + seq!['.'] + decimal_padded(scaled % pow10(places), places)
    }
}

/// The character of one decimal digit.
pub fn digit(d: u8) -> (c: char)
    requires
        d < 10,
    ensures
        c == digit_char(d as nat),
{
    (48u8 + d) as char
}

/// Ten to the power `e`, for up to twenty places.
pub fn power_of_ten(e: usize) -> (t: u128)
    requires
        e <= 20,
    ensures
        t == pow10(e as nat),
{
    let mut t: u128 = 1;
    let mut i: usize = 0;
    proof {
        lemma_pow10_step(0);
    }
    while i < e
        invariant
            i <= e <= 20,
            t == pow10(i as nat),
        decreases e - i,
    {
        proof {
            lemma_pow10_step(i as nat);
            lemma_pow10_bound((i + 1) as nat);
        }
        t = t * 10;
        i = i + 1;
    }
    t
}

/// Appends the decimal digits of `n` to `out`.
pub fn push_decimal(out: &mut Vec<char>, n: u128)
    ensures
        final(out)@ == old(out)@ + decimal(n as nat),
    decreases n,
{
    if n >= 10 {
        push_decimal(out, n / 10);
    }
    out.push(digit((n % 10) as u8));
}

/// Appends the last `width` decimal digits of `n` to `out`, zero-padded.
pub fn push_decimal_padded(out: &mut Vec<char>, n: u128, width: usize)
    ensures
        final(out)@ == old(out)@ + decimal_padded(n as nat, width as nat),
    decreases width,
{
    if width > 0 {
        push_decimal_padded(out, n / 10, width - 1);
        out.push(digit((n % 10) as u8));
    }
}

/// Appends the fixed-point text of `scaled / 10^places` to `out`.
pub fn push_fixed_point(out: &mut Vec<char>, scaled: u128, places: usize)
    requires
        places <= 20,
    ensures
        final(out)@ == old(out)@ + fixed_point(scaled as nat, places as nat),
{
    if places == 0 {
        push_decimal(out, scaled);
    } else {
        let unit: u128 = power_of_ten(places);
        proof {
            lemma_pow10_bound(places as nat);
        }
        push_decimal(out, scaled / unit);
        out.push('.');
        push_decimal_padded(out, scaled % unit, places);
    }
}

/// Reads a magnitude from a field's text.
pub fn parse(text: &Vec<char>) -> (value: Result<u64, ParseFailure>)
    ensures
        value == magnitude_of(text@),
{
    let start: usize = if text.len() > 0 && text[0] == '+' {
        1
    } else {
        0
    };
    if start == text.len() {
        return Err(ParseFailure::NotNumeric);
    }
    let ghost digits = unsigned_part(text@);
    assert(digits =~= text@.subrange(start as int, text.len() as int));
    let mut value: u64 = 0;
    let mut fits = true;
    let mut i: usize = start;
    while i < text.len()
        invariant
            start <= i <= text.len(),
            digits == unsigned_part(text@),
            digits == text@.subrange(start as int, text.len() as int),
            all_digits(digits.take(i - start)),
            fits ==> value == digits_value(digits.take(i - start)),
            !fits ==> digits_value(digits.take(i - start)) > u64::MAX,
        decreases text.len() - i,
    {
        let c = text[i];
        if !(c >= '0' && c <= '9') {
            assert(!is_digit(digits[i - start]));
            return Err(ParseFailure::NotNumeric);
        }
        let d: u64 = (c as u32 - 48) as u64;
        proof {
            let upto = digits.take(i - start + 1);
            assert(upto.drop_last() =~= digits.take(i - start));
            assert(upto.last() == c);
            assert(digits_value(upto) == 10 * digits_value(digits.take(i - start)) + d);
        }
        if fits {
            if value > (u64::MAX - d) / 10 {
                fits = false;
            } else {
                value = value * 10 + d;
            }
        }
        i = i + 1;
    }
    assert(digits.take(text.len() - start) =~= digits);
    if fits {
        Ok(value)
    } else {
        Err(ParseFailure::OutOfRange)
    }
}

/// The character of a digit is a digit, and stands for it.
pub proof fn lemma_digit_char(d: nat)
    requires
        d < 10,
    ensures
        is_digit(digit_char(d)),
        digit_value(digit_char(d)) == d,
{
}

/// The decimal text of a number holds digits only, and at least one.
pub proof fn lemma_decimal_digits(n: nat)
    ensures
        all_digits(decimal(n)),
        decimal(n).len() >= 1,
    decreases n,
{
    if n >= 10 {
        lemma_decimal_digits(n / 10);
    }
    lemma_digit_char(n % 10);
}

/// Padded decimal text holds digits only, as many as asked for.
pub proof fn lemma_decimal_padded_digits(n: nat, width: nat)
    ensures
        all_digits(decimal_padded(n, width)),
        decimal_padded(n, width).len() == width,
    decreases width,
{
    if width > 0 {
        lemma_decimal_padded_digits(n / 10, (width - 1) as nat);
        lemma_digit_char(n % 10);
    }
}

/// Fixed-point text holds digits and at most one decimal point.
pub proof fn lemma_fixed_point_chars(scaled: nat, places: nat)
    ensures
        forall|i: int|
            0 <= i < fixed_point(scaled, places).len() ==> {
                let c = #[trigger] fixed_point(scaled, places)[i];
                is_digit(c) || c == '.'
            },
{
    if places == 0 {
        lemma_decimal_digits(scaled);
    } else {
        lemma_decimal_digits(scaled / pow10(places));
        lemma_decimal_padded_digits(scaled % pow10(places), places);
    }
}

/// Each further power of ten is ten times the one before, and all are positive.
pub proof fn lemma_pow10_step(e: nat)
    ensures
        pow10(0) == 1,
        pow10(e + 1) == 10 * pow10(e),
        pow10(e) > 0,
{
    reveal(pow);
    lemma_pow_positive(10, e);
    lemma_pow_positive(10, e + 1);
}

/// Up to twenty places the power of ten stays below `10^20`.
pub proof fn lemma_pow10_bound(e: nat)
    requires
        e <= 20,
    ensures
        0 < pow10(e) <= 100_000_000_000_000_000_000,
{
    lemma_pow_positive(10, e);
    lemma_pow_increases(10, e, 20);
    assert(pow(10, 20) == 100_000_000_000_000_000_000) by {
        reveal_with_fuel(pow, 21);
    }
}

/// The digits of a number stand for that number.
pub proof fn lemma_decimal_value(n: nat)
    ensures
        digits_value(decimal(n)) == n,
    decreases n,
{
    lemma_digit_char(n % 10);
    assert(decimal(n).last() == digit_char(n % 10));
    if n < 10 {
        assert(decimal(n).drop_last() =~= Seq::<char>::empty());
        assert(digits_value(Seq::<char>::empty()) == 0);
    } else {
        lemma_decimal_value(n / 10);
        assert(decimal(n).drop_last() =~= decimal(n / 10));
    }
}

/// The decimal text of a 64-bit magnitude reads back as that magnitude.
pub proof fn law_decimal_reads_back(n: u64)
    ensures
        magnitude_of(decimal(n as nat)) == Ok::<u64, ParseFailure>(n),
{
    lemma_decimal_digits(n as nat);
    lemma_decimal_value(n as nat);
    assert(is_digit(decimal(n as nat)[0]));
}

} // verus!
