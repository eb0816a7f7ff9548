//! Decimal numbers in text.

use vstd::prelude::*;

verus! {

/// `String::push`: appends one character to the end of the string.
pub assume_specification[ String::push ](text: &mut String, ch: char)
    ensures
        final(text)@ == old(text)@.push(ch),
;

/// The character of the decimal digit `d`.
pub open spec fn digit_char(d: nat) -> char
    recommends
        d < 10,
{
    (0x30 + d) as u8 as char
}

/// `n` written in decimal, without sign or leading zeros.
pub open spec fn decimal_text(n: nat) -> Seq<char>
    decreases n,
{
    if n < 10 {
        seq![digit_char(n)]
    } else {
        decimal_text(n / 10).push(digit_char(n % 10))
    }
}

/// The digits of `m`, but none where `m` is zero: what is still to be
/// written to the left of the digits that are written already.
spec fn leading_digits(m: nat) -> Seq<char> {
    if m == 0 {
        Seq::empty()
    } else {
        decimal_text(m)
    }
}

/// Appends `n` in decimal to `text`.
pub fn push_decimal(text: &mut String, n: usize)
    ensures
        final(text)@ == old(text)@ + decimal_text(n as nat),
{
    let mut digits: Vec<char> = Vec::new();
    let mut m: usize = n;
    digits.insert(0, (0x30 + (m % 10) as u8) as char);
    m = m / 10;
    while m > 0
        invariant
            decimal_text(n as nat) == leading_digits(m as nat) + digits@,
        decreases m,
    {
        digits.insert(0, (0x30 + (m % 10) as u8) as char);
        m = m / 10;
    }
    let mut i: usize = 0;
    while i < digits.len()
        invariant
            i <= digits@.len(),
            text@ == old(text)@ + digits@.take(i as int),
        decreases digits@.len() - i,
    {
        text.push(digits[i]);
        i = i + 1;
    }
}

} // verus!
