//! Decimal text of numbers and of 8-bit pixels.
use vstd::prelude::*;

verus! {

/// A pixel whose channels are already clamped and scaled to `0..=255`.
#[derive(Clone, Copy, Debug, PartialEq, Eq, Structural)]
pub struct Rgb {
    pub r: u8,
    pub g: u8,
    pub b: u8,
}

/// The character of a decimal digit.
pub open spec fn digit_char(d: nat) -> char {
    ((48 + d) as u32) as char
}

/// The decimal text of `n`, without leading zeros.
pub open spec fn decimal(n: nat) -> Seq<char>
    decreases n,
{
    if n < 10 {
        seq![digit_char(n)]
    } else {
        decimal(n / 10).push(digit_char(n % 10))
    }
}

/// `c` is one of the ten decimal digits.
pub open spec fn is_digit(c: char) -> bool {
    '0' <= c && c <= '9'
}

/// The decimal text of a number is made of digits, at least one.
pub(crate) proof fn lemma_decimal_digits(n: nat)
    ensures
        decimal(n).len() > 0,
        forall|i: int| 0 <= i < decimal(n).len() ==> is_digit(#[trigger] decimal(n)[i]),
    decreases n,
{
    if n >= 10 {
        lemma_decimal_digits(n / 10);
    }
}

/// Appends the decimal text of `n`.
pub(crate) fn push_decimal(out: &mut Vec<char>, n: usize)
    ensures
        final(out)@ == old(out)@ + decimal(n as nat),
    decreases n,
{
    if n >= 10 {
        push_decimal(out, n / 10);
    }
    let d: u8 = (n % 10) as u8;
    out.push((48u8 + d) as char);
    assert(((48u8 + d) as char) == digit_char((n % 10) as nat));
}

/// The text of one pixel: its three channels in decimal, separated by spaces.
pub open spec fn pixel_text(p: Rgb) -> Seq<char> {
    decimal(p.r as nat) + seq![' '] + decimal(p.g as nat) + seq![' '] + decimal(p.b as nat)
}

/// Appends the text of one pixel.
pub(crate) fn push_pixel(out: &mut Vec<char>, p: Rgb)
    ensures
        final(out)@ == old(out)@ + pixel_text(p),
{
    push_decimal(out, p.r as usize);
    out.push(' ');
    push_decimal(out, p.g as usize);
    out.push(' ');
    push_decimal(out, p.b as usize);
}

/// Relies on `String::from_iter`: collecting chars gives the string of exactly
/// those chars, in order.
#[verifier::external_body]
pub(crate) fn string_of(chars: Vec<char>) -> (r: String)
    ensures
        r@ == chars@,
{
    String::from_iter(chars)
}

impl Rgb {
    /// The pixel's text, such as `"255 128 0"`.
    pub fn ppm_str(&self) -> (r: String)
        ensures
            r@ == pixel_text(*self),
    {
        let mut out: Vec<char> = Vec::new();
        push_pixel(&mut out, *self);
        string_of(out)
    }
}

} // verus!
