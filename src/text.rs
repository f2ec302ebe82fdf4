//! Small building blocks for text: decimal digits and string assembly.

use vstd::prelude::*;

verus! {

/// The character of a decimal digit `d` (0 to 9).
pub open spec fn digit_char(d: nat) -> char {
    (d + 48) as char
}

/// The decimal digits of `n`, most significant first, without leading zeros
/// (`0` is written `"0"`).
pub open spec fn nat_text(n: nat) -> Seq<char>
    decreases n,
{
    if n < 10 {
        seq![digit_char(n)]
    } else {
        nat_text(n / 10).push(digit_char(n % 10))
    }
}

/// Relies on `String::push`: the character is appended at the end.
#[verifier::external_body]
pub(crate) fn push_char(s: &mut String, c: char)
    ensures
        final(s)@ == old(s)@.push(c),
{
    s.push(c)
}

/// Appends the text of `other` to `s`.
pub(crate) fn push_text(s: &mut String, other: &String)
    ensures
        final(s)@ == old(s)@ + other@,
{
    s.append(other.as_str());
}

/// The character of the decimal digit `d`.
pub(crate) fn digit(d: u8) -> (c: char)
    requires
        d < 10,
    ensures
        c == digit_char(d as nat),
{
    ((d + 48) as u8) as char
}

/// Appends the decimal digits of `n` to `s`.
pub fn push_nat(s: &mut String, n: u128)
    ensures
        final(s)@ == old(s)@ + nat_text(n as nat),
    decreases n,
{
    if n < 10 {
        push_char(s, digit(n as u8));
        assert(nat_text(n as nat) == seq![digit_char(n as nat)]);
    } else {
        push_nat(s, n / 10);
        push_char(s, digit((n % 10) as u8));
        assert(old(s)@ + nat_text(n as nat) =~= old(s)@ + nat_text((n / 10) as nat) + seq![
            digit_char((n % 10) as nat),
        ]);
    }
}

} // verus!
