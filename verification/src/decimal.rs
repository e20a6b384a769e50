//! Whole numbers as decimal text.
use vstd::prelude::*;
use vstd::string::*;

verus! {

/// The character of one decimal digit.
pub open spec fn digit_char(d: nat) -> Seq<char>
    recommends
        d < 10,
{
    if d == 0 {
        "0"@
    } else if d == 1 {
        "1"@
    } else if d == 2 {
        "2"@
    } else if d == 3 {
        "3"@
    } else if d == 4 {
        "4"@
    } else if d == 5 {
        "5"@
    } else if d == 6 {
        "6"@
    } else if d == 7 {
        "7"@
    } else if d == 8 {
        "8"@
    } else {
        "9"@
    }
}

/// A natural number in decimal, without leading zeros.
pub open spec fn decimal(n: nat) -> Seq<char>
    decreases n,
{
    if n < 10 {
        digit_char(n)
    } else {
        decimal(n / 10) + digit_char(n % 10)
    }
}

/// An integer in decimal, with `-` in front of a negative one.
pub open spec fn signed_decimal(i: int) -> Seq<char> {
    if i < 0 {
        "-"@ + decimal((-i) as nat)
    } else {
        decimal(i as nat)
    }
}

fn digit_text(d: u64) -> (s: &'static str)
    requires
        d < 10,
    ensures
        s@ == digit_char(d as nat),
{
    if d == 0 {
        "0"
    } else if d == 1 {
        "1"
    } else if d == 2 {
        "2"
    } else if d == 3 {
        "3"
    } else if d == 4 {
        "4"
    } else if d == 5 {
        "5"
    } else if d == 6 {
        "6"
    } else if d == 7 {
        "7"
    } else if d == 8 {
        "8"
    } else {
        "9"
    }
}

/// Appends `n` in decimal to `out`.
pub fn push_decimal(out: &mut String, n: u64)
    ensures
        final(out)@ == old(out)@ + decimal(n as nat),
    decreases n,
{
    if n >= 10 {
        push_decimal(out, n / 10);
        out.append(digit_text(n % 10));
        assert(out@ =~= old(out)@ + decimal(n as nat));
    } else {
        out.append(digit_text(n));
    }
}

/// Appends `i` in decimal to `out`, with `-` in front of a negative one.
pub fn push_signed_decimal(out: &mut String, i: i64)
    ensures
        final(out)@ == old(out)@ + signed_decimal(i as int),
{
    if i < 0 {
        out.append("-");
        let magnitude: u64 = if i == i64::MIN {
            9223372036854775808u64
        } else {
            (-i) as u64
        };
        push_decimal(out, magnitude);
        assert(out@ =~= old(out)@ + signed_decimal(i as int));
    } else {
        push_decimal(out, i as u64);
    }
}

} // verus!
