//! Numbers as text.
use vstd::prelude::*;
use vstd::string::StringExecFns;

verus! {

/// The digit `d` as text.
pub open spec fn digit(d: nat) -> Seq<char>
    recommends
        d < 10,
{
    if d == 0 {
        "0"@
    } else if d == 1 {
        "1"@
    } else if d == 2 {
        "2"@
    } else if d == 3 {
        "3"@
    } else if d == 4 {
        "4"@
    } else if d == 5 {
        "5"@
    } else if d == 6 {
        "6"@
    } else if d == 7 {
        "7"@
    } else if d == 8 {
        "8"@
    } else {
        "9"@
    }
}

/// The number `n` in decimal digits.
pub open spec fn decimal(n: nat) -> Seq<char>
    decreases n,
{
    if n < 10 {
        digit(n)
    } else {
        decimal(n / 10) + digit(n % 10)
    }
}

/// The lowest `width` binary digits of `n`, highest first.
pub open spec fn binary(n: nat, width: nat) -> Seq<char>
    decreases width,
{
    if width == 0 {
        Seq::empty()
    } else {
        binary(n / 2, (width - 1) as nat) + digit(n % 2)
    }
}

/// The digit `d` as text.
pub fn digit_text(d: u64) -> (r: &'static str)
    requires
        d < 10,
    ensures
        r@ == digit(d as nat),
{
    if d == 0 {
        "0"
    } else if d == 1 {
        "1"
    } else if d == 2 {
        "2"
    } else if d == 3 {
        "3"
    } else if d == 4 {
        "4"
    } else if d == 5 {
        "5"
    } else if d == 6 {
        "6"
    } else if d == 7 {
        "7"
    } else if d == 8 {
        "8"
    } else {
        "9"
    }
}

/// Appends `n` in decimal digits.
pub fn append_decimal(out: &mut String, n: u64)
    ensures
        final(out)@ == old(out)@ + decimal(n as nat),
    decreases n,
{
    if n < 10 {
        out.append(digit_text(n));
    } else {
        append_decimal(out, n / 10);
        out.append(digit_text(n % 10));
        assert(out@ =~= old(out)@ + decimal(n as nat));
    }
}

/// Appends the lowest `width` binary digits of `n`, highest first.
pub fn append_binary(out: &mut String, n: u64, width: u32)
    ensures
        final(out)@ == old(out)@ + binary(n as nat, width as nat),
    decreases width,
{
    if width > 0 {
        append_binary(out, n / 2, width - 1);
        out.append(digit_text(n % 2));
        assert(out@ =~= old(out)@ + binary(n as nat, width as nat));
    }
}

} // verus!
