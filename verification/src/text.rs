//! Decimal numbers and symbol names as text.

use vstd::prelude::*;
use vstd::string::StringExecFns;
use crate::grid_cell::Symbol;

verus! {

/// The decimal digit `d` as text.
pub open spec fn digit_text(d: int) -> Seq<char> {
    if d == 0 {
        "0"@
    } else if d == 1 {
        "1"@
    } else if d == 2 {
        "2"@
    } else if d == 3 {
        "3"@
    } else if d == 4 {
        "4"@
    } else if d == 5 {
        "5"@
    } else if d == 6 {
        "6"@
    } else if d == 7 {
        "7"@
    } else if d == 8 {
        "8"@
    } else {
        "9"@
    }
}

/// The decimal digits of `v`, most significant first, no leading zeros.
pub open spec fn digits_text(v: nat) -> Seq<char>
    decreases v,
{
    if v < 10 {
        digit_text(v as int)
    } else {
        digits_text(v / 10) + digit_text((v % 10) as int)
    }
}

/// `v` written in decimal, with a minus sign when negative.
pub open spec fn decimal_text(v: int) -> Seq<char> {
    if v < 0 {
        "-"@ + digits_text((-v) as nat)
    } else {
        digits_text(v as nat)
    }
}

/// The name a symbol is printed with.
pub open spec fn symbol_text(s: Symbol) -> Seq<char> {
    match s {
        Symbol::Empty => "None"@,
        Symbol::X => "X"@,
        Symbol::Y => "Y"@,
    }
}

/// Appends the digit `d` to `out`.
fn push_digit(out: &mut String, d: u64)
    requires
        d < 10,
    ensures
        final(out)@ == old(out)@ + digit_text(d as int),
{
    let t = match d {
        0 => "0",
        1 => "1",
        2 => "2",
        3 => "3",
        4 => "4",
        5 => "5",
        6 => "6",
        7 => "7",
        8 => "8",
        _ => "9",
    };
    out.append(t);
}

/// Appends the decimal digits of `v` to `out`.
pub fn push_digits(out: &mut String, v: u64)
    ensures
        final(out)@ == old(out)@ + digits_text(v as nat),
    decreases v,
{
    if v < 10 {
        push_digit(out, v);
    } else {
        push_digits(out, v / 10);
        push_digit(out, v % 10);
        assert(final(out)@ =~= old(out)@ + digits_text(v as nat));
    }
}

/// Appends `v` in decimal to `out`.
pub fn push_decimal(out: &mut String, v: i64)
    ensures
        final(out)@ == old(out)@ + decimal_text(v as int),
{
    if v < 0 {
        out.append("-");
        let magnitude: u64 = if v == i64::MIN {
            0x8000_0000_0000_0000u64
        } else {
            (-v) as u64
        };
        push_digits(out, magnitude);
        assert(final(out)@ =~= old(out)@ + decimal_text(v as int));
    } else {
        push_digits(out, v as u64);
    }
}

/// Appends the name of `s` to `out`.
pub fn push_symbol(out: &mut String, s: Symbol)
    ensures
        final(out)@ == old(out)@ + symbol_text(s),
{
    match s {
        Symbol::Empty => out.append("None"),
        Symbol::X => out.append("X"),
        Symbol::Y => out.append("Y"),
    }
}

} // verus!
