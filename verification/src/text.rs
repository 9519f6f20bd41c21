//! Building text: numbers in decimal.

use vstd::prelude::*;

verus! {

/// The character of the decimal digit `d`.
pub open spec fn digit_char(d: nat) -> char
    recommends
        d < 10,
{
    if d == 0 {
        '0'
    } else if d == 1 {
        '1'
    } else if d == 2 {
        '2'
    } else if d == 3 {
        '3'
    } else if d == 4 {
        '4'
    } else if d == 5 {
        '5'
    } else if d == 6 {
        '6'
    } else if d == 7 {
        '7'
    } else if d == 8 {
        '8'
    } else {
        '9'
    }
}

/// `n` in decimal, without leading zeros; zero is `"0"`.
pub open spec fn decimal(n: nat) -> Seq<char>
    decreases n,
{
    if n < 10 {
        seq![digit_char(n)]
    } else {
        decimal(n / 10).push(digit_char(n % 10))
    }
}

/// The one-character text of the digit `d`.
fn digit_str(d: u64) -> (s: &'static str)
    requires
        d < 10,
    ensures
        s@ == seq![digit_char(d as nat)],
{
    proof {
        reveal_strlit("0");
        reveal_strlit("1");
        reveal_strlit("2");
        reveal_strlit("3");
        reveal_strlit("4");
        reveal_strlit("5");
        reveal_strlit("6");
        reveal_strlit("7");
        reveal_strlit("8");
        reveal_strlit("9");
    }
    let s: &'static str = if d == 0 {
        "0"
    } else if d == 1 {
        "1"
    } else if d == 2 {
        "2"
    } else if d == 3 {
        "3"
    } else if d == 4 {
        "4"
    } else if d == 5 {
        "5"
    } else if d == 6 {
        "6"
    } else if d == 7 {
        "7"
    } else if d == 8 {
        "8"
    } else {
        "9"
    };
    assert(s@ =~= seq![digit_char(d as nat)]);
    s
}

/// Appends `n` in decimal to `output`.
pub fn push_decimal(output: &mut String, n: u64)
    ensures
        final(output)@ == old(output)@ + decimal(n as nat),
        final(output)@ == old(output)@ + decimal64(n),
    decreases n,
{
    if n >= 10 {
        push_decimal(output, n / 10);
    }
    output.append(digit_str(n % 10));
    assert(output@ =~= old(output)@ + decimal(n as nat));
}

/// A 32-bit number in decimal.
pub open spec fn decimal32(n: u32) -> Seq<char> {
    decimal(n as nat)
}

/// A 64-bit number in decimal.
pub open spec fn decimal64(n: u64) -> Seq<char> {
    decimal(n as nat)
}

/// Appends the 32-bit number `n` in decimal to `output`.
pub fn push_decimal32(output: &mut String, n: u32)
    ensures
        final(output)@ == old(output)@ + decimal32(n),
{
    push_decimal(output, n as u64);
}

/// Appends `text` to `output`.
pub fn push_text(output: &mut String, text: &str)
    ensures
        final(output)@ == old(output)@ + text@,
{
    output.append(text);
}

} // verus!
