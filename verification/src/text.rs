//! Decimal and hexadecimal text, used by the tracker query builder and by
//! diagnostic messages.

use vstd::prelude::*;
use vstd::string::StringExecFns;

verus! {

/// The uppercase hexadecimal digit for `d` (`0 <= d < 16`).
pub open spec fn hex_digit(d: int) -> char {
    if d < 10 {
        ((48 + d) as u8) as char
    } else {
        ((55 + d) as u8) as char
    }
}

/// The decimal notation of a non-negative number, as characters.
pub open spec fn dec_chars(n: int) -> Seq<char>
    recommends
        n >= 0,
    decreases n,
{
    if n <= 9 {
        seq![hex_digit(if n >= 0 { n } else { 0 })]
    } else {
        dec_chars(n / 10) + seq![hex_digit(n % 10)]
    }
}

/// The decimal digit characters `0` to `9`.
pub fn digit_str(d: u64) -> (r: &'static str)
    requires
        d <= 9,
    ensures
        r@ == seq![hex_digit(d as int)],
{
    let r = match d {
        0 => "0",
        1 => "1",
        2 => "2",
        3 => "3",
        4 => "4",
        5 => "5",
        6 => "6",
        7 => "7",
        8 => "8",
        _ => "9",
    };
    proof {
        reveal_strlit("0");
        reveal_strlit("1");
        reveal_strlit("2");
        reveal_strlit("3");
        reveal_strlit("4");
        reveal_strlit("5");
        reveal_strlit("6");
        reveal_strlit("7");
        reveal_strlit("8");
        reveal_strlit("9");
        assert(r@ =~= seq![hex_digit(d as int)]);
    }
    r
}

/// Appends the decimal notation of `n`.
pub fn push_decimal_chars(s: &mut String, n: u64)
    ensures
        final(s)@ == old(s)@ + dec_chars(n as int),
    decreases n,
{
    if n <= 9 {
        s.append(digit_str(n));
    } else {
        push_decimal_chars(s, n / 10);
        s.append(digit_str(n % 10));
    }
}

} // verus!
