//! The numerals the link map and error messages are written with.

use vstd::prelude::*;

verus! {

/// The lowercase hexadecimal digit for `d` (`0` to `f`).
pub open spec fn digit_char(d: nat) -> char {
    if d < 10 {
        (('0' as u32) + d) as char
    } else {
        (('a' as u32) + (d - 10)) as char
    }
}

/// `n` written in decimal, without leading zeros.
pub open spec fn decimal(n: nat) -> Seq<char>
    decreases n,
{
    if n < 10 {
        seq![digit_char(n)]
    } else {
        decimal(n / 10) + seq![digit_char(n % 10)]
    }
}

/// The last `k` hexadecimal digits of `n`, zero-padded.
pub open spec fn digit_chars(n: nat, k: nat) -> Seq<char>
    decreases k,
{
    if k == 0 {
        seq![]
    } else {
        digit_chars(n / 16, (k - 1) as nat) + seq![digit_char(n % 16)]
    }
}

/// A 64-bit address as it appears in a link map: `0x` and sixteen hexadecimal digits.
pub open spec fn address_text(n: u64) -> Seq<char> {
    seq!['0', 'x'] + digit_chars(n as nat, 16)
}

fn digit_text(d: u64) -> (s: &'static str)
    requires
        d < 16,
    ensures
        s@ == seq![digit_char(d as nat)],
{
    if d == 0 { proof { reveal_strlit("0"); } "0" }
    else if d == 1 { proof { reveal_strlit("1"); } "1" }
    else if d == 2 { proof { reveal_strlit("2"); } "2" }
    else if d == 3 { proof { reveal_strlit("3"); } "3" }
    else if d == 4 { proof { reveal_strlit("4"); } "4" }
    else if d == 5 { proof { reveal_strlit("5"); } "5" }
    else if d == 6 { proof { reveal_strlit("6"); } "6" }
    else if d == 7 { proof { reveal_strlit("7"); } "7" }
    else if d == 8 { proof { reveal_strlit("8"); } "8" }
    else if d == 9 { proof { reveal_strlit("9"); } "9" }
    else if d == 10 { proof { reveal_strlit("a"); } "a" }
    else if d == 11 { proof { reveal_strlit("b"); } "b" }
    else if d == 12 { proof { reveal_strlit("c"); } "c" }
    else if d == 13 { proof { reveal_strlit("d"); } "d" }
    else if d == 14 { proof { reveal_strlit("e"); } "e" }
    else { proof { reveal_strlit("f"); } "f" }
}

/// Writes `n` in decimal.
pub fn decimal_text(n: u64) -> (s: String)
    ensures
        s@ == decimal(n as nat),
    decreases n,
{
    if n < 10 {
        String::from_str(digit_text(n))
    } else {
        let prefix = decimal_text(n / 10);
        prefix.concat(digit_text(n % 10))
    }
}

fn hex_text(n: u64, k: u64) -> (s: String)
    requires
        k <= 16,
    ensures
        s@ == digit_chars(n as nat, k as nat),
    decreases k,
{
    if k == 0 {
        String::new()
    } else {
        let prefix = hex_text(n / 16, k - 1);
        prefix.concat(digit_text(n % 16))
    }
}

/// Writes an address as `0x` and sixteen hexadecimal digits, as `{:#018x}` does.
pub fn address_hex(n: u64) -> (s: String)
    ensures
        s@ == address_text(n),
{
    proof { reveal_strlit("0x"); }
    String::from_str("0x").concat(hex_text(n, 16).as_str())
}

} // verus!
