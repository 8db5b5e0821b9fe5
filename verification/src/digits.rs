//! Decimal and hexadecimal digits of numbers, as Rust's formatting writes them.
use vstd::prelude::*;
use crate::jsonl::string_push;

verus! {

/// The digit characters `0`-`9`, then the lowercase `a`-`f`.
pub open spec fn digit_table() -> Seq<char> {
    seq!['0', '1', '2', '3', '4', '5', '6', '7', '8', '9', 'a', 'b', 'c', 'd', 'e', 'f']
}

/// The decimal digits of `n`, without leading zeros (`{}`).
pub open spec fn decimal(n: nat) -> Seq<char>
    decreases n,
{
    if n < 10 {
        seq![digit_table()[n as int]]
    } else {
        decimal(n / 10).push(digit_table()[(n % 10) as int])
    }
}

/// The last `width` decimal digits of `n`, zero padded (`{:0width$}` for `n < 10^width`).
pub open spec fn fixed_decimal(n: nat, width: nat) -> Seq<char>
    decreases width,
{
    if width == 0 {
        Seq::empty()
    } else {
        fixed_decimal(n / 10, (width - 1) as nat).push(digit_table()[(n % 10) as int])
    }
}

/// The last `width` lowercase hexadecimal digits of `n`, zero padded (`{:0width$x}` for
/// `n < 16^width`).
pub open spec fn fixed_hex(n: nat, width: nat) -> Seq<char>
    decreases width,
{
    if width == 0 {
        Seq::empty()
    } else {
        fixed_hex(n / 16, (width - 1) as nat).push(digit_table()[(n % 16) as int])
    }
}

/// The digit character for `d`.
fn digit_char(d: u32) -> (c: char)
    requires
        d < 16,
    ensures
        c == digit_table()[d as int],
{
    match d {
        0 => '0',
        1 => '1',
        2 => '2',
        3 => '3',
        4 => '4',
        5 => '5',
        6 => '6',
        7 => '7',
        8 => '8',
        9 => '9',
        10 => 'a',
        11 => 'b',
        12 => 'c',
        13 => 'd',
        14 => 'e',
        _ => 'f',
    }
}

/// Appends the decimal digits of `n`.
pub fn push_decimal(s: &mut String, n: u32)
    ensures
        final(s)@ == old(s)@ + decimal(n as nat),
    decreases n,
{
    if n >= 10 {
        push_decimal(s, n / 10);
    }
    string_push(s, digit_char(n % 10));
    proof {
        if n < 10 {
            assert(decimal(n as nat) =~= seq![digit_table()[n as int]]);
        }
    }
}

/// Appends the last `width` decimal digits of `n`, zero padded.
pub fn push_fixed_decimal(s: &mut String, n: u32, width: u32)
    ensures
        final(s)@ == old(s)@ + fixed_decimal(n as nat, width as nat),
    decreases width,
{
    if width > 0 {
        push_fixed_decimal(s, n / 10, width - 1);
        string_push(s, digit_char(n % 10));
    } else {
        assert(fixed_decimal(n as nat, 0) =~= Seq::<char>::empty());
    }
}

/// Appends the last `width` lowercase hexadecimal digits of `n`, zero padded.
pub fn push_fixed_hex(s: &mut String, n: u32, width: u32)
    ensures
        final(s)@ == old(s)@ + fixed_hex(n as nat, width as nat),
    decreases width,
{
    if width > 0 {
        push_fixed_hex(s, n / 16, width - 1);
        string_push(s, digit_char(n % 16));
    } else {
        assert(fixed_hex(n as nat, 0) =~= Seq::<char>::empty());
    }
}

} // verus!
