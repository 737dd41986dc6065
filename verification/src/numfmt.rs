//! Decimal rendering of cost values.

use vstd::prelude::*;

verus! {

use crate::INFINITY;

/// The decimal digit character for `d`, which must lie in `0..=9`.
pub open spec fn digit_char(d: int) -> char {
    if d == 0 {
        '0'
    } else if d == 1 {
        '1'
    } else if d == 2 {
        '2'
    } else if d == 3 {
        '3'
    } else if d == 4 {
        '4'
    } else if d == 5 {
        '5'
    } else if d == 6 {
        '6'
    } else if d == 7 {
        '7'
    } else if d == 8 {
        '8'
    } else {
        '9'
    }
}

/// The decimal rendering of a non-negative number, most significant digit
/// first.
pub open spec fn dec_seq(n: int) -> Seq<char>
    decreases n,
{
    if n < 10 {
        seq![digit_char(n)]
    } else {
        dec_seq(n / 10) + seq![digit_char(n % 10)]
    }
}

fn digit_string(d: u64) -> (r: String)
    requires
        d < 10,
    ensures
        r@ == seq![digit_char(d as int)],
{
    let s: &str = if d == 0 {
        "0"
    } else if d == 1 {
        "1"
    } else if d == 2 {
        "2"
    } else if d == 3 {
        "3"
    } else if d == 4 {
        "4"
    } else if d == 5 {
        "5"
    } else if d == 6 {
        "6"
    } else if d == 7 {
        "7"
    } else if d == 8 {
        "8"
    } else {
        "9"
    };
    proof {
        reveal_strlit("0");
        reveal_strlit("1");
        reveal_strlit("2");
        reveal_strlit("3");
        reveal_strlit("4");
        reveal_strlit("5");
        reveal_strlit("6");
        reveal_strlit("7");
        reveal_strlit("8");
        reveal_strlit("9");
    }
    s.to_owned()
}

/// Renders a finite number in decimal.
pub fn dec_string(n: u64) -> (r: String)
    ensures
        r@ == dec_seq(n as int),
    decreases n,
{
    if n < 10 {
        digit_string(n)
    } else {
        let mut s = dec_string(n / 10);
        let d = digit_string(n % 10);
        s.append(d.as_str());
        s
    }
}

/// The rendering of a cost: its decimal digits, or `inf` for the
/// unreachable sentinel.
pub open spec fn cost_seq(n: u64) -> Seq<char> {
    if n == INFINITY {
        "inf"@
    } else {
        dec_seq(n as int)
    }
}

/// Renders a cost, writing the unreachable sentinel as `inf`.
pub fn cost_string(n: u64) -> (r: String)
    ensures
        r@ == cost_seq(n),
{
    if n == INFINITY {
        "inf".to_owned()
    } else {
        dec_string(n)
    }
}

} // verus!
