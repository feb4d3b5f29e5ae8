//! Numbers as decimal text.

use vstd::prelude::*;
use vstd::string::StringExecFns;

verus! {

/// The decimal digit `d`.
pub open spec fn digit_char(d: nat) -> char {
    if d == 0 {
        '0'
    } else if d == 1 {
        '1'
    } else if d == 2 {
        '2'
    } else if d == 3 {
        '3'
    } else if d == 4 {
        '4'
    } else if d == 5 {
        '5'
    } else if d == 6 {
        '6'
    } else if d == 7 {
        '7'
    } else if d == 8 {
        '8'
    } else {
        '9'
    }
}

/// The decimal digits of `n`, the most significant first.
pub open spec fn decimal_digits(n: nat) -> Seq<char>
    decreases n,
{
    if n < 10 {
        seq![digit_char(n)]
    } else {
        decimal_digits(n / 10).push(digit_char(n % 10))
    }
}

/// The decimal digit `d` as text.
pub fn digit_text(d: u64) -> (text: &'static str)
    requires
        d < 10,
    ensures
        text@ == seq![digit_char(d as nat)],
{
    proof {
        reveal_strlit("0");
        reveal_strlit("1");
        reveal_strlit("2");
        reveal_strlit("3");
        reveal_strlit("4");
        reveal_strlit("5");
        reveal_strlit("6");
        reveal_strlit("7");
        reveal_strlit("8");
        reveal_strlit("9");
    }
    let text: &'static str = if d == 0 {
        "0"
    } else if d == 1 {
        "1"
    } else if d == 2 {
        "2"
    } else if d == 3 {
        "3"
    } else if d == 4 {
        "4"
    } else if d == 5 {
        "5"
    } else if d == 6 {
        "6"
    } else if d == 7 {
        "7"
    } else if d == 8 {
        "8"
    } else {
        "9"
    };
    assert(text@ =~= seq![digit_char(d as nat)]);
    text
}

/// Writes `n` after `prefix`, in decimal digits.
pub fn numbered_wide(prefix: &str, n: u64) -> (text: String)
    ensures
        text@ == prefix@ + decimal_digits(n as nat),
    decreases n,
{
    if n < 10 {
        String::from_str(prefix).concat(digit_text(n))
    } else {
        let head = numbered_wide(prefix, n / 10);
        let text = head.concat(digit_text(n % 10));
        assert(text@ =~= prefix@ + decimal_digits(n as nat));
        text
    }
}

/// Writes `n` after `prefix`, in decimal digits.
pub fn numbered(prefix: &str, n: usize) -> (text: String)
    ensures
        text@ == prefix@ + decimal_digits(n as nat),
{
    numbered_wide(prefix, n as u64)
}

} // verus!
