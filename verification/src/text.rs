//! Decimal text for balances.

use vstd::prelude::*;
use vstd::string::*;

verus! {

/// The character for a digit below ten.
pub open spec fn digit(d: nat) -> char {
    if d == 0 {
        '0'
    } else if d == 1 {
        '1'
    } else if d == 2 {
        '2'
    } else if d == 3 {
        '3'
    } else if d == 4 {
        '4'
    } else if d == 5 {
        '5'
    } else if d == 6 {
        '6'
    } else if d == 7 {
        '7'
    } else if d == 8 {
        '8'
    } else {
        '9'
    }
}

/// The decimal digits of `n`, most significant first, without leading zeros.
pub open spec fn decimal(n: nat) -> Seq<char>
    decreases n,
{
    if n < 10 {
        seq![digit(n)]
    } else {
        decimal(n / 10).push(digit(n % 10))
    }
}

/// The digits of a number that are still to be written before those already
/// taken off its end: none for zero.
spec fn leading(rest: nat) -> Seq<char> {
    if rest == 0 {
        Seq::empty()
    } else {
        decimal(rest)
    }
}

/// The characters of digits that were collected from the least significant
/// on, in reading order.
spec fn reversed(digits: Seq<u8>) -> Seq<char> {
    Seq::new(digits.len(), |i: int| digit(digits[digits.len() - 1 - i] as nat))
}

fn digit_text(d: u8) -> (text: &'static str)
    requires
        d < 10,
    ensures
        text@ == seq![digit(d as nat)],
{
    proof {
        reveal_strlit("0");
        reveal_strlit("1");
        reveal_strlit("2");
        reveal_strlit("3");
        reveal_strlit("4");
        reveal_strlit("5");
        reveal_strlit("6");
        reveal_strlit("7");
        reveal_strlit("8");
        reveal_strlit("9");
    }
    let text = if d == 0 {
        "0"
    } else if d == 1 {
        "1"
    } else if d == 2 {
        "2"
    } else if d == 3 {
        "3"
    } else if d == 4 {
        "4"
    } else if d == 5 {
        "5"
    } else if d == 6 {
        "6"
    } else if d == 7 {
        "7"
    } else if d == 8 {
        "8"
    } else {
        "9"
    };
    assert(text@ =~= seq![digit(d as nat)]);
    text
}

/// Writes `n` in decimal.
pub fn decimal_string(n: u64) -> (text: String)
    ensures
        text@ == decimal(n as nat),
{
    let mut digits: Vec<u8> = Vec::new();
    digits.push((n % 10) as u8);
    let mut rest: u64 = n / 10;
    assert(leading(rest as nat) + reversed(digits@) =~= decimal(n as nat));
    while rest > 0
        invariant
            digits.len() > 0,
            forall|i: int| 0 <= i < digits.len() ==> #[trigger] digits[i] < 10,
            leading(rest as nat) + reversed(digits@) == decimal(n as nat),
        decreases rest,
    {
        let ghost before = digits@;
        let d = (rest % 10) as u8;
        digits.push(d);
        proof {
            let next = (rest / 10) as nat;
            assert(leading(rest as nat) =~= leading(next).push(digit(d as nat)));
            assert(reversed(digits@) =~= seq![digit(d as nat)] + reversed(before));
            assert(leading(next) + reversed(digits@) =~= leading(rest as nat) + reversed(before));
        }
        rest = rest / 10;
    }
    let mut text = String::new();
    let mut i: usize = digits.len();
    while i > 0
        invariant
            i <= digits.len(),
            forall|k: int| 0 <= k < digits.len() ==> #[trigger] digits[k] < 10,
            text@ == reversed(digits@).take(digits.len() - i),
        decreases i,
    {
        i -= 1;
        text.append(digit_text(digits[i]));
        assert(text@ =~= reversed(digits@).take(digits.len() - i));
    }
    assert(reversed(digits@).take(digits.len() as int) =~= reversed(digits@));
    assert(leading(0) + reversed(digits@) =~= reversed(digits@));
    text
}

} // verus!
