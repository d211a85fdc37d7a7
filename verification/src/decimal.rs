//! Whole numbers written out in decimal.

use vstd::prelude::*;

verus! {

/// The character that stands for a digit from 0 to 9.
pub open spec fn digit(d: int) -> char {
    if d == 0 {
        '0'
    } else if d == 1 {
        '1'
    } else if d == 2 {
        '2'
    } else if d == 3 {
        '3'
    } else if d == 4 {
        '4'
    } else if d == 5 {
        '5'
    } else if d == 6 {
        '6'
    } else if d == 7 {
        '7'
    } else if d == 8 {
        '8'
    } else {
        '9'
    }
}

/// A natural number in decimal: its digits from the highest to the lowest,
/// without leading zeros; `0` for zero.
pub open spec fn decimal(n: nat) -> Seq<char>
    decreases n,
{
    if n < 10 {
        seq![digit(n as int)]
    } else {
        decimal(n / 10).push(digit((n % 10) as int))
    }
}

/// A whole number in decimal, with a `-` in front where it is negative.
pub open spec fn signed(i: int) -> Seq<char> {
    if i < 0 {
        seq!['-'] + decimal((-i) as nat)
    } else {
        decimal(i as nat)
    }
}

/// Returns the character that stands for a digit.
pub fn digit_char(d: u8) -> (c: char)
    requires
        d < 10,
    ensures
        c == digit(d as int),
{
    if d == 0 {
        '0'
    } else if d == 1 {
        '1'
    } else if d == 2 {
        '2'
    } else if d == 3 {
        '3'
    } else if d == 4 {
        '4'
    } else if d == 5 {
        '5'
    } else if d == 6 {
        '6'
    } else if d == 7 {
        '7'
    } else if d == 8 {
        '8'
    } else {
        '9'
    }
}

/// Writes a natural number in decimal at the end of a text.
pub fn push_decimal(text: &mut String, n: u128)
    ensures
        final(text)@ == old(text)@ + decimal(n as nat),
{
    let mut lower: Vec<char> = Vec::new();
    let mut rest: u128 = n;
    assert(decimal(rest as nat) + lower@.reverse() =~= decimal(n as nat));
    while rest >= 10
        invariant
            decimal(rest as nat) + lower@.reverse() == decimal(n as nat),
        decreases rest,
    {
        let low: u8 = (rest % 10) as u8;
        let ghost before = lower@;
        lower.push(digit_char(low));
        assert(lower@.reverse() =~= seq![digit(low as int)] + before.reverse());
        assert(decimal((rest / 10) as nat) + lower@.reverse() =~= decimal(rest as nat)
            + before.reverse());
        rest = rest / 10;
    }
    text.push(digit_char(rest as u8));
    let mut left: usize = lower.len();
    assert(lower@.reverse().take(0) =~= Seq::<char>::empty());
    assert(text@ =~= old(text)@ + decimal(rest as nat) + lower@.reverse().take(0));
    while left > 0
        invariant
            left <= lower.len(),
            text@ == old(text)@ + decimal(rest as nat) + lower@.reverse().take(
                lower.len() - left,
            ),
            decimal(rest as nat) + lower@.reverse() == decimal(n as nat),
        decreases left,
    {
        left -= 1;
        text.push(lower[left]);
        assert(lower@.reverse().take(lower.len() - left) =~= lower@.reverse().take(
            lower.len() - left - 1,
        ).push(lower@[left as int]));
    }
    assert(lower@.reverse().take(lower.len() as int) =~= lower@.reverse());
    assert(text@ =~= old(text)@ + (decimal(rest as nat) + lower@.reverse()));
}

/// Writes a whole number in decimal at the end of a text.
pub fn push_signed(text: &mut String, i: i128)
    ensures
        final(text)@ == old(text)@ + signed(i as int),
{
    if i < 0 {
        text.push('-');
        let size: u128 = (-(i + 1)) as u128 + 1;
        push_decimal(text, size);
        assert(text@ =~= old(text)@ + (seq!['-'] + decimal((-i) as nat)));
    } else {
        push_decimal(text, i as u128);
    }
}

} // verus!
