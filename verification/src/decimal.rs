//! Integers as decimal text.

use vstd::prelude::*;

verus! {

/// The decimal digits of `n`, most significant first, as ASCII.
pub open spec fn decimal_digits(n: nat) -> Seq<u8>
    decreases n,
{
    if n < 10 {
        seq![(48 + n) as u8]
    } else {
        decimal_digits(n / 10).push((48 + n % 10) as u8)
    }
}

/// The decimal text of `n`: a minus sign where `n` is negative, then the
/// digits of its magnitude.
pub open spec fn decimal_spec(n: int) -> Seq<u8> {
    if n < 0 {
        seq![45u8] + decimal_digits((-n) as nat)
    } else {
        decimal_digits(n as nat)
    }
}

/// The decimal text of `n`.
pub fn decimal_unsigned(n: u128) -> (r: Vec<u8>)
    ensures
        r@ == decimal_digits(n as nat),
{
    // The digits come out least significant first.
    let mut reversed: Vec<u8> = Vec::new();
    let mut rest: u128 = n;
    while rest >= 10
        invariant
            decimal_digits(n as nat) == decimal_digits(rest as nat) + reversed@.reverse(),
        decreases rest,
    {
        let digit: u8 = (48 + rest % 10) as u8;
        proof {
            let grown = reversed@.push(digit);
            assert(grown.reverse() =~= seq![digit] + reversed@.reverse());
            assert(decimal_digits(rest as nat) == decimal_digits((rest / 10) as nat).push(digit));
            assert(decimal_digits((rest / 10) as nat).push(digit) + reversed@.reverse()
                =~= decimal_digits((rest / 10) as nat) + grown.reverse());
        }
        reversed.push(digit);
        rest = rest / 10;
    }
    let last: u8 = (48 + rest) as u8;
    let mut digits: Vec<u8> = Vec::new();
    digits.push(last);
    let mut i: usize = reversed.len();
    while i > 0
        invariant
            0 <= i <= reversed.len(),
            digits@ == seq![last] + reversed@.reverse().take(reversed.len() - i),
        decreases i,
    {
        i -= 1;
        digits.push(reversed[i]);
        proof {
            let turned = reversed@.reverse();
            let taken = reversed.len() - i;
            assert(turned.take(taken as int) =~= turned.take(taken - 1).push(reversed@[i as int]));
            assert(digits@ =~= seq![last] + turned.take(taken as int));
        }
    }
    proof {
        assert(reversed@.reverse().take(reversed.len() as int) =~= reversed@.reverse());
    }
    digits
}

/// The decimal text of `n`.
pub fn decimal_signed(n: i128) -> (r: Vec<u8>)
    ensures
        r@ == decimal_spec(n as int),
{
    if n >= 0 {
        decimal_unsigned(n as u128)
    } else {
        let magnitude: u128 = if n == i128::MIN {
            0x8000_0000_0000_0000_0000_0000_0000_0000
        } else {
            (-n) as u128
        };
        let digits = decimal_unsigned(magnitude);
        let mut text: Vec<u8> = Vec::new();
        text.push(45u8);
        let mut i: usize = 0;
        while i < digits.len()
            invariant
                0 <= i <= digits.len(),
                text@ == seq![45u8] + digits@.take(i as int),
            decreases digits.len() - i,
        {
            text.push(digits[i]);
            proof {
                assert(digits@.take(i + 1) =~= digits@.take(i as int).push(digits@[i as int]));
                assert(text@ =~= seq![45u8] + digits@.take(i + 1));
            }
            i += 1;
        }
        proof {
            assert(digits@.take(digits.len() as int) =~= digits@);
        }
        text
    }
}

} // verus!
