//! Numbers written out in digits.

use vstd::prelude::*;
use vstd::string::StringExecFns;

verus! {

/// The character of the binary digit `d`.
pub open spec fn binary_digit(d: nat) -> char {
    if d == 0 {
        '0'
    } else {
        '1'
    }
}

/// The character of the decimal digit `d`.
pub open spec fn decimal_digit(d: nat) -> char {
    if d == 0 {
        '0'
    } else if d == 1 {
        '1'
    } else if d == 2 {
        '2'
    } else if d == 3 {
        '3'
    } else if d == 4 {
        '4'
    } else if d == 5 {
        '5'
    } else if d == 6 {
        '6'
    } else if d == 7 {
        '7'
    } else if d == 8 {
        '8'
    } else {
        '9'
    }
}

/// `n` in binary, without leading zeros; zero is `0`.
pub open spec fn binary_digits(n: nat) -> Seq<char>
    decreases n,
{
    if n < 2 {
        seq![binary_digit(n)]
    } else {
        binary_digits(n / 2).push(binary_digit(n % 2))
    }
}

/// `n` in decimal, without leading zeros; zero is `0`.
pub open spec fn decimal_digits(n: nat) -> Seq<char>
    decreases n,
{
    if n < 10 {
        seq![decimal_digit(n)]
    } else {
        decimal_digits(n / 10).push(decimal_digit(n % 10))
    }
}

/// Appends `word` in binary to `out`.
pub fn push_binary(out: &mut String, word: u32)
    ensures
        final(out)@ == old(out)@ + binary_digits(word as nat),
    decreases word,
{
    if word >= 2 {
        push_binary(out, word / 2);
    }
    proof {
        reveal_strlit("0");
        reveal_strlit("1");
    }
    let ghost before = out@;
    if word % 2 == 0 {
        out.append("0");
    } else {
        out.append("1");
    }
    proof {
        assert(out@ =~= old(out)@ + binary_digits(word as nat));
    }
}

/// Appends `number` in decimal to `out`.
pub fn push_decimal(out: &mut String, number: usize)
    ensures
        final(out)@ == old(out)@ + decimal_digits(number as nat),
    decreases number,
{
    if number >= 10 {
        push_decimal(out, number / 10);
    }
    proof {
        reveal_strlit("0");
        reveal_strlit("1");
        reveal_strlit("2");
        reveal_strlit("3");
        reveal_strlit("4");
        reveal_strlit("5");
        reveal_strlit("6");
        reveal_strlit("7");
        reveal_strlit("8");
        reveal_strlit("9");
    }
    let digit = number % 10;
    if digit == 0 {
        out.append("0");
    } else if digit == 1 {
        out.append("1");
    } else if digit == 2 {
        out.append("2");
    } else if digit == 3 {
        out.append("3");
    } else if digit == 4 {
        out.append("4");
    } else if digit == 5 {
        out.append("5");
    } else if digit == 6 {
        out.append("6");
    } else if digit == 7 {
        out.append("7");
    } else if digit == 8 {
        out.append("8");
    } else {
        out.append("9");
    }
    proof {
        assert(out@ =~= old(out)@ + decimal_digits(number as nat));
    }
}

} // verus!
