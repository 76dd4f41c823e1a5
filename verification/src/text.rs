//! Decimal numerals, for the text form of a game state.

use vstd::prelude::*;
use vstd::string::StringExecFns;

verus! {

/// The character of a decimal digit.
pub open spec fn digit_char(d: int) -> char {
    if d == 0 {
        '0'
    } else if d == 1 {
        '1'
    } else if d == 2 {
        '2'
    } else if d == 3 {
        '3'
    } else if d == 4 {
        '4'
    } else if d == 5 {
        '5'
    } else if d == 6 {
        '6'
    } else if d == 7 {
        '7'
    } else if d == 8 {
        '8'
    } else {
        '9'
    }
}

/// The decimal numeral of a number: its digits, the most significant first,
/// without leading zeros.
pub open spec fn decimal(n: nat) -> Seq<char>
    decreases n,
{
    if n < 10 {
        seq![digit_char(n as int)]
    } else {
        decimal(n / 10).push(digit_char((n % 10) as int))
    }
}

/// Appends one decimal digit.
pub fn push_digit(out: &mut String, d: usize)
    requires
        d < 10,
    ensures
        final(out)@ == old(out)@.push(digit_char(d as int)),
{
    proof {
        reveal_strlit("0");
        reveal_strlit("1");
        reveal_strlit("2");
        reveal_strlit("3");
        reveal_strlit("4");
        reveal_strlit("5");
        reveal_strlit("6");
        reveal_strlit("7");
        reveal_strlit("8");
        reveal_strlit("9");
    }
    let digit: &str = if d == 0 {
        "0"
    } else if d == 1 {
        "1"
    } else if d == 2 {
        "2"
    } else if d == 3 {
        "3"
    } else if d == 4 {
        "4"
    } else if d == 5 {
        "5"
    } else if d == 6 {
        "6"
    } else if d == 7 {
        "7"
    } else if d == 8 {
        "8"
    } else {
        "9"
    };
    assert(digit@ =~= seq![digit_char(d as int)]);
    out.append(digit);
    assert(out@ =~= old(out)@.push(digit_char(d as int)));
}

/// Appends the decimal numeral of a number.
pub fn push_decimal(out: &mut String, n: usize)
    ensures
        final(out)@ == old(out)@ + decimal(n as nat),
    decreases n,
{
    if n >= 10 {
        push_decimal(out, n / 10);
    }
    push_digit(out, n % 10);
    assert(out@ =~= old(out)@ + decimal(n as nat));
}

/// Appends one character of a board, given as a one-character string.
pub fn push_mark(out: &mut String, mark: &str)
    ensures
        final(out)@ == old(out)@ + mark@,
{
    out.append(mark);
}

/// The two header lines of the text form of a game state: the turn and the
/// score.
pub open spec fn header(turn: nat, score: nat) -> Seq<char> {
    seq!['t', 'u', 'r', 'n', ':', '\t'] + decimal(turn) + seq![
        '\n',
        's',
        'c',
        'o',
        'r',
        'e',
        ':',
        '\t',
    ] + decimal(score) + seq!['\n']
}

/// Appends the two header lines.
pub fn push_header(out: &mut String, turn: usize, score: usize)
    ensures
        final(out)@ == old(out)@ + header(turn as nat, score as nat),
{
    proof {
        reveal_strlit("turn:\t");
        reveal_strlit("\nscore:\t");
        reveal_strlit("\n");
    }
    out.append("turn:\t");
    push_decimal(out, turn);
    out.append("\nscore:\t");
    push_decimal(out, score);
    out.append("\n");
    assert(out@ =~= old(out)@ + header(turn as nat, score as nat));
}

} // verus!
