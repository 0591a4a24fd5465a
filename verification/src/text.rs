//! Building text: characters appended to a string, and numbers in decimal.

use vstd::prelude::*;
use vstd::string::StringExecFns;

verus! {

/// `String::push` of the standard library appends the character to the end
/// of the string and leaves what was there as it was.
pub assume_specification[ String::push ](s: &mut String, ch: char)
    ensures
        final(s)@ == old(s)@.push(ch),
;

/// The character of a decimal digit.
pub open spec fn digit_of(d: nat) -> char {
    if d == 0 {
        '0'
    } else if d == 1 {
        '1'
    } else if d == 2 {
        '2'
    } else if d == 3 {
        '3'
    } else if d == 4 {
        '4'
    } else if d == 5 {
        '5'
    } else if d == 6 {
        '6'
    } else if d == 7 {
        '7'
    } else if d == 8 {
        '8'
    } else {
        '9'
    }
}

/// The decimal digits of a number, without leading zeros.
pub open spec fn decimal_of(n: nat) -> Seq<char>
    decreases n,
{
    if n < 10 {
        seq![digit_of(n)]
    } else {
        decimal_of(n / 10).push(digit_of(n % 10))
    }
}

/// The character of a decimal digit.
pub fn digit(d: usize) -> (c: char)
    requires
        d < 10,
    ensures
        c == digit_of(d as nat),
{
    if d == 0 {
        '0'
    } else if d == 1 {
        '1'
    } else if d == 2 {
        '2'
    } else if d == 3 {
        '3'
    } else if d == 4 {
        '4'
    } else if d == 5 {
        '5'
    } else if d == 6 {
        '6'
    } else if d == 7 {
        '7'
    } else if d == 8 {
        '8'
    } else {
        '9'
    }
}

/// The number in decimal.
pub fn decimal(n: usize) -> (text: String)
    ensures
        text@ == decimal_of(n as nat),
{
    // The digits from the last to the first.
    let mut reversed: Vec<char> = Vec::new();
    let mut rest = n;
    while rest >= 10
        invariant
            decimal_of(n as nat) == decimal_of(rest as nat) + reversed@.reverse(),
        decreases rest,
    {
        let ghost before = reversed@;
        reversed.push(digit(rest % 10));
        proof {
            assert(reversed@.reverse() =~= seq![digit_of((rest % 10) as nat)] + before.reverse());
            assert(decimal_of(rest as nat) == decimal_of((rest / 10) as nat).push(
                digit_of((rest % 10) as nat),
            ));
            assert(decimal_of(n as nat) =~= decimal_of((rest / 10) as nat) + reversed@.reverse());
        }
        rest = rest / 10;
    }
    let mut text = String::new();
    text.push(digit(rest));
    let mut i = reversed.len();
    while i > 0
        invariant
            i <= reversed.len(),
            text@ == decimal_of(rest as nat) + reversed@.reverse().take(reversed.len() - i),
        decreases i,
    {
        i -= 1;
        text.push(reversed[i]);
        assert(reversed@.reverse().take(reversed.len() - i) =~= reversed@.reverse().take(
            reversed.len() - (i + 1),
        ).push(reversed@[i as int]));
    }
    assert(reversed@.reverse().take(reversed.len() as int) =~= reversed@.reverse());
    text
}

/// Appends a position as `line:column`.
pub fn push_position(text: &mut String, line: usize, column: usize)
    ensures
        final(text)@ == old(text)@ + position_of(line, column),
{
    let l = decimal(line);
    let c = decimal(column);
    text.append(l.as_str());
    text.push(':');
    text.append(c.as_str());
    assert(text@ =~= old(text)@ + position_of(line, column));
}

/// A position as `line:column`.
pub open spec fn position_of(line: usize, column: usize) -> Seq<char> {
    decimal_of(line as nat) + seq![':'] + decimal_of(column as nat)
}

} // verus!
