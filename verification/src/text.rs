//! Error-message assembly from literal parts and decimal numbers.

use vstd::prelude::*;
use vstd::string::StringExecFns;

verus! {

/// An owned copy of a literal message.
pub fn literal(text: &str) -> (message: String)
    ensures
        message@ == text@,
{
    String::from_str(text)
}

/// The decimal digit character of `d`, for `d < 10`.
pub open spec fn digit_char(d: nat) -> char {
    if d == 0 {
        '0'
    } else if d == 1 {
        '1'
    } else if d == 2 {
        '2'
    } else if d == 3 {
        '3'
    } else if d == 4 {
        '4'
    } else if d == 5 {
        '5'
    } else if d == 6 {
        '6'
    } else if d == 7 {
        '7'
    } else if d == 8 {
        '8'
    } else {
        '9'
    }
}

/// The decimal digits of `n`, most significant first, without leading
/// zeros.
pub open spec fn decimal(n: nat) -> Seq<char>
    decreases n,
{
    if n < 10 {
        seq![digit_char(n)]
    } else {
        decimal(n / 10).push(digit_char(n % 10))
    }
}

/// The one-character text of the digit `d`.
fn digit_text(d: usize) -> (text: &'static str)
    requires
        d < 10,
    ensures
        text@ == seq![digit_char(d as nat)],
{
    proof {
        reveal_strlit("0");
        reveal_strlit("1");
        reveal_strlit("2");
        reveal_strlit("3");
        reveal_strlit("4");
        reveal_strlit("5");
        reveal_strlit("6");
        reveal_strlit("7");
        reveal_strlit("8");
        reveal_strlit("9");
    }
    if d == 0 {
        "0"
    } else if d == 1 {
        "1"
    } else if d == 2 {
        "2"
    } else if d == 3 {
        "3"
    } else if d == 4 {
        "4"
    } else if d == 5 {
        "5"
    } else if d == 6 {
        "6"
    } else if d == 7 {
        "7"
    } else if d == 8 {
        "8"
    } else {
        "9"
    }
}

/// Appends the decimal digits of `number` to `message`.
pub fn append_decimal(message: &mut String, number: usize)
    ensures
        final(message)@ == old(message)@ + decimal(number as nat),
    decreases number,
{
    if number >= 10 {
        append_decimal(message, number / 10);
    }
    let text = digit_text(number % 10);
    message.append(text);
    proof {
        if number >= 10 {
            assert(old(message)@ + decimal(number as nat) =~= old(message)@ + decimal((number / 10) as nat) + seq![digit_char((number % 10) as nat)]);
        } else {
            assert(number % 10 == number);
        }
    }
}

/// `prefix`, the decimal digits of `number`, then `suffix`.
pub fn with_number(prefix: &str, number: usize, suffix: &str) -> (message: String)
    ensures
        message@ == prefix@ + decimal(number as nat) + suffix@,
        message@.len() >= prefix@.len() + suffix@.len(),
        message@.take(prefix@.len() as int) == prefix@,
{
    let mut message = String::from_str(prefix);
    append_decimal(&mut message, number);
    message.append(suffix);
    proof {
        assert(message@.take(prefix@.len() as int) =~= prefix@);
    }
    message
}

/// `first`, the digits of `left`, `middle`, the digits of `right`, then
/// `last`.
pub fn with_numbers(first: &str, left: usize, middle: &str, right: usize, last: &str) -> (message:
    String)
    ensures
        message@ == first@ + decimal(left as nat) + middle@ + decimal(right as nat) + last@,
        message@.len() >= first@.len(),
        message@.take(first@.len() as int) == first@,
{
    let mut message = with_number(first, left, middle);
    append_decimal(&mut message, right);
    message.append(last);
    proof {
        assert(message@.take(first@.len() as int) =~= first@);
    }
    message
}

} // verus!
