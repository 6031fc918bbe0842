//! Unsigned decimal numbers in text, as the command line and the priors file
//! write them.

use vstd::prelude::*;
use vstd::string::StringExecFns;

verus! {

broadcast use vstd::string::group_string_axioms;

/// A decimal digit.
pub open spec fn is_digit(c: char) -> bool {
    '0' <= c && c <= '9'
}

/// The value of a decimal digit.
pub open spec fn digit_value(c: char) -> nat {
    (c as u32 - '0' as u32) as nat
}

/// The number that a string of decimal digits writes, most significant first.
pub open spec fn decimal_value(digits: Seq<char>) -> nat
    decreases digits.len(),
{
    if digits.len() == 0 {
        0
    } else {
        10 * decimal_value(digits.drop_last()) + digit_value(digits.last())
    }
}

/// The digits of a number's text: the text without a leading `+`.
pub open spec fn digits_of(text: Seq<char>) -> Seq<char> {
    if text.len() > 0 && text[0] == '+' {
        text.drop_first()
    } else {
        text
    }
}

/// The number that `text` writes: an optional `+`, then one decimal digit or more
/// and nothing else, with a value of at most `max`.
pub open spec fn parsed_unsigned(text: Seq<char>, max: nat) -> Option<nat> {
    let digits = digits_of(text);
    if digits.len() > 0 && (forall|i: int| 0 <= i < digits.len() ==> is_digit(#[trigger] digits[i]))
        && decimal_value(digits) <= max {
        Some(decimal_value(digits))
    } else {
        None
    }
}

/// A number is at least what its leading digits write.
pub proof fn lemma_decimal_value_grows(digits: Seq<char>, n: int)
    requires
        0 <= n <= digits.len(),
    ensures
        decimal_value(digits.take(n)) <= decimal_value(digits),
    decreases digits.len(),
{
    if n == digits.len() {
        assert(digits.take(n) =~= digits);
    } else {
        lemma_decimal_value_grows(digits.drop_last(), n);
        assert(digits.drop_last().take(n) =~= digits.take(n));
    }
}

/// Reads an unsigned decimal number of at most `max`.
pub fn parse_unsigned(text: &str, max: usize) -> (r: Option<usize>)
    ensures
        r == match parsed_unsigned(text@, max as nat) {
            Some(value) => Some(value as usize),
            None => None,
        },
{
    let mut value: usize = 0;
    let mut first = true;
    let mut any_digit = false;
    for c in it: text.chars()
        invariant
            it.seq() == text@,
            first == (it.index() == 0),
            any_digit == (digits_of(text@.take(it.index())).len() > 0),
            value <= max,
            value == decimal_value(digits_of(text@.take(it.index()))),
            forall|i: int|
                0 <= i < digits_of(text@.take(it.index())).len() ==> is_digit(
                    #[trigger] digits_of(text@.take(it.index()))[i],
                ),
    {
        let ghost at = it.index();
        let ghost seen = digits_of(text@.take(at));
        let ghost more = digits_of(text@.take(at + 1));
        if first && c == '+' {
            assert(more =~= seen);
        } else {
            proof {
                assert(more =~= seen.push(c));
                assert(more.drop_last() =~= seen);
                let all = digits_of(text@);
                assert(more =~= all.take(more.len() as int));
                assert(all[more.len() - 1] == c);
                lemma_decimal_value_grows(all, more.len() as int);
            }
            if !(c >= '0' && c <= '9') {
                return None;
            }
            let digit = c as u32 - '0' as u32;
            let next: u128 = value as u128 * 10 + digit as u128;
            if next > max as u128 {
                return None;
            }
            value = next as usize;
            any_digit = true;
        }
        first = false;
    }
    assert(text@.take(text@.len() as int) =~= text@);
    if any_digit {
        Some(value)
    } else {
        None
    }
}

/// The character of a decimal digit.
pub open spec fn digit_char(digit: nat) -> char {
    if digit == 0 {
        '0'
    } else if digit == 1 {
        '1'
    } else if digit == 2 {
        '2'
    } else if digit == 3 {
        '3'
    } else if digit == 4 {
        '4'
    } else if digit == 5 {
        '5'
    } else if digit == 6 {
        '6'
    } else if digit == 7 {
        '7'
    } else if digit == 8 {
        '8'
    } else {
        '9'
    }
}

/// The decimal digits of a number, most significant first, without leading zeros.
pub open spec fn decimal_digits(number: nat) -> Seq<char>
    decreases number,
{
    if number < 10 {
        seq![digit_char(number)]
    } else {
        decimal_digits(number / 10).push(digit_char(number % 10))
    }
}

/// The digits of a number write that number.
pub proof fn lemma_decimal_digits_are_read_back(number: nat)
    ensures
        decimal_digits(number).len() > 0,
        forall|i: int|
            0 <= i < decimal_digits(number).len() ==> is_digit(#[trigger] decimal_digits(number)[i]),
        decimal_value(decimal_digits(number)) == number,
        parsed_unsigned(decimal_digits(number), number) == Some(number),
    decreases number,
{
    let digits = decimal_digits(number);
    if number < 10 {
        assert(digits.drop_last() =~= Seq::<char>::empty());
        assert(decimal_value(digits) == 10 * decimal_value(digits.drop_last()) + digit_value(
            digits.last(),
        ));
    } else {
        lemma_decimal_digits_are_read_back(number / 10);
        assert(digits.drop_last() =~= decimal_digits(number / 10));
        assert(digit_value(digit_char(number % 10)) == number % 10);
    }
    assert(digits[0] != '+');
    assert(digits_of(digits) == digits);
}

/// The text of one decimal digit.
fn digit_text(digit: u64) -> (text: &'static str)
    requires
        digit < 10,
    ensures
        text@ == seq![digit_char(digit as nat)],
{
    proof {
        reveal_strlit("0");
        reveal_strlit("1");
        reveal_strlit("2");
        reveal_strlit("3");
        reveal_strlit("4");
        reveal_strlit("5");
        reveal_strlit("6");
        reveal_strlit("7");
        reveal_strlit("8");
        reveal_strlit("9");
    }
    let text = if digit == 0 {
        "0"
    } else if digit == 1 {
        "1"
    } else if digit == 2 {
        "2"
    } else if digit == 3 {
        "3"
    } else if digit == 4 {
        "4"
    } else if digit == 5 {
        "5"
    } else if digit == 6 {
        "6"
    } else if digit == 7 {
        "7"
    } else if digit == 8 {
        "8"
    } else {
        "9"
    };
    assert(text@ =~= seq![digit_char(digit as nat)]);
    text
}

/// Appends the decimal digits of a number to the text.
pub fn append_decimal(text: &mut String, number: u64)
    ensures
        final(text)@ == old(text)@ + decimal_digits(number as nat),
    decreases number,
{
    if number >= 10 {
        append_decimal(text, number / 10);
    }
    text.append(digit_text(number % 10));
    assert(text@ =~= old(text)@ + decimal_digits(number as nat));
}

} // verus!
