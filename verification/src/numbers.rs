//! Numbers in decimal.

use crate::text;
use crate::text::CharClass;
use vstd::prelude::*;

verus! {

/// The digit for a number below ten
pub open spec fn digit(value: nat) -> char {
    if value == 0 {
        '0'
    } else if value == 1 {
        '1'
    } else if value == 2 {
        '2'
    } else if value == 3 {
        '3'
    } else if value == 4 {
        '4'
    } else if value == 5 {
        '5'
    } else if value == 6 {
        '6'
    } else if value == 7 {
        '7'
    } else if value == 8 {
        '8'
    } else {
        '9'
    }
}

/// The number a digit stands for
pub open spec fn digit_value(c: char) -> nat {
    (c as u32 - '0' as u32) as nat
}

/// A number in decimal, without leading zeros
pub open spec fn decimal_spec(value: nat) -> Seq<char>
    decreases value,
{
    if value < 10 {
        seq![digit(value)]
    } else {
        decimal_spec(value / 10).push(digit(value % 10))
    }
}

/// The number that a run of digits stands for
pub open spec fn number_of(digits: Seq<char>) -> nat
    decreases digits.len(),
{
    if digits.len() == 0 {
        0
    } else {
        number_of(digits.drop_last()) * 10 + digit_value(digits.last())
    }
}

/// `decimal_spec`'s text is digits, and stands for the number
pub proof fn lemma_decimal(value: nat)
    ensures
        decimal_spec(value).len() > 0,
        forall|i: int|
            0 <= i < decimal_spec(value).len() ==> text::is_digit(#[trigger] decimal_spec(value)[i]),
        number_of(decimal_spec(value)) == value,
    decreases value,
{
    if value < 10 {
        assert(seq![digit(value)].drop_last() =~= Seq::empty());
        assert(number_of(Seq::empty()) == 0);
    } else {
        lemma_decimal(value / 10);
        assert(decimal_spec(value).drop_last() =~= decimal_spec(value / 10));
    }
}

/// Different numbers are written differently
pub proof fn lemma_decimal_distinct(first: nat, second: nat)
    requires
        decimal_spec(first) == decimal_spec(second),
    ensures
        first == second,
{
    lemma_decimal(first);
    lemma_decimal(second);
}

/// Leading digits stand for no more than the whole number
proof fn lemma_number_prefix(digits: Seq<char>, i: int)
    requires
        0 <= i <= digits.len(),
    ensures
        number_of(digits.take(i)) <= number_of(digits),
    decreases digits.len(),
{
    if i < digits.len() {
        lemma_number_prefix(digits.drop_last(), i);
        assert(digits.drop_last().take(i) =~= digits.take(i));
    } else {
        assert(digits.take(i) =~= digits);
    }
}

fn digit_char(value: u128) -> (c: char)
    requires
        value < 10,
    ensures
        c == digit(value as nat),
{
    match value {
        0 => '0',
        1 => '1',
        2 => '2',
        3 => '3',
        4 => '4',
        5 => '5',
        6 => '6',
        7 => '7',
        8 => '8',
        _ => '9',
    }
}

/// A number in decimal
pub fn decimal_wide(value: u128) -> (digits: String)
    ensures
        digits@ == decimal_spec(value as nat),
    decreases value,
{
    if value < 10 {
        let mut digits = String::new();
        digits.push(digit_char(value));
        assert(digits@ =~= seq![digit(value as nat)]);
        digits
    } else {
        let mut digits = decimal_wide(value / 10);
        digits.push(digit_char(value % 10));
        digits
    }
}

/// A number in decimal
pub fn decimal(value: usize) -> (digits: String)
    ensures
        digits@ == decimal_spec(value as nat),
{
    decimal_wide(value as u128)
}

/// A number in decimal, with leading zeros up to `width` digits
pub open spec fn padded_spec(value: nat, width: nat) -> Seq<char> {
    let digits = decimal_spec(value);
    if digits.len() < width {
        Seq::new((width - digits.len()) as nat, |i: int| '0') + digits
    } else {
        digits
    }
}

/// A number in decimal, with leading zeros up to `width` digits
pub fn padded(value: usize, width: usize) -> (digits: String)
    ensures
        digits@ == padded_spec(value as nat, width as nat),
{
    let digits = decimal(value);
    let length: usize = text::chars_of(digits.as_str()).len();
    let mut result = String::new();
    let mut i: usize = length;
    while i < width
        invariant
            length <= i,
            i <= width || i == length,
            result@ == Seq::new((i - length) as nat, |j: int| '0'),
        decreases width - i,
    {
        result.push('0');
        assert(Seq::new((i - length) as nat, |j: int| '0').push('0') =~= Seq::new(
            (i + 1 - length) as nat,
            |j: int| '0',
        ));
        i = i + 1;
    }
    result.append(digits.as_str());
    assert(result@ =~= padded_spec(value as nat, width as nat));
    result
}

/// The number a run of digits stands for, up to `limit`; no digits are no number
pub open spec fn parse_spec(digits: Seq<char>, limit: nat) -> Option<nat> {
    if digits.len() > 0 && number_of(digits) <= limit {
        Some(number_of(digits))
    } else {
        None
    }
}

/// The number a run of digits stands for, if there are digits and it is no more
/// than `limit`
pub fn parse_digits(digits: &str, limit: usize) -> (number: Option<usize>)
    requires
        forall|i: int| 0 <= i < digits@.len() ==> text::is_digit(#[trigger] digits@[i]),
    ensures
        match number {
            Some(number) => parse_spec(digits@, limit as nat) == Some(number as nat),
            None => parse_spec(digits@, limit as nat) is None,
        },
{
    let chars = text::chars_of(digits);
    if chars.len() == 0 {
        return None;
    }
    let mut value: usize = 0;
    let mut i: usize = 0;
    assert(chars@.take(0) =~= Seq::empty());
    while i < chars.len()
        invariant
            i <= chars@.len(),
            chars@ == digits@,
            value <= limit,
            value == number_of(chars@.take(i as int)),
            forall|j: int| 0 <= j < chars@.len() ==> text::is_digit(#[trigger] chars@[j]),
        decreases chars@.len() - i,
    {
        let c = chars[i];
        assert(text::is_digit(chars@[i as int]));
        let d: usize = (c as u32 - '0' as u32) as usize;
        proof {
            assert(chars@.take(i + 1).drop_last() =~= chars@.take(i as int));
            lemma_number_prefix(chars@, i + 1);
        }
        if d > limit || value > (limit - d) / 10 {
            return None;
        }
        value = value * 10 + d;
        i = i + 1;
    }
    assert(chars@.take(i as int) =~= chars@);
    Some(value)
}

/// A run of digits at the start of `s`
pub open spec fn leading_digits(s: Seq<char>) -> Seq<char> {
    s.take(text::span(s, CharClass::Digit) as int)
}

} // verus!
