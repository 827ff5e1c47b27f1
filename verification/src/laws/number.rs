//! What the digits of a number mean.

use vstd::arithmetic::div_mod::{lemma_fundamental_div_mod, lemma_fundamental_div_mod_converse};
use vstd::prelude::*;

use crate::number::{
    decimal, digit_value, digits_value, lemma_number_text_value, number_text, parse_number,
};

verus! {

/// The character is the digit of this value in the given radix, as a figure or as a letter of either
/// case.
pub open spec fn is_digit(c: char, radix: nat, value: nat) -> bool {
    &&& value < radix
    &&& {
        ||| '0' <= c <= '9' && value == c as int - 48
        ||| 'a' <= c <= 'f' && value == c as int - 87
        ||| 'A' <= c <= 'F' && value == c as int - 55
    }
}

/// The last of the digits is the remainder of the number, and the digits before it are its quotient.
pub open spec fn counts(digits: Seq<char>, radix: nat, number: nat) -> bool
    decreases digits.len(),
{
    if digits.len() == 0 {
        number == 0
    } else {
        is_digit(digits.last(), radix, number % radix) && counts(
            digits.drop_last(),
            radix,
            number / radix,
        )
    }
}

/// The text is the number, in one digit or more, after a plus sign or without one.
pub open spec fn stands_for(text: Seq<char>, radix: nat, number: nat) -> bool {
    ||| text.len() > 0 && text[0] != '+' && counts(text, radix, number)
    ||| text.len() > 1 && text[0] == '+' && counts(text.skip(1), radix, number)
}

/// Digits have the value that they count.
proof fn lemma_digits_count(digits: Seq<char>, radix: nat, number: nat)
    requires
        2 <= radix <= 16,
    ensures
        digits_value(digits, radix) == Some(number) <==> counts(digits, radix, number),
    decreases digits.len(),
{
    if digits.len() > 0 {
        lemma_fundamental_div_mod(number as int, radix as int);
        assert(radix * (number / radix) == (number / radix) * radix) by (nonlinear_arith);
        assert(number % radix < radix) by (nonlinear_arith)
            requires
                radix > 0,
        ;
        lemma_digits_count(digits.drop_last(), radix, number / radix);
        if digits_value(digits, radix) == Some(number) {
            let front = digits_value(digits.drop_last(), radix)->0;
            let digit = digit_value(digits.last(), radix)->0;
            lemma_fundamental_div_mod_converse(
                number as int,
                radix as int,
                front as int,
                digit as int,
            );
        }
    }
}

/// A text is read as a number exactly where it stands for that number and the number is not above the
/// largest one asked for.
pub proof fn law_number_is_read(text: Seq<char>, radix: nat, max: nat, number: nat)
    requires
        2 <= radix <= 16,
    ensures
        parse_number(text, radix, max) == Some(number) <==> stands_for(text, radix, number)
            && number <= max,
{
    lemma_digits_count(text, radix, number);
    if text.len() > 0 {
        lemma_digits_count(text.skip(1), radix, number);
    }
}

/// A text that stands for no number up to the largest one asked for is not read.
pub proof fn law_no_number_is_not_read(text: Seq<char>, radix: nat, max: nat)
    requires
        2 <= radix <= 16,
    ensures
        parse_number(text, radix, max) is None <==> forall|number: nat|
            number <= max ==> !stands_for(text, radix, number),
{
    assert forall|number: nat| #[trigger] stands_for(text, radix, number) && number <= max
        implies parse_number(text, radix, max) == Some(number) by {
        law_number_is_read(text, radix, max, number);
    }
    if parse_number(text, radix, max) is Some {
        law_number_is_read(text, radix, max, parse_number(text, radix, max)->0);
    }
}

/// A number is written in decimal as the digits that count it, without a sign and without a zero
/// before them.
pub proof fn law_decimal_counts(number: nat)
    ensures
        decimal(number).len() > 0,
        counts(decimal(number), 10, number),
        stands_for(decimal(number), 10, number),
        decimal(number).len() > 1 ==> decimal(number)[0] != '0',
{
    lemma_number_text_value(number, 10);
    lemma_digits_count(decimal(number), 10, number);
    assert(digit_value(number_text(number, 10)[0], 10) is Some);
    lemma_no_leading_zero(number);
}

/// A number above zero does not start with one.
proof fn lemma_no_leading_zero(number: nat)
    ensures
        number > 0 ==> number_text(number, 10)[0] != '0',
        number_text(number, 10).len() > 0,
        number < 10 ==> number_text(number, 10).len() == 1,
    decreases number,
{
    if number >= 10 {
        lemma_no_leading_zero(number / 10);
        lemma_number_text_value(number / 10, 10);
    }
}

} // verus!
