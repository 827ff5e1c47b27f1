//! Numbers as text: decimal and hexadecimal.

use vstd::prelude::*;
use vstd::string::StringExecFns;

use crate::text::{strip_text, trimmed};

verus! {

/// The value of a digit in the given radix (at most 16), if the character is one.
pub open spec fn digit_value(c: char, radix: nat) -> Option<nat> {
    let value: int = if '0' <= c <= '9' {
        c as int - '0' as int
    } else if 'a' <= c <= 'f' {
        c as int - 'a' as int + 10
    } else if 'A' <= c <= 'F' {
        c as int - 'A' as int + 10
    } else {
        16
    };
    if 0 <= value < radix && value < 16 {
        Some(value as nat)
    } else {
        None
    }
}

/// The number that a row of digits stands for, if they are all digits; the empty row is zero.
pub open spec fn digits_value(digits: Seq<char>, radix: nat) -> Option<nat>
    decreases digits.len(),
{
    if digits.len() == 0 {
        Some(0)
    } else {
        match (digits_value(digits.drop_last(), radix), digit_value(digits.last(), radix)) {
            (Some(front), Some(digit)) => Some(front * radix + digit),
            _ => None,
        }
    }
}

/// The digits of a number as it is written: without the plus sign that it may start with.
pub open spec fn unsigned_digits(text: Seq<char>) -> Seq<char> {
    if text.len() > 0 && text[0] == '+' {
        text.skip(1)
    } else {
        text
    }
}

/// The number that `text` stands for: an optional plus sign and then one digit or more, for a
/// value of at most `max`.
pub open spec fn parse_number(text: Seq<char>, radix: nat, max: nat) -> Option<nat> {
    let digits = unsigned_digits(text);
    match digits_value(digits, radix) {
        Some(value) => if digits.len() > 0 && value <= max {
            Some(value)
        } else {
            None
        },
        None => None,
    }
}

/// The character of a digit below sixteen.
pub open spec fn digit_char(digit: nat) -> char {
    if digit < 10 {
        (digit + '0' as nat) as char
    } else {
        (digit - 10 + 'a' as nat) as char
    }
}

/// How a number is written in the given radix, without leading zeros.
pub open spec fn number_text(value: nat, radix: nat) -> Seq<char>
    decreases value,
{
    if value < radix || radix < 2 {
        seq![digit_char(value)]
    } else {
        proof {
            assert(value / radix < value) by (nonlinear_arith)
                requires
                    2 <= radix <= value,
            ;
        }
        number_text(value / radix, radix).push(digit_char(value % radix))
    }
}

/// How a number is written in decimal.
pub open spec fn decimal(value: nat) -> Seq<char> {
    number_text(value, 10)
}

/// What is written for a number reads back as that number.
pub proof fn lemma_number_text_value(value: nat, radix: nat)
    requires
        2 <= radix <= 16,
    ensures
        digits_value(number_text(value, radix), radix) == Some(value),
        number_text(value, radix).len() > 0,
        forall|i: int|
            0 <= i < number_text(value, radix).len() ==> digit_value(
                #[trigger] number_text(value, radix)[i],
                radix,
            ) is Some,
    decreases value,
{
    let text = number_text(value, radix);
    if value < radix {
        assert(text.drop_last() =~= Seq::<char>::empty());
        assert(digits_value(text.drop_last(), radix) == Some(0nat));
        assert(0 * radix == 0) by (nonlinear_arith);
        assert(digit_value(text.last(), radix) == Some(value));
    } else {
        assert(value / radix < value) by (nonlinear_arith)
            requires
                2 <= radix <= value,
        ;
        lemma_number_text_value(value / radix, radix);
        let front = number_text(value / radix, radix);
        assert(text.drop_last() =~= front);
        assert((value / radix) * radix + value % radix == value) by (nonlinear_arith)
            requires
                2 <= radix,
        ;
        assert(value % radix < radix) by (nonlinear_arith)
            requires
                2 <= radix,
        ;
        assert(digit_value(text.last(), radix) == Some(value % radix));
    }
}

/// What is written for a number is read as that number, sign and white space making no difference.
pub proof fn lemma_number_text_reads(value: nat, radix: nat, max: nat)
    requires
        2 <= radix <= 16,
        value <= max,
    ensures
        parse_number(number_text(value, radix), radix, max) == Some(value),
        trimmed(number_text(value, radix)) == number_text(value, radix),
{
    lemma_number_text_value(value, radix);
    let text = number_text(value, radix);
    assert(digit_value(text[0], radix) is Some);
    assert(digit_value(text[text.len() - 1], radix) is Some);
}

/// The text of a number holds digits and nothing else.
pub proof fn lemma_decimal_holds_digits(value: nat, c: char)
    requires
        digit_value(c, 10) is None,
    ensures
        !decimal(value).contains(c),
{
    lemma_number_text_value(value, 10);
    if decimal(value).contains(c) {
        let i = choose|i: int| 0 <= i < decimal(value).len() && decimal(value)[i] == c;
        assert(digit_value(number_text(value, 10)[i], 10) is Some);
    }
}

/// A row of digits that starts too high, or not with digits, ends so too.
proof fn lemma_digits_exceed(digits: Seq<char>, radix: nat, max: nat, k: int)
    requires
        radix >= 1,
        0 <= k <= digits.len(),
        digits_value(digits.take(k), radix) matches Some(value) ==> value > max,
    ensures
        digits_value(digits, radix) matches Some(value) ==> value > max,
    decreases digits.len() - k,
{
    if k == digits.len() {
        assert(digits.take(k) =~= digits);
    } else {
        assert(digits.take(k + 1).drop_last() =~= digits.take(k));
        if digits_value(digits.take(k + 1), radix) is Some {
            let value = digits_value(digits.take(k), radix)->0;
            assert(value * radix >= value) by (nonlinear_arith)
                requires
                    radix >= 1,
            ;
        }
        lemma_digits_exceed(digits, radix, max, k + 1);
    }
}

/// The value of a digit in the given radix, if the character is one.
fn read_digit(c: char, radix: u64) -> (digit: Option<u64>)
    requires
        2 <= radix <= 16,
    ensures
        match digit {
            Some(digit) => digit_value(c, radix as nat) == Some(digit as nat) && digit < radix,
            None => digit_value(c, radix as nat) is None,
        },
{
    let value: u64 = if '0' <= c && c <= '9' {
        c as u64 - 48
    } else if 'a' <= c && c <= 'f' {
        c as u64 - 87
    } else if 'A' <= c && c <= 'F' {
        c as u64 - 55
    } else {
        16
    };
    if value < radix {
        Some(value)
    } else {
        None
    }
}

/// Reads the number that `text` stands for: an optional plus sign and then one digit or more, for
/// a value of at most `max`.
pub fn read_number(text: &str, radix: u64, max: u64) -> (number: Option<u64>)
    requires
        2 <= radix <= 16,
    ensures
        match number {
            Some(value) => parse_number(text@, radix as nat, max as nat) == Some(value as nat),
            None => parse_number(text@, radix as nat, max as nat) is None,
        },
{
    proof {
        reveal_strlit("+");
        if text@.len() > 0 {
            assert(text@.subrange(0, 1)[0] == text@[0]);
            assert(text@[0] == '+' ==> text@.subrange(0, 1) =~= "+"@);
        }
    }
    let digits = match strip_text(text, "+") {
        Some(rest) => rest,
        None => text,
    };
    assert(digits@ == unsigned_digits(text@));
    if digits.is_empty() {
        return None;
    }
    let mut value: u64 = 0;
    for c in chars: digits.chars()
        invariant
            2 <= radix <= 16,
            chars.seq() == digits@,
            digits@ == unsigned_digits(text@),
            digits@.len() > 0,
            value <= max,
            digits_value(digits@.take(chars.index()), radix as nat) == Some(value as nat),
    {
        let ghost k = chars.index();
        assert(digits@.take(k + 1).drop_last() =~= digits@.take(k));
        assert(digits@.take(k + 1).last() == c);
        match read_digit(c, radix) {
            Some(digit) => {
                assert(value * radix <= u64::MAX * 16) by (nonlinear_arith)
                    requires
                        value <= u64::MAX,
                        radix <= 16,
                ;
                let next: u128 = value as u128 * radix as u128 + digit as u128;
                if next > max as u128 {
                    proof {
                        lemma_digits_exceed(digits@, radix as nat, max as nat, k + 1);
                    }
                    return None;
                }
                value = next as u64;
            },
            None => {
                proof {
                    lemma_digits_exceed(digits@, radix as nat, max as nat, k + 1);
                }
                return None;
            },
        }
    }
    assert(digits@.take(digits@.len() as int) =~= digits@);
    Some(value)
}

/// The text of a digit below ten.
fn digit_text(digit: u64) -> (text: &'static str)
    requires
        digit < 10,
    ensures
        text@ == seq![digit_char(digit as nat)],
{
    match digit {
        0 => {
            proof {
                reveal_strlit("0");
            }
            "0"
        },
        1 => {
            proof {
                reveal_strlit("1");
            }
            "1"
        },
        2 => {
            proof {
                reveal_strlit("2");
            }
            "2"
        },
        3 => {
            proof {
                reveal_strlit("3");
            }
            "3"
        },
        4 => {
            proof {
                reveal_strlit("4");
            }
            "4"
        },
        5 => {
            proof {
                reveal_strlit("5");
            }
            "5"
        },
        6 => {
            proof {
                reveal_strlit("6");
            }
            "6"
        },
        7 => {
            proof {
                reveal_strlit("7");
            }
            "7"
        },
        8 => {
            proof {
                reveal_strlit("8");
            }
            "8"
        },
        _ => {
            proof {
                reveal_strlit("9");
            }
            "9"
        },
    }
}

/// Writes a number in decimal.
pub fn write_decimal(value: u64) -> (text: String)
    ensures
        text@ == decimal(value as nat),
    decreases value,
{
    if value < 10 {
        String::from_str(digit_text(value))
    } else {
        let mut text = write_decimal(value / 10);
        let ghost front = text@;
        text.append(digit_text(value % 10));
        assert(text@ =~= front.push(digit_char((value % 10) as nat)));
        text
    }
}

} // verus!
