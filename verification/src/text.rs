//! Texts of numbers and records for diagnostics, and comparison of texts.

use vstd::prelude::*;
use vstd::utf8::{decode_utf8, encode_utf8, encode_utf8_decode_utf8};
use vstd::string::*;

verus! {

/// The character of one decimal or hexadecimal digit, letters in upper case.
pub open spec fn digit_char(digit: nat) -> char {
    if digit < 10 {
        (48 + digit) as char
    } else {
        (55 + digit) as char
    }
}

/// A quotient by two or more is below the number.
pub proof fn lemma_quotient_is_smaller(number: nat, base: nat)
    requires
        2 <= base <= number,
    ensures
        number / base < number,
{
    assert(number / base < number) by (nonlinear_arith)
        requires
            2 <= base <= number,
    ;
}

/// `number` written in `base`, without leading zeros.
pub open spec fn numeral(number: nat, base: nat) -> Seq<char>
    decreases number,
{
    if base < 2 || number < base {
        seq![digit_char(number)]
    } else {
        proof {
            lemma_quotient_is_smaller(number, base);
        }
        numeral(number / base, base).push(digit_char(number % base))
    }
}

/// `number` in decimal notation.
pub open spec fn decimal(number: int) -> Seq<char> {
    if number < 0 {
        seq!['-'] + numeral((-number) as nat, 10)
    } else {
        numeral(number as nat, 10)
    }
}

fn digit_text(digit: u64) -> (text: &'static str)
    requires
        digit < 16,
    ensures
        text@ == seq![digit_char(digit as nat)],
{
    proof {
        reveal_strlit("0");
        reveal_strlit("1");
        reveal_strlit("2");
        reveal_strlit("3");
        reveal_strlit("4");
        reveal_strlit("5");
        reveal_strlit("6");
        reveal_strlit("7");
        reveal_strlit("8");
        reveal_strlit("9");
        reveal_strlit("A");
        reveal_strlit("B");
        reveal_strlit("C");
        reveal_strlit("D");
        reveal_strlit("E");
        reveal_strlit("F");
    }
    let text = match digit {
        0 => "0",
        1 => "1",
        2 => "2",
        3 => "3",
        4 => "4",
        5 => "5",
        6 => "6",
        7 => "7",
        8 => "8",
        9 => "9",
        10 => "A",
        11 => "B",
        12 => "C",
        13 => "D",
        14 => "E",
        _ => "F",
    };
    assert(text@ =~= seq![digit_char(digit as nat)]);
    text
}

/// `number` written in `base`, without leading zeros.
pub fn numeral_text(number: u64, base: u64) -> (text: String)
    requires
        2 <= base <= 16,
    ensures
        text@ == numeral(number as nat, base as nat),
    decreases number,
{
    if number < base {
        digit_text(number).to_owned()
    } else {
        proof {
            lemma_quotient_is_smaller(number as nat, base as nat);
        }
        let mut text = numeral_text(number / base, base);
        let ghost head = text@;
        text.append(digit_text(number % base));
        assert(text@ =~= head.push(digit_char((number % base) as nat)));
        text
    }
}

/// `number` in decimal notation.
pub fn decimal_text(number: u64) -> (text: String)
    ensures
        text@ == decimal(number as int),
{
    numeral_text(number, 10)
}

/// `number` in decimal notation.
pub fn signed_decimal_text(number: i64) -> (text: String)
    ensures
        text@ == decimal(number as int),
{
    if number >= 0 {
        return decimal_text(number as u64);
    }
    let magnitude: u64 = if number == i64::MIN {
        0x8000_0000_0000_0000
    } else {
        (-number) as u64
    };
    proof {
        reveal_strlit("-");
    }
    let text = joined("-", numeral_text(magnitude, 10).as_str());
    assert("-"@ =~= seq!['-']);
    text
}

/// `left` followed by `right`.
pub fn joined(left: &str, right: &str) -> (text: String)
    ensures
        text@ == left@ + right@,
{
    let mut text = left.to_owned();
    text.append(right);
    text
}

/// `left`, `middle` and `right` in a row.
pub fn joined3(left: &str, middle: &str, right: &str) -> (text: String)
    ensures
        text@ == left@ + middle@ + right@,
{
    let mut text = joined(left, middle);
    text.append(right);
    text
}

/// `name` with `detail` in round brackets.
pub open spec fn bracketed(name: Seq<char>, detail: Seq<char>) -> Seq<char> {
    name + "("@ + detail + ")"@
}

/// `name` with `detail` in round brackets.
pub fn bracketed_text(name: &str, detail: &str) -> (text: String)
    ensures
        text@ == bracketed(name@, detail@),
{
    let mut text = joined3(name, "(", detail);
    text.append(")");
    text
}

/// `name` with a number in round brackets.
pub fn numbered_text(name: &str, number: u64) -> (text: String)
    ensures
        text@ == bracketed(name@, decimal(number as int)),
{
    bracketed_text(name, decimal_text(number).as_str())
}

/// `name` with one named part in curly brackets.
pub open spec fn with_field(name: Seq<char>, field: Seq<char>, value: Seq<char>) -> Seq<char> {
    name + " { "@ + field + ": "@ + value + " }"@
}

/// `name` with one named part in curly brackets.
pub fn with_field_text(name: &str, field: &str, value: &str) -> (text: String)
    ensures
        text@ == with_field(name@, field@, value@),
{
    let mut text = joined3(name, " { ", field);
    text.append(": ");
    text.append(value);
    text.append(" }");
    text
}

/// `name` with two named parts in curly brackets.
pub open spec fn with_fields(
    name: Seq<char>,
    first: Seq<char>,
    first_value: Seq<char>,
    second: Seq<char>,
    second_value: Seq<char>,
) -> Seq<char> {
    name + " { "@ + first + ": "@ + first_value + ", "@ + second + ": "@ + second_value + " }"@
}

/// `name` with two named parts in curly brackets.
pub fn with_fields_text(
    name: &str,
    first: &str,
    first_value: &str,
    second: &str,
    second_value: &str,
) -> (text: String)
    ensures
        text@ == with_fields(name@, first@, first_value@, second@, second_value@),
{
    let mut text = joined3(name, " { ", first);
    text.append(": ");
    text.append(first_value);
    text.append(", ");
    text.append(second);
    text.append(": ");
    text.append(second_value);
    text.append(" }");
    text
}

/// The number of bytes of a text in UTF-8.
pub fn byte_len(text: &str) -> (len: usize)
    ensures
        len as nat == encode_utf8(text@).len(),
{
    text.as_bytes().len()
}

/// Whether two texts are the same.
pub fn same_text(left: &str, right: &str) -> (same: bool)
    ensures
        same == (left@ == right@),
{
    broadcast use encode_utf8_decode_utf8;

    let left_bytes = left.as_bytes();
    let right_bytes = right.as_bytes();
    proof {
        assert(decode_utf8(encode_utf8(left@)) == left@);
        assert(decode_utf8(encode_utf8(right@)) == right@);
    }
    if left_bytes.len() != right_bytes.len() {
        return false;
    }
    let mut index: usize = 0;
    while index < left_bytes.len()
        invariant
            left_bytes@ == encode_utf8(left@),
            right_bytes@ == encode_utf8(right@),
            left_bytes@.len() == right_bytes@.len(),
            index <= left_bytes@.len(),
            forall|i: int| 0 <= i < index ==> left_bytes@[i] == right_bytes@[i],
        decreases left_bytes@.len() - index,
    {
        if left_bytes[index] != right_bytes[index] {
            assert(left_bytes@[index as int] != right_bytes@[index as int]);
            return false;
        }
        index = index + 1;
    }
    assert(left_bytes@ =~= right_bytes@);
    true
}

/// A failure that can be reported as text.
pub trait Diagnostic {
    /// The diagnostic text.
    spec fn spec_message(&self) -> Seq<char>;

    /// The diagnostic text.
    fn message(&self) -> (text: String)
        ensures
            text@ == self.spec_message(),
    ;
}

impl Diagnostic for String {
    open spec fn spec_message(&self) -> Seq<char> {
        self@
    }

    fn message(&self) -> String {
        self.clone()
    }
}

/// A number below the base is one digit, and every other number is its quotient by the base
/// followed by the digit of its remainder. The digits are those of the usual notation.
pub proof fn law_numbers_are_written_by_place(quotient: nat, digit: nat, base: nat)
    requires
        2 <= base <= 16,
        digit < base,
    ensures
        numeral(digit, base) == seq![digit_char(digit)],
        quotient > 0 ==> numeral(quotient * base + digit, base) == numeral(quotient, base).push(
            digit_char(digit),
        ),
        digit < 10 ==> digit_char(digit) as nat == '0' as nat + digit,
        digit >= 10 ==> digit_char(digit) as nat == 'A' as nat + digit - 10,
{
    if quotient > 0 {
        let number = quotient * base + digit;
        assert(number / base == quotient && number % base == digit && base <= number)
            by (nonlinear_arith)
            requires
                number == quotient * base + digit,
                digit < base,
                quotient > 0,
        ;
    }
}

/// A negative number is written as a minus sign before the positive one; different numbers are
/// written differently.
pub proof fn law_decimal_tells_numbers_apart(left: int, right: int)
    ensures
        left < 0 ==> decimal(left) == seq!['-'] + decimal(-left),
        decimal(left) == decimal(right) <==> left == right,
{
    let (one, other) = (
        if left < 0 {
            (-left) as nat
        } else {
            left as nat
        },
        if right < 0 {
            (-right) as nat
        } else {
            right as nat
        },
    );
    lemma_numerals_tell_apart(one, other);
    lemma_numeral_starts_with_a_digit(one);
    lemma_numeral_starts_with_a_digit(other);
    if decimal(left) == decimal(right) {
        if left < 0 {
            assert(decimal(left)[0] == '-');
        }
        if right < 0 {
            assert(decimal(right)[0] == '-');
        }
        assert(left < 0 <==> right < 0);
        if left < 0 {
            assert(decimal(left).skip(1) =~= numeral(one, 10));
            assert(decimal(right).skip(1) =~= numeral(other, 10));
        }
    }
}

proof fn lemma_numeral_starts_with_a_digit(number: nat)
    ensures
        numeral(number, 10).len() > 0,
        '0' <= numeral(number, 10)[0] <= '9',
    decreases number,
{
    if number >= 10 {
        lemma_numeral_starts_with_a_digit(number / 10);
    }
}

proof fn lemma_numerals_tell_apart(left: nat, right: nat)
    ensures
        numeral(left, 10) == numeral(right, 10) ==> left == right,
    decreases left,
{
    if numeral(left, 10) == numeral(right, 10) {
        lemma_numeral_starts_with_a_digit(left / 10);
        lemma_numeral_starts_with_a_digit(right / 10);
        let (a, b) = (numeral(left, 10), numeral(right, 10));
        assert(a.last() == digit_char(left % 10));
        assert(b.last() == digit_char(right % 10));
        assert(a.last() as nat == 48 + left % 10);
        assert(b.last() as nat == 48 + right % 10);
        if left >= 10 && right >= 10 {
            assert(a.drop_last() =~= numeral(left / 10, 10));
            assert(b.drop_last() =~= numeral(right / 10, 10));
            lemma_numerals_tell_apart(left / 10, right / 10);
        } else if left >= 10 {
            assert(a.len() == numeral(left / 10, 10).len() + 1);
            assert(b.len() == 1);
        } else if right >= 10 {
            assert(b.len() == numeral(right / 10, 10).len() + 1);
            assert(a.len() == 1);
        }
    }
}

} // verus!
