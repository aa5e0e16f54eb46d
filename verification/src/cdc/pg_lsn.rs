//! `PostgreSQL`'s text of a log position: two hexadecimal halves around a slash.

use crate::text::{digit_char, joined3, lemma_quotient_is_smaller, numeral, numeral_text};
use vstd::prelude::*;
use vstd::string::*;
use vstd::utf8::{is_ascii_chars, is_ascii_chars_encode_utf8};

verus! {

/// The value of a hexadecimal digit, in either case.
pub open spec fn hex_digit(character: char) -> Option<nat> {
    if '0' <= character <= '9' {
        Some((character as nat - 48) as nat)
    } else if 'A' <= character <= 'F' {
        Some((character as nat - 55) as nat)
    } else if 'a' <= character <= 'f' {
        Some((character as nat - 87) as nat)
    } else {
        None
    }
}

/// Whether every character is a hexadecimal digit.
pub open spec fn all_hex(digits: Seq<char>) -> bool {
    forall|i: int| 0 <= i < digits.len() ==> hex_digit(#[trigger] digits[i]) is Some
}

/// The number that hexadecimal digits write.
pub open spec fn hex_value(digits: Seq<char>) -> nat
    decreases digits.len(),
{
    if digits.len() == 0 {
        0
    } else {
        hex_value(digits.drop_last()) * 16 + hex_digit(digits.last())->0
    }
}

/// A number without its plus sign, if it has one before further characters.
pub open spec fn unsigned_part(part: Seq<char>) -> Seq<char> {
    if part.len() > 1 && part[0] == '+' {
        part.skip(1)
    } else {
        part
    }
}

/// The number that a text writes in hexadecimal, after an optional plus sign.
pub open spec fn hex_number(part: Seq<char>) -> Option<nat> {
    let digits = unsigned_part(part);
    if digits.len() > 0 && all_hex(digits) {
        Some(hex_value(digits))
    } else {
        None
    }
}

/// The texts before and behind the first slash.
pub open spec fn halves(text: Seq<char>) -> Option<(Seq<char>, Seq<char>)> {
    match text.index_of_first('/') {
        Some(index) => Some((text.take(index), text.skip(index + 1))),
        None => None,
    }
}

/// The position that a text means: both halves are there and fit 32 bits.
pub open spec fn position_of(text: Seq<char>) -> Option<u64> {
    match halves(text) {
        Some((high, low)) => match (hex_number(high), hex_number(low)) {
            (Some(high), Some(low)) => if high <= u32::MAX && low <= u32::MAX {
                Some((high * 0x1_0000_0000 + low) as u64)
            } else {
                None
            },
            _ => None,
        },
        None => None,
    }
}

/// The canonical text of a position: both halves in upper case, without leading zeros.
pub open spec fn position_name(position: u64) -> Seq<char> {
    numeral((position / 0x1_0000_0000) as nat, 16) + "/"@ + numeral(
        (position % 0x1_0000_0000) as nat,
        16,
    )
}

/// The canonical text of a position.
pub fn position_text(position: u64) -> (text: String)
    ensures
        text@ == position_name(position),
{
    let high = numeral_text(position / 0x1_0000_0000, 16);
    let low = numeral_text(position % 0x1_0000_0000, 16);
    joined3(high.as_str(), "/", low.as_str())
}

/// Whether each byte is the ASCII code of the character at its place.
spec fn spells(bytes: Seq<u8>, text: Seq<char>) -> bool {
    &&& bytes.len() == text.len()
    &&& forall|i: int|
        0 <= i < text.len() ==> bytes[i] < 128 && text[i] == #[trigger] bytes[i] as char
}

fn hex_digit_of(byte: u8) -> (digit: Option<u64>)
    requires
        byte < 128,
    ensures
        match digit {
            Some(digit) => hex_digit(byte as char) == Some(digit as nat) && digit < 16,
            None => hex_digit(byte as char) is None,
        },
{
    if 48 <= byte && byte <= 57 {
        Some((byte - 48) as u64)
    } else if 65 <= byte && byte <= 70 {
        Some((byte - 55) as u64)
    } else if 97 <= byte && byte <= 102 {
        Some((byte - 87) as u64)
    } else {
        None
    }
}

proof fn lemma_value_of_prefix(digits: Seq<char>, count: int)
    requires
        0 <= count <= digits.len(),
    ensures
        hex_value(digits.take(count)) <= hex_value(digits),
    decreases digits.len() - count,
{
    if count == digits.len() {
        assert(digits.take(count) =~= digits);
    } else {
        lemma_value_of_prefix(digits, count + 1);
        assert(digits.take(count + 1).drop_last() =~= digits.take(count));
    }
}

/// The number of at most 32 bits that `bytes[from..to]` write in hexadecimal.
fn half_of(bytes: &[u8], from: usize, to: usize, text: Ghost<Seq<char>>) -> (half: Option<u64>)
    requires
        from <= to <= bytes@.len(),
        spells(bytes@, text@),
    ensures
        ({
            let number = hex_number(text@.subrange(from as int, to as int));
            match half {
                Some(half) => number == Some(half as nat) && half <= u32::MAX,
                None => number is None || number->0 > u32::MAX,
            }
        }),
{
    let ghost part = text@.subrange(from as int, to as int);
    let mut start: usize = from;
    if to - from > 1 && bytes[from] == 43 {
        start = from + 1;
        assert(part[0] == '+');
        assert(part.skip(1) =~= text@.subrange(start as int, to as int));
    } else {
        assert(part.len() > 1 ==> part[0] == bytes@[from as int] as char);
    }
    let ghost digits = unsigned_part(part);
    assert(digits =~= text@.subrange(start as int, to as int));
    if start == to {
        return None;
    }
    let mut value: u64 = 0;
    let mut index: usize = start;
    while index < to
        invariant
            start <= index <= to <= bytes@.len(),
            spells(bytes@, text@),
            digits == text@.subrange(start as int, to as int),
            all_hex(digits.take(index - start)),
            value as nat == hex_value(digits.take(index - start)),
            value <= u32::MAX,
            digits == unsigned_part(part),
            part == text@.subrange(from as int, to as int),
            digits.len() > 0,
        decreases to - index,
    {
        let ghost count = index - start;
        assert(digits[count] == bytes@[index as int] as char);
        let digit: u64 = match hex_digit_of(bytes[index]) {
            Some(digit) => digit,
            None => {
                assert(!all_hex(digits));
                return None;
            },
        };
        proof {
            let longer = digits.take(count + 1);
            assert(longer.drop_last() =~= digits.take(count));
            assert(longer.last() == digits[count]);
            assert forall|i: int| 0 <= i < longer.len() implies hex_digit(
                #[trigger] longer[i],
            ) is Some by {
                if i < count {
                    assert(longer[i] == digits.take(count)[i]);
                }
            }
            lemma_value_of_prefix(digits, count + 1);
        }
        value = value * 16 + digit;
        if value > 0xFFFF_FFFF {
            return None;
        }
        index = index + 1;
    }
    assert(digits.take(index - start) =~= digits);
    Some(value)
}

/// The position that a text means, if it means one.
pub fn parsed_position(text: &str) -> (position: Option<u64>)
    ensures
        position == position_of(text@),
{
    let ghost characters = text@;
    proof {
        characters.index_of_first_ensures('/');
    }
    if !text.is_ascii() {
        proof {
            lemma_position_is_ascii(characters);
        }
        return None;
    }
    let bytes = text.as_bytes();
    proof {
        is_ascii_chars_encode_utf8(characters);
        assert forall|i: int| 0 <= i < characters.len() implies bytes@[i] < 128 && characters[i]
            == #[trigger] bytes@[i] as char by {
            assert(characters[i] as u32 <= 127);
            assert(bytes@[i] == characters[i] as u8);
        }
    }
    let mut slash: usize = 0;
    while slash < bytes.len() && bytes[slash] != 47
        invariant
            slash <= bytes@.len(),
            spells(bytes@, characters),
            forall|i: int| 0 <= i < slash ==> characters[i] != '/',
        decreases bytes@.len() - slash,
    {
        assert(characters[slash as int] == bytes@[slash as int] as char);
        slash = slash + 1;
    }
    if slash == bytes.len() {
        return None;
    }
    assert(characters[slash as int] == bytes@[slash as int] as char);
    assert(characters.index_of_first('/') == Some(slash as int));
    assert(characters.take(slash as int) =~= characters.subrange(0, slash as int));
    assert(characters.skip(slash + 1) =~= characters.subrange(
        slash + 1,
        bytes@.len() as int,
    ));
    let high: u64 = match half_of(bytes, 0, slash, Ghost(characters)) {
        Some(high) => high,
        None => return None,
    };
    let low: u64 = match half_of(bytes, slash + 1, bytes.len(), Ghost(characters)) {
        Some(low) => low,
        None => return None,
    };
    Some(high * 0x1_0000_0000 + low)
}

proof fn lemma_hex_part_is_ascii(part: Seq<char>)
    requires
        hex_number(part) is Some,
    ensures
        is_ascii_chars(part),
{
    let digits = unsigned_part(part);
    assert forall|i: int| 0 <= i < part.len() implies '\0' <= #[trigger] part[i] <= '\u{7f}' by {
        if part.len() > 1 && part[0] == '+' {
            if i > 0 {
                assert(digits[i - 1] == part[i]);
            }
        } else {
            assert(digits[i] == part[i]);
        }
    }
}

proof fn lemma_position_is_ascii(text: Seq<char>)
    ensures
        position_of(text) is Some ==> is_ascii_chars(text),
{
    text.index_of_first_ensures('/');
    if position_of(text) is Some {
        let index = text.index_of_first('/')->0;
        lemma_hex_part_is_ascii(text.take(index));
        lemma_hex_part_is_ascii(text.skip(index + 1));
        assert forall|i: int| 0 <= i < text.len() implies '\0' <= #[trigger] text[i]
            <= '\u{7f}' by {
            if i < index {
                assert(text.take(index)[i] == text[i]);
            } else if i > index {
                assert(text.skip(index + 1)[i - index - 1] == text[i]);
            }
        }
    }
}

proof fn lemma_numeral_reads_back(number: nat)
    ensures
        numeral(number, 16).len() > 0,
        all_hex(numeral(number, 16)),
        hex_value(numeral(number, 16)) == number,
    decreases number,
{
    let digits = numeral(number, 16);
    if number < 16 {
        assert(digits =~= seq![digit_char(number)]);
        assert(digits.drop_last() =~= Seq::empty());
        assert(hex_value(digits.drop_last()) == 0);
    } else {
        lemma_quotient_is_smaller(number, 16);
        lemma_numeral_reads_back(number / 16);
        let head = numeral(number / 16, 16);
        assert(digits.drop_last() =~= head);
        assert forall|i: int| 0 <= i < digits.len() implies hex_digit(
            #[trigger] digits[i],
        ) is Some by {
            if i < head.len() {
                assert(digits[i] == head[i]);
            }
        }
    }
}

/// The halves of the canonical text of a position are the high and the low 32 bits.
pub proof fn lemma_halves_of_position_name(position: u64)
    ensures
        halves(position_name(position)) matches Some((high, low)) && hex_number(high) == Some(
            (position / 0x1_0000_0000) as nat,
        ) && hex_number(low) == Some((position % 0x1_0000_0000) as nat),
{
    reveal_strlit("/");
    let high = numeral((position / 0x1_0000_0000) as nat, 16);
    let low = numeral((position % 0x1_0000_0000) as nat, 16);
    let text = position_name(position);
    lemma_numeral_reads_back((position / 0x1_0000_0000) as nat);
    lemma_numeral_reads_back((position % 0x1_0000_0000) as nat);
    text.index_of_first_ensures('/');
    assert(text[high.len() as int] == '/');
    assert forall|i: int| 0 <= i < high.len() implies text[i] != '/' by {
        assert(hex_digit(high[i]) is Some);
    }
    assert(text.index_of_first('/') == Some(high.len() as int));
    assert(text.take(high.len() as int) =~= high);
    assert(text.skip(high.len() as int + 1) =~= low);
    assert(hex_digit(high[0]) is Some && hex_digit(low[0]) is Some);
    assert(unsigned_part(high) == high && unsigned_part(low) == low);
}

/// The canonical text of a position means that position.
pub proof fn law_position_text_reads_back(position: u64)
    ensures
        position_of(position_name(position)) == Some(position),
{
    lemma_halves_of_position_name(position);
}

/// Each further digit multiplies a number by sixteen and adds its value; a digit has the same
/// value in either case, and a leading zero changes nothing.
pub proof fn law_digits_count_by_their_place(digits: Seq<char>, digit: char)
    requires
        all_hex(digits),
        hex_digit(digit) is Some,
    ensures
        hex_value(seq![digit]) == hex_digit(digit)->0,
        hex_value(digits.push(digit)) == 16 * hex_value(digits) + hex_digit(digit)->0,
        hex_value(seq!['0'] + digits) == hex_value(digits),
        hex_digit(digit)->0 < 16,
        '0' <= digit <= '9' ==> hex_digit(digit)->0 == digit as nat - '0' as nat,
        'A' <= digit <= 'F' ==> hex_digit(digit)->0 == 10 + (digit as nat - 'A' as nat),
        'a' <= digit <= 'f' ==> hex_digit(digit)->0 == 10 + (digit as nat - 'a' as nat),
    decreases digits.len(),
{
    reveal_with_fuel(hex_value, 2);
    assert(seq![digit].drop_last() =~= Seq::<char>::empty());
    assert(digits.push(digit).drop_last() =~= digits);
    let padded = seq!['0'] + digits;
    if digits.len() > 0 {
        law_digits_count_by_their_place(digits.drop_last(), digits.last());
        assert(padded.drop_last() =~= seq!['0'] + digits.drop_last());
    } else {
        assert(padded =~= seq!['0']);
        assert(padded.drop_last() =~= Seq::<char>::empty());
        assert(hex_value(padded) == hex_value(padded.drop_last()) * 16 + hex_digit('0')->0);
    }
}

/// Two halves of hexadecimal digits around a slash mean the position of which they are the high
/// and the low 32 bits, exactly if both fit 32 bits. A half may carry a plus sign.
pub proof fn law_position_is_read_from_its_halves(high: Seq<char>, low: Seq<char>)
    requires
        high.len() > 0,
        low.len() > 0,
        all_hex(high),
        all_hex(low),
    ensures
        ({
            let fits = hex_value(high) < 0x1_0000_0000 && hex_value(low) < 0x1_0000_0000;
            let text = high + seq!['/'] + low;
            let signed = seq!['+'] + high + seq!['/', '+'] + low;
            &&& fits ==> (position_of(text) matches Some(position) && position
                == 0x1_0000_0000 * hex_value(high) + hex_value(low))
            &&& !fits ==> position_of(text) is None
            &&& position_of(signed) == position_of(text)
        }),
{
    let text = high + seq!['/'] + low;
    text.index_of_first_ensures('/');
    assert(text[high.len() as int] == '/');
    assert forall|i: int| 0 <= i < high.len() implies text[i] != '/' by {
        assert(text[i] == high[i] && hex_digit(high[i]) is Some);
    }
    assert(text.index_of_first('/') == Some(high.len() as int));
    assert(text.take(high.len() as int) =~= high);
    assert(text.skip(high.len() as int + 1) =~= low);
    assert(hex_digit(high[0]) is Some && hex_digit(low[0]) is Some);
    let signed_high = seq!['+'] + high;
    let signed_low = seq!['+'] + low;
    let signed = seq!['+'] + high + seq!['/', '+'] + low;
    signed.index_of_first_ensures('/');
    assert(signed[high.len() as int + 1] == '/');
    assert forall|i: int| 0 <= i < high.len() + 1 implies signed[i] != '/' by {
        if i > 0 {
            assert(signed[i] == high[i - 1] && hex_digit(high[i - 1]) is Some);
        }
    }
    assert(signed.index_of_first('/') == Some(high.len() as int + 1));
    assert(signed.take(high.len() as int + 1) =~= signed_high);
    assert(signed.skip(high.len() as int + 2) =~= signed_low);
    assert(signed_high.skip(1) =~= high);
    assert(signed_low.skip(1) =~= low);
}

/// A text without a slash, with nothing before or behind its first slash, or with anything there
/// but a number in hexadecimal means no position.
pub proof fn law_other_texts_mean_no_position(text: Seq<char>)
    ensures
        !text.contains('/') ==> position_of(text) is None,
        position_of(text) is Some ==> exists|high: Seq<char>, low: Seq<char>|
            text == #[trigger] (high + seq!['/'] + low) && hex_number(high) is Some && hex_number(
                low,
            ) is Some && hex_number(high)->0 < 0x1_0000_0000 && hex_number(low)->0
                < 0x1_0000_0000,
{
    text.index_of_first_ensures('/');
    if let Some(index) = text.index_of_first('/') {
        let high = text.take(index);
        let low = text.skip(index + 1);
        assert(text =~= high + seq!['/'] + low);
    }
}

} // verus!
