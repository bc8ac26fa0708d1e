//! Lines as characters. The library reads a line as the bytes of its UTF-8
//! encoding; this module shows that, for calibration values, that is the same
//! as reading the line character by character.

use crate::calibration::{
    calibration_value, digit_at, digit_word, occurrences, occurrences_before, word_at,
};
use crate::decimal::is_numeral;
use crate::text::occurs_at;
use vstd::prelude::*;
use vstd::utf8::{char_is_scalar, encode_scalar, encode_utf8};

verus! {

/// The byte that stands for a character when a line is read character by
/// character: the character's own code where it is ASCII, and `0xFF`, which
/// no numeral and no digit's name holds, for every other character.
pub open spec fn code_unit(character: char) -> u8 {
    if (character as u32) < 0x80 {
        character as u8
    } else {
        0xFF
    }
}

/// A line of characters, each as its code unit: a sequence as long as the
/// line has characters.
pub open spec fn code_units(line: Seq<char>) -> Seq<u8> {
    line.map_values(|character: char| code_unit(character))
}

/// The digits of the occurrences that start before index `end` of `line`.
pub open spec fn digits_before(line: Seq<u8>, end: nat) -> Seq<nat>
    decreases end,
{
    if end == 0 {
        seq![]
    } else {
        let earlier = digits_before(line, (end - 1) as nat);
        match digit_at(line, end - 1) {
            Some(digit) => earlier.push(digit),
            None => earlier,
        }
    }
}

/// The digits of all occurrences in `line`, in the order of their positions.
pub open spec fn digits_of(line: Seq<u8>) -> Seq<nat> {
    digits_before(line, line.len())
}

/// The digit that starts at the very beginning of `line`, as a list.
spec fn head_digits(line: Seq<u8>) -> Seq<nat> {
    match digit_at(line, 0) {
        Some(digit) => seq![digit],
        None => seq![],
    }
}

/// `digits_before` lists the digits of `occurrences_before`, one for one.
proof fn lemma_digits_match_occurrences(line: Seq<u8>, end: nat)
    ensures
        digits_before(line, end) == occurrences_before(line, end).map_values(
            |found: crate::calibration::OccurrenceView| found.digit,
        ),
    decreases end,
{
    if end > 0 {
        lemma_digits_match_occurrences(line, (end - 1) as nat);
    }
    assert(digits_before(line, end) =~= occurrences_before(line, end).map_values(
        |found: crate::calibration::OccurrenceView| found.digit,
    ));
}

/// A word stands at the beginning of a text when its first byte does and the
/// rest of it stands at the beginning of the rest of the text.
proof fn lemma_occurs_at_start(text: Seq<u8>, word: Seq<u8>)
    requires
        word.len() > 0,
    ensures
        occurs_at(text, 0, word) <==> text.len() > 0 && text[0] == word[0] && occurs_at(
            text.skip(1),
            0,
            word.skip(1),
        ),
{
    if occurs_at(text, 0, word) {
        let part = text.subrange(0, word.len() as int);
        assert(part[0] == text[0]);
        assert forall|j: int| 0 <= j < word.len() - 1 implies text.skip(1).subrange(
            0,
            word.len() - 1,
        )[j] == word.skip(1)[j] by {
            assert(part[j + 1] == word[j + 1]);
        }
    }
    if text.len() > 0 && text[0] == word[0] && occurs_at(text.skip(1), 0, word.skip(1)) {
        let part = text.skip(1).subrange(0, word.len() - 1);
        assert forall|j: int| 0 <= j < word.len() implies text.subrange(0, word.len() as int)[j]
            == word[j] by {
            if j > 0 {
                assert(part[j - 1] == word.skip(1)[j - 1]);
            }
        }
    }
}

/// What stands one byte further on in a line stands in the line without its
/// first byte.
proof fn lemma_digit_at_shift(line: Seq<u8>, at: int)
    requires
        line.len() > 0,
        0 <= at,
    ensures
        digit_at(line, at + 1) == digit_at(line.skip(1), at),
{
    let rest = line.skip(1);
    assert forall|digit: nat| word_at(line, at + 1, digit) == word_at(rest, at, digit) by {
        let word = digit_word(digit);
        if at + 1 + word.len() <= line.len() {
            assert(line.subrange(at + 1, at + 1 + word.len()) =~= rest.subrange(
                at,
                at + word.len(),
            ));
        }
    }
}

/// The digits of a line are the digit at its beginning, if there is one,
/// followed by the digits of the line without its first byte.
proof fn lemma_digits_front(line: Seq<u8>, end: nat)
    requires
        1 <= end <= line.len(),
    ensures
        digits_before(line, end) == head_digits(line) + digits_before(
            line.skip(1),
            (end - 1) as nat,
        ),
    decreases end,
{
    let rest = line.skip(1);
    if end == 1 {
        assert(digits_before(line, 0) =~= seq![]);
        assert(digits_before(line, 1) =~= head_digits(line) + digits_before(rest, 0));
    } else {
        lemma_digits_front(line, (end - 1) as nat);
        lemma_digit_at_shift(line, end - 2);
        assert(digits_before(line, end) =~= head_digits(line) + digits_before(
            rest,
            (end - 1) as nat,
        ));
    }
}

/// No digit starts at a byte outside ASCII.
proof fn lemma_high_byte_starts_no_digit(line: Seq<u8>)
    requires
        line.len() > 0,
        line[0] >= 0x80,
    ensures
        digit_at(line, 0) is None,
{
    assert forall|digit: nat| !word_at(line, 0, digit) by {
        if word_at(line, 0, digit) {
            let word = digit_word(digit);
            assert(line.subrange(0, word.len() as int)[0] == word[0]);
        }
    }
}

/// A character within ASCII is encoded as its own code, and any other as two
/// to four bytes outside ASCII.
proof fn lemma_encode_scalar(character: char)
    ensures
        (character as u32) < 0x80 ==> encode_scalar(character as u32) == seq![character as u8],
        (character as u32) >= 0x80 ==> {
            &&& 2 <= encode_scalar(character as u32).len() <= 4
            &&& forall|j: int|
                0 <= j < encode_scalar(character as u32).len() ==> #[trigger] encode_scalar(
                    character as u32,
                )[j] >= 0x80
        },
{
    let scalar = character as u32;
    char_is_scalar(character);
    if scalar < 0x80 {
        assert((scalar & 0x7F) as u8 == scalar as u8) by (bit_vector)
            requires
                scalar < 0x80,
        ;
        assert(encode_scalar(scalar) =~= seq![character as u8]);
    } else {
        assert forall|low: u8| (0x80u8 | low) >= 0x80 && (0xC0u8 | low) >= 0x80 && (0xE0u8 | low)
            >= 0x80 && (0xF0u8 | low) >= 0x80 by {
            assert((0x80u8 | low) >= 0x80 && (0xC0u8 | low) >= 0x80 && (0xE0u8 | low) >= 0x80 && (
            0xF0u8 | low) >= 0x80) by (bit_vector);
        }
    }
}

/// A word of ASCII bytes stands at the beginning of a line's encoding exactly
/// when it stands at the beginning of the line's code units.
proof fn lemma_starts_alike(line: Seq<char>, word: Seq<u8>)
    requires
        forall|j: int| 0 <= j < word.len() ==> word[j] < 0x80,
    ensures
        occurs_at(encode_utf8(line), 0, word) <==> occurs_at(code_units(line), 0, word),
    decreases word.len(),
{
    let bytes = encode_utf8(line);
    let units = code_units(line);
    if word.len() == 0 {
        assert(bytes.subrange(0, 0) =~= word);
        assert(units.subrange(0, 0) =~= word);
    } else {
        lemma_occurs_at_start(bytes, word);
        lemma_occurs_at_start(units, word);
        if line.len() > 0 {
            let first = line[0];
            let rest = line.drop_first();
            lemma_encode_scalar(first);
            assert(units.skip(1) =~= code_units(rest));
            if (first as u32) < 0x80 {
                assert(bytes.skip(1) =~= encode_utf8(rest));
                lemma_starts_alike(rest, word.skip(1));
            } else {
                assert(bytes[0] == encode_scalar(first as u32)[0]);
            }
        }
    }
}

/// The same digit, or none, starts at the beginning of a line's encoding and
/// at the beginning of its code units.
proof fn lemma_head_digit(line: Seq<char>)
    ensures
        digit_at(encode_utf8(line), 0) == digit_at(code_units(line), 0),
{
    let bytes = encode_utf8(line);
    let units = code_units(line);
    assert forall|digit: nat| word_at(bytes, 0, digit) == word_at(units, 0, digit) by {
        if 1 <= digit <= 9 {
            lemma_starts_alike(line, digit_word(digit));
        }
    }
    if line.len() > 0 {
        lemma_encode_scalar(line[0]);
        if (line[0] as u32) >= 0x80 {
            assert(bytes[0] == encode_scalar(line[0] as u32)[0]);
        }
    }
}

/// Bytes outside ASCII at the beginning of a line add no digit to it.
proof fn lemma_digits_without_high_bytes(line: Seq<u8>, width: nat)
    requires
        width <= line.len(),
        forall|j: int| 0 <= j < width ==> line[j] >= 0x80,
    ensures
        digits_of(line) == digits_of(line.skip(width as int)),
    decreases width,
{
    if width == 0 {
        assert(line.skip(0) =~= line);
    } else {
        let rest = line.skip(1);
        lemma_high_byte_starts_no_digit(line);
        lemma_digits_front(line, line.len());
        assert(head_digits(line) + digits_of(rest) =~= digits_of(rest));
        lemma_digits_without_high_bytes(rest, (width - 1) as nat);
        assert(rest.skip(width - 1) =~= line.skip(width as int));
    }
}

/// A line's encoding and its code units hold the same digits in the same
/// order.
pub proof fn lemma_digits_of_characters(line: Seq<char>)
    ensures
        digits_of(encode_utf8(line)) == digits_of(code_units(line)),
    decreases line.len(),
{
    let bytes = encode_utf8(line);
    let units = code_units(line);
    if line.len() > 0 {
        let first = line[0];
        let rest = line.drop_first();
        let head = encode_scalar(first as u32);
        lemma_encode_scalar(first);
        lemma_digits_of_characters(rest);
        assert(units.skip(1) =~= code_units(rest));
        lemma_digits_front(units, units.len());
        lemma_head_digit(line);
        assert(bytes.skip(head.len() as int) =~= encode_utf8(rest));
        if (first as u32) < 0x80 {
            lemma_digits_front(bytes, bytes.len());
        } else {
            assert forall|j: int| 0 <= j < head.len() implies bytes[j] >= 0x80 by {
                assert(bytes[j] == head[j]);
            }
            lemma_digits_without_high_bytes(bytes, head.len());
            lemma_high_byte_starts_no_digit(bytes);
            assert(head_digits(units) + digits_of(code_units(rest)) =~= digits_of(
                code_units(rest),
            ));
        }
    }
}

/// The calibration value of a line's UTF-8 encoding is that of the line read
/// character by character, and the two readings find the same digits in the
/// same order: a digit starts at a character of the line exactly when it
/// starts at that character's first byte, and none starts within a character.
pub proof fn lemma_calibration_of_characters(line: Seq<char>)
    ensures
        calibration_value(encode_utf8(line)) == calibration_value(code_units(line)),
        occurrences(encode_utf8(line)).map_values(
            |found: crate::calibration::OccurrenceView| found.digit,
        ) == occurrences(code_units(line)).map_values(
            |found: crate::calibration::OccurrenceView| found.digit,
        ),
{
    let bytes = encode_utf8(line);
    let units = code_units(line);
    lemma_digits_of_characters(line);
    lemma_digits_match_occurrences(bytes, bytes.len());
    lemma_digits_match_occurrences(units, units.len());
    let in_bytes = occurrences(bytes);
    let in_units = occurrences(units);
    assert(in_bytes.len() == digits_of(bytes).len());
    assert(in_units.len() == digits_of(units).len());
    if in_bytes.len() > 0 {
        assert(in_bytes.first().digit == digits_of(bytes)[0]);
        assert(in_units.first().digit == digits_of(units)[0]);
        assert(in_bytes.last().digit == digits_of(bytes)[in_bytes.len() - 1]);
        assert(in_units.last().digit == digits_of(units)[in_units.len() - 1]);
    }
}

} // verus!
