//! Unsigned decimal numbers written in ASCII: an optional `+`, then one or
//! more of the numerals `0` to `9`.

use vstd::prelude::*;

verus! {

/// Whether `byte` is one of the ASCII numerals `0` to `9`.
pub open spec fn is_numeral(byte: u8) -> bool {
    '0' as u8 <= byte <= '9' as u8
}

/// The number that an ASCII numeral stands for.
pub open spec fn numeral_value(byte: u8) -> nat
    recommends
        is_numeral(byte),
{
    (byte - '0' as u8) as nat
}

/// Whether every byte of `digits` is an ASCII numeral.
pub open spec fn all_numerals(digits: Seq<u8>) -> bool {
    forall|k: int| 0 <= k < digits.len() ==> is_numeral(#[trigger] digits[k])
}

/// The number that a run of numerals denotes in base ten, the first numeral
/// being the most significant. The empty run denotes zero.
pub open spec fn decimal_value(digits: Seq<u8>) -> nat
    decreases digits.len(),
{
    if digits.len() == 0 {
        0
    } else {
        10 * decimal_value(digits.drop_last()) + numeral_value(digits.last())
    }
}

/// The numerals of a number's text: the text itself, without a leading `+`.
pub open spec fn unsigned_digits(text: Seq<u8>) -> Seq<u8> {
    if text.len() > 0 && text[0] == '+' as u8 {
        text.skip(1)
    } else {
        text
    }
}

/// The number that `text` denotes, if it is a number no greater than `max`.
///
/// The text is an optional `+` followed by at least one numeral and nothing
/// else; leading zeros are allowed. Anything else, or a number above `max`,
/// gives `None`.
pub open spec fn parse_unsigned(text: Seq<u8>, max: nat) -> Option<nat> {
    let digits = unsigned_digits(text);
    if digits.len() > 0 && all_numerals(digits) && decimal_value(digits) <= max {
        Some(decimal_value(digits))
    } else {
        None
    }
}

/// A longer run of numerals denotes at least what each of its prefixes does.
pub proof fn lemma_decimal_value_grows(digits: Seq<u8>, k: int)
    requires
        0 <= k <= digits.len(),
    ensures
        decimal_value(digits.take(k)) <= decimal_value(digits),
    decreases digits.len() - k,
{
    if k == digits.len() {
        assert(digits.take(k) =~= digits);
    } else {
        lemma_decimal_value_grows(digits, k + 1);
        assert(digits.take(k + 1).drop_last() =~= digits.take(k));
    }
}

/// Tells whether `byte` is an ASCII numeral.
pub fn byte_is_numeral(byte: u8) -> (yes: bool)
    ensures
        yes == is_numeral(byte),
{
    '0' as u8 <= byte && byte <= '9' as u8
}

/// Reads `text` as an unsigned decimal number no greater than `max`.
pub fn read_unsigned(text: &[u8], max: u32) -> (number: Option<u32>)
    ensures
        match number {
            Some(n) => parse_unsigned(text@, max as nat) == Some(n as nat),
            None => parse_unsigned(text@, max as nat) is None,
        },
{
    let start: usize = if text.len() > 0 && text[0] == '+' as u8 {
        1
    } else {
        0
    };
    let ghost digits = unsigned_digits(text@);
    assert(digits =~= text@.skip(start as int));
    if start == text.len() {
        return None;
    }
    let mut value: u64 = 0;
    let mut at: usize = start;
    while at < text.len()
        invariant
            start <= at <= text.len(),
            digits == unsigned_digits(text@),
            digits == text@.skip(start as int),
            all_numerals(digits.take(at - start)),
            value == decimal_value(digits.take(at - start)),
            value <= max,
        decreases text.len() - at,
    {
        let byte = text[at];
        let ghost seen = digits.take(at - start + 1);
        assert(seen.drop_last() =~= digits.take(at - start));
        assert(seen.last() == byte);
        if !byte_is_numeral(byte) {
            assert(!is_numeral(digits[at - start]));
            return None;
        }
        let next: u64 = value * 10 + (byte - '0' as u8) as u64;
        assert(next == decimal_value(seen));
        if next > max as u64 {
            proof {
                lemma_decimal_value_grows(digits, at - start + 1);
            }
            return None;
        }
        assert forall|k: int| 0 <= k < seen.len() implies is_numeral(#[trigger] seen[k]) by {
            if k < seen.len() - 1 {
                assert(seen[k] == digits.take(at - start)[k]);
            }
        }
        value = next;
        at = at + 1;
    }
    assert(digits.take(at - start) =~= digits);
    Some(value as u32)
}

} // verus!
