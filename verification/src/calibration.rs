//! Calibration values: the two-digit number that the first and the last digit
//! of a line form, where a digit is written as a numeral (`0` to `9`) or
//! spelled out in lower case (`one` to `nine`).
//!
//! A line is read as the bytes of its UTF-8 encoding, and a position is an
//! index into those bytes.

use crate::characters::{code_units, lemma_calibration_of_characters};
use crate::decimal::{byte_is_numeral, is_numeral, numeral_value};
use crate::text::{occurs_at, starts_with_at};
use vstd::prelude::*;
use vstd::string::StringSliceAdditionalSpecFns;

verus! {

/// The lower-case English name of a digit from one to nine, in ASCII. Other
/// numbers have no name, which the empty word stands for.
pub open spec fn digit_word(digit: nat) -> Seq<u8> {
    if digit == 1 {
        seq!['o' as u8, 'n' as u8, 'e' as u8]
    } else if digit == 2 {
        seq!['t' as u8, 'w' as u8, 'o' as u8]
    } else if digit == 3 {
        seq!['t' as u8, 'h' as u8, 'r' as u8, 'e' as u8, 'e' as u8]
    } else if digit == 4 {
        seq!['f' as u8, 'o' as u8, 'u' as u8, 'r' as u8]
    } else if digit == 5 {
        seq!['f' as u8, 'i' as u8, 'v' as u8, 'e' as u8]
    } else if digit == 6 {
        seq!['s' as u8, 'i' as u8, 'x' as u8]
    } else if digit == 7 {
        seq!['s' as u8, 'e' as u8, 'v' as u8, 'e' as u8, 'n' as u8]
    } else if digit == 8 {
        seq!['e' as u8, 'i' as u8, 'g' as u8, 'h' as u8, 't' as u8]
    } else if digit == 9 {
        seq!['n' as u8, 'i' as u8, 'n' as u8, 'e' as u8]
    } else {
        seq![]
    }
}

/// Whether the numeral of `digit` stands at index `at` of `line`.
pub open spec fn numeral_at(line: Seq<u8>, at: int, digit: nat) -> bool {
    &&& 0 <= at < line.len()
    &&& is_numeral(line[at])
    &&& numeral_value(line[at]) == digit
}

/// Whether the name of `digit` stands in `line` with its first byte at `at`.
pub open spec fn word_at(line: Seq<u8>, at: int, digit: nat) -> bool {
    1 <= digit <= 9 && occurs_at(line, at, digit_word(digit))
}

/// Whether an occurrence of `digit`, as a numeral or as a word, starts at
/// index `at` of `line`.
pub open spec fn digit_starts_at(line: Seq<u8>, at: int, digit: nat) -> bool {
    numeral_at(line, at, digit) || word_at(line, at, digit)
}

/// The digit whose numeral or name starts at index `at` of `line`, if one does.
pub open spec fn digit_at(line: Seq<u8>, at: int) -> Option<nat> {
    if 0 <= at < line.len() && is_numeral(line[at]) {
        Some(numeral_value(line[at]))
    } else if word_at(line, at, 1) {
        Some(1)
    } else if word_at(line, at, 2) {
        Some(2)
    } else if word_at(line, at, 3) {
        Some(3)
    } else if word_at(line, at, 4) {
        Some(4)
    } else if word_at(line, at, 5) {
        Some(5)
    } else if word_at(line, at, 6) {
        Some(6)
    } else if word_at(line, at, 7) {
        Some(7)
    } else if word_at(line, at, 8) {
        Some(8)
    } else if word_at(line, at, 9) {
        Some(9)
    } else {
        None
    }
}

/// One digit found in a line.
#[derive(Clone, Copy, Debug, PartialEq, Eq)]
pub struct Occurrence {
    /// The index, in the line's bytes, of the first byte of the numeral or word.
    pub position: usize,
    /// The digit that the numeral or word stands for, from 0 to 9.
    pub digit: u8,
}

/// An occurrence as a pair of numbers.
pub struct OccurrenceView {
    pub position: nat,
    pub digit: nat,
}

impl View for Occurrence {
    type V = OccurrenceView;

    open spec fn view(&self) -> OccurrenceView {
        OccurrenceView { position: self.position as nat, digit: self.digit as nat }
    }
}

impl DeepView for Occurrence {
    type V = OccurrenceView;

    open spec fn deep_view(&self) -> OccurrenceView {
        self.view()
    }
}

/// The occurrences that start before index `end` of `line`, by position.
pub open spec fn occurrences_before(line: Seq<u8>, end: nat) -> Seq<OccurrenceView>
    decreases end,
{
    if end == 0 {
        seq![]
    } else {
        let position = (end - 1) as nat;
        let earlier = occurrences_before(line, position);
        match digit_at(line, position as int) {
            Some(digit) => earlier.push(OccurrenceView { position, digit }),
            None => earlier,
        }
    }
}

/// All occurrences of digits in `line`, numerals and words alike, in the
/// order of their positions.
pub open spec fn occurrences(line: Seq<u8>) -> Seq<OccurrenceView> {
    occurrences_before(line, line.len())
}

/// The calibration value of `line`: ten times the digit of its first
/// occurrence plus the digit of its last one, and 0 for a line without digits.
/// A line with a single occurrence counts it as both.
pub open spec fn calibration_value(line: Seq<u8>) -> nat {
    let found = occurrences(line);
    if found.len() == 0 {
        0
    } else {
        10 * found.first().digit + found.last().digit
    }
}

/// A word that stands at `at` puts its first two bytes there.
proof fn lemma_word_head(line: Seq<u8>, at: int, digit: nat)
    requires
        word_at(line, at, digit),
    ensures
        at + 1 < line.len(),
        line[at] == digit_word(digit)[0],
        line[at + 1] == digit_word(digit)[1],
{
    let word = digit_word(digit);
    let part = line.subrange(at, at + word.len());
    assert(part[0] == line[at]);
    assert(part[1] == line[at + 1]);
}

/// At most one digit starts at an index: `digit_at` gives `digit` exactly
/// when the numeral or the name of `digit` starts there.
pub proof fn lemma_digit_at(line: Seq<u8>, at: int)
    ensures
        forall|digit: nat| digit_at(line, at) == Some(digit) <==> digit_starts_at(line, at, digit),
        digit_at(line, at) is None <==> forall|digit: nat| !digit_starts_at(line, at, digit),
        digit_at(line, at) is Some ==> 0 <= at < line.len() && digit_at(line, at).unwrap() <= 9,
{
    assert forall|digit: nat| word_at(line, at, digit) implies digit_at(line, at) == Some(
        digit,
    ) by {
        lemma_word_head(line, at, digit);
        if word_at(line, at, 1) {
            lemma_word_head(line, at, 1);
        }
        if word_at(line, at, 2) {
            lemma_word_head(line, at, 2);
        }
        if word_at(line, at, 3) {
            lemma_word_head(line, at, 3);
        }
        if word_at(line, at, 4) {
            lemma_word_head(line, at, 4);
        }
        if word_at(line, at, 5) {
            lemma_word_head(line, at, 5);
        }
        if word_at(line, at, 6) {
            lemma_word_head(line, at, 6);
        }
        if word_at(line, at, 7) {
            lemma_word_head(line, at, 7);
        }
        if word_at(line, at, 8) {
            lemma_word_head(line, at, 8);
        }
        if word_at(line, at, 9) {
            lemma_word_head(line, at, 9);
        }
    }
    assert forall|digit: nat| digit_at(line, at) == Some(digit) implies digit_starts_at(
        line,
        at,
        digit,
    ) by {}
    if digit_at(line, at) is Some {
        let digit = digit_at(line, at).unwrap();
        assert(digit_starts_at(line, at, digit));
        if word_at(line, at, digit) {
            lemma_word_head(line, at, digit);
        }
    }
}

/// What `occurrences_before` lists: exactly the occurrences that start before
/// `end`, each once, by ascending position.
pub proof fn lemma_occurrences_before(line: Seq<u8>, end: nat)
    ensures
        forall|k: int|
            0 <= k < occurrences_before(line, end).len() ==> {
                let entry = #[trigger] occurrences_before(line, end)[k];
                &&& entry.position < end
                &&& digit_at(line, entry.position as int) == Some(entry.digit)
            },
        forall|j: int, k: int|
            0 <= j < k < occurrences_before(line, end).len() ==> #[trigger] occurrences_before(
                line,
                end,
            )[j].position < #[trigger] occurrences_before(line, end)[k].position,
        forall|at: int|
            0 <= at < end && #[trigger] digit_at(line, at) is Some ==> exists|k: int|
                0 <= k < occurrences_before(line, end).len() && #[trigger] occurrences_before(
                    line,
                    end,
                )[k].position == at,
    decreases end,
{
    if end > 0 {
        let position = (end - 1) as nat;
        let earlier = occurrences_before(line, position);
        let all = occurrences_before(line, end);
        lemma_occurrences_before(line, position);
        assert forall|at: int| 0 <= at < end && #[trigger] digit_at(line, at) is Some implies exists|
            k: int,
        |
            0 <= k < all.len() && #[trigger] all[k].position == at by {
            if at < position {
                let k = choose|k: int| 0 <= k < earlier.len() && #[trigger] earlier[k].position == at;
                assert(all[k].position == at);
            } else {
                assert(all[all.len() - 1].position == at);
            }
        }
    }
}

/// The list of a line's occurrences holds every index at which a numeral or
/// a digit's name starts, whatever else overlaps it, each with its digit, and
/// holds them by ascending position, whichever kind they are of.
pub proof fn lemma_occurrences(line: Seq<u8>)
    ensures
        forall|k: int|
            0 <= k < occurrences(line).len() ==> digit_starts_at(
                line,
                (#[trigger] occurrences(line)[k]).position as int,
                occurrences(line)[k].digit,
            ),
        forall|j: int, k: int|
            0 <= j < k < occurrences(line).len() ==> #[trigger] occurrences(line)[j].position
                < #[trigger] occurrences(line)[k].position,
        forall|at: int, digit: nat| #[trigger]
            digit_starts_at(line, at, digit) ==> exists|k: int|
                0 <= k < occurrences(line).len() && #[trigger] occurrences(line)[k]
                    == (OccurrenceView { position: at as nat, digit }),
{
    let found = occurrences(line);
    lemma_occurrences_before(line, line.len());
    assert forall|k: int| 0 <= k < found.len() implies digit_starts_at(
        line,
        (#[trigger] found[k]).position as int,
        found[k].digit,
    ) by {
        lemma_digit_at(line, found[k].position as int);
    }
    assert forall|at: int, digit: nat| #[trigger] digit_starts_at(line, at, digit) implies exists|
        k: int,
    |
        0 <= k < found.len() && #[trigger] found[k] == (OccurrenceView {
            position: at as nat,
            digit,
        }) by {
        lemma_digit_at(line, at);
        assert(digit_at(line, at) is Some);
        let k = choose|k: int| 0 <= k < found.len() && #[trigger] found[k].position == at;
        assert(digit_at(line, found[k].position as int) == Some(found[k].digit));
        assert(found[k] == (OccurrenceView { position: at as nat, digit }));
    }
}

/// The first and the last digit are told by position alone: where `first`
/// starts at `low` with no occurrence of either kind before it, and `last`
/// starts at `high` with none after it, the calibration value is ten times
/// `first` plus `last`.
pub proof fn lemma_calibration_by_position(
    line: Seq<u8>,
    low: int,
    first: nat,
    high: int,
    last: nat,
)
    requires
        digit_starts_at(line, low, first),
        digit_starts_at(line, high, last),
        forall|at: int, digit: nat| at < low ==> !digit_starts_at(line, at, digit),
        forall|at: int, digit: nat| at > high ==> !digit_starts_at(line, at, digit),
    ensures
        calibration_value(line) == 10 * first + last,
{
    let found = occurrences(line);
    lemma_occurrences(line);
    let i = choose|k: int|
        0 <= k < found.len() && #[trigger] found[k] == (OccurrenceView {
            position: low as nat,
            digit: first,
        });
    let j = choose|k: int|
        0 <= k < found.len() && #[trigger] found[k] == (OccurrenceView {
            position: high as nat,
            digit: last,
        });
    lemma_digit_at(line, low);
    lemma_digit_at(line, high);
    if i != 0 {
        assert(found[0].position < found[i].position);
        assert(digit_starts_at(line, found[0].position as int, found[0].digit));
    }
    if j != found.len() - 1 {
        assert(found[j].position < found[found.len() - 1].position);
        assert(digit_starts_at(
            line,
            found[found.len() - 1].position as int,
            found[found.len() - 1].digit,
        ));
    }
}

/// A line without any digit, numeral or word, has the calibration value 0.
pub proof fn lemma_calibration_without_digits(line: Seq<u8>)
    requires
        forall|at: int, digit: nat| !digit_starts_at(line, at, digit),
    ensures
        calibration_value(line) == 0,
{
    let found = occurrences(line);
    lemma_occurrences(line);
    if found.len() > 0 {
        assert(digit_starts_at(line, found[0].position as int, found[0].digit));
    }
}

/// On a line in which no digit is spelled out, the calibration value is the
/// number that the first and the last numeral form; where there is only one
/// numeral it is both, and where there is none the value is 0.
pub proof fn lemma_calibration_of_numerals(line: Seq<u8>)
    requires
        forall|at: int, digit: nat| !word_at(line, at, digit),
    ensures
        (forall|at: int| 0 <= at < line.len() ==> !is_numeral(#[trigger] line[at]))
            ==> calibration_value(line) == 0,
        forall|low: int, high: int|
            {
                &&& 0 <= low <= high < line.len()
                &&& is_numeral(#[trigger] line[low])
                &&& is_numeral(#[trigger] line[high])
                &&& forall|at: int| 0 <= at < low ==> !is_numeral(#[trigger] line[at])
                &&& forall|at: int| high < at < line.len() ==> !is_numeral(#[trigger] line[at])
            } ==> calibration_value(line) == 10 * numeral_value(line[low]) + numeral_value(
                line[high],
            ),
{
    if forall|at: int| 0 <= at < line.len() ==> !is_numeral(#[trigger] line[at]) {
        lemma_calibration_without_digits(line);
    }
    assert forall|low: int, high: int|
        {
            &&& 0 <= low <= high < line.len()
            &&& is_numeral(#[trigger] line[low])
            &&& is_numeral(#[trigger] line[high])
            &&& forall|at: int| 0 <= at < low ==> !is_numeral(#[trigger] line[at])
            &&& forall|at: int| high < at < line.len() ==> !is_numeral(#[trigger] line[at])
        } implies calibration_value(line) == 10 * numeral_value(line[low]) + numeral_value(
        line[high],
    ) by {
        lemma_calibration_by_position(
            line,
            low,
            numeral_value(line[low]),
            high,
            numeral_value(line[high]),
        );
    }
}

/// On a line without numerals, the calibration value is the number that the
/// digits of the first and the last spelled-out word form; where no word is
/// found the value is 0.
pub proof fn lemma_calibration_of_words(line: Seq<u8>)
    requires
        forall|at: int| 0 <= at < line.len() ==> !is_numeral(#[trigger] line[at]),
    ensures
        (forall|at: int, digit: nat| !word_at(line, at, digit)) ==> calibration_value(line) == 0,
        forall|low: int, first: nat, high: int, last: nat|
            {
                &&& #[trigger] word_at(line, low, first)
                &&& #[trigger] word_at(line, high, last)
                &&& forall|at: int, digit: nat| at < low ==> !word_at(line, at, digit)
                &&& forall|at: int, digit: nat| at > high ==> !word_at(line, at, digit)
            } ==> calibration_value(line) == 10 * first + last,
{
    if forall|at: int, digit: nat| !word_at(line, at, digit) {
        lemma_calibration_without_digits(line);
    }
    assert forall|low: int, first: nat, high: int, last: nat|
        {
            &&& #[trigger] word_at(line, low, first)
            &&& #[trigger] word_at(line, high, last)
            &&& forall|at: int, digit: nat| at < low ==> !word_at(line, at, digit)
            &&& forall|at: int, digit: nat| at > high ==> !word_at(line, at, digit)
        } implies calibration_value(line) == 10 * first + last by {
        lemma_calibration_by_position(line, low, first, high, last);
    }
}

/// Tells whether the name of `digit` stands in `line` from index `at` on.
fn word_starts_at(line: &[u8], at: usize, digit: u8) -> (yes: bool)
    ensures
        yes == word_at(line@, at as int, digit as nat),
{
    if digit == 1 {
        let word: [u8; 3] = ['o' as u8, 'n' as u8, 'e' as u8];
        assert(word@ =~= digit_word(1));
        starts_with_at(line, at, word.as_slice())
    } else if digit == 2 {
        let word: [u8; 3] = ['t' as u8, 'w' as u8, 'o' as u8];
        assert(word@ =~= digit_word(2));
        starts_with_at(line, at, word.as_slice())
    } else if digit == 3 {
        let word: [u8; 5] = ['t' as u8, 'h' as u8, 'r' as u8, 'e' as u8, 'e' as u8];
        assert(word@ =~= digit_word(3));
        starts_with_at(line, at, word.as_slice())
    } else if digit == 4 {
        let word: [u8; 4] = ['f' as u8, 'o' as u8, 'u' as u8, 'r' as u8];
        assert(word@ =~= digit_word(4));
        starts_with_at(line, at, word.as_slice())
    } else if digit == 5 {
        let word: [u8; 4] = ['f' as u8, 'i' as u8, 'v' as u8, 'e' as u8];
        assert(word@ =~= digit_word(5));
        starts_with_at(line, at, word.as_slice())
    } else if digit == 6 {
        let word: [u8; 3] = ['s' as u8, 'i' as u8, 'x' as u8];
        assert(word@ =~= digit_word(6));
        starts_with_at(line, at, word.as_slice())
    } else if digit == 7 {
        let word: [u8; 5] = ['s' as u8, 'e' as u8, 'v' as u8, 'e' as u8, 'n' as u8];
        assert(word@ =~= digit_word(7));
        starts_with_at(line, at, word.as_slice())
    } else if digit == 8 {
        let word: [u8; 5] = ['e' as u8, 'i' as u8, 'g' as u8, 'h' as u8, 't' as u8];
        assert(word@ =~= digit_word(8));
        starts_with_at(line, at, word.as_slice())
    } else if digit == 9 {
        let word: [u8; 4] = ['n' as u8, 'i' as u8, 'n' as u8, 'e' as u8];
        assert(word@ =~= digit_word(9));
        starts_with_at(line, at, word.as_slice())
    } else {
        false
    }
}

/// Finds the digit whose numeral or name starts at index `at` of `line`.
pub fn digit_starting_at(line: &[u8], at: usize) -> (found: Option<u8>)
    ensures
        match found {
            Some(digit) => digit_at(line@, at as int) == Some(digit as nat) && digit <= 9,
            None => digit_at(line@, at as int) is None,
        },
{
    if at < line.len() && byte_is_numeral(line[at]) {
        return Some(line[at] - '0' as u8);
    }
    let mut digit: u8 = 1;
    while digit <= 9
        invariant
            1 <= digit <= 10,
            !(0 <= at < line@.len() && is_numeral(line@[at as int])),
            forall|smaller: nat| 1 <= smaller < digit ==> !word_at(line@, at as int, smaller),
        decreases 10 - digit,
    {
        if word_starts_at(line, at, digit) {
            return Some(digit);
        }
        digit = digit + 1;
    }
    None
}

/// Finds every digit in `line`, numerals and spelled-out words alike,
/// overlapping or not, and lists them by ascending position.
pub fn find_occurrences(line: &str) -> (found: Vec<Occurrence>)
    ensures
        found.deep_view() == occurrences(line.spec_bytes()),
{
    let bytes = line.as_bytes();
    let mut found: Vec<Occurrence> = Vec::new();
    let mut at: usize = 0;
    while at < bytes.len()
        invariant
            at <= bytes.len(),
            found.deep_view() == occurrences_before(bytes@, at as nat),
        decreases bytes.len() - at,
    {
        let ghost earlier = found.deep_view();
        match digit_starting_at(bytes, at) {
            Some(digit) => {
                found.push(Occurrence { position: at, digit });
                assert(found.deep_view() =~= earlier.push(
                    OccurrenceView { position: at as nat, digit: digit as nat },
                ));
            },
            None => {},
        }
        at = at + 1;
    }
    found
}

/// Computes the calibration value of `line`: the two-digit number made of its
/// first and its last digit, or 0 where the line holds no digit. The value is
/// the same whether the line is read as bytes or as characters.
pub fn get_coordinate_from_input(line: &str) -> (value: i32)
    ensures
        value == calibration_value(line.spec_bytes()),
        value == calibration_value(code_units(line@)),
        0 <= value <= 99,
{
    let found = find_occurrences(line);
    proof {
        lemma_calibration_of_characters(line@);
        lemma_occurrences_before(line.spec_bytes(), line.spec_bytes().len());
        if found.len() > 0 {
            lemma_digit_at(line.spec_bytes(), found[0].position as int);
            lemma_digit_at(line.spec_bytes(), found[found.len() - 1].position as int);
        }
    }
    if found.len() < 1 {
        return 0;
    }
    let first: u8 = found[0].digit;
    let last: u8 = found[found.len() - 1].digit;
    assert(found.deep_view().first() == found[0].deep_view());
    assert(found.deep_view().last() == found[found.len() - 1].deep_view());
    10 * (first as i32) + last as i32
}

} // verus!
