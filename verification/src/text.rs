//! Searching a line of bytes for words and cutting it at separators.

use vstd::prelude::*;

verus! {

/// Whether `word` stands in `text` with its first byte at index `at`.
pub open spec fn occurs_at(text: Seq<u8>, at: int, word: Seq<u8>) -> bool {
    &&& 0 <= at
    &&& at + word.len() <= text.len()
    &&& text.subrange(at, at + word.len()) =~= word
}

/// Whether `word` stands at `at` in `text` and nowhere before.
pub open spec fn is_first_occurrence(text: Seq<u8>, at: int, word: Seq<u8>) -> bool {
    &&& occurs_at(text, at, word)
    &&& forall|before: int| 0 <= before < at ==> !occurs_at(text, before, word)
}

/// The least index from `from` on at which `word` stands in `text`.
pub open spec fn first_occurrence_from(text: Seq<u8>, word: Seq<u8>, from: int) -> Option<int>
    decreases text.len() - from,
{
    if from < 0 || from + word.len() > text.len() {
        None
    } else if occurs_at(text, from, word) {
        Some(from)
    } else {
        first_occurrence_from(text, word, from + 1)
    }
}

/// The least index at which `word` stands in `text`, if it stands anywhere.
pub open spec fn first_occurrence(text: Seq<u8>, word: Seq<u8>) -> Option<int> {
    first_occurrence_from(text, word, 0)
}

/// The pieces between the separators of `text`, in order. A text without a
/// separator is one piece, and so is the empty text; a separator at either end
/// has an empty piece beside it.
pub open spec fn split(text: Seq<u8>, separator: u8) -> Seq<Seq<u8>>
    decreases text.len(),
    via split_decreases
{
    match first_occurrence(text, seq![separator]) {
        None => seq![text],
        Some(cut) => seq![text.take(cut)] + split(text.skip(cut + 1), separator),
    }
}

#[via_fn]
proof fn split_decreases(text: Seq<u8>, separator: u8) {
    lemma_first_occurrence_from(text, seq![separator], 0);
}

/// `first_occurrence_from` finds the least index from `from` on at which the
/// word stands, and finds none exactly when the word stands at no such index.
pub proof fn lemma_first_occurrence_from(text: Seq<u8>, word: Seq<u8>, from: int)
    requires
        0 <= from,
    ensures
        match first_occurrence_from(text, word, from) {
            Some(at) => {
                &&& from <= at
                &&& occurs_at(text, at, word)
                &&& forall|before: int| from <= before < at ==> !occurs_at(text, before, word)
            },
            None => forall|at: int| from <= at ==> !occurs_at(text, at, word),
        },
    decreases text.len() - from,
{
    if from + word.len() <= text.len() && !occurs_at(text, from, word) {
        lemma_first_occurrence_from(text, word, from + 1);
    }
}

/// `first_occurrence` gives `at` exactly when the word stands at `at` and
/// nowhere before, and gives nothing exactly when the word stands nowhere.
pub proof fn lemma_first_occurrence(text: Seq<u8>, word: Seq<u8>)
    ensures
        forall|at: int|
            first_occurrence(text, word) == Some(at) <==> is_first_occurrence(text, at, word),
        first_occurrence(text, word) is None <==> forall|at: int| !occurs_at(text, at, word),
{
    lemma_first_occurrence_from(text, word, 0);
    assert forall|at: int| is_first_occurrence(text, at, word) implies first_occurrence(text, word)
        == Some(at) by {
        let found = first_occurrence(text, word);
        if found is Some {
            let first = found.unwrap();
            if first < at {
                assert(!occurs_at(text, first, word));
            }
        }
    }
}

/// The pieces put together again, with one separator between neighbours.
pub open spec fn join(pieces: Seq<Seq<u8>>, separator: u8) -> Seq<u8>
    decreases pieces.len(),
{
    if pieces.len() == 0 {
        seq![]
    } else if pieces.len() == 1 {
        pieces[0]
    } else {
        pieces[0] + seq![separator] + join(pieces.skip(1), separator)
    }
}

/// A split gives at least one piece, no piece holds the separator, and the
/// pieces joined by the separator are the text again.
pub proof fn lemma_split(text: Seq<u8>, separator: u8)
    ensures
        split(text, separator).len() >= 1,
        forall|k: int, at: int|
            0 <= k < split(text, separator).len() && 0 <= at < split(text, separator)[k].len()
                ==> #[trigger] split(text, separator)[k][at] != separator,
        join(split(text, separator), separator) == text,
    decreases text.len(),
{
    let word = seq![separator];
    lemma_first_occurrence_from(text, word, 0);
    match first_occurrence(text, word) {
        None => {
            assert forall|at: int| 0 <= at < text.len() implies text[at] != separator by {
                if text[at] == separator {
                    assert(text.subrange(at, at + 1) =~= word);
                    assert(occurs_at(text, at, word));
                }
            }
        },
        Some(cut) => {
            let head = text.take(cut);
            let rest = split(text.skip(cut + 1), separator);
            lemma_split(text.skip(cut + 1), separator);
            assert forall|at: int| 0 <= at < head.len() implies head[at] != separator by {
                if text[at] == separator {
                    assert(text.subrange(at, at + 1) =~= word);
                    assert(occurs_at(text, at, word));
                }
            }
            assert forall|k: int, at: int|
                0 <= k < split(text, separator).len() && 0 <= at < split(
                    text,
                    separator,
                )[k].len() implies #[trigger] split(text, separator)[k][at] != separator by {
                if k > 0 {
                    assert(split(text, separator)[k] == rest[k - 1]);
                }
            }
            assert(split(text, separator).skip(1) =~= rest);
            assert(text.subrange(cut, cut + 1)[0] == separator);
            assert(head + seq![separator] + text.skip(cut + 1) =~= text);
        },
    }
}

/// Tells whether `word` stands in `text` with its first byte at index `at`.
pub fn starts_with_at(text: &[u8], at: usize, word: &[u8]) -> (yes: bool)
    ensures
        yes == occurs_at(text@, at as int, word@),
{
    if at > text.len() || word.len() > text.len() - at {
        return false;
    }
    let mut k: usize = 0;
    while k < word.len()
        invariant
            at + word.len() <= text.len(),
            k <= word.len(),
            forall|j: int| 0 <= j < k ==> text[at + j] == word[j],
        decreases word.len() - k,
    {
        if text[at + k] != word[k] {
            assert(text@.subrange(at as int, at + word.len())[k as int] != word@[k as int]);
            return false;
        }
        k = k + 1;
    }
    assert(text@.subrange(at as int, at + word.len()) =~= word@);
    true
}

/// Finds the least index from `from` on at which `word` stands in `text`.
pub fn find_from(text: &[u8], word: &[u8], from: usize) -> (found: Option<usize>)
    ensures
        match found {
            Some(at) => first_occurrence_from(text@, word@, from as int) == Some(at as int) && at
                + word@.len() <= text@.len(),
            None => first_occurrence_from(text@, word@, from as int) is None,
        },
{
    if word.len() > text.len() || from > text.len() - word.len() {
        return None;
    }
    let last: usize = text.len() - word.len();
    let mut at: usize = from;
    loop
        invariant
            from <= at <= last,
            last + word.len() == text.len(),
            first_occurrence_from(text@, word@, at as int) == first_occurrence_from(
                text@,
                word@,
                from as int,
            ),
        decreases last - at,
    {
        if starts_with_at(text, at, word) {
            return Some(at);
        }
        if at == last {
            assert(first_occurrence_from(text@, word@, at + 1) is None);
            return None;
        }
        at = at + 1;
    }
}

/// Finds the least index at which `word` stands in `text`.
pub fn find(text: &[u8], word: &[u8]) -> (found: Option<usize>)
    ensures
        match found {
            Some(at) => first_occurrence(text@, word@) == Some(at as int) && at + word@.len()
                <= text@.len(),
            None => first_occurrence(text@, word@) is None,
        },
{
    find_from(text, word, 0)
}

/// What the pieces of a cut-up text hold, piece by piece.
pub open spec fn piece_views(pieces: Seq<&[u8]>) -> Seq<Seq<u8>> {
    pieces.map_values(|piece: &[u8]| piece@)
}

/// Cuts `text` at every `separator` and hands out the pieces between them, in
/// order.
pub fn split_on<'a>(text: &'a [u8], separator: u8) -> (pieces: Vec<&'a [u8]>)
    ensures
        piece_views(pieces@) == split(text@, separator),
{
    let ghost word = seq![separator];
    let mut pieces: Vec<&'a [u8]> = Vec::new();
    let mut from: usize = 0;
    assert(text@.skip(0) =~= text@);
    assert(piece_views(pieces@) + split(text@, separator) =~= split(text@, separator));
    loop
        invariant
            from <= text.len(),
            word == seq![separator],
            split(text@, separator) == piece_views(pieces@) + split(
                text@.skip(from as int),
                separator,
            ),
        decreases text.len() - from,
    {
        let ghost rest = text@.skip(from as int);
        let ghost done = piece_views(pieces@);
        let mut end: usize = from;
        while end < text.len() && text[end] != separator
            invariant
                from <= end <= text.len(),
                rest == text@.skip(from as int),
                word == seq![separator],
                first_occurrence_from(rest, word, end - from) == first_occurrence(rest, word),
            decreases text.len() - end,
        {
            assert(rest.subrange(end - from, end - from + 1)[0] == text[end as int]);
            end = end + 1;
        }
        let piece = vstd::slice::slice_subrange(text, from, end);
        pieces.push(piece);
        assert(piece_views(pieces@) =~= done.push(piece@));
        if end == text.len() {
            assert(piece@ =~= rest);
            assert(done + seq![rest] =~= done.push(rest));
            return pieces;
        }
        proof {
            assert(rest.subrange(end - from, end - from + 1) =~= word);
            assert(first_occurrence(rest, word) == Some(end - from));
            assert(piece@ =~= rest.take(end - from));
            assert(rest.skip(end - from + 1) =~= text@.skip(end + 1));
            assert(done + (seq![piece@] + split(text@.skip(end + 1), separator)) =~= done.push(
                piece@,
            ) + split(text@.skip(end + 1), separator));
        }
        from = end + 1;
    }
}

} // verus!
