//! Cube games. A game's record is one line: five bytes of heading, the game's
//! number, a colon, and then the reveals, separated by semicolons. A reveal is
//! a list of entries separated by commas, and an entry such as ` 3 blue` tells
//! how many cubes of one colour were shown.
//!
//! A record is read as the bytes of its UTF-8 encoding.

use crate::decimal::{parse_unsigned, read_unsigned};
use crate::text::{find, first_occurrence, piece_views, split, split_on};
use vstd::prelude::*;
use vstd::slice::slice_subrange;
use vstd::string::StringSliceAdditionalSpecFns;

verus! {

/// The colours of the cubes.
#[derive(Clone, Copy, Debug, PartialEq, Eq, Structural)]
pub enum Colour {
    Red,
    Green,
    Blue,
}

impl Colour {
    /// The colour's name as an entry writes it, in ASCII.
    pub open spec fn name(self) -> Seq<u8> {
        match self {
            Colour::Red => seq!['r' as u8, 'e' as u8, 'd' as u8],
            Colour::Green => seq!['g' as u8, 'r' as u8, 'e' as u8, 'e' as u8, 'n' as u8],
            Colour::Blue => seq!['b' as u8, 'l' as u8, 'u' as u8, 'e' as u8],
        }
    }
}

/// What one reveal showed: for each colour the number of cubes, if the reveal
/// speaks of that colour.
#[derive(Clone, Copy, Debug, PartialEq, Eq)]
pub struct GameReveal {
    pub red_cubes: Option<u8>,
    pub green_cubes: Option<u8>,
    pub blue_cubes: Option<u8>,
}

impl GameReveal {
    /// The number of cubes of `colour` in this reveal, if it speaks of them.
    pub open spec fn count(self, colour: Colour) -> Option<u8> {
        match colour {
            Colour::Red => self.red_cubes,
            Colour::Green => self.green_cubes,
            Colour::Blue => self.blue_cubes,
        }
    }
}

/// A game: its number and its reveals, in the order of the record.
#[derive(Debug)]
pub struct Game {
    pub id: u32,
    pub reveals: Vec<GameReveal>,
}

/// A game as a number and a sequence of reveals.
pub struct GameView {
    pub id: nat,
    pub reveals: Seq<GameReveal>,
}

impl View for Game {
    type V = GameView;

    open spec fn view(&self) -> GameView {
        GameView { id: self.id as nat, reveals: self.reveals@ }
    }
}

/// Whether `entry` names `colour` anywhere.
pub open spec fn names(entry: Seq<u8>, colour: Colour) -> bool {
    first_occurrence(entry, colour.name()) is Some
}

/// The count that `entry` gives for a colour it names. The count is the number
/// written from the entry's second byte up to the last byte but one before the
/// colour's first naming; the first byte and the byte just before the name are
/// passed over, whatever they are. There is no count where those bytes are
/// not a number up to 255, or where fewer than two bytes precede the name.
pub open spec fn count_in(entry: Seq<u8>, colour: Colour) -> Option<nat> {
    match first_occurrence(entry, colour.name()) {
        Some(at) => if at >= 2 {
            parse_unsigned(entry.subrange(1, at - 1), 255)
        } else {
            None
        },
        None => None,
    }
}

/// Whether `entry` gives a count for every colour that it names.
pub open spec fn well_formed_entry(entry: Seq<u8>) -> bool {
    forall|colour: Colour| names(entry, colour) ==> count_in(entry, colour) is Some
}

/// The count of `colour` that a list of well-formed entries leaves: that of
/// the last entry naming the colour, or nothing if none names it.
pub open spec fn shown(entries: Seq<Seq<u8>>, colour: Colour) -> Option<u8>
    decreases entries.len(),
{
    if entries.len() == 0 {
        None
    } else if names(entries.last(), colour) {
        match count_in(entries.last(), colour) {
            Some(count) => Some(count as u8),
            None => None,
        }
    } else {
        shown(entries.drop_last(), colour)
    }
}

/// The entries of a reveal: the pieces between its commas.
pub open spec fn entries_of(reveal: Seq<u8>) -> Seq<Seq<u8>> {
    split(reveal, ',' as u8)
}

/// Whether every entry of `reveal` is well formed.
pub open spec fn well_formed_reveal(reveal: Seq<u8>) -> bool {
    forall|k: int|
        0 <= k < entries_of(reveal).len() ==> well_formed_entry(#[trigger] entries_of(reveal)[k])
}

/// What a well-formed reveal's text says.
pub open spec fn reveal_of(reveal: Seq<u8>) -> GameReveal {
    GameReveal {
        red_cubes: shown(entries_of(reveal), Colour::Red),
        green_cubes: shown(entries_of(reveal), Colour::Green),
        blue_cubes: shown(entries_of(reveal), Colour::Blue),
    }
}

/// The index of the colon that ends a record's heading and number.
pub open spec fn colon_of(record: Seq<u8>) -> Option<int> {
    first_occurrence(record, seq![':' as u8])
}

/// The game number that `record` gives: what stands from its sixth byte up to
/// the first colon, read as a number up to `u32::MAX`.
pub open spec fn id_of(record: Seq<u8>) -> Option<nat> {
    match colon_of(record) {
        Some(colon) => if colon >= 5 {
            parse_unsigned(record.subrange(5, colon), u32::MAX as nat)
        } else {
            None
        },
        None => None,
    }
}

/// The texts of a record's reveals: the pieces between the semicolons of
/// what follows the first colon.
pub open spec fn reveal_texts(record: Seq<u8>) -> Seq<Seq<u8>> {
    match colon_of(record) {
        Some(colon) => split(record.skip(colon + 1), ';' as u8),
        None => seq![],
    }
}

/// Whether `record` is the record of a game: it has a colon, a game number
/// before it, and well-formed reveals after it.
pub open spec fn well_formed_game(record: Seq<u8>) -> bool {
    &&& id_of(record) is Some
    &&& forall|k: int|
        0 <= k < reveal_texts(record).len() ==> well_formed_reveal(
            #[trigger] reveal_texts(record)[k],
        )
}

/// The game that a well-formed record describes.
pub open spec fn game_of(record: Seq<u8>) -> GameView {
    GameView {
        id: id_of(record).unwrap(),
        reveals: reveal_texts(record).map_values(|reveal: Seq<u8>| reveal_of(reveal)),
    }
}

/// Whether a reveal's count of `colour` is possible with `limit` cubes of it.
pub open spec fn within(reveal: GameReveal, colour: Colour, limit: nat) -> bool {
    match reveal.count(colour) {
        Some(count) => count <= limit,
        None => true,
    }
}

/// Whether every reveal is possible with the given number of cubes of each
/// colour.
pub open spec fn game_possible(reveals: Seq<GameReveal>, red: nat, green: nat, blue: nat) -> bool {
    forall|k: int|
        0 <= k < reveals.len() ==> {
            &&& within(#[trigger] reveals[k], Colour::Red, red)
            &&& within(reveals[k], Colour::Green, green)
            &&& within(reveals[k], Colour::Blue, blue)
        }
}

/// The largest count of `colour` among the reveals; 0 if none speaks of it.
pub open spec fn most_shown(reveals: Seq<GameReveal>, colour: Colour) -> nat
    decreases reveals.len(),
{
    if reveals.len() == 0 {
        0
    } else {
        let earlier = most_shown(reveals.drop_last(), colour);
        match reveals.last().count(colour) {
            Some(count) => if count > earlier {
                count as nat
            } else {
                earlier
            },
            None => earlier,
        }
    }
}

/// The power of a game: the product of the fewest cubes of each colour with
/// which its reveals are possible.
pub open spec fn game_power(reveals: Seq<GameReveal>) -> nat {
    most_shown(reveals, Colour::Red) * most_shown(reveals, Colour::Green) * most_shown(
        reveals,
        Colour::Blue,
    )
}

/// The largest count bounds every reveal's count, is itself the count of
/// some reveal unless it is 0, and is at most 255.
pub proof fn lemma_most_shown(reveals: Seq<GameReveal>, colour: Colour)
    ensures
        most_shown(reveals, colour) <= 255,
        forall|k: int|
            0 <= k < reveals.len() ==> within(
                #[trigger] reveals[k],
                colour,
                most_shown(reveals, colour),
            ),
        most_shown(reveals, colour) > 0 ==> exists|k: int|
            0 <= k < reveals.len() && (#[trigger] reveals[k]).count(colour) == Some(
                most_shown(reveals, colour) as u8,
            ),
    decreases reveals.len(),
{
    if reveals.len() > 0 {
        let earlier = reveals.drop_last();
        lemma_most_shown(earlier, colour);
        assert forall|k: int| 0 <= k < reveals.len() implies within(
            #[trigger] reveals[k],
            colour,
            most_shown(reveals, colour),
        ) by {
            if k < earlier.len() {
                assert(reveals[k] == earlier[k]);
            }
        }
        if most_shown(reveals, colour) > 0 {
            if most_shown(reveals, colour) == most_shown(earlier, colour) {
                let k = choose|k: int|
                    0 <= k < earlier.len() && (#[trigger] earlier[k]).count(colour) == Some(
                        most_shown(earlier, colour) as u8,
                    );
                assert(reveals[k] == earlier[k]);
            } else {
                assert(reveals[reveals.len() - 1] == reveals.last());
            }
        }
    }
}

/// A game is possible with given numbers of cubes exactly when they are no
/// fewer than the largest counts that the game shows: the largest counts are
/// the fewest cubes with which the game can be played.
pub proof fn lemma_fewest_cubes(reveals: Seq<GameReveal>, red: nat, green: nat, blue: nat)
    ensures
        game_possible(reveals, red, green, blue) <==> {
            &&& most_shown(reveals, Colour::Red) <= red
            &&& most_shown(reveals, Colour::Green) <= green
            &&& most_shown(reveals, Colour::Blue) <= blue
        },
{
    lemma_most_shown(reveals, Colour::Red);
    lemma_most_shown(reveals, Colour::Green);
    lemma_most_shown(reveals, Colour::Blue);
    if game_possible(reveals, red, green, blue) {
        if most_shown(reveals, Colour::Red) > 0 {
            let k = choose|k: int|
                0 <= k < reveals.len() && (#[trigger] reveals[k]).count(Colour::Red) == Some(
                    most_shown(reveals, Colour::Red) as u8,
                );
            assert(within(reveals[k], Colour::Red, red));
        }
        if most_shown(reveals, Colour::Green) > 0 {
            let k = choose|k: int|
                0 <= k < reveals.len() && (#[trigger] reveals[k]).count(Colour::Green) == Some(
                    most_shown(reveals, Colour::Green) as u8,
                );
            assert(within(reveals[k], Colour::Green, green));
        }
        if most_shown(reveals, Colour::Blue) > 0 {
            let k = choose|k: int|
                0 <= k < reveals.len() && (#[trigger] reveals[k]).count(Colour::Blue) == Some(
                    most_shown(reveals, Colour::Blue) as u8,
                );
            assert(within(reveals[k], Colour::Blue, blue));
        }
    }
}

/// What a list of well-formed entries leaves for a colour: the count of the
/// entry at `k` exactly when that entry names the colour and none after it
/// does, and nothing exactly when no entry names the colour.
pub proof fn lemma_shown(entries: Seq<Seq<u8>>, colour: Colour)
    requires
        forall|k: int| 0 <= k < entries.len() ==> well_formed_entry(#[trigger] entries[k]),
    ensures
        shown(entries, colour) is None <==> forall|k: int|
            0 <= k < entries.len() ==> !names(#[trigger] entries[k], colour),
        forall|k: int|
            {
                &&& 0 <= k < entries.len()
                &&& names(#[trigger] entries[k], colour)
                &&& forall|later: int|
                    k < later < entries.len() ==> !names(#[trigger] entries[later], colour)
            } ==> shown(entries, colour) == Some(count_in(entries[k], colour).unwrap() as u8),
    decreases entries.len(),
{
    if entries.len() > 0 {
        let earlier = entries.drop_last();
        assert forall|k: int| 0 <= k < earlier.len() implies well_formed_entry(
            #[trigger] earlier[k],
        ) by {
            assert(earlier[k] == entries[k]);
        }
        lemma_shown(earlier, colour);
        let end = entries.len() - 1;
        assert(entries[end] == entries.last());
        assert(well_formed_entry(entries[end]));
        if names(entries.last(), colour) {
            assert forall|k: int|
                {
                    &&& 0 <= k < entries.len()
                    &&& names(#[trigger] entries[k], colour)
                    &&& forall|later: int|
                        k < later < entries.len() ==> !names(#[trigger] entries[later], colour)
                } implies shown(entries, colour) == Some(
                count_in(entries[k], colour).unwrap() as u8,
            ) by {
                if k < end {
                    assert(names(entries[end], colour));
                }
            }
        } else {
            assert forall|k: int| 0 <= k < entries.len() && !names(
                #[trigger] entries[k],
                colour,
            ) && k < end implies !names(earlier[k], colour) by {
                assert(earlier[k] == entries[k]);
            }
            assert forall|k: int|
                {
                    &&& 0 <= k < entries.len()
                    &&& names(#[trigger] entries[k], colour)
                    &&& forall|later: int|
                        k < later < entries.len() ==> !names(#[trigger] entries[later], colour)
                } implies shown(entries, colour) == Some(
                count_in(entries[k], colour).unwrap() as u8,
            ) by {
                assert(k < end);
                assert(earlier[k] == entries[k]);
                assert forall|later: int| k < later < earlier.len() implies !names(
                    #[trigger] earlier[later],
                    colour,
                ) by {
                    assert(earlier[later] == entries[later]);
                }
            }
            if shown(entries, colour) is None {
                assert forall|k: int| 0 <= k < entries.len() implies !names(
                    #[trigger] entries[k],
                    colour,
                ) by {
                    if k < end {
                        assert(earlier[k] == entries[k]);
                    }
                }
            } else {
                if forall|k: int| 0 <= k < entries.len() ==> !names(#[trigger] entries[k], colour) {
                    assert forall|k: int| 0 <= k < earlier.len() implies !names(
                        #[trigger] earlier[k],
                        colour,
                    ) by {
                        assert(earlier[k] == entries[k]);
                    }
                }
            }
        }
    }
}

/// What reading an entry for one colour comes to.
#[derive(Clone, Copy, Debug, PartialEq, Eq, Structural)]
pub enum Reading {
    /// The entry does not name the colour.
    Unnamed,
    /// The entry names the colour and gives this count for it.
    Count(u8),
    /// The entry names the colour, and no count can be read for it.
    Unreadable,
}

/// Finds the first naming of `colour` in `entry`.
fn find_name(entry: &[u8], colour: Colour) -> (found: Option<usize>)
    ensures
        match found {
            Some(at) => first_occurrence(entry@, colour.name()) == Some(at as int) && at
                + colour.name().len() <= entry@.len(),
            None => first_occurrence(entry@, colour.name()) is None,
        },
{
    match colour {
        Colour::Red => {
            let word: [u8; 3] = ['r' as u8, 'e' as u8, 'd' as u8];
            assert(word@ =~= colour.name());
            find(entry, word.as_slice())
        },
        Colour::Green => {
            let word: [u8; 5] = ['g' as u8, 'r' as u8, 'e' as u8, 'e' as u8, 'n' as u8];
            assert(word@ =~= colour.name());
            find(entry, word.as_slice())
        },
        Colour::Blue => {
            let word: [u8; 4] = ['b' as u8, 'l' as u8, 'u' as u8, 'e' as u8];
            assert(word@ =~= colour.name());
            find(entry, word.as_slice())
        },
    }
}

/// Reads what `entry` says of `colour`.
pub fn read_entry(entry: &[u8], colour: Colour) -> (reading: Reading)
    ensures
        reading is Unnamed <==> !names(entry@, colour),
        reading is Unreadable <==> names(entry@, colour) && count_in(entry@, colour) is None,
        reading matches Reading::Count(count) ==> count_in(entry@, colour) == Some(count as nat),
{
    let found = find_name(entry, colour);
    match found {
        None => Reading::Unnamed,
        Some(at) => {
            if at < 2 {
                return Reading::Unreadable;
            }
            match read_unsigned(slice_subrange(entry, 1, at - 1), 255) {
                Some(count) => Reading::Count(count as u8),
                None => Reading::Unreadable,
            }
        },
    }
}

/// Reads a reveal from its text, if the text is well formed.
pub fn read_reveal(reveal: &[u8]) -> (read: Option<GameReveal>)
    ensures
        match read {
            Some(shown) => well_formed_reveal(reveal@) && shown == reveal_of(reveal@),
            None => !well_formed_reveal(reveal@),
        },
{
    let entries = split_on(reveal, ',' as u8);
    let ghost texts = entries_of(reveal@);
    let mut red_count: Option<u8> = None;
    let mut green_count: Option<u8> = None;
    let mut blue_count: Option<u8> = None;
    let mut k: usize = 0;
    while k < entries.len()
        invariant
            k <= entries.len(),
            texts == entries_of(reveal@),
            texts == piece_views(entries@),
            forall|j: int| 0 <= j < k ==> well_formed_entry(#[trigger] texts[j]),
            red_count == shown(texts.take(k as int), Colour::Red),
            green_count == shown(texts.take(k as int), Colour::Green),
            blue_count == shown(texts.take(k as int), Colour::Blue),
        decreases entries.len() - k,
    {
        let entry = entries[k];
        assert(entry@ == texts[k as int]);
        let ghost seen = texts.take(k + 1);
        assert(seen.drop_last() =~= texts.take(k as int));
        assert(seen.last() == entry@);
        match read_entry(entry, Colour::Red) {
            Reading::Unnamed => {},
            Reading::Count(count) => {
                red_count = Some(count);
            },
            Reading::Unreadable => {
                return None;
            },
        }
        match read_entry(entry, Colour::Blue) {
            Reading::Unnamed => {},
            Reading::Count(count) => {
                blue_count = Some(count);
            },
            Reading::Unreadable => {
                return None;
            },
        }
        match read_entry(entry, Colour::Green) {
            Reading::Unnamed => {},
            Reading::Count(count) => {
                green_count = Some(count);
            },
            Reading::Unreadable => {
                return None;
            },
        }
        assert forall|colour: Colour| names(entry@, colour) implies count_in(
            entry@,
            colour,
        ) is Some by {
            match colour {
                Colour::Red => {},
                Colour::Green => {},
                Colour::Blue => {},
            }
        }
        k = k + 1;
    }
    assert(texts.take(k as int) =~= texts);
    Some(GameReveal { red_cubes: red_count, green_cubes: green_count, blue_cubes: blue_count })
}

/// Reads a game from its record, if the record is well formed.
pub fn read_game(record: &[u8]) -> (read: Option<Game>)
    ensures
        match read {
            Some(game) => well_formed_game(record@) && game@ == game_of(record@),
            None => !well_formed_game(record@),
        },
{
    let separator: [u8; 1] = [':' as u8];
    assert(separator@ =~= seq![':' as u8]);
    let colon = match find(record, separator.as_slice()) {
        Some(colon) => colon,
        None => {
            return None;
        },
    };
    assert(colon < record.len());
    if colon < 5 {
        return None;
    }
    let id = match read_unsigned(slice_subrange(record, 5, colon), u32::MAX) {
        Some(id) => id,
        None => {
            return None;
        },
    };
    let texts = split_on(slice_subrange(record, colon + 1, record.len()), ';' as u8);
    assert(record@.subrange(colon + 1, record@.len() as int) =~= record@.skip(colon + 1));
    let ghost wanted = reveal_texts(record@);
    let mut reveals: Vec<GameReveal> = Vec::new();
    let mut k: usize = 0;
    while k < texts.len()
        invariant
            k <= texts.len(),
            wanted == reveal_texts(record@),
            wanted == piece_views(texts@),
            reveals@.len() == k,
            forall|j: int| 0 <= j < k ==> well_formed_reveal(#[trigger] wanted[j]),
            forall|j: int| 0 <= j < k ==> reveals@[j] == reveal_of(#[trigger] wanted[j]),
        decreases texts.len() - k,
    {
        let text = texts[k];
        assert(text@ == wanted[k as int]);
        match read_reveal(text) {
            Some(reveal) => {
                reveals.push(reveal);
            },
            None => {
                return None;
            },
        }
        k = k + 1;
    }
    assert(reveals@ =~= game_of(record@).reveals);
    Some(Game { id, reveals })
}

/// Reads a reveal from its text.
pub fn parse_reveal(reveal: &str) -> (shown: GameReveal)
    requires
        well_formed_reveal(reveal.spec_bytes()),
    ensures
        shown == reveal_of(reveal.spec_bytes()),
{
    read_reveal(reveal.as_bytes()).unwrap()
}

/// Reads a game from its record.
pub fn parse_game(game: &str) -> (parsed: Game)
    requires
        well_formed_game(game.spec_bytes()),
    ensures
        parsed@ == game_of(game.spec_bytes()),
{
    read_game(game.as_bytes()).unwrap()
}

/// Gives the game's number if every reveal is possible with the given totals
/// of cubes, and nothing otherwise.
pub fn game_valid(
    game: &Game,
    total_red_cubes: u8,
    total_green_cubes: u8,
    total_blue_cubes: u8,
) -> (id: Option<u32>)
    ensures
        id == if game_possible(
            game@.reveals,
            total_red_cubes as nat,
            total_green_cubes as nat,
            total_blue_cubes as nat,
        ) {
            Some(game.id)
        } else {
            None
        },
{
    let mut k: usize = 0;
    while k < game.reveals.len()
        invariant
            k <= game.reveals.len(),
            game_possible(
                game.reveals@.take(k as int),
                total_red_cubes as nat,
                total_green_cubes as nat,
                total_blue_cubes as nat,
            ),
        decreases game.reveals.len() - k,
    {
        let reveal = game.reveals[k];
        let red_fits = match reveal.red_cubes {
            Some(count) => count <= total_red_cubes,
            None => true,
        };
        let green_fits = match reveal.green_cubes {
            Some(count) => count <= total_green_cubes,
            None => true,
        };
        let blue_fits = match reveal.blue_cubes {
            Some(count) => count <= total_blue_cubes,
            None => true,
        };
        if !(red_fits && green_fits && blue_fits) {
            assert(game.reveals@[k as int] == reveal);
            return None;
        }
        assert forall|j: int| 0 <= j < k + 1 implies {
            let seen = #[trigger] game.reveals@.take(k + 1)[j];
            &&& within(seen, Colour::Red, total_red_cubes as nat)
            &&& within(seen, Colour::Green, total_green_cubes as nat)
            &&& within(seen, Colour::Blue, total_blue_cubes as nat)
        } by {
            if j < k {
                assert(game.reveals@.take(k + 1)[j] == game.reveals@.take(k as int)[j]);
            }
        }
        k = k + 1;
    }
    assert(game.reveals@.take(k as int) =~= game.reveals@);
    Some(game.id)
}

/// Computes the power of the game: the product of the largest counts of red,
/// green and blue cubes that its reveals show.
pub fn calculate_game_power(game: &Game) -> (power: u32)
    ensures
        power == game_power(game@.reveals),
{
    let mut fewest_red: u8 = 0;
    let mut fewest_green: u8 = 0;
    let mut fewest_blue: u8 = 0;
    let mut k: usize = 0;
    while k < game.reveals.len()
        invariant
            k <= game.reveals.len(),
            fewest_red == most_shown(game.reveals@.take(k as int), Colour::Red),
            fewest_green == most_shown(game.reveals@.take(k as int), Colour::Green),
            fewest_blue == most_shown(game.reveals@.take(k as int), Colour::Blue),
        decreases game.reveals.len() - k,
    {
        let reveal = game.reveals[k];
        let ghost seen = game.reveals@.take(k + 1);
        assert(seen.drop_last() =~= game.reveals@.take(k as int));
        assert(seen.last() == reveal);
        match reveal.red_cubes {
            Some(count) => {
                if count > fewest_red {
                    fewest_red = count;
                }
            },
            None => {},
        }
        match reveal.green_cubes {
            Some(count) => {
                if count > fewest_green {
                    fewest_green = count;
                }
            },
            None => {},
        }
        match reveal.blue_cubes {
            Some(count) => {
                if count > fewest_blue {
                    fewest_blue = count;
                }
            },
            None => {},
        }
        k = k + 1;
    }
    assert(game.reveals@.take(k as int) =~= game.reveals@);
    let red = fewest_red as u32;
    let green = fewest_green as u32;
    let blue = fewest_blue as u32;
    assert(red * green <= 65025) by (nonlinear_arith)
        requires
            red <= 255,
            green <= 255,
    ;
    assert(red * green * blue <= 16581375) by (nonlinear_arith)
        requires
            red * green <= 65025,
            blue <= 255,
    ;
    red * green * blue
}

} // verus!
