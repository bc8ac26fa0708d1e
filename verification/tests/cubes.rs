use puzzles::cubes::{
    calculate_game_power, game_valid, parse_game, parse_reveal, read_entry, read_game,
    read_reveal, Colour, Game, GameReveal, Reading,
};

const GAME1: &str = "Game 97: 5 red, 2 green; 8 red; 1 blue, 7 green, 2 red; 7 red, 15 green";
const GAME2: &str = "Game 98: 6 green, 1 blue, 1 red; 3 green, 3 red; 1 blue, 13 green, 4 red";
const GAME3: &str = "Game 9: 11 red; 1 green, 2 red, 2 blue; 1 blue, 2 green, 9 red; 4 red, 2 green, 2 blue; 1 blue, 2 green; 1 blue, 9 red, 2 green";

fn showing(red: Option<u8>, green: Option<u8>, blue: Option<u8>) -> GameReveal {
    GameReveal { red_cubes: red, green_cubes: green, blue_cubes: blue }
}

#[test]
fn test_parse_game_id() {
    let parsed_game1 = parse_game(GAME1);
    let parsed_game2 = parse_game(GAME2);
    let parsed_game3 = parse_game(GAME3);
    assert_eq!(parsed_game1.id, 97);
    assert_eq!(parsed_game2.id, 98);
    assert_eq!(parsed_game3.id, 9);
}

#[test]
fn test_valid_game_id() {
    let parsed_game1 = parse_game(GAME1);
    let parsed_game2 = parse_game(GAME2);
    let parsed_game3 = parse_game(GAME3);
    assert_eq!(game_valid(&parsed_game1, 12, 13, 14), None);
    assert_eq!(game_valid(&parsed_game1, 12, 16, 14), Some(97));
    assert_eq!(game_valid(&parsed_game2, 3, 13, 14), None);
    assert_eq!(game_valid(&parsed_game2, 4, 13, 14), Some(98));
    assert_eq!(game_valid(&parsed_game3, 12, 13, 1), None);
    assert_eq!(game_valid(&parsed_game3, 12, 13, 14), Some(9));
}

#[test]
fn test_game_power() {
    let parsed_game1 = parse_game(GAME1);
    let parsed_game2 = parse_game(GAME2);
    let parsed_game3 = parse_game(GAME3);
    assert_eq!(calculate_game_power(&parsed_game1), 120);
    assert_eq!(calculate_game_power(&parsed_game2), 52);
    assert_eq!(calculate_game_power(&parsed_game3), 44);
}

#[test]
fn game_is_read_reveal_by_reveal() {
    let game = parse_game(GAME1);
    assert_eq!(
        game.reveals,
        vec![
            showing(Some(5), Some(2), None),
            showing(Some(8), None, None),
            showing(Some(2), Some(7), Some(1)),
            showing(Some(7), Some(15), None),
        ]
    );
}

#[test]
fn reveal_is_read_entry_by_entry() {
    assert_eq!(parse_reveal(" 3 blue, 4 red"), showing(Some(4), None, Some(3)));
    assert_eq!(parse_reveal(" 1 red, 2 green, 6 blue"), showing(Some(1), Some(2), Some(6)));
    assert_eq!(parse_reveal(" 2 green"), showing(None, Some(2), None));
    assert_eq!(parse_reveal(" 255 red"), showing(Some(255), None, None));
    assert_eq!(parse_reveal(" 0 red"), showing(Some(0), None, None));
}

#[test]
fn reveal_without_colours_says_nothing() {
    assert_eq!(parse_reveal(""), showing(None, None, None));
    assert_eq!(parse_reveal(" 3 yellow, 4 pink"), showing(None, None, None));
    assert_eq!(parse_reveal(",,"), showing(None, None, None));
}

#[test]
fn later_entry_of_a_colour_replaces_the_earlier() {
    assert_eq!(parse_reveal(" 1 red, 2 red"), showing(Some(2), None, None));
    assert_eq!(parse_reveal(" 9 blue, 1 green, 3 blue"), showing(None, Some(1), Some(3)));
}

#[test]
fn count_stands_between_the_first_byte_and_the_byte_before_the_name() {
    assert_eq!(parse_reveal("12 red"), showing(Some(2), None, None));
    assert_eq!(parse_reveal("x7-blue"), showing(None, None, Some(7)));
    assert_eq!(parse_reveal(" +7 green"), showing(None, Some(7), None));
    assert_eq!(parse_reveal(" 007 green"), showing(None, Some(7), None));
    assert_eq!(parse_reveal(" 5 redred"), showing(Some(5), None, None));
}

#[test]
fn entry_reading_tells_the_three_cases_apart() {
    assert_eq!(read_entry(b" 3 blue", Colour::Blue), Reading::Count(3));
    assert_eq!(read_entry(b" 3 blue", Colour::Red), Reading::Unnamed);
    assert_eq!(read_entry(b" 3 blue", Colour::Green), Reading::Unnamed);
    assert_eq!(read_entry(b" 14 green", Colour::Green), Reading::Count(14));
    assert_eq!(read_entry(b" 2 red", Colour::Red), Reading::Count(2));
    assert_eq!(read_entry(b"blue", Colour::Blue), Reading::Unreadable);
    assert_eq!(read_entry(b" blue", Colour::Blue), Reading::Unreadable);
    assert_eq!(read_entry(b"  blue", Colour::Blue), Reading::Unreadable);
    assert_eq!(read_entry(b" 3blue", Colour::Blue), Reading::Unreadable);
    assert_eq!(read_entry(b" 256 blue", Colour::Blue), Reading::Unreadable);
    assert_eq!(read_entry(b" three blue", Colour::Blue), Reading::Unreadable);
    assert_eq!(read_entry(b" 3  blue", Colour::Blue), Reading::Unreadable);
    assert_eq!(read_entry(b" -3 blue", Colour::Blue), Reading::Unreadable);
    assert_eq!(read_entry(b"", Colour::Blue), Reading::Unnamed);
    assert_eq!(read_entry(b" 3 Blue", Colour::Blue), Reading::Unnamed);
}

#[test]
fn malformed_reveal_is_refused() {
    assert_eq!(read_reveal(b" 3 blue, red"), None);
    assert_eq!(read_reveal(b" 300 blue"), None);
    assert_eq!(read_reveal(b" 3 bluered"), None);
    assert_eq!(read_reveal(b" 1 red, 2 green, x blue"), None);
    assert_eq!(read_reveal("é3 red".as_bytes()), None);
    assert_eq!(read_reveal(" 3éred".as_bytes()), None);
    assert_eq!(read_reveal(b" 3 blue, 4 red"), Some(showing(Some(4), None, Some(3))));
}

#[test]
fn malformed_game_is_refused() {
    assert!(read_game(b"").is_none());
    assert!(read_game(b"Game 1").is_none());
    assert!(read_game(b"Game : 1 red").is_none());
    assert!(read_game(b"Game x: 1 red").is_none());
    assert!(read_game(b"G 1: 1 red").is_none());
    assert!(read_game(b"1: 1 red").is_none());
    assert!(read_game(b"Game 4294967296: 1 red").is_none());
    assert!(read_game(b"Game 1: 1 red; blue").is_none());
    assert!(read_game(b"Game 1 : 1 red").is_none());
    assert!(read_game("éééé 12: 1 red".as_bytes()).is_none());
    assert!(read_game(GAME1.as_bytes()).is_some());
}

#[test]
fn heading_is_five_bytes_of_anything() {
    assert_eq!(parse_game("abcde12: 1 red").id, 12);
    assert_eq!(parse_game("Game +7: 1 red").id, 7);
    assert_eq!(parse_game("Game 007: 1 red").id, 7);
    assert_eq!(parse_game("Game 4294967295: 1 red").id, u32::MAX);
    assert_eq!(parse_game("Gaé12: 3 red").id, 2);
}

#[test]
fn number_ends_at_the_first_colon() {
    let game = parse_game("Game 5: 1 red; 2 green:");
    assert_eq!(game.id, 5);
    assert_eq!(game.reveals, vec![showing(Some(1), None, None), showing(None, Some(2), None)]);
    assert!(read_game(b"Game 5: 1 red; 2 green: 3 blue").is_none());
}

#[test]
fn game_without_reveals_has_one_empty_reveal() {
    let game = parse_game("Game 1:");
    assert_eq!(game.id, 1);
    assert_eq!(game.reveals, vec![showing(None, None, None)]);
    assert_eq!(game_valid(&game, 0, 0, 0), Some(1));
    assert_eq!(calculate_game_power(&game), 0);
}

#[test]
fn game_is_valid_when_every_count_fits() {
    let game = Game { id: 3, reveals: vec![showing(Some(4), None, Some(6)), showing(None, Some(5), Some(2))] };
    assert_eq!(game_valid(&game, 4, 5, 6), Some(3));
    assert_eq!(game_valid(&game, 3, 5, 6), None);
    assert_eq!(game_valid(&game, 4, 4, 6), None);
    assert_eq!(game_valid(&game, 4, 5, 5), None);
    assert_eq!(game_valid(&game, 255, 255, 255), Some(3));
    let none = Game { id: 8, reveals: Vec::new() };
    assert_eq!(game_valid(&none, 0, 0, 0), Some(8));
}

#[test]
fn power_is_the_product_of_the_largest_counts() {
    let game = Game { id: 3, reveals: vec![showing(Some(4), None, Some(6)), showing(Some(1), Some(5), Some(2))] };
    assert_eq!(calculate_game_power(&game), 4 * 5 * 6);
    let no_green = Game { id: 3, reveals: vec![showing(Some(4), None, Some(6))] };
    assert_eq!(calculate_game_power(&no_green), 0);
    let none = Game { id: 8, reveals: Vec::new() };
    assert_eq!(calculate_game_power(&none), 0);
    let most = Game { id: 1, reveals: vec![showing(Some(255), Some(255), Some(255))] };
    assert_eq!(calculate_game_power(&most), 16_581_375);
}

#[test]
fn largest_counts_are_the_fewest_cubes_that_make_the_game_valid() {
    let game = parse_game(GAME3);
    assert_eq!(game_valid(&game, 11, 2, 2), Some(9));
    assert_eq!(game_valid(&game, 10, 2, 2), None);
    assert_eq!(game_valid(&game, 11, 1, 2), None);
    assert_eq!(game_valid(&game, 11, 2, 1), None);
    assert_eq!(calculate_game_power(&game), 11 * 2 * 2);
}
