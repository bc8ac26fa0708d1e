use puzzles::text::{find, find_from, split_on, starts_with_at};

#[test]
fn word_stands_where_its_bytes_stand() {
    assert!(starts_with_at(b"abcabc", 0, b"abc"));
    assert!(starts_with_at(b"abcabc", 3, b"abc"));
    assert!(!starts_with_at(b"abcabc", 1, b"abc"));
    assert!(!starts_with_at(b"abcabc", 4, b"abc"));
    assert!(!starts_with_at(b"abcabc", 6, b"a"));
    assert!(!starts_with_at(b"abcabc", 7, b""));
    assert!(starts_with_at(b"abcabc", 6, b""));
    assert!(starts_with_at(b"", 0, b""));
    assert!(!starts_with_at(b"ab", 0, b"abc"));
    assert!(!starts_with_at(b"ab", usize::MAX, b"ab"));
}

#[test]
fn find_gives_the_first_place() {
    assert_eq!(find(b"a red and a red", b"red"), Some(2));
    assert_eq!(find(b"red", b"red"), Some(0));
    assert_eq!(find(b"re", b"red"), None);
    assert_eq!(find(b"", b"red"), None);
    assert_eq!(find(b"rered", b"red"), Some(2));
    assert_eq!(find(b"aaab", b"aab"), Some(1));
    assert_eq!(find(b"abc", b""), Some(0));
    assert_eq!(find(b"", b""), Some(0));
}

#[test]
fn find_from_skips_what_lies_before() {
    assert_eq!(find_from(b"a red and a red", b"red", 2), Some(2));
    assert_eq!(find_from(b"a red and a red", b"red", 3), Some(12));
    assert_eq!(find_from(b"a red and a red", b"red", 13), None);
    assert_eq!(find_from(b"a red and a red", b"red", 100), None);
    assert_eq!(find_from(b"abc", b"", 3), Some(3));
    assert_eq!(find_from(b"abc", b"", 4), None);
}

#[test]
fn find_agrees_with_the_standard_search() {
    let texts = ["", "a", "green", " 3 green", "gre green", "bluegreenred", "grgrgreen", "日本green"];
    let words = ["red", "green", "blue", ":", "gr", "n"];
    for text in texts {
        for word in words {
            assert_eq!(find(text.as_bytes(), word.as_bytes()), text.find(word), "{:?} {:?}", text, word);
        }
    }
}

#[test]
fn split_cuts_at_every_separator() {
    assert_eq!(split_on(b"a,b,c", b','), vec![&b"a"[..], &b"b"[..], &b"c"[..]]);
    assert_eq!(split_on(b"abc", b','), vec![&b"abc"[..]]);
    assert_eq!(split_on(b"", b','), vec![&b""[..]]);
    assert_eq!(split_on(b",", b','), vec![&b""[..], &b""[..]]);
    assert_eq!(split_on(b",a,", b','), vec![&b""[..], &b"a"[..], &b""[..]]);
    assert_eq!(split_on(b"a,,b", b','), vec![&b"a"[..], &b""[..], &b"b"[..]]);
}

#[test]
fn split_agrees_with_the_standard_split() {
    let texts = ["", ";", ";;", "a;b", " 1 red; 2 blue;", ";x", "no separator", "é;日本;"];
    for text in texts {
        let pieces = split_on(text.as_bytes(), b';');
        let expected: Vec<&[u8]> = text.split(';').map(|piece| piece.as_bytes()).collect();
        assert_eq!(pieces, expected, "{:?}", text);
    }
}
