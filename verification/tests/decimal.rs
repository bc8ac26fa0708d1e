use puzzles::decimal::{byte_is_numeral, read_unsigned};

#[test]
fn reads_plain_numbers() {
    assert_eq!(read_unsigned(b"0", 255), Some(0));
    assert_eq!(read_unsigned(b"7", 255), Some(7));
    assert_eq!(read_unsigned(b"15", 255), Some(15));
    assert_eq!(read_unsigned(b"255", 255), Some(255));
    assert_eq!(read_unsigned(b"1234567890", u32::MAX), Some(1234567890));
}

#[test]
fn reads_up_to_the_limit_and_no_further() {
    assert_eq!(read_unsigned(b"256", 255), None);
    assert_eq!(read_unsigned(b"1000", 255), None);
    assert_eq!(read_unsigned(b"4294967295", u32::MAX), Some(u32::MAX));
    assert_eq!(read_unsigned(b"4294967296", u32::MAX), None);
    assert_eq!(read_unsigned(b"99999999999999999999999999", u32::MAX), None);
    assert_eq!(read_unsigned(b"1", 0), None);
    assert_eq!(read_unsigned(b"0", 0), Some(0));
}

#[test]
fn takes_a_leading_plus_and_leading_zeros() {
    assert_eq!(read_unsigned(b"+7", 255), Some(7));
    assert_eq!(read_unsigned(b"007", 255), Some(7));
    assert_eq!(read_unsigned(b"+000255", 255), Some(255));
    assert_eq!(read_unsigned(b"00000000000000000000000000000012", 255), Some(12));
}

#[test]
fn refuses_what_is_no_number() {
    assert_eq!(read_unsigned(b"", 255), None);
    assert_eq!(read_unsigned(b"+", 255), None);
    assert_eq!(read_unsigned(b"-", 255), None);
    assert_eq!(read_unsigned(b"-1", 255), None);
    assert_eq!(read_unsigned(b"++1", 255), None);
    assert_eq!(read_unsigned(b"1+", 255), None);
    assert_eq!(read_unsigned(b" 1", 255), None);
    assert_eq!(read_unsigned(b"1 ", 255), None);
    assert_eq!(read_unsigned(b"1a", 255), None);
    assert_eq!(read_unsigned(b"a1", 255), None);
    assert_eq!(read_unsigned(b"1.0", 255), None);
    assert_eq!(read_unsigned("٣".as_bytes(), 255), None);
    assert_eq!(read_unsigned(b"256a", 255), None);
}

#[test]
fn agrees_with_the_standard_parsers() {
    let texts = [
        "", "+", "-", "0", "1", "9", "10", "99", "100", "255", "256", "999", "+0", "+255", "+256",
        "-0", "-1", "0255", "00256", "65535", "65536", "4294967295", "4294967296", "+4294967295",
        "42949672950", "18446744073709551616", " 5", "5 ", "5,", "five", "1e3", "0x10", "１２",
    ];
    for text in texts {
        let small = read_unsigned(text.as_bytes(), 255).map(|number| number as u8);
        assert_eq!(small, text.parse::<u8>().ok(), "{:?}", text);
        let large = read_unsigned(text.as_bytes(), u32::MAX);
        assert_eq!(large, text.parse::<u32>().ok(), "{:?}", text);
    }
    for number in 0..=300u32 {
        let text = format!("{}", number);
        let small = read_unsigned(text.as_bytes(), 255).map(|number| number as u8);
        assert_eq!(small, text.parse::<u8>().ok());
    }
}

#[test]
fn tells_numerals_from_other_bytes() {
    for byte in 0..=255u8 {
        assert_eq!(byte_is_numeral(byte), byte.is_ascii_digit());
    }
}
