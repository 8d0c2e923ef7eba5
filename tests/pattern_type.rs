use grep_bin::pattern::{strip, PatternError, PatternType};

#[test]
fn test_trim_backslash() {
    assert_eq!(
        PatternType::from("\"backslash\""),
        PatternType::Str("backslash".to_string())
    )
}

#[test]
fn test_trim_backslash_with_quotes() {
    assert_eq!(
        PatternType::from("\"\\\"backslash with quote\\\"\""),
        PatternType::Str("\"backslash with quote\"".to_string())
    )
}

#[test]
fn test_strip() {
    assert_eq!(strip("\"\"remove only one quote\"\"", '"'), "\"remove only one quote\"")
}

#[test]
fn test_is_hex() {
    assert_eq!(PatternType::from("eeffgg"), PatternType::HexStr("eeffgg".to_string()))
}

#[test]
fn single_quote_is_an_empty_string() {
    assert_eq!(PatternType::from("\""), PatternType::Str(String::new()));
}

#[test]
fn strip_without_leading_char_keeps_text() {
    assert_eq!(strip("abc\"", '"'), "abc\"");
    assert_eq!(strip("\"abc", '"'), "abc");
}

#[test]
fn hex_digits_decode_to_bytes() {
    let p = PatternType::from("f9B4Ca");
    assert_eq!(p.to_bytes(), Ok(vec![0xF9, 0xB4, 0xCA]));
}

#[test]
fn string_pattern_gives_its_bytes() {
    let p = PatternType::from("\"hi\"");
    assert_eq!(p.to_bytes(), Ok(b"hi".to_vec()));
}

#[test]
fn odd_number_of_hex_digits_is_refused() {
    assert_eq!(PatternType::from("abc").to_bytes(), Err(PatternError::OddLength));
}

#[test]
fn first_non_hex_character_is_reported() {
    assert_eq!(
        PatternType::from("eeffgg").to_bytes(),
        Err(PatternError::InvalidHexCharacter { c: 'g', index: 4 })
    );
    assert_eq!(
        PatternType::from("0z").to_bytes(),
        Err(PatternError::InvalidHexCharacter { c: 'z', index: 1 })
    );
}
