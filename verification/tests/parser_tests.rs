use catan_board::board::{default_hexes, Resource};
use catan_board::parser::{parse_import, InputHexParseError};

const DEFAULT_TEXT: &str = "ore 10, sheep 2, wood 9, wheat 12, brick 6, sheep 4, brick 10, \
wheat 9, wood 11, desert, wood 3, ore 8, wood 8, ore 3, wheat 4, sheep 5, brick 5, wheat 6, \
sheep 11";

#[test]
fn parse_default_board_text() {
    let parsed = parse_import(DEFAULT_TEXT).unwrap();
    let expected = default_hexes();
    assert_eq!(parsed, expected);
}

#[test]
fn parse_rejects_18_entries() {
    let text = "ore 10, sheep 2, wood 9, wheat 12, brick 6, sheep 4, brick 10, wheat 9, \
wood 11, desert, wood 3, ore 8, wood 8, ore 3, wheat 4, sheep 5, brick 5, wheat 6";
    let err = parse_import(text).unwrap_err();
    assert_eq!(err, InputHexParseError::InvalidInputLength);
}

#[test]
fn parse_rejects_20_entries() {
    let text = "ore 10, sheep 2, wood 9, wheat 12, brick 6, sheep 4, brick 10, wheat 9, \
wood 11, desert, wood 3, ore 8, wood 8, ore 3, wheat 4, sheep 5, brick 5, wheat 6, sheep 11, ore 4";
    let err = parse_import(text).unwrap_err();
    assert_eq!(err, InputHexParseError::InvalidInputLength);
}

#[test]
fn parse_rejects_unknown_resource() {
    let text = "lava 5, sheep 2, wood 9, wheat 12, brick 6, sheep 4, brick 10, wheat 9, \
wood 11, desert, wood 3, ore 8, wood 8, ore 3, wheat 4, sheep 5, brick 5, wheat 6, sheep 11";
    let err = parse_import(text).unwrap_err();
    assert_eq!(err, InputHexParseError::InvalidResource("lava".to_string()));
}

#[test]
fn parse_rejects_seven() {
    let text = "ore 7, sheep 2, wood 9, wheat 12, brick 6, sheep 4, brick 10, wheat 9, \
wood 11, desert, wood 3, ore 8, wood 8, ore 3, wheat 4, sheep 5, brick 5, wheat 6, sheep 11";
    let err = parse_import(text).unwrap_err();
    assert_eq!(err, InputHexParseError::InvalidNumber(7));
}

#[test]
fn parse_rejects_out_of_range_numbers() {
    let low = "ore 1, sheep 2, wood 9, wheat 12, brick 6, sheep 4, brick 10, wheat 9, \
wood 11, desert, wood 3, ore 8, wood 8, ore 3, wheat 4, sheep 5, brick 5, wheat 6, sheep 11";
    assert_eq!(parse_import(low).unwrap_err(), InputHexParseError::InvalidNumber(1));
    let high = "ore 13, sheep 2, wood 9, wheat 12, brick 6, sheep 4, brick 10, wheat 9, \
wood 11, desert, wood 3, ore 8, wood 8, ore 3, wheat 4, sheep 5, brick 5, wheat 6, sheep 11";
    assert_eq!(parse_import(high).unwrap_err(), InputHexParseError::InvalidNumber(13));
}

#[test]
fn parse_rejects_malformed_entries() {
    // a lone non-desert token
    let text = "wood, sheep 2, wood 9, wheat 12, brick 6, sheep 4, brick 10, wheat 9, \
wood 11, desert, wood 3, ore 8, wood 8, ore 3, wheat 4, sheep 5, brick 5, wheat 6, sheep 11";
    assert_eq!(
        parse_import(text).unwrap_err(),
        InputHexParseError::InvalidFormat(1, "wood".to_string())
    );
    // three tokens
    let text = "ore 10, sheep 2 2, wood 9, wheat 12, brick 6, sheep 4, brick 10, wheat 9, \
wood 11, desert, wood 3, ore 8, wood 8, ore 3, wheat 4, sheep 5, brick 5, wheat 6, sheep 11";
    assert_eq!(
        parse_import(text).unwrap_err(),
        InputHexParseError::InvalidFormat(2, "sheep 2 2".to_string())
    );
    // a number that is not an integer
    let text = "ore 10, sheep x, wood 9, wheat 12, brick 6, sheep 4, brick 10, wheat 9, \
wood 11, desert, wood 3, ore 8, wood 8, ore 3, wheat 4, sheep 5, brick 5, wheat 6, sheep 11";
    assert_eq!(
        parse_import(text).unwrap_err(),
        InputHexParseError::InvalidFormat(2, "sheep x".to_string())
    );
    // a number too large for u8
    let text = "ore 10, sheep 300, wood 9, wheat 12, brick 6, sheep 4, brick 10, wheat 9, \
wood 11, desert, wood 3, ore 8, wood 8, ore 3, wheat 4, sheep 5, brick 5, wheat 6, sheep 11";
    assert_eq!(
        parse_import(text).unwrap_err(),
        InputHexParseError::InvalidFormat(2, "sheep 300".to_string())
    );
}

#[test]
fn parse_is_case_insensitive() {
    let text = "ORE 10, Sheep 2, wood 9, WHEAT 12, brick 6, sheep 4, brick 10, wheat 9, \
wood 11, DeSeRt, wood 3, ore 8, wood 8, ore 3, wheat 4, sheep 5, brick 5, wheat 6, sheep 11";
    let parsed = parse_import(text).unwrap();
    assert_eq!(parsed, default_hexes());
}

#[test]
fn parse_lowercases_unknown_resource_in_error() {
    let text = "LAVA 5, sheep 2, wood 9, wheat 12, brick 6, sheep 4, brick 10, wheat 9, \
wood 11, desert, wood 3, ore 8, wood 8, ore 3, wheat 4, sheep 5, brick 5, wheat 6, sheep 11";
    let err = parse_import(text).unwrap_err();
    assert_eq!(err, InputHexParseError::InvalidResource("lava".to_string()));
}

#[test]
fn parse_accepts_extra_whitespace() {
    let text = "  ore   10 ,\tsheep 2, wood 9, wheat 12, brick 6, sheep 4, brick 10, wheat 9, \
wood 11,  desert , wood 3, ore 8, wood 8, ore 3, wheat 4, sheep 5, brick 5, wheat 6, sheep 11  ";
    let parsed = parse_import(text).unwrap();
    assert_eq!(parsed, default_hexes());
}

#[test]
fn parse_accepts_leading_plus_number() {
    let text = "ore +10, sheep 2, wood 9, wheat 12, brick 6, sheep 4, brick 10, wheat 9, \
wood 11, desert, wood 3, ore 8, wood 8, ore 3, wheat 4, sheep 5, brick 5, wheat 6, sheep 11";
    let parsed = parse_import(text).unwrap();
    assert_eq!(parsed, default_hexes());
}

#[test]
fn parse_allows_desert_with_number() {
    let text = "ore 10, sheep 2, wood 9, wheat 12, brick 6, sheep 4, brick 10, wheat 9, \
wood 11, desert 5, wood 3, ore 8, wood 8, ore 3, wheat 4, sheep 5, brick 5, wheat 6, sheep 11";
    let parsed = parse_import(text).unwrap();
    assert_eq!(parsed[9].res, Resource::Desert);
    assert_eq!(parsed[9].num, Some(5));
}

#[test]
fn error_messages() {
    assert_eq!(
        InputHexParseError::InvalidResource("lava".to_string()).message(),
        "resource with name 'lava' doesn't exist."
    );
    assert_eq!(InputHexParseError::InvalidNumber(7).message(), "number '7' is invalid.");
    assert_eq!(
        InputHexParseError::InvalidFormat(3, "sheep x".to_string()).message(),
        "invalid hex format at tile 3: 'sheep x'"
    );
    assert_eq!(
        InputHexParseError::InvalidInputLength.message(),
        "board must have exactly 19 tiles."
    );
}
