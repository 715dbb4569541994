use catan_board::board::default_hexes;
use catan_board::format::{dec_u64, format_layout};
use catan_board::parser::parse_import;

#[test]
fn decimal_rendering() {
    assert_eq!(dec_u64(0), "0");
    assert_eq!(dec_u64(7), "7");
    assert_eq!(dec_u64(10), "10");
    assert_eq!(dec_u64(255), "255");
    assert_eq!(dec_u64(1000), "1000");
}

#[test]
fn format_default_board() {
    let hexes = default_hexes();
    let text = format_layout(&hexes);
    assert_eq!(
        text,
        "ore 10, sheep 2, wood 9, wheat 12, brick 6, sheep 4, brick 10, wheat 9, wood 11, \
desert, wood 3, ore 8, wood 8, ore 3, wheat 4, sheep 5, brick 5, wheat 6, sheep 11"
    );
}

#[test]
fn round_trip_default_board() {
    let hexes = default_hexes();
    let text = format_layout(&hexes);
    let reparsed = parse_import(&text).unwrap();
    assert_eq!(reparsed, hexes);
}

#[test]
fn round_trip_modified_board() {
    let mut hexes = default_hexes();
    // swap the resources and numbers of two slots; coordinates stay put
    let (r0, n0) = (hexes[0].res, hexes[0].num);
    let (r5, n5) = (hexes[5].res, hexes[5].num);
    hexes[0].res = r5;
    hexes[0].num = n5;
    hexes[5].res = r0;
    hexes[5].num = n0;
    let text = format_layout(&hexes);
    let reparsed = parse_import(&text).unwrap();
    assert_eq!(reparsed, hexes);
}
