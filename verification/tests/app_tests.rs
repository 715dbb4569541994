use catan_board::app_state::CatanApp;
use catan_board::board::{default_hexes, Resource};

const DEFAULT_TEXT: &str = "ore 10, sheep 2, wood 9, wheat 12, brick 6, sheep 4, brick 10, \
wheat 9, wood 11, desert, wood 3, ore 8, wood 8, ore 3, wheat 4, sheep 5, brick 5, wheat 6, \
sheep 11";

#[test]
fn new_app_uses_default_layout() {
    let app = CatanApp::new();
    assert_eq!(app.hexes, default_hexes());
    assert_eq!(app.selected_hex, 0);
    assert_eq!(app.import_text, "");
    assert!(app.import_error.is_none());
    assert!(app.board_ok());
}

#[test]
fn apply_import_replaces_layout_on_success() {
    let mut app = CatanApp::new();
    app.selected_hex = 7;
    app.import_text = "wood 2, sheep 2, wood 9, wheat 12, brick 6, sheep 4, brick 10, wheat 9, \
wood 11, desert, wood 3, ore 8, wood 8, ore 3, wheat 4, sheep 5, brick 5, wheat 6, sheep 11"
        .to_string();
    app.apply_import();
    assert_eq!(app.hexes[0].res, Resource::Wood);
    assert_eq!(app.hexes[0].num, Some(2));
    assert_eq!(app.selected_hex, 0);
    assert!(app.import_error.is_none());
    assert!(app.board_ok());
}

#[test]
fn apply_import_keeps_layout_on_failure() {
    let mut app = CatanApp::new();
    app.selected_hex = 3;
    app.import_text = "ore 7, sheep 2".to_string();
    app.apply_import();
    assert_eq!(app.hexes, default_hexes());
    assert_eq!(app.selected_hex, 3);
    assert_eq!(app.import_error.as_deref(), Some("board must have exactly 19 tiles."));
    app.import_text = DEFAULT_TEXT.replace("ore 10", "ore 7");
    app.apply_import();
    assert_eq!(app.hexes, default_hexes());
    assert_eq!(app.import_error.as_deref(), Some("number '7' is invalid."));
}

#[test]
fn set_resource_rules() {
    let mut app = CatanApp::new();
    // turning a numbered tile into desert clears its number
    app.set_resource(0, Resource::Desert);
    assert_eq!(app.hexes[0].res, Resource::Desert);
    assert_eq!(app.hexes[0].num, None);
    // leaving desert gives the fallback number 6
    app.set_resource(0, Resource::Wheat);
    assert_eq!(app.hexes[0].res, Resource::Wheat);
    assert_eq!(app.hexes[0].num, Some(6));
    // a non-desert change keeps the number
    app.set_resource(1, Resource::Ore);
    assert_eq!(app.hexes[1].num, Some(2));
    assert!(app.board_ok());
}

#[test]
fn set_number_rules() {
    let mut app = CatanApp::new();
    app.set_number(0, 4);
    assert_eq!(app.hexes[0].num, Some(4));
    // 7 is never stored; it falls back to 6
    app.set_number(0, 7);
    assert_eq!(app.hexes[0].num, Some(6));
    // the desert slot never takes a number
    app.set_number(9, 5);
    assert_eq!(app.hexes[9].num, None);
    assert!(app.board_ok());
}

#[test]
fn intersections_from_app_state() {
    let app = CatanApp::new();
    assert!(app.board_ok());
    let inters = app.intersections();
    assert_eq!(inters.len(), 54);
}
