use catan_board::board::default_hexes;
use catan_board::geometry::{axial_to_plane, hex_corners};
use catan_board::intersections::compute_intersections;

#[test]
fn default_board_has_54_intersections() {
    let hexes = default_hexes();
    let inters = compute_intersections(&hexes);
    assert_eq!(inters.len(), 54);
}

#[test]
fn intersection_values_sum_to_six_times_pips() {
    // every tile contributes its pips once per corner, and a tile has
    // six corners: 6 * 58 for the default board
    let hexes = default_hexes();
    let inters = compute_intersections(&hexes);
    let sum: u32 = inters.iter().map(|i| i.value).sum();
    assert_eq!(sum, 6 * 58);
}

#[test]
fn intersection_positions_are_distinct() {
    let hexes = default_hexes();
    let inters = compute_intersections(&hexes);
    for a in 0..inters.len() {
        for b in (a + 1)..inters.len() {
            assert!(inters[a].pos != inters[b].pos);
        }
    }
}

#[test]
fn adjacent_tiles_share_two_corners() {
    // tiles 1 and 2 of the template are neighbours: their hexagons
    // share exactly one edge, so exactly two corner positions coincide
    let c1 = hex_corners(axial_to_plane(0, -2));
    let c2 = hex_corners(axial_to_plane(1, -2));
    let mut shared = 0;
    for p in &c1 {
        if c2.iter().any(|q| q == p) {
            shared += 1;
        }
    }
    assert_eq!(shared, 2);
}

#[test]
fn coincident_corners_merge_into_one_intersection() {
    let hexes = default_hexes();
    let inters = compute_intersections(&hexes);
    // a corner shared by tiles 1 and 2 appears exactly once
    let c1 = hex_corners(axial_to_plane(0, -2));
    let c2 = hex_corners(axial_to_plane(1, -2));
    let shared: Vec<_> = c1.iter().filter(|p| c2.contains(p)).collect();
    assert_eq!(shared.len(), 2);
    for p in shared {
        let count = inters.iter().filter(|i| i.pos == *p).count();
        assert_eq!(count, 1);
    }
}

#[test]
fn corner_values_bounded_by_three_tiles() {
    // at most three tiles meet at a vertex, each contributing at most 5
    let hexes = default_hexes();
    let inters = compute_intersections(&hexes);
    for i in &inters {
        assert!(i.value <= 15);
    }
}
