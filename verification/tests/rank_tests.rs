use catan_board::board::default_hexes;
use catan_board::geometry::Position;
use catan_board::intersections::{compute_intersections, Intersection};
use catan_board::rank::{rank_intersections, rank_tier};

fn inter(u: i64, v: i64, value: u32) -> Intersection {
    Intersection { pos: Position { u, v }, value }
}

#[test]
fn rank_picks_top_three_distinct_values() {
    let inters = vec![
        inter(0, 0, 5),
        inter(1, 0, 5),
        inter(2, 0, 3),
        inter(3, 0, 2),
        inter(4, 0, 2),
        inter(5, 0, 1),
    ];
    let top = rank_intersections(&inters);
    assert_eq!(top, vec![5, 3, 2]);
}

#[test]
fn rank_never_returns_more_than_three() {
    let inters = vec![
        inter(0, 0, 9),
        inter(1, 0, 7),
        inter(2, 0, 5),
        inter(3, 0, 3),
        inter(4, 0, 1),
    ];
    let top = rank_intersections(&inters);
    assert_eq!(top.len(), 3);
    assert_eq!(top, vec![9, 7, 5]);
}

#[test]
fn rank_with_fewer_distinct_values() {
    assert_eq!(rank_intersections(&vec![]), Vec::<u32>::new());
    assert_eq!(rank_intersections(&vec![inter(0, 0, 4), inter(1, 0, 4)]), vec![4]);
    assert_eq!(rank_intersections(&vec![inter(0, 0, 4), inter(1, 0, 6)]), vec![6, 4]);
}

#[test]
fn tiers_follow_top_values() {
    let top = vec![5, 3, 2];
    assert_eq!(rank_tier(5, &top), Some(0));
    assert_eq!(rank_tier(3, &top), Some(1));
    assert_eq!(rank_tier(2, &top), Some(2));
    assert_eq!(rank_tier(1, &top), None);
    assert_eq!(rank_tier(4, &top), None);
}

#[test]
fn ties_share_a_tier() {
    let inters = vec![inter(0, 0, 5), inter(1, 0, 5), inter(2, 0, 3)];
    let top = rank_intersections(&inters);
    let t0 = rank_tier(inters[0].value, &top);
    let t1 = rank_tier(inters[1].value, &top);
    assert_eq!(t0, t1);
    assert_eq!(t0, Some(0));
}

#[test]
fn default_board_tiers() {
    let hexes = default_hexes();
    let inters = compute_intersections(&hexes);
    let top = rank_intersections(&inters);
    assert!(top.len() <= 3);
    for w in top.windows(2) {
        assert!(w[0] > w[1]);
    }
    // every intersection whose value is listed gets the matching tier
    for i in &inters {
        match rank_tier(i.value, &top) {
            Some(k) => assert_eq!(top[k], i.value),
            None => assert!(top.iter().all(|&v| v != i.value)),
        }
    }
}
