use catan_board::board::{default_hexes, pip_count, tile_pips, Hex, Resource};

#[test]
fn pip_count_edge_values() {
    assert_eq!(pip_count(2), 1);
    assert_eq!(pip_count(12), 1);
    assert_eq!(pip_count(3), 2);
    assert_eq!(pip_count(11), 2);
    assert_eq!(pip_count(4), 3);
    assert_eq!(pip_count(10), 3);
    assert_eq!(pip_count(5), 4);
    assert_eq!(pip_count(9), 4);
    assert_eq!(pip_count(6), 5);
    assert_eq!(pip_count(8), 5);
}

#[test]
fn pip_count_formula() {
    for n in 2u8..=12 {
        if n == 7 {
            continue;
        }
        let expected = (6 - (n as i32 - 7).abs()) as u8;
        assert_eq!(pip_count(n), expected);
    }
}

#[test]
fn tile_pips_desert_is_zero() {
    let desert = Hex { id: 10, q: 0, r: 0, res: Resource::Desert, num: None };
    assert_eq!(tile_pips(&desert), 0);
    let ore = Hex { id: 1, q: 0, r: -2, res: Resource::Ore, num: Some(10) };
    assert_eq!(tile_pips(&ore), 3);
}

#[test]
fn default_board_shape() {
    let hexes = default_hexes();
    assert_eq!(hexes.len(), 19);
    for (i, h) in hexes.iter().enumerate() {
        assert_eq!(h.id as usize, i + 1);
        if h.res == Resource::Desert {
            assert!(h.num.is_none());
        } else {
            let n = h.num.unwrap();
            assert!((2..=12).contains(&n) && n != 7);
        }
    }
    assert_eq!(hexes[0].res, Resource::Ore);
    assert_eq!(hexes[0].num, Some(10));
    assert_eq!(hexes[0].q, 0);
    assert_eq!(hexes[0].r, -2);
    assert_eq!(hexes[9].res, Resource::Desert);
    assert_eq!(hexes[9].num, None);
    assert_eq!(hexes[9].q, 0);
    assert_eq!(hexes[9].r, 0);
    assert_eq!(hexes[18].res, Resource::Sheep);
    assert_eq!(hexes[18].num, Some(11));
    assert_eq!(hexes[18].q, 0);
    assert_eq!(hexes[18].r, 2);
}

#[test]
fn default_board_total_pips() {
    let hexes = default_hexes();
    let total: u32 = hexes.iter().map(|h| tile_pips(h) as u32).sum();
    assert_eq!(total, 58);
}
