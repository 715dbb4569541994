//! Tiles, the fixed board template, and the production ("pip") model.
//!
//! A board is always exactly 19 tiles in slot order 1..=19; each slot's
//! axial coordinates `(q, r)` are fixed by the standard template and do
//! not depend on the resource or number assigned to the slot.

use vstd::prelude::*;

verus! {

use vstd::math::abs;

/// The six tile kinds: five production resources plus the no-production
/// desert.
#[derive(Clone, Copy, Debug, PartialEq, Eq, Structural)]
pub enum Resource {
    Wood,
    Brick,
    Sheep,
    Wheat,
    Ore,
    Desert,
}

/// One board tile: a 1-based slot id, fixed axial coordinates, a
/// resource kind and an optional number token (2..=12 without 7;
/// absent exactly for desert tiles).
#[derive(Clone, Copy, Debug, PartialEq)]
pub struct Hex {
    pub id: u8,
    pub q: i32,
    pub r: i32,
    pub res: Resource,
    pub num: Option<u8>,
}

/// Axial `q` coordinate of template slot `i` (0-based).
pub open spec fn template_q(i: int) -> int {
    seq![0int, 1, 2, -1, 0, 1, 2, -2, -1, 0, 1, 2, -2, -1, 0, 1, -2, -1, 0][i]
}

/// Axial `r` coordinate of template slot `i` (0-based).
pub open spec fn template_r(i: int) -> int {
    seq![-2int, -2, -2, -1, -1, -1, -1, 0, 0, 0, 0, 0, 1, 1, 1, 1, 2, 2, 2][i]
}

/// A valid number token: 2..=12 and not 7.
pub open spec fn num_token_valid(n: u8) -> bool {
    2 <= n <= 12 && n != 7
}

/// Tile well-formedness for the tile sitting in 0-based slot `i`:
/// the id is the 1-based slot, the coordinates are the template's,
/// the number is absent exactly for desert and in range otherwise.
pub open spec fn tile_wf(h: Hex, i: int) -> bool {
    &&& h.id == i + 1
    &&& h.q == template_q(i)
    &&& h.r == template_r(i)
    &&& (h.res is Desert <==> h.num is None)
    &&& (h.num matches Some(n) ==> num_token_valid(n))
}

/// Layout well-formedness: exactly 19 tiles, each well-formed for its
/// slot.
pub open spec fn layout_wf(s: Seq<Hex>) -> bool {
    &&& s.len() == 19
    &&& forall|i: int| 0 <= i < 19 ==> tile_wf(#[trigger] s[i], i)
}

/// Resource of template slot `i` in the default board.
pub open spec fn default_res(i: int) -> Resource {
    seq![Resource::Ore, Resource::Sheep, Resource::Wood, Resource::Wheat, Resource::Brick,
        Resource::Sheep, Resource::Brick, Resource::Wheat, Resource::Wood, Resource::Desert,
        Resource::Wood, Resource::Ore, Resource::Wood, Resource::Ore, Resource::Wheat,
        Resource::Sheep, Resource::Brick, Resource::Wheat, Resource::Sheep][i]
}

/// Number token of template slot `i` in the default board.
pub open spec fn default_num(i: int) -> Option<u8> {
    seq![Some(10u8), Some(2u8), Some(9u8), Some(12u8), Some(6u8), Some(4u8), Some(10u8),
        Some(9u8), Some(11u8), None, Some(3u8), Some(8u8), Some(8u8), Some(3u8), Some(4u8),
        Some(5u8), Some(5u8), Some(6u8), Some(11u8)][i]
}

/// The default tile in 0-based slot `i`.
pub open spec fn default_tile(i: int) -> Hex {
    Hex {
        id: (i + 1) as u8,
        q: template_q(i) as i32,
        r: template_r(i) as i32,
        res: default_res(i),
        num: default_num(i),
    }
}

/// The default 19-tile layout.
pub open spec fn default_layout() -> Seq<Hex> {
    Seq::new(19, |i: int| default_tile(i))
}

/// Axial coordinates of template slot `i` (0-based).
pub fn slot_coords(i: usize) -> (c: (i32, i32))
    requires
        i < 19,
    ensures
        c.0 == template_q(i as int),
        c.1 == template_r(i as int),
{
    let c: (i32, i32) = match i {
        0 => (0, -2),
        1 => (1, -2),
        2 => (2, -2),
        3 => (-1, -1),
        4 => (0, -1),
        5 => (1, -1),
        6 => (2, -1),
        7 => (-2, 0),
        8 => (-1, 0),
        9 => (0, 0),
        10 => (1, 0),
        11 => (2, 0),
        12 => (-2, 1),
        13 => (-1, 1),
        14 => (0, 1),
        15 => (1, 1),
        16 => (-2, 2),
        17 => (-1, 2),
        _ => (0, 2),
    };
    c
}

/// The default board: every slot filled with its template resource and
/// number.
pub fn default_hexes() -> (v: Vec<Hex>)
    ensures
        v@ == default_layout(),
        layout_wf(v@),
{
    let mut v: Vec<Hex> = Vec::new();
    let mut i: usize = 0;
    while i < 19
        invariant
            i <= 19,
            v@.len() == i,
            forall|k: int| 0 <= k < i ==> v@[k] == default_tile(k),
        decreases 19 - i,
    {
        let (q, r) = slot_coords(i);
        let (res, num): (Resource, Option<u8>) = match i {
            0 => (Resource::Ore, Some(10)),
            1 => (Resource::Sheep, Some(2)),
            2 => (Resource::Wood, Some(9)),
            3 => (Resource::Wheat, Some(12)),
            4 => (Resource::Brick, Some(6)),
            5 => (Resource::Sheep, Some(4)),
            6 => (Resource::Brick, Some(10)),
            7 => (Resource::Wheat, Some(9)),
            8 => (Resource::Wood, Some(11)),
            9 => (Resource::Desert, None),
            10 => (Resource::Wood, Some(3)),
            11 => (Resource::Ore, Some(8)),
            12 => (Resource::Wood, Some(8)),
            13 => (Resource::Ore, Some(3)),
            14 => (Resource::Wheat, Some(4)),
            15 => (Resource::Sheep, Some(5)),
            16 => (Resource::Brick, Some(5)),
            17 => (Resource::Wheat, Some(6)),
            _ => (Resource::Sheep, Some(11)),
        };
        v.push(Hex { id: (i + 1) as u8, q, r, res, num });
        i += 1;
    }
    proof {
        assert(v@ =~= default_layout());
        assert forall|k: int| 0 <= k < 19 implies tile_wf(#[trigger] v@[k], k) by {
            assert(v@[k] == default_tile(k));
        }
    }
    v
}

/// Relative production likelihood of a number token: `6 - |n - 7|`,
/// between 1 and 5 for every valid token.
pub open spec fn spec_pip_count(n: int) -> int {
    6 - abs(n - 7)
}

/// Pip count of a valid number token.
pub fn pip_count(num: u8) -> (p: u8)
    requires
        num_token_valid(num),
    ensures
        p == spec_pip_count(num as int),
        1 <= p <= 5,
{
    if num < 7 {
        num - 1
    } else {
        13 - num
    }
}

/// Pips a tile contributes at each of its corners: 0 for desert (no
/// number), otherwise the pip count of its token.
pub open spec fn spec_tile_pips(h: Hex) -> int {
    match h.num {
        Some(n) => spec_pip_count(n as int),
        None => 0,
    }
}

/// Pip contribution of a tile (0 for a tile without a number).
pub fn tile_pips(h: &Hex) -> (p: u8)
    requires
        h.num matches Some(n) ==> num_token_valid(n),
    ensures
        p == spec_tile_pips(*h),
        0 <= p <= 5,
{
    match h.num {
        Some(n) => pip_count(n),
        None => 0,
    }
}

} // verus!
