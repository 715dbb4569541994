//! Exact planar positions for hex centers and corners.
//!
//! For a pointy-top hexagon of size `s` at axial coordinates `(q, r)`,
//! the center is at `x = s*sqrt(3)*(q + r/2)`, `y = s*1.5*r`, and the
//! corners sit at angles `60*i + 30` degrees (i = 0..5). Every such
//! point has `x` an integer multiple of `s*sqrt(3)/2` and `y` an
//! integer multiple of `s/2`, so positions are kept as that pair of
//! integer multiples. Corners of adjacent tiles that coincide
//! geometrically then have equal coordinates, exactly: coincidence is
//! plain equality, with no floating-point slop to absorb. A renderer
//! scales a position back by `x = u * s*sqrt(3)/2`, `y = v * s/2`.
use vstd::prelude::*;

verus! {

/// A planar position: `u` counts half-widths (`s*sqrt(3)/2`) along x,
/// `v` counts half-heights (`s/2`) along y.
#[derive(Clone, Copy, Debug, PartialEq, Eq, Structural)]
pub struct Position {
    pub u: i64,
    pub v: i64,
}

/// Center of the hex at axial `(q, r)`:
/// `x = s*sqrt(3)/2 * (2q + r)`, `y = s/2 * 3r`.
pub open spec fn spec_axial_to_plane(q: int, r: int) -> Position {
    Position { u: (2 * q + r) as i64, v: (3 * r) as i64 }
}

/// Unit offset from a hex center to its corner `i` (angle `60*i + 30`
/// degrees): `(cos, sin)` of that angle, in half-width/half-height
/// units.
pub open spec fn corner_offset(i: int) -> (int, int) {
    seq![(1int, 1int), (0int, 2int), (-1int, 1int), (-1int, -1int), (0int, -2int), (1int, -1int)][i]
}

/// Corner `i` of the hex centered at `c`.
pub open spec fn spec_corner(c: Position, i: int) -> Position {
    Position {
        u: (c.u + corner_offset(i).0) as i64,
        v: (c.v + corner_offset(i).1) as i64,
    }
}

/// Center position of the hex at axial coordinates `(q, r)`.
pub fn axial_to_plane(q: i32, r: i32) -> (c: Position)
    ensures
        c == spec_axial_to_plane(q as int, r as int),
{
    let qq: i64 = q as i64;
    let rr: i64 = r as i64;
    Position { u: 2 * qq + rr, v: 3 * rr }
}

/// Whether all six corners of a hex centered at `c` stay within `i64`.
pub open spec fn corners_fit(c: Position) -> bool {
    i64::MIN + 2 <= c.u <= i64::MAX - 2 && i64::MIN + 2 <= c.v <= i64::MAX - 2
}

/// The six corners of the hex centered at `c`, in the fixed rotational
/// order (angles 30, 90, 150, 210, 270, 330 degrees).
pub fn hex_corners(c: Position) -> (v: Vec<Position>)
    requires
        corners_fit(c),
    ensures
        v@.len() == 6,
        forall|i: int| 0 <= i < 6 ==> v@[i] == spec_corner(c, i),
{
    let mut v: Vec<Position> = Vec::new();
    v.push(Position { u: c.u + 1, v: c.v + 1 });
    v.push(Position { u: c.u, v: c.v + 2 });
    v.push(Position { u: c.u - 1, v: c.v + 1 });
    v.push(Position { u: c.u - 1, v: c.v - 1 });
    v.push(Position { u: c.u, v: c.v - 2 });
    v.push(Position { u: c.u + 1, v: c.v - 1 });
    proof {
        assert forall|i: int| 0 <= i < 6 implies v@[i] == spec_corner(c, i) by {
            if i == 0 {
            } else if i == 1 {
            } else if i == 2 {
            } else if i == 3 {
            } else if i == 4 {
            } else {
                assert(i == 5);
            }
        }
    }
    v
}

} // verus!
