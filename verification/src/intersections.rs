//! Merging tile corners into shared board intersections.
//!
//! Every tile contributes its pip count at each of its six corners.
//! Corners of adjacent tiles that denote the same board vertex have
//! equal [`Position`]s (positions are exact lattice points, see
//! `geometry`), so merging coincident corners is merging equal
//! positions: each new corner is added to the first already-discovered
//! intersection at the same position, or starts a new one. Two
//! distinct lattice points are at least half a hex size apart, so any
//! proximity threshold below that — such as the conventional fifth of
//! a hex size — coalesces exactly the corners that are equal here.

use vstd::prelude::*;

verus! {

use crate::board::{Hex, num_token_valid, spec_tile_pips, tile_pips};
use crate::geometry::{
    axial_to_plane, corners_fit, hex_corners, spec_axial_to_plane, spec_corner, Position,
};

/// A board intersection: a corner position shared by the tiles whose
/// pip counts sum to `value`.
#[derive(Clone, Copy, Debug, PartialEq, Eq, Structural)]
pub struct Intersection {
    pub pos: Position,
    pub value: u32,
}

/// The flattened corner stream of a layout: for tile `k/6`, its corner
/// `k%6` paired with the tile's pip contribution.
pub open spec fn corner_points(s: Seq<Hex>) -> Seq<(Position, int)> {
    Seq::new(
        6 * s.len(),
        |k: int|
            (
                spec_corner(spec_axial_to_plane(s[k / 6].q as int, s[k / 6].r as int), k % 6),
                spec_tile_pips(s[k / 6]),
            ),
    )
}

/// Index of the first entry of `acc` at position `p`, or -1 if none.
pub open spec fn find_pos(acc: Seq<(Position, int)>, p: Position) -> int
    decreases acc.len(),
{
    if acc.len() == 0 {
        -1
    } else if acc[0].0 == p {
        0
    } else {
        let rest = find_pos(acc.drop_first(), p);
        if rest == -1 {
            -1
        } else {
            rest + 1
        }
    }
}

/// One merge step: fold the corner `pt` into the first intersection at
/// its position, or append a fresh one.
pub open spec fn agg_step(acc: Seq<(Position, int)>, pt: (Position, int)) -> Seq<(Position, int)> {
    let j = find_pos(acc, pt.0);
    if j >= 0 {
        acc.update(j, (acc[j].0, acc[j].1 + pt.1))
    } else {
        acc.push(pt)
    }
}

/// Aggregation of a corner stream, processed in order.
pub open spec fn aggregate(ps: Seq<(Position, int)>) -> Seq<(Position, int)>
    decreases ps.len(),
{
    if ps.len() == 0 {
        Seq::empty()
    } else {
        agg_step(aggregate(ps.drop_last()), ps.last())
    }
}

/// Mathematical reading of an intersection list.
pub open spec fn inters_view(v: Seq<Intersection>) -> Seq<(Position, int)> {
    Seq::new(v.len(), |j: int| (v[j].pos, v[j].value as int))
}

/// `find_pos` returns the first index at `p`: knowing everything below
/// `j` misses and `j` hits pins it to `j`.
proof fn lemma_find_pos_found(acc: Seq<(Position, int)>, p: Position, j: int)
    requires
        0 <= j < acc.len(),
        acc[j].0 == p,
        forall|jj: int| 0 <= jj < j ==> (#[trigger] acc[jj]).0 != p,
    ensures
        find_pos(acc, p) == j,
    decreases acc.len(),
{
    if j == 0 {
    } else {
        assert(acc[0].0 != p);
        lemma_find_pos_found(acc.drop_first(), p, j - 1);
    }
}

/// `find_pos` returns -1 exactly when no entry of `acc` sits at `p`.
proof fn lemma_find_pos_none(acc: Seq<(Position, int)>, p: Position)
    requires
        forall|jj: int| 0 <= jj < acc.len() ==> (#[trigger] acc[jj]).0 != p,
    ensures
        find_pos(acc, p) == -1,
    decreases acc.len(),
{
    if acc.len() > 0 {
        lemma_find_pos_none(acc.drop_first(), p);
    }
}

/// Wherever `find_pos` points, the position matches; and a hit exists
/// only at or after index 0 with no earlier hit.
proof fn lemma_find_pos_spec(acc: Seq<(Position, int)>, p: Position)
    ensures
        find_pos(acc, p) == -1 || (0 <= find_pos(acc, p) < acc.len()),
        find_pos(acc, p) >= 0 ==> acc[find_pos(acc, p)].0 == p,
        find_pos(acc, p) == -1 ==> forall|jj: int|
            0 <= jj < acc.len() ==> (#[trigger] acc[jj]).0 != p,
    decreases acc.len(),
{
    if acc.len() > 0 {
        lemma_find_pos_spec(acc.drop_first(), p);
        if acc[0].0 != p && find_pos(acc.drop_first(), p) == -1 {
            assert forall|jj: int| 0 <= jj < acc.len() implies (#[trigger] acc[jj]).0 != p by {
                if jj > 0 {
                    assert(acc[jj] == acc.drop_first()[jj - 1]);
                }
            }
        }
    }
}

/// No two aggregated intersections share a position.
pub open spec fn positions_distinct(acc: Seq<(Position, int)>) -> bool {
    forall|i: int, j: int|
        0 <= i < j < acc.len() ==> (#[trigger] acc[i]).0 != (#[trigger] acc[j]).0
}

/// Coincident corners always merge: the aggregated list never holds two
/// intersections at the same position.
pub proof fn lemma_aggregate_distinct(ps: Seq<(Position, int)>)
    ensures
        positions_distinct(aggregate(ps)),
    decreases ps.len(),
{
    if ps.len() > 0 {
        let acc = aggregate(ps.drop_last());
        let pt = ps.last();
        lemma_aggregate_distinct(ps.drop_last());
        lemma_find_pos_spec(acc, pt.0);
        let j = find_pos(acc, pt.0);
        if j >= 0 {
            let upd = acc.update(j, (acc[j].0, acc[j].1 + pt.1));
            assert forall|a: int, b: int| 0 <= a < b < upd.len() implies (#[trigger] upd[a]).0
                != (#[trigger] upd[b]).0 by {
                assert(upd[a].0 == acc[a].0);
                assert(upd[b].0 == acc[b].0);
            }
        }
    }
}

/// Every corner of the stream lands on some aggregated intersection:
/// its position is never lost.
pub proof fn lemma_aggregate_covers(ps: Seq<(Position, int)>)
    ensures
        forall|k: int|
            0 <= k < ps.len() ==> exists|j: int|
                0 <= j < aggregate(ps).len() && (#[trigger] aggregate(ps)[j]).0 == (
                #[trigger] ps[k]).0,
    decreases ps.len(),
{
    if ps.len() > 0 {
        let prev = aggregate(ps.drop_last());
        let pt = ps.last();
        let cur = aggregate(ps);
        lemma_aggregate_covers(ps.drop_last());
        lemma_find_pos_spec(prev, pt.0);
        let j = find_pos(prev, pt.0);
        // every position of the previous aggregate survives the step
        assert forall|jj: int| 0 <= jj < prev.len() implies exists|j2: int|
            0 <= j2 < cur.len() && (#[trigger] cur[j2]).0 == (#[trigger] prev[jj]).0 by {
            if j >= 0 {
                assert(cur[jj].0 == prev[jj].0);
            } else {
                assert(cur[jj].0 == prev[jj].0);
            }
        }
        assert forall|k: int| 0 <= k < ps.len() implies exists|j2: int|
            0 <= j2 < cur.len() && (#[trigger] cur[j2]).0 == (#[trigger] ps[k]).0 by {
            if k < ps.len() - 1 {
                assert(ps.drop_last()[k] == ps[k]);
                let jj: int = choose|jj: int|
                    0 <= jj < prev.len() && (#[trigger] prev[jj]).0 == ps[k].0;
                assert(exists|j2: int| 0 <= j2 < cur.len() && (#[trigger] cur[j2]).0 == prev[jj].0);
            } else {
                if j >= 0 {
                    assert(cur[j].0 == pt.0);
                } else {
                    assert(cur[cur.len() - 1].0 == pt.0);
                }
            }
        }
    }
}

/// Sum of the aggregated values.
pub open spec fn sum_values(acc: Seq<(Position, int)>) -> int
    decreases acc.len(),
{
    if acc.len() == 0 {
        0
    } else {
        sum_values(acc.drop_last()) + acc.last().1
    }
}

/// Updating one entry's value moves the sum by exactly the difference.
proof fn lemma_sum_update(acc: Seq<(Position, int)>, j: int, w: int)
    requires
        0 <= j < acc.len(),
    ensures
        sum_values(acc.update(j, (acc[j].0, acc[j].1 + w))) == sum_values(acc) + w,
    decreases acc.len(),
{
    let upd = acc.update(j, (acc[j].0, acc[j].1 + w));
    if j == acc.len() - 1 {
        assert(upd.drop_last() =~= acc.drop_last());
    } else {
        lemma_sum_update(acc.drop_last(), j, w);
        assert(upd.drop_last() =~= acc.drop_last().update(j, (acc[j].0, acc[j].1 + w)));
        assert(upd.last() == acc.last());
    }
}

/// Aggregation loses no pips: the summed intersection values equal the
/// summed corner contributions.
pub proof fn lemma_aggregate_sum(ps: Seq<(Position, int)>)
    ensures
        sum_values(aggregate(ps)) == sum_values(ps),
    decreases ps.len(),
{
    if ps.len() > 0 {
        let acc = aggregate(ps.drop_last());
        let pt = ps.last();
        lemma_aggregate_sum(ps.drop_last());
        lemma_find_pos_spec(acc, pt.0);
        let j = find_pos(acc, pt.0);
        if j >= 0 {
            lemma_sum_update(acc, j, pt.1);
        } else {
            assert(acc.push(pt).drop_last() =~= acc);
        }
    }
}

/// Sum of the pip counts of all tiles.
pub open spec fn total_pips(s: Seq<Hex>) -> int
    decreases s.len(),
{
    if s.len() == 0 {
        0
    } else {
        total_pips(s.drop_last()) + spec_tile_pips(s.last())
    }
}

/// Sums split over concatenation.
proof fn lemma_sum_append(a: Seq<(Position, int)>, b: Seq<(Position, int)>)
    ensures
        sum_values(a + b) == sum_values(a) + sum_values(b),
    decreases b.len(),
{
    if b.len() == 0 {
        assert(a + b =~= a);
    } else {
        lemma_sum_append(a, b.drop_last());
        assert((a + b).drop_last() =~= a + b.drop_last());
        assert((a + b).last() == b.last());
    }
}

/// A list whose entries all weigh `p` sums to `len * p`.
proof fn lemma_sum_const(b: Seq<(Position, int)>, p: int)
    requires
        forall|j: int| 0 <= j < b.len() ==> (#[trigger] b[j]).1 == p,
    ensures
        sum_values(b) == b.len() * p,
    decreases b.len(),
{
    if b.len() > 0 {
        let b0 = b.drop_last();
        assert forall|j: int| 0 <= j < b0.len() implies (#[trigger] b0[j]).1 == p by {
            assert(b0[j] == b[j]);
        }
        lemma_sum_const(b0, p);
        assert(b.last().1 == p);
        assert(b0.len() * p + p == b.len() * p) by (nonlinear_arith)
            requires
                b0.len() == b.len() - 1,
        ;
    }
}

/// The corner stream carries each tile's pips six times.
proof fn lemma_corner_points_sum(s: Seq<Hex>)
    ensures
        sum_values(corner_points(s)) == 6 * total_pips(s),
    decreases s.len(),
{
    if s.len() == 0 {
        assert(corner_points(s) =~= Seq::<(Position, int)>::empty());
    } else {
        let s0 = s.drop_last();
        lemma_corner_points_sum(s0);
        let h = s.last();
        let tail = Seq::new(
            6,
            |j: int|
                (
                    spec_corner(spec_axial_to_plane(h.q as int, h.r as int), j),
                    spec_tile_pips(h),
                ),
        );
        assert(corner_points(s) =~= corner_points(s0) + tail) by {
            assert forall|k: int| 0 <= k < 6 * s.len() implies corner_points(s)[k] == (
            corner_points(s0) + tail)[k] by {
                if k < 6 * s0.len() {
                    assert(0 <= k / 6 < s0.len());
                    assert(s[k / 6] == s0[k / 6]);
                } else {
                    assert(k / 6 == s.len() - 1 && 0 <= k % 6 < 6) by (nonlinear_arith)
                        requires
                            6 * (s.len() - 1) <= k < 6 * s.len(),
                    ;
                    assert(s[k / 6] == h);
                    assert((corner_points(s0) + tail)[k] == tail[k - 6 * s0.len()]);
                    assert(k % 6 == k - 6 * (s.len() - 1)) by (nonlinear_arith)
                        requires
                            6 * (s.len() - 1) <= k < 6 * s.len(),
                    ;
                }
            }
        }
        lemma_sum_append(corner_points(s0), tail);
        lemma_sum_const(tail, spec_tile_pips(h));
    }
}

/// Each tile's pips are counted once per corner, and a tile has six
/// corners: the aggregated intersection values of any layout sum to
/// six times the layout's total pips.
pub proof fn lemma_intersection_values_sum(s: Seq<Hex>)
    ensures
        sum_values(aggregate(corner_points(s))) == 6 * total_pips(s),
{
    lemma_aggregate_sum(corner_points(s));
    lemma_corner_points_sum(s);
}

/// All number tokens of a layout are valid (absent tokens are fine).
pub open spec fn nums_valid(s: Seq<Hex>) -> bool {
    forall|i: int|
        0 <= i < s.len() ==> ((#[trigger] s[i]).num matches Some(n) ==> num_token_valid(n))
}

/// The deduplicated intersections of a 19-tile layout, each carrying
/// the summed pip contributions of the tiles whose corners coincide
/// there. First match wins: a corner merges into the earliest
/// discovered intersection at its position.
pub fn compute_intersections(hexes: &Vec<Hex>) -> (out: Vec<Intersection>)
    requires
        hexes@.len() == 19,
        nums_valid(hexes@),
    ensures
        inters_view(out@) == aggregate(corner_points(hexes@)),
        positions_distinct(inters_view(out@)),
{
    let ghost cps = corner_points(hexes@);
    let mut out: Vec<Intersection> = Vec::new();
    let mut hi: usize = 0;
    while hi < 19
        invariant
            hexes@.len() == 19,
            nums_valid(hexes@),
            hi <= 19,
            cps == corner_points(hexes@),
            inters_view(out@) =~= aggregate(cps.take(6 * hi as int)),
            forall|jj: int| 0 <= jj < out@.len() ==> (#[trigger] out@[jj]).value <= 30 * hi as int,
        decreases 19 - hi,
    {
        let h = hexes[hi];
        let c = axial_to_plane(h.q, h.r);
        assert(corners_fit(c));
        let corners = hex_corners(c);
        let pips = tile_pips(&h);
        let mut ci: usize = 0;
        while ci < 6
            invariant
                hexes@.len() == 19,
                hi < 19,
                ci <= 6,
                cps == corner_points(hexes@),
                h == hexes@[hi as int],
                c == spec_axial_to_plane(h.q as int, h.r as int),
                corners@.len() == 6,
                forall|i: int| 0 <= i < 6 ==> corners@[i] == spec_corner(c, i),
                pips == spec_tile_pips(h),
                0 <= pips <= 5,
                inters_view(out@) =~= aggregate(cps.take(6 * hi as int + ci as int)),
                forall|jj: int|
                    0 <= jj < out@.len() ==> (#[trigger] out@[jj]).value <= 30 * hi as int + 5 * ci as int,
            decreases 6 - ci,
        {
            let ghost k = 6 * hi as int + ci as int;
            let p = corners[ci];
            proof {
                assert(cps[k] == (p, pips as int)) by {
                    assert(k / 6 == hi as int && k % 6 == ci as int) by (nonlinear_arith)
                        requires
                            k == 6 * hi as int + ci as int,
                            0 <= ci < 6,
                            0 <= hi,
                    ;
                }
                assert(cps.take(k + 1).drop_last() =~= cps.take(k));
                assert(cps.take(k + 1).last() == cps[k]);
            }
            let mut j: usize = 0;
            let mut found = false;
            while j < out.len() && !found
                invariant
                    j <= out@.len(),
                    !found ==> forall|jj: int| 0 <= jj < j ==> (#[trigger] out@[jj]).pos != p,
                    found ==> j < out@.len() && out@[j as int].pos == p && forall|jj: int|
                        0 <= jj < j ==> (#[trigger] out@[jj]).pos != p,
                decreases out@.len() - j + (if found { 0int } else { 1int }),
            {
                if out[j].pos == p {
                    found = true;
                } else {
                    j += 1;
                }
            }
            let ghost pre = inters_view(out@);
            let ghost old_out = out@;
            if found {
                proof {
                    lemma_find_pos_found(pre, p, j as int);
                }
                let cur = out[j].value;
                out[j] = Intersection { pos: p, value: cur + pips as u32 };
                proof {
                    assert(inters_view(out@) =~= agg_step(pre, cps[k]));
                    assert forall|jj: int| 0 <= jj < out@.len() implies (#[trigger] out@[jj]).value
                        <= 30 * hi as int + 5 * ci as int + 5 by {
                        if jj != j as int {
                            assert(out@[jj] == old_out[jj]);
                        }
                    }
                }
            } else {
                proof {
                    lemma_find_pos_none(pre, p);
                }
                out.push(Intersection { pos: p, value: pips as u32 });
                proof {
                    assert(inters_view(out@) =~= agg_step(pre, cps[k]));
                    assert forall|jj: int| 0 <= jj < out@.len() implies (#[trigger] out@[jj]).value
                        <= 30 * hi as int + 5 * ci as int + 5 by {
                        if jj < out@.len() - 1 {
                            assert(out@[jj] == old_out[jj]);
                        }
                    }
                }
            }
            ci += 1;
        }
        hi += 1;
        proof {
            assert(6 * (hi - 1) as int + 6 == 6 * hi as int);
        }
    }
    proof {
        assert(cps.take(6 * 19int) =~= cps);
        lemma_aggregate_distinct(cps);
    }
    out
}

} // verus!
