//! Ranking intersections by their summed pip values.
//!
//! The distinct summed values are sorted descending and the top three
//! become the rank tiers (0 = highest, 1 = second, 2 = third). An
//! intersection's tier is decided by its value alone, so intersections
//! sharing a value always share a tier.

use vstd::prelude::*;

verus! {

use crate::intersections::Intersection;

/// Whether `v` clears the cutoff: any value when no cutoff is set,
/// otherwise strictly below it.
pub open spec fn below(bound: Option<u32>, v: u32) -> bool {
    match bound {
        None => true,
        Some(b) => v < b,
    }
}

/// Whether `v` occurs in `top`.
pub open spec fn in_top(top: Seq<u32>, v: u32) -> bool {
    exists|k: int| 0 <= k < top.len() && top[k] == v
}

/// The largest intersection value strictly below `bound` (below
/// nothing when `bound` is `None`), if any value qualifies.
fn max_below(inters: &Vec<Intersection>, bound: Option<u32>) -> (r: Option<u32>)
    ensures
        r matches Some(m) ==> {
            &&& exists|j: int| 0 <= j < inters@.len() && (#[trigger] inters@[j]).value == m
            &&& below(bound, m)
            &&& forall|j: int|
                0 <= j < inters@.len() && below(bound, (#[trigger] inters@[j]).value)
                    ==> inters@[j].value <= m
        },
        r is None ==> forall|j: int|
            0 <= j < inters@.len() ==> !below(bound, (#[trigger] inters@[j]).value),
{
    let n = inters.len();
    let mut best: Option<u32> = None;
    let mut j: usize = 0;
    while j < n
        invariant
            n == inters@.len(),
            j <= n,
            best matches Some(bv) ==> {
                &&& exists|jj: int| 0 <= jj < j && (#[trigger] inters@[jj]).value == bv
                &&& below(bound, bv)
                &&& forall|jj: int|
                    0 <= jj < j && below(bound, (#[trigger] inters@[jj]).value)
                        ==> inters@[jj].value <= bv
            },
            best is None ==> forall|jj: int|
                0 <= jj < j ==> !below(bound, (#[trigger] inters@[jj]).value),
        decreases n - j,
    {
        let c = inters[j].value;
        let ok = match bound {
            None => true,
            Some(b) => c < b,
        };
        if ok {
            match best {
                None => {
                    best = Some(c);
                },
                Some(bv) => {
                    if c > bv {
                        best = Some(c);
                    }
                },
            }
        }
        j += 1;
    }
    best
}

/// The distinct intersection values, sorted descending, cut to at most
/// the top three: any value not listed is smaller than everything
/// listed.
pub fn rank_intersections(inters: &Vec<Intersection>) -> (top: Vec<u32>)
    ensures
        top@.len() <= 3,
        forall|a: int, b: int| 0 <= a < b < top@.len() ==> top@[a] > top@[b],
        forall|k: int|
            0 <= k < top@.len() ==> exists|j: int|
                0 <= j < inters@.len() && (#[trigger] inters@[j]).value == #[trigger] top@[k],
        forall|j: int|
            0 <= j < inters@.len() ==> in_top(top@, (#[trigger] inters@[j]).value) || (top@.len()
                == 3 && inters@[j].value < top@[2]),
{
    let mut top: Vec<u32> = Vec::new();
    match max_below(inters, None) {
        None => {},
        Some(m0) => {
            top.push(m0);
            match max_below(inters, Some(m0)) {
                None => {},
                Some(m1) => {
                    top.push(m1);
                    match max_below(inters, Some(m1)) {
                        None => {},
                        Some(m2) => {
                            top.push(m2);
                        },
                    }
                },
            }
        },
    }
    proof {
        assert forall|j: int| 0 <= j < inters@.len() implies in_top(
            top@,
            (#[trigger] inters@[j]).value,
        ) || (top@.len() == 3 && inters@[j].value < top@[2]) by {
            let v = inters@[j].value;
            if top@.len() >= 1 && v == top@[0] {
                assert(in_top(top@, v));
            } else if top@.len() >= 2 && v == top@[1] {
                assert(in_top(top@, v));
            } else if top@.len() == 3 && v == top@[2] {
                assert(in_top(top@, v));
            }
        }
    }
    top
}

/// What a tier assignment means: the first index of `top` holding `v`,
/// or no tier when `v` is unlisted.
pub open spec fn tier_chosen(top: Seq<u32>, v: u32, t: Option<int>) -> bool {
    match t {
        Some(k) => 0 <= k < top.len() && top[k] == v && forall|kk: int|
            0 <= kk < k ==> top[kk] != v,
        None => forall|kk: int| 0 <= kk < top.len() ==> top[kk] != v,
    }
}

/// The rank tier of a summed value against the ranked top values:
/// `Some(0)` for the highest distinct value, `Some(1)` for the second,
/// `Some(2)` for the third, `None` for anything unlisted.
pub fn rank_tier(value: u32, top: &Vec<u32>) -> (t: Option<usize>)
    ensures
        tier_chosen(
            top@,
            value,
            match t {
                Some(k) => Some(k as int),
                None => None,
            },
        ),
{
    let n = top.len();
    let mut k: usize = 0;
    while k < n
        invariant
            n == top@.len(),
            k <= n,
            forall|kk: int| 0 <= kk < k ==> top@[kk] != value,
        decreases n - k,
    {
        if top[k] == value {
            return Some(k);
        }
        k += 1;
    }
    None
}

/// Ties share a tier: any two tier assignments that both satisfy
/// [`tier_chosen`] for the same ranked values and equal summed values
/// are the same tier.
pub proof fn lemma_ties_share_tier(top: Seq<u32>, v1: u32, v2: u32, t1: Option<int>, t2: Option<int>)
    requires
        v1 == v2,
        tier_chosen(top, v1, t1),
        tier_chosen(top, v2, t2),
    ensures
        t1 == t2,
{
    match (t1, t2) {
        (Some(k1), Some(k2)) => {
            if k1 < k2 {
                assert(top[k1] != v2);
            } else if k2 < k1 {
                assert(top[k2] != v1);
            }
        },
        (Some(k1), None) => {
            assert(top[k1] != v2);
        },
        (None, Some(k2)) => {
            assert(top[k2] != v1);
        },
        (None, None) => {},
    }
}

} // verus!
