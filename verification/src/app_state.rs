//! The editor's application state and the rules it enforces.
//!
//! The state holds the one current layout, the selected tile, the
//! import text buffer and the last import error. Imports replace the
//! layout wholesale on success and leave it untouched on failure; the
//! editor's field updates keep every tile's slot identity and
//! coordinates fixed and its number consistent with its resource.

use vstd::prelude::*;

verus! {

use crate::board::{
    default_hexes, default_layout, layout_wf, num_token_valid, slot_coords, template_q, template_r,
    Hex, Resource,
};
use crate::format::{kind_message, lemma_message_of_kind};
use crate::intersections::{
    aggregate, compute_intersections, corner_points, inters_view, nums_valid, positions_distinct,
    Intersection,
};
use crate::parser::{parse_import, parsed_wf, spec_parse_import, ErrKind};

/// The board editor's state.
pub struct CatanApp {
    pub hexes: Vec<Hex>,
    pub selected_hex: usize,
    pub import_text: String,
    pub import_error: Option<String>,
}

impl CatanApp {
    /// A fresh editor: the default layout, the first tile selected, an
    /// empty import buffer and no error.
    pub fn new() -> (s: Self)
        ensures
            s.hexes@ == default_layout(),
            layout_wf(s.hexes@),
            parsed_wf(s.hexes@),
            s.selected_hex == 0,
            s.import_text@ == Seq::<char>::empty(),
            s.import_error is None,
    {
        let s = CatanApp {
            hexes: default_hexes(),
            selected_hex: 0,
            import_text: String::new(),
            import_error: None,
        };
        proof {
            assert(parsed_wf(s.hexes@));
        }
        s
    }

    /// Applies the import buffer: on success the parsed layout replaces
    /// the old one atomically and the selection resets; on failure the
    /// layout and selection stay untouched and the error message is
    /// recorded.
    pub fn apply_import(&mut self)
        ensures
            final(self).import_text == old(self).import_text,
            spec_parse_import(old(self).import_text@) matches Ok(l) ==> {
                &&& final(self).hexes@ == l
                &&& parsed_wf(final(self).hexes@)
                &&& final(self).selected_hex == 0
                &&& final(self).import_error is None
            },
            spec_parse_import(old(self).import_text@) matches Err(k) ==> {
                &&& final(self).hexes@ == old(self).hexes@
                &&& final(self).selected_hex == old(self).selected_hex
                &&& final(self).import_error matches Some(m) && m@ == kind_message(k)
            },
    {
        match parse_import(self.import_text.as_str()) {
            Ok(v) => {
                self.hexes = v;
                self.selected_hex = 0;
                self.import_error = None;
            },
            Err(e) => {
                let m = e.message();
                proof {
                    lemma_message_of_kind(e);
                }
                self.import_error = Some(m);
            },
        }
    }

    /// Sets the resource of tile `idx`; a desert drops the number, any
    /// other resource keeps the present number or falls back to 6.
    pub fn set_resource(&mut self, idx: usize, res: Resource)
        requires
            idx < old(self).hexes@.len(),
        ensures
            final(self).hexes@.len() == old(self).hexes@.len(),
            forall|k: int|
                0 <= k < old(self).hexes@.len() && k != idx ==> final(self).hexes@[k] == old(
                    self,
                ).hexes@[k],
            final(self).hexes@[idx as int].id == old(self).hexes@[idx as int].id,
            final(self).hexes@[idx as int].q == old(self).hexes@[idx as int].q,
            final(self).hexes@[idx as int].r == old(self).hexes@[idx as int].r,
            final(self).hexes@[idx as int].res == res,
            res is Desert ==> final(self).hexes@[idx as int].num is None,
            !(res is Desert) ==> final(self).hexes@[idx as int].num == (
            match old(self).hexes@[idx as int].num {
                Some(n) => Some(n),
                None => Some(6u8),
            }),
            final(self).selected_hex == old(self).selected_hex,
            final(self).import_text == old(self).import_text,
            final(self).import_error == old(self).import_error,
            parsed_wf(old(self).hexes@) ==> parsed_wf(final(self).hexes@),
    {
        let mut h = self.hexes[idx];
        h.res = res;
        h.num = match res {
            Resource::Desert => None,
            _ => match h.num {
                Some(n) => Some(n),
                None => Some(6),
            },
        };
        self.hexes[idx] = h;
    }

    /// Sets the number token of tile `idx` from an editor value in
    /// 2..=12: a 7 becomes 6, and a desert tile stays without a number.
    pub fn set_number(&mut self, idx: usize, num: u8)
        requires
            idx < old(self).hexes@.len(),
            2 <= num <= 12,
        ensures
            final(self).hexes@.len() == old(self).hexes@.len(),
            forall|k: int|
                0 <= k < old(self).hexes@.len() && k != idx ==> final(self).hexes@[k] == old(
                    self,
                ).hexes@[k],
            final(self).hexes@[idx as int].id == old(self).hexes@[idx as int].id,
            final(self).hexes@[idx as int].q == old(self).hexes@[idx as int].q,
            final(self).hexes@[idx as int].r == old(self).hexes@[idx as int].r,
            final(self).hexes@[idx as int].res == old(self).hexes@[idx as int].res,
            old(self).hexes@[idx as int].res is Desert ==> final(self).hexes@[idx as int].num
                is None,
            !(old(self).hexes@[idx as int].res is Desert) ==> final(self).hexes@[idx as int].num
                == Some(if num == 7 { 6u8 } else { num }),
            final(self).selected_hex == old(self).selected_hex,
            final(self).import_text == old(self).import_text,
            final(self).import_error == old(self).import_error,
            parsed_wf(old(self).hexes@) ==> parsed_wf(final(self).hexes@),
    {
        let mut h = self.hexes[idx];
        h.num = match h.res {
            Resource::Desert => None,
            _ => if num == 7 {
                Some(6)
            } else {
                Some(num)
            },
        };
        self.hexes[idx] = h;
    }

    /// Checks the layout invariant at run time: 19 tiles in slot order
    /// with the template's coordinates and numbers consistent with
    /// their resources.
    pub fn board_ok(&self) -> (r: bool)
        ensures
            r == parsed_wf(self.hexes@),
    {
        if self.hexes.len() != 19 {
            return false;
        }
        let mut i: usize = 0;
        while i < 19
            invariant
                self.hexes@.len() == 19,
                i <= 19,
                forall|k: int|
                    0 <= k < i ==> {
                        &&& (#[trigger] self.hexes@[k]).id == k + 1
                        &&& self.hexes@[k].q == template_q(k)
                        &&& self.hexes@[k].r == template_r(k)
                        &&& (self.hexes@[k].num matches Some(n) ==> num_token_valid(n))
                        &&& (!(self.hexes@[k].res is Desert) ==> self.hexes@[k].num is Some)
                    },
            decreases 19 - i,
        {
            let h = &self.hexes[i];
            let (q, r) = slot_coords(i);
            if h.id as usize != i + 1 || h.q != q || h.r != r {
                return false;
            }
            match h.num {
                Some(n) => {
                    if n < 2 || n > 12 || n == 7 {
                        return false;
                    }
                },
                None => {
                    match h.res {
                        Resource::Desert => {},
                        _ => {
                            return false;
                        },
                    }
                },
            }
            i += 1;
        }
        true
    }

    /// The intersections of the current layout, deduplicated and
    /// carrying summed pip values.
    pub fn intersections(&self) -> (out: Vec<Intersection>)
        requires
            parsed_wf(self.hexes@),
        ensures
            inters_view(out@) == aggregate(corner_points(self.hexes@)),
            positions_distinct(inters_view(out@)),
    {
        proof {
            assert(nums_valid(self.hexes@));
        }
        compute_intersections(&self.hexes)
    }
}

} // verus!
