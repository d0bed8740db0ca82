//! The PCell Inspector panel's catalog selection: which registered PCell the
//! form shows.
//!
//! The PCell definitions, their parameter schemas and provenance hashes belong
//! to the generator registry; the panel keeps the catalog's ids in display
//! order and a bounds-checked selection over them.
use vstd::prelude::*;
use crate::text::{chars_of, string_of};

verus! {

/// The PCell Inspector panel's catalog and current selection.
#[derive(Debug)]
pub struct PCellPanelState {
    ids: Vec<String>,
    selected: usize,
}

impl PCellPanelState {
    /// The catalog's ids, in display order.
    pub closed spec fn ids_spec(&self) -> Seq<Seq<char>> {
        self.ids@.map_values(|s: String| s@)
    }

    /// The index of the selected PCell.
    pub closed spec fn selected_spec(&self) -> nat {
        self.selected as nat
    }

    /// The panel over a catalog whose registered ids are `ids`, in display
    /// order, with the first selected.
    pub fn with_ids(ids: &[String]) -> (r: PCellPanelState)
        ensures
            r.ids_spec() == ids@.map_values(|s: String| s@),
            r.selected_spec() == 0,
    {
        let mut out: Vec<String> = Vec::new();
        let mut i: usize = 0;
        while i < ids.len()
            invariant
                i <= ids@.len(),
                out@.map_values(|s: String| s@) == ids@.take(i as int).map_values(|s: String| s@),
            decreases ids@.len() - i,
        {
            let c = chars_of(ids[i].as_str());
            let ghost before = out@;
            let copy = string_of(&c);
            out.push(copy);
            assert(out@ =~= before.push(copy));
            assert(ids@.take(i + 1) =~= ids@.take(i as int).push(ids@[i as int]));
            assert(out@.map_values(|s: String| s@) =~= before.map_values(|s: String| s@).push(copy@));
            assert(ids@.take(i + 1).map_values(|s: String| s@) =~= ids@.take(i as int).map_values(
                |s: String| s@,
            ).push(ids@[i as int]@));
            i = i + 1;
        }
        assert(ids@.take(ids@.len() as int) =~= ids@);
        PCellPanelState { ids: out, selected: 0 }
    }

    /// Every registered PCell id, in display order.
    pub fn ids(&self) -> (r: &[String])
        ensures
            r@.map_values(|s: String| s@) == self.ids_spec(),
    {
        self.ids.as_slice()
    }

    /// The index of the selected PCell.
    pub fn selected(&self) -> (r: usize)
        ensures
            r == self.selected_spec(),
    {
        self.selected
    }

    /// Selects the PCell at `index`, if in range; otherwise nothing changes.
    pub fn select(&mut self, index: usize)
        ensures
            final(self).ids_spec() == old(self).ids_spec(),
            final(self).selected_spec() == if index < old(self).ids_spec().len() {
                index as nat
            } else {
                old(self).selected_spec()
            },
    {
        if index < self.ids.len() {
            self.selected = index;
        }
    }
}

} // verus!
