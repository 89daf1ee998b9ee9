//! Atoms as the analysis sees them: element class, backbone flag, chain and
//! residue numbering. Coordinates are not kept here; an atom's position
//! enters the analysis through the grid cell that holds it.

use vstd::prelude::*;

verus! {

/// Offset added to the local residue number once for every chain that
/// precedes the atom's chain, so that global residue numbers of different
/// chains never collide.
pub const CHAIN_OFFSET: i32 = 10_000;

/// A window's error value is stored at the global residue number of its
/// first residue plus this offset.
pub const PROFILE_OFFSET: i32 = 4;

/// Element class of an atom. Only carbon, nitrogen and oxygen take part in
/// the contact statistics.
#[derive(Clone, Copy, Debug, PartialEq, Eq, Structural)]
pub enum Element {
    Other,
    Carbon,
    Nitrogen,
    Oxygen,
}

impl Element {
    /// Row or column of this element class in a contact table.
    pub open spec fn spec_index(self) -> nat {
        match self {
            Element::Other => 0,
            Element::Carbon => 1,
            Element::Nitrogen => 2,
            Element::Oxygen => 3,
        }
    }

    /// Row or column of this element class in a contact table.
    pub fn index(self) -> (i: usize)
        ensures
            i == self.spec_index(),
            i < 4,
    {
        match self {
            Element::Other => 0,
            Element::Carbon => 1,
            Element::Nitrogen => 2,
            Element::Oxygen => 3,
        }
    }
}

/// One retained atom of the structure.
#[derive(Clone, Copy, Debug, PartialEq, Eq, Structural)]
pub struct Atom {
    pub element: Element,
    /// True only for the peptide-bond atoms N and C of the backbone.
    pub backbone: bool,
    pub chain_id: u8,
    /// Residue number as written in the chain.
    pub res_seq: i32,
    /// Global residue number: `res_seq` plus `CHAIN_OFFSET` for each
    /// earlier chain.
    pub resnum: i32,
}

impl Atom {
    /// Where a window that starts at this atom stores its error value, if
    /// the residue number admits a slot at all.
    pub open spec fn spec_profile_slot(self) -> Option<usize> {
        if self.resnum + PROFILE_OFFSET >= 0 {
            Some((self.resnum + PROFILE_OFFSET) as usize)
        } else {
            None
        }
    }

    /// Where a window that starts at this atom stores its error value:
    /// the global residue number plus `PROFILE_OFFSET`, or `None` when
    /// that is negative.
    pub fn profile_slot(&self) -> (slot: Option<usize>)
        ensures
            slot == self.spec_profile_slot(),
            slot matches Some(s) ==> s == self.resnum + PROFILE_OFFSET,
            slot is None <==> self.resnum + PROFILE_OFFSET < 0,
    {
        let wide: i64 = self.resnum as i64 + PROFILE_OFFSET as i64;
        if wide >= 0 {
            Some(wide as usize)
        } else {
            None
        }
    }
}

} // verus!
