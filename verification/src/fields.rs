//! What the readers of both file formats hand on: the fields of an atom
//! record, the numbers among them as spans of the text.

use vstd::prelude::*;
use crate::atom::Element;
use crate::ingest::AtomRecord;
use crate::text::Span;

verus! {

/// The fields of one atom record.
#[derive(Clone, Copy, Debug, PartialEq, Eq, Structural)]
pub struct AtomFields {
    pub element: Element,
    pub backbone: bool,
    pub alt_loc: u8,
    pub standard_residue: bool,
    pub chain_id: u8,
    /// Where the residue name stands.
    pub residue: Span,
    /// Where the residue number stands.
    pub res_seq: Span,
    /// Where the coordinates stand.
    pub x: Span,
    pub y: Span,
    pub z: Span,
}

impl AtomFields {
    /// The record that the ingestion takes, once the residue number has
    /// been read from its span.
    pub fn record(&self, res_seq: i32) -> (r: AtomRecord)
        ensures
            r == (AtomRecord {
                element: self.element,
                backbone: self.backbone,
                alt_loc: self.alt_loc,
                standard_residue: self.standard_residue,
                chain_id: self.chain_id,
                res_seq,
            }),
    {
        AtomRecord {
            element: self.element,
            backbone: self.backbone,
            alt_loc: self.alt_loc,
            standard_residue: self.standard_residue,
            chain_id: self.chain_id,
            res_seq,
        }
    }
}

} // verus!
