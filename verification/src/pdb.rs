//! Fixed-column structure files: cutting the text into lines and the atom
//! lines into their fields.
//!
//! The fields that hold numbers are handed out as spans of the text; the
//! fields that the ingestion rules read are decoded here.

use vstd::prelude::*;
use crate::atom::Element;
use crate::fields::AtomFields;
use crate::text::{find_line_end, lemma_line_end_bounds, line_end, Span};
use crate::ingest::{is_standard_residue, standard_residue};

verus! {

/// Shortest line that is looked at: the length of the record name.
pub const NAME_LEN: usize = 6;

/// Shortest atom line that can be read: it reaches to the end of the z
/// coordinate.
pub const ATOM_LINE_LEN: usize = 54;

/// Column of the atom name's first letter, which gives the element.
pub const COL_ATOM: usize = 13;

/// Column of the alternate-location marker.
pub const COL_ALT_LOC: usize = 16;

/// First column of the residue name.
pub const COL_RESIDUE: usize = 17;

/// Column of the chain identifier.
pub const COL_CHAIN: usize = 21;

/// First column of the residue number.
pub const COL_RES_SEQ: usize = 22;

/// One past the last column of the residue number.
pub const COL_RES_SEQ_END: usize = 26;

/// First column of the x coordinate; y and z follow, eight columns each.
pub const COL_X: usize = 30;

/// First column of the y coordinate.
pub const COL_Y: usize = 38;

/// First column of the z coordinate.
pub const COL_Z: usize = 46;

/// One line of the text that begins with the record name of an atom.
#[derive(Clone, Copy, Debug, PartialEq, Eq, Structural)]
pub enum AtomLine {
    /// The line ends before the last coordinate does.
    Malformed,
    /// The line and its fields.
    Fields(AtomFields),
}

/// The element class that the first letter of an atom name stands for.
pub open spec fn element_of_letter(c: u8) -> Element {
    if c == 'C' as u8 {
        Element::Carbon
    } else if c == 'N' as u8 {
        Element::Nitrogen
    } else if c == 'O' as u8 {
        Element::Oxygen
    } else {
        Element::Other
    }
}

/// The atom name in the three columns from `at` on is that of a backbone
/// nitrogen or carbon: the letter alone, followed by blanks.
pub open spec fn backbone_name(text: Seq<u8>, at: int) -> bool {
    &&& (text[at] == 'N' as u8 || text[at] == 'C' as u8)
    &&& text[at + 1] == ' ' as u8
    &&& text[at + 2] == ' ' as u8
}

/// The line from `start` on begins with the record name of an atom.
pub open spec fn names_atom(text: Seq<u8>, start: int) -> bool {
    &&& text[start] == 'A' as u8
    &&& text[start + 1] == 'T' as u8
    &&& text[start + 2] == 'O' as u8
    &&& text[start + 3] == 'M' as u8
    &&& text[start + 4] == ' ' as u8
    &&& text[start + 5] == ' ' as u8
}

/// The end of the line `start..end` as it is looked at. With
/// `keep_terminator` the line feed that ends it counts as part of the
/// line; without, the line ends before the line feed, and before a
/// carriage return that precedes it.
pub open spec fn content_end(text: Seq<u8>, start: int, end: int, keep_terminator: bool) -> int {
    if keep_terminator {
        if end < text.len() {
            end + 1
        } else {
            end
        }
    } else if start < end && text[end - 1] == '\r' as u8 {
        end - 1
    } else {
        end
    }
}

/// The fields of the atom line that begins at `start`.
pub open spec fn fields_at(text: Seq<u8>, start: int) -> AtomFields {
    AtomFields {
        element: element_of_letter(text[start + COL_ATOM]),
        backbone: backbone_name(text, start + COL_ATOM),
        alt_loc: text[start + COL_ALT_LOC],
        standard_residue: standard_residue(
            text.subrange(start + COL_RESIDUE, start + COL_RESIDUE + 3),
        ),
        chain_id: text[start + COL_CHAIN],
        residue: Span {
            start: (start + COL_RESIDUE) as usize,
            end: (start + COL_RESIDUE + 3) as usize,
        },
        res_seq: Span {
            start: (start + COL_RES_SEQ) as usize,
            end: (start + COL_RES_SEQ_END) as usize,
        },
        x: Span { start: (start + COL_X) as usize, end: (start + COL_Y) as usize },
        y: Span { start: (start + COL_Y) as usize, end: (start + COL_Z) as usize },
        z: Span { start: (start + COL_Z) as usize, end: (start + ATOM_LINE_LEN) as usize },
    }
}

/// What the line `start..end` is: no atom line at all when it is shorter
/// than a record name or begins with another name; a malformed atom line
/// when it ends before the last coordinate does; else an atom line with
/// its fields.
pub open spec fn spec_read_line(text: Seq<u8>, start: int, end: int) -> Option<AtomLine> {
    if end - start < NAME_LEN || !names_atom(text, start) {
        None
    } else if end - start < ATOM_LINE_LEN {
        Some(AtomLine::Malformed)
    } else {
        Some(AtomLine::Fields(fields_at(text, start)))
    }
}

/// The atom lines of the text from `from` on, in order.
pub open spec fn atom_lines_from(text: Seq<u8>, from: int, keep_terminator: bool) -> Seq<AtomLine>
    decreases text.len() - from,
{
    if from < 0 || from >= text.len() {
        Seq::empty()
    } else {
        let end = line_end(text, from);
        proof {
            lemma_line_end_bounds(text, from);
        }
        let rest = if end < text.len() {
            atom_lines_from(text, end + 1, keep_terminator)
        } else {
            Seq::empty()
        };
        match spec_read_line(text, from, content_end(text, from, end, keep_terminator)) {
            Some(line) => seq![line] + rest,
            None => rest,
        }
    }
}

/// The element class for the first letter of an atom name.
pub fn element_for(letter: u8) -> (e: Element)
    ensures
        e == element_of_letter(letter),
{
    if letter == 'C' as u8 {
        Element::Carbon
    } else if letter == 'N' as u8 {
        Element::Nitrogen
    } else if letter == 'O' as u8 {
        Element::Oxygen
    } else {
        Element::Other
    }
}

/// Reads the line `start..end` of the text.
pub fn read_line(text: &[u8], start: usize, end: usize) -> (line: Option<AtomLine>)
    requires
        start <= end <= text.len(),
    ensures
        line == spec_read_line(text@, start as int, end as int),
{
    let len = end - start;
    if len < NAME_LEN {
        return None;
    }
    if !(text[start] == 'A' as u8 && text[start + 1] == 'T' as u8 && text[start + 2] == 'O' as u8
        && text[start + 3] == 'M' as u8 && text[start + 4] == ' ' as u8 && text[start + 5]
        == ' ' as u8) {
        return None;
    }
    if len < ATOM_LINE_LEN {
        return Some(AtomLine::Malformed);
    }
    let at = start + COL_ATOM;
    let backbone = (text[at] == 'N' as u8 || text[at] == 'C' as u8) && text[at + 1] == ' ' as u8
        && text[at + 2] == ' ' as u8;
    let name = vstd::slice::slice_subrange(text, start + COL_RESIDUE, start + COL_RESIDUE + 3);
    Some(
        AtomLine::Fields(
            AtomFields {
                element: element_for(text[at]),
                backbone,
                alt_loc: text[start + COL_ALT_LOC],
                standard_residue: is_standard_residue(name),
                chain_id: text[start + COL_CHAIN],
                residue: Span { start: start + COL_RESIDUE, end: start + COL_RESIDUE + 3 },
                res_seq: Span { start: start + COL_RES_SEQ, end: start + COL_RES_SEQ_END },
                x: Span { start: start + COL_X, end: start + COL_Y },
                y: Span { start: start + COL_Y, end: start + COL_Z },
                z: Span { start: start + COL_Z, end: start + ATOM_LINE_LEN },
            },
        ),
    )
}

/// Cuts the text into lines and returns its atom lines in order, each
/// with its fields or marked as malformed. Lines that do not begin with
/// the record name of an atom are passed over.
pub fn atom_lines(text: &[u8], keep_terminator: bool) -> (lines: Vec<AtomLine>)
    ensures
        lines@ == atom_lines_from(text@, 0, keep_terminator),
{
    let mut lines: Vec<AtomLine> = Vec::new();
    let mut start: usize = 0;
    while start < text.len()
        invariant
            start <= text.len(),
            lines@ + atom_lines_from(text@, start as int, keep_terminator) == atom_lines_from(
                text@,
                0,
                keep_terminator,
            ),
        decreases text.len() - start,
    {
        let end = find_line_end(text, start);
        let stop = if keep_terminator {
            if end < text.len() {
                end + 1
            } else {
                end
            }
        } else if start < end && text[end - 1] == '\r' as u8 {
            end - 1
        } else {
            end
        };
        let ghost rest = if end < text.len() {
            atom_lines_from(text@, end as int + 1, keep_terminator)
        } else {
            Seq::empty()
        };
        let ghost before = lines@;
        match read_line(text, start, stop) {
            Some(line) => {
                lines.push(line);
                assert(lines@ + rest == before + (seq![line] + rest));
            },
            None => {},
        }
        if end < text.len() {
            start = end + 1;
        } else {
            start = end;
        }
    }
    assert(atom_lines_from(text@, start as int, keep_terminator) == Seq::<AtomLine>::empty());
    assert(lines@ + Seq::<AtomLine>::empty() == lines@);
    lines
}

} // verus!
