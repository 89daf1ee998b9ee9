//! Which of the two file formats a structure file is in, by the
//! extension of its name.

use vstd::prelude::*;
use vstd::string::StringSliceAdditionalSpecFns;

verus! {

/// The format of a structure file.
#[derive(Clone, Copy, Debug, PartialEq, Eq, Structural)]
pub enum Format {
    /// Fixed columns, one record per line.
    FixedColumn,
    /// Tokens, with the atoms in tables of the atom-site category.
    Dictionary,
}

/// The lower-case form of a letter; any other byte as it is.
pub open spec fn lower(c: u8) -> u8 {
    if 'A' as u8 <= c <= 'Z' as u8 {
        (c + 32) as u8
    } else {
        c
    }
}

/// The extension is the given word, in whatever case its letters are.
pub open spec fn is_extension(ext: Seq<u8>, word: &str) -> bool {
    Seq::new(ext.len(), |i: int| lower(ext[i])) == word.spec_bytes()
}

/// The format that goes with an extension: the dictionary format for
/// `cif` and `mmcif`, the fixed-column format for anything else.
pub open spec fn spec_format_for(ext: Seq<u8>) -> Format {
    if is_extension(ext, "cif") || is_extension(ext, "mmcif") {
        Format::Dictionary
    } else {
        Format::FixedColumn
    }
}

/// The extension is one of a structure file: `pdb`, `cif` or `mmcif`.
pub open spec fn spec_is_structure_extension(ext: Seq<u8>) -> bool {
    is_extension(ext, "pdb") || is_extension(ext, "cif") || is_extension(ext, "mmcif")
}

fn has_extension(ext: &[u8], word: &str) -> (r: bool)
    ensures
        r == is_extension(ext@, word),
{
    let w = word.as_bytes();
    let ghost lowered = Seq::new(ext@.len(), |i: int| lower(ext@[i]));
    if ext.len() != w.len() {
        assert(lowered.len() != w@.len());
        return false;
    }
    let mut k: usize = 0;
    while k < ext.len()
        invariant
            k <= ext.len(),
            ext.len() == w.len(),
            w@ == word.spec_bytes(),
            lowered == Seq::new(ext@.len(), |i: int| lower(ext@[i])),
            forall|j: int| 0 <= j < k ==> lowered[j] == w@[j],
        decreases ext.len() - k,
    {
        let c = ext[k];
        let l = if 'A' as u8 <= c && c <= 'Z' as u8 {
            c + 32
        } else {
            c
        };
        if l != w[k] {
            assert(lowered[k as int] != w@[k as int]);
            return false;
        }
        k = k + 1;
    }
    assert(lowered =~= w@);
    true
}

/// Tells the format of a structure file from the extension of its name.
pub fn format_for(ext: &[u8]) -> (f: Format)
    ensures
        f == spec_format_for(ext@),
{
    if has_extension(ext, "cif") || has_extension(ext, "mmcif") {
        Format::Dictionary
    } else {
        Format::FixedColumn
    }
}

/// Whether a file with this extension is taken for a structure file.
pub fn is_structure_extension(ext: &[u8]) -> (r: bool)
    ensures
        r == spec_is_structure_extension(ext@),
{
    has_extension(ext, "pdb") || has_extension(ext, "cif") || has_extension(ext, "mmcif")
}

} // verus!
