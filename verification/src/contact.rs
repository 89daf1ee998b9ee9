//! The contact classifier: which pairs of atoms a window hands on to be
//! weighted by their distance.

use vstd::prelude::*;
use crate::atom::{Atom, Element};
use crate::grid::{lemma_neighbors_are_atoms_in_reach, neighbors_of, within_reach, Cell, Grid};
use crate::window::Window;

verus! {

/// How many cells around an atom's own cell a query visits along each
/// axis: the cutoff radius of 3.75 does not exceed the cell edge of 4, so
/// one cell is enough.
pub const NEIGHBOR_REACH: u32 = 1;

/// A pair of atoms that a window counts if they lie closer than the
/// cutoff radius. The probe is an atom of the window.
#[derive(Clone, Copy, Debug, PartialEq, Eq, Structural)]
pub struct Contact {
    pub probe: usize,
    pub neighbor: usize,
}

/// Carbon, nitrogen and oxygen take part in the statistics.
pub open spec fn participates(e: Element) -> bool {
    e != Element::Other
}

/// Atoms `a` and `b` are the two ends of a peptide bond between adjacent
/// residues: both are backbone atoms, and one is the carbon of a residue
/// and the other the nitrogen of the residue after it.
pub open spec fn peptide_bond(atoms: Seq<Atom>, a: int, b: int) -> bool {
    &&& atoms[a].backbone
    &&& atoms[b].backbone
    &&& ({
        ||| (atoms[b].resnum == atoms[a].resnum + 1 && atoms[a].element == Element::Carbon
            && atoms[b].element == Element::Nitrogen)
        ||| (atoms[a].resnum == atoms[b].resnum + 1 && atoms[a].element == Element::Nitrogen
            && atoms[b].element == Element::Carbon)
    })
}

/// Atom `i` is one of the window's atoms.
pub open spec fn in_window(w: Window, i: int) -> bool {
    w.start <= i <= w.end
}

/// The window `w` counts the pair of its atom `a` with atom `b`, provided
/// they are close enough: the two belong to different residues, both take
/// part in the statistics, they are not joined by a peptide bond, and if
/// `b` is in the window too, `a` has the higher residue number, so that of
/// the two orders of such a pair only one is counted.
pub open spec fn is_candidate(atoms: Seq<Atom>, w: Window, a: int, b: int) -> bool {
    &&& atoms[a].resnum != atoms[b].resnum
    &&& participates(atoms[a].element)
    &&& participates(atoms[b].element)
    &&& !peptide_bond(atoms, a, b)
    &&& (in_window(w, b) ==> atoms[a].resnum > atoms[b].resnum)
}

/// The pairs that probe `a` forms with the atoms of `near`, in the order
/// of `near`.
pub open spec fn probe_contacts(atoms: Seq<Atom>, w: Window, a: int, near: Seq<usize>) -> Seq<
    Contact,
>
    decreases near.len(),
{
    if near.len() == 0 {
        Seq::empty()
    } else {
        let rest = probe_contacts(atoms, w, a, near.drop_last());
        if is_candidate(atoms, w, a, near.last() as int) {
            rest.push(Contact { probe: a as usize, neighbor: near.last() })
        } else {
            rest
        }
    }
}

/// The pairs of the window's probes before atom `upto`, probe by probe.
pub open spec fn contacts_upto(atoms: Seq<Atom>, homes: Seq<Cell>, w: Window, upto: int) -> Seq<
    Contact,
>
    decreases upto - w.start,
{
    if upto <= w.start {
        Seq::empty()
    } else {
        contacts_upto(atoms, homes, w, upto - 1) + probe_contacts(
            atoms,
            w,
            upto - 1,
            neighbors_of(homes, homes[upto - 1], NEIGHBOR_REACH as int),
        )
    }
}

/// All pairs that window `w` counts if they are close enough: for each of
/// its atoms in turn, the atoms that the grid returns around it, as far as
/// `is_candidate` admits them.
pub open spec fn spec_window_contacts(atoms: Seq<Atom>, homes: Seq<Cell>, w: Window) -> Seq<
    Contact,
> {
    contacts_upto(atoms, homes, w, w.end + 1)
}

fn is_peptide_bond(a: &Atom, b: &Atom) -> (r: bool)
    ensures
        r == (a.backbone && b.backbone && ((b.resnum == a.resnum + 1 && a.element
            == Element::Carbon && b.element == Element::Nitrogen) || (a.resnum == b.resnum + 1
            && a.element == Element::Nitrogen && b.element == Element::Carbon))),
{
    let ra: i64 = a.resnum as i64;
    let rb: i64 = b.resnum as i64;
    a.backbone && b.backbone && ((rb == ra + 1 && a.element == Element::Carbon && b.element
        == Element::Nitrogen) || (ra == rb + 1 && a.element == Element::Nitrogen && b.element
        == Element::Carbon))
}

/// Decides whether window `w` counts its atom `a` against atom `b`.
pub fn counts_pair(atoms: &Vec<Atom>, w: Window, a: usize, b: usize) -> (r: bool)
    requires
        a < atoms.len(),
        b < atoms.len(),
    ensures
        r == is_candidate(atoms@, w, a as int, b as int),
{
    let pa = atoms[a];
    let pb = atoms[b];
    if pa.resnum == pb.resnum {
        return false;
    }
    if pa.element == Element::Other || pb.element == Element::Other {
        return false;
    }
    if is_peptide_bond(&pa, &pb) {
        return false;
    }
    if w.start <= b && b <= w.end {
        pa.resnum > pb.resnum
    } else {
        true
    }
}

/// Lists the pairs that window `w` counts if they are close enough, in
/// the order in which their weights are to be added up: probe by probe
/// through the window, and for each probe the atoms of the surrounding
/// cells in the order of the grid's query.
pub fn window_contacts(atoms: &Vec<Atom>, grid: &Grid, w: Window) -> (out: Vec<Contact>)
    requires
        grid.homes().len() == atoms.len(),
        w.start <= w.end < atoms.len(),
    ensures
        out@ == spec_window_contacts(atoms@, grid.homes(), w),
{
    let mut out: Vec<Contact> = Vec::new();
    let mut a: usize = w.start;
    while a <= w.end
        invariant
            grid.homes().len() == atoms.len(),
            w.start <= a <= w.end + 1,
            w.end < atoms.len(),
            out@ == contacts_upto(atoms@, grid.homes(), w, a as int),
        decreases w.end + 1 - a,
    {
        let near = grid.neighbors(grid.home(a), NEIGHBOR_REACH);
        proof {
            lemma_neighbors_are_atoms_in_reach(
                grid.homes(),
                grid.homes()[a as int],
                NEIGHBOR_REACH as int,
            );
        }
        let ghost before = out@;
        let mut j: usize = 0;
        while j < near.len()
            invariant
                a < atoms.len(),
                j <= near.len(),
                forall|k: int| 0 <= k < near.len() ==> near@.contains(#[trigger] near@[k]),
                forall|v: usize| near@.contains(v) ==> v < atoms.len(),
                out@ == before + probe_contacts(atoms@, w, a as int, near@.take(j as int)),
            decreases near.len() - j,
        {
            let b = near[j];
            assert(near@.contains(near@[j as int]));
            let ghost seen = near@.take(j as int);
            let ghost next = near@.take(j as int + 1);
            assert(next.drop_last() == seen);
            assert(next.last() == b);
            if counts_pair(atoms, w, a, b) {
                out.push(Contact { probe: a, neighbor: b });
                assert(out@ == before + probe_contacts(atoms@, w, a as int, next));
            }
            j = j + 1;
        }
        assert(near@.take(near.len() as int) == near@);
        a = a + 1;
    }
    out
}

/// The two ends of a peptide bond are never counted against each other,
/// whichever of the two is the probe.
pub proof fn lemma_peptide_bond_never_counts(atoms: Seq<Atom>, w: Window, a: int, b: int)
    requires
        peptide_bond(atoms, a, b),
    ensures
        peptide_bond(atoms, b, a),
        !is_candidate(atoms, w, a, b),
        !is_candidate(atoms, w, b, a),
{
}

/// Of the two orders of a pair of atoms that both lie in the window, at
/// most one is counted; and exactly one is, when the two atoms belong to
/// different residues, take part in the statistics and are not joined by a
/// peptide bond.
pub proof fn lemma_pair_in_window_counts_once(atoms: Seq<Atom>, w: Window, a: int, b: int)
    requires
        in_window(w, a),
        in_window(w, b),
    ensures
        !(is_candidate(atoms, w, a, b) && is_candidate(atoms, w, b, a)),
        (is_candidate(atoms, w, a, b) || is_candidate(atoms, w, b, a)) <==> {
            &&& atoms[a].resnum != atoms[b].resnum
            &&& participates(atoms[a].element)
            &&& participates(atoms[b].element)
            &&& !peptide_bond(atoms, a, b)
        },
{
}

proof fn lemma_joined_has(a: Seq<Contact>, b: Seq<Contact>, c: Contact)
    ensures
        (a + b).contains(c) <==> a.contains(c) || b.contains(c),
{
    if a.contains(c) {
        let j = choose|j: int| 0 <= j < a.len() && a[j] == c;
        assert((a + b)[j] == c);
    }
    if b.contains(c) {
        let j = choose|j: int| 0 <= j < b.len() && b[j] == c;
        assert((a + b)[a.len() + j] == c);
    }
    if (a + b).contains(c) {
        let j = choose|j: int| 0 <= j < (a + b).len() && (a + b)[j] == c;
        if j < a.len() {
            assert(a[j] == c);
        } else {
            assert(b[j - a.len()] == c);
        }
    }
}

proof fn lemma_probe_contacts_has(atoms: Seq<Atom>, w: Window, a: int, near: Seq<usize>, c: Contact)
    requires
        0 <= a <= usize::MAX,
    ensures
        probe_contacts(atoms, w, a, near).contains(c) <==> {
            &&& c.probe == a
            &&& near.contains(c.neighbor)
            &&& is_candidate(atoms, w, a, c.neighbor as int)
        },
    decreases near.len(),
{
    if near.len() > 0 {
        let head = near.drop_last();
        let rest = probe_contacts(atoms, w, a, head);
        let all = probe_contacts(atoms, w, a, near);
        lemma_probe_contacts_has(atoms, w, a, head, c);
        if near.contains(c.neighbor) {
            let j = choose|j: int| 0 <= j < near.len() && near[j] == c.neighbor;
            if j < near.len() - 1 {
                assert(head[j] == c.neighbor);
            }
        }
        if head.contains(c.neighbor) {
            let j = choose|j: int| 0 <= j < head.len() && head[j] == c.neighbor;
            assert(near[j] == c.neighbor);
        }
        assert(near[near.len() - 1] == near.last());
        if is_candidate(atoms, w, a, near.last() as int) {
            let made = Contact { probe: a as usize, neighbor: near.last() };
            assert(all == rest.push(made));
            if rest.contains(c) {
                let j = choose|j: int| 0 <= j < rest.len() && rest[j] == c;
                assert(all[j] == c);
            }
            if c == made {
                assert(all[rest.len() as int] == c);
            }
            if all.contains(c) {
                let j = choose|j: int| 0 <= j < all.len() && all[j] == c;
                if j < rest.len() {
                    assert(rest[j] == c);
                }
            }
        }
    }
}

proof fn lemma_contacts_upto_has(
    atoms: Seq<Atom>,
    homes: Seq<Cell>,
    w: Window,
    upto: int,
    c: Contact,
)
    requires
        upto <= usize::MAX + 1,
    ensures
        contacts_upto(atoms, homes, w, upto).contains(c) <==> {
            &&& w.start <= c.probe < upto
            &&& neighbors_of(homes, homes[c.probe as int], NEIGHBOR_REACH as int).contains(
                c.neighbor,
            )
            &&& is_candidate(atoms, w, c.probe as int, c.neighbor as int)
        },
    decreases upto - w.start,
{
    if upto > w.start {
        lemma_contacts_upto_has(atoms, homes, w, upto - 1, c);
        lemma_probe_contacts_has(
            atoms,
            w,
            upto - 1,
            neighbors_of(homes, homes[upto - 1], NEIGHBOR_REACH as int),
            c,
        );
        lemma_joined_has(
            contacts_upto(atoms, homes, w, upto - 1),
            probe_contacts(
                atoms,
                w,
                upto - 1,
                neighbors_of(homes, homes[upto - 1], NEIGHBOR_REACH as int),
            ),
            c,
        );
    }
}

/// A window's list holds a pair exactly when the probe is an atom of the
/// window, the neighbour is an atom whose cell lies within
/// `NEIGHBOR_REACH` of the probe's cell along every axis, and
/// `is_candidate` admits the pair.
pub proof fn lemma_window_contacts_are_candidates_in_reach(
    atoms: Seq<Atom>,
    homes: Seq<Cell>,
    w: Window,
    c: Contact,
)
    requires
        homes.len() == atoms.len(),
        atoms.len() <= usize::MAX,
        w.end < atoms.len(),
    ensures
        spec_window_contacts(atoms, homes, w).contains(c) <==> {
            &&& in_window(w, c.probe as int)
            &&& c.neighbor < atoms.len()
            &&& within_reach(homes[c.neighbor as int], homes[c.probe as int], NEIGHBOR_REACH as int)
            &&& is_candidate(atoms, w, c.probe as int, c.neighbor as int)
        },
{
    lemma_contacts_upto_has(atoms, homes, w, w.end + 1, c);
    lemma_neighbors_are_atoms_in_reach(homes, homes[c.probe as int], NEIGHBOR_REACH as int);
}

} // verus!
