//! Ingestion: which atom records are retained, how chains are told apart
//! and residues numbered, and what ends the analysis.

use vstd::prelude::*;
use crate::atom::{Atom, Element, CHAIN_OFFSET, PROFILE_OFFSET};
use crate::fault::Fatal;
use crate::window::sorted_by_residue;

verus! {

/// The most atoms a structure may hold.
pub const MAX_ATOMS: usize = 249_999;

/// One atom record as read from a structure file, before any rule was
/// applied to it.
#[derive(Clone, Copy, Debug, PartialEq, Eq, Structural)]
pub struct AtomRecord {
    pub element: Element,
    pub backbone: bool,
    /// Alternate-location marker; a blank where the file gives none.
    pub alt_loc: u8,
    /// Whether the residue is one of the twenty standard ones.
    pub standard_residue: bool,
    pub chain_id: u8,
    /// Residue number as written in the chain.
    pub res_seq: i32,
}

/// What became of one record.
#[derive(Clone, Copy, Debug, PartialEq, Eq, Structural)]
pub enum RecordOutcome {
    /// Retained, with nothing to report.
    Accepted,
    /// Retained as the first atom of a further chain, which is the
    /// `chain_index`-th after the first.
    ChainIncrement { chain_index: i32 },
    /// Retained; residues are missing between the atom before it and
    /// this one, whose global residue numbers are `from` and `to`.
    Gap { from: i32, to: i32 },
    /// Dropped: the record was too short to be read.
    RejectedMalformed,
    /// Dropped: the alternate-location marker is not an admitted one.
    RejectedAltLoc,
    /// Dropped: the residue is not a standard one.
    RejectedResidue,
    /// The analysis has ended.
    Fatal(Fatal),
}

/// The three-letter code `name` is that of one of the twenty standard
/// residues.
pub open spec fn standard_residue(name: Seq<u8>) -> bool {
    ||| name == seq!['G' as u8, 'L' as u8, 'Y' as u8]
    ||| name == seq!['A' as u8, 'L' as u8, 'A' as u8]
    ||| name == seq!['V' as u8, 'A' as u8, 'L' as u8]
    ||| name == seq!['L' as u8, 'E' as u8, 'U' as u8]
    ||| name == seq!['I' as u8, 'L' as u8, 'E' as u8]
    ||| name == seq!['T' as u8, 'Y' as u8, 'R' as u8]
    ||| name == seq!['C' as u8, 'Y' as u8, 'S' as u8]
    ||| name == seq!['M' as u8, 'E' as u8, 'T' as u8]
    ||| name == seq!['T' as u8, 'R' as u8, 'P' as u8]
    ||| name == seq!['P' as u8, 'H' as u8, 'E' as u8]
    ||| name == seq!['H' as u8, 'I' as u8, 'S' as u8]
    ||| name == seq!['P' as u8, 'R' as u8, 'O' as u8]
    ||| name == seq!['S' as u8, 'E' as u8, 'R' as u8]
    ||| name == seq!['T' as u8, 'H' as u8, 'R' as u8]
    ||| name == seq!['L' as u8, 'Y' as u8, 'S' as u8]
    ||| name == seq!['A' as u8, 'R' as u8, 'G' as u8]
    ||| name == seq!['G' as u8, 'L' as u8, 'U' as u8]
    ||| name == seq!['A' as u8, 'S' as u8, 'P' as u8]
    ||| name == seq!['G' as u8, 'L' as u8, 'N' as u8]
    ||| name == seq!['A' as u8, 'S' as u8, 'N' as u8]
}

fn is_code(name: &[u8], a: u8, b: u8, c: u8) -> (r: bool)
    requires
        name.len() == 3,
    ensures
        r == (name@ == seq![a, b, c]),
{
    let r = name[0] == a && name[1] == b && name[2] == c;
    proof {
        if r {
            assert(name@ =~= seq![a, b, c]);
        } else {
            assert(seq![a, b, c][0] == a && seq![a, b, c][1] == b && seq![a, b, c][2] == c);
        }
    }
    r
}

/// Whether `res_name` is the three-letter code of a standard residue.
pub fn is_standard_residue(res_name: &[u8]) -> (r: bool)
    ensures
        r == standard_residue(res_name@),
{
    if res_name.len() != 3 {
        assert(forall|a: u8, b: u8, c: u8| (#[trigger] seq![a, b, c]).len() == 3);
        return false;
    }
    is_code(res_name, 'G' as u8, 'L' as u8, 'Y' as u8)
        || is_code(res_name, 'A' as u8, 'L' as u8, 'A' as u8)
        || is_code(res_name, 'V' as u8, 'A' as u8, 'L' as u8)
        || is_code(res_name, 'L' as u8, 'E' as u8, 'U' as u8)
        || is_code(res_name, 'I' as u8, 'L' as u8, 'E' as u8)
        || is_code(res_name, 'T' as u8, 'Y' as u8, 'R' as u8)
        || is_code(res_name, 'C' as u8, 'Y' as u8, 'S' as u8)
        || is_code(res_name, 'M' as u8, 'E' as u8, 'T' as u8)
        || is_code(res_name, 'T' as u8, 'R' as u8, 'P' as u8)
        || is_code(res_name, 'P' as u8, 'H' as u8, 'E' as u8)
        || is_code(res_name, 'H' as u8, 'I' as u8, 'S' as u8)
        || is_code(res_name, 'P' as u8, 'R' as u8, 'O' as u8)
        || is_code(res_name, 'S' as u8, 'E' as u8, 'R' as u8)
        || is_code(res_name, 'T' as u8, 'H' as u8, 'R' as u8)
        || is_code(res_name, 'L' as u8, 'Y' as u8, 'S' as u8)
        || is_code(res_name, 'A' as u8, 'R' as u8, 'G' as u8)
        || is_code(res_name, 'G' as u8, 'L' as u8, 'U' as u8)
        || is_code(res_name, 'A' as u8, 'S' as u8, 'P' as u8)
        || is_code(res_name, 'G' as u8, 'L' as u8, 'N' as u8)
        || is_code(res_name, 'A' as u8, 'S' as u8, 'N' as u8)
}

/// The state of an ingestion, as the rules see it.
pub struct IngestState {
    /// The atoms retained so far.
    pub atoms: Seq<Atom>,
    /// How often the chain identifier has changed from one retained atom
    /// to the next.
    pub chain_index: int,
    /// Why the analysis has ended, once it has.
    pub fault: Option<Fatal>,
}

/// The alternate-location markers of atoms that are kept: none, or the
/// first of the alternatives.
pub open spec fn admitted_alt_loc(c: u8) -> bool {
    c == ' ' as u8 || c == 'A' as u8 || c == 'a' as u8 || c == 'P' as u8
}

/// The record passes the rules that drop single atoms, at a time when
/// the analysis goes on and there is room for one more atom.
pub open spec fn retains(s: IngestState, r: AtomRecord) -> bool {
    &&& s.fault is None
    &&& s.atoms.len() < MAX_ATOMS
    &&& admitted_alt_loc(r.alt_loc)
    &&& r.standard_residue
}

/// The record's chain identifier differs from that of the last retained
/// atom.
pub open spec fn opens_chain(s: IngestState, r: AtomRecord) -> bool {
    s.atoms.len() > 0 && s.atoms.last().chain_id != r.chain_id
}

/// The chain index that the record's atom would have.
pub open spec fn next_chain_index(s: IngestState, r: AtomRecord) -> int {
    if opens_chain(s, r) {
        s.chain_index + 1
    } else {
        s.chain_index
    }
}

/// The global residue number that the record's atom would have.
pub open spec fn global_number(s: IngestState, r: AtomRecord) -> int {
    r.res_seq + next_chain_index(s, r) * CHAIN_OFFSET
}

/// The record can be taken in: if it is to be retained, its global
/// residue number and the profile slot that goes with it can be held.
pub open spec fn admits(s: IngestState, r: AtomRecord) -> bool {
    retains(s, r) ==> -PROFILE_OFFSET <= global_number(s, r) <= i32::MAX - PROFILE_OFFSET
}

/// The record, if retained, continues the chain of the last atom with a
/// lower global residue number than that atom has.
pub open spec fn falls_back(s: IngestState, r: AtomRecord) -> bool {
    &&& s.atoms.len() > 0
    &&& s.atoms.last().chain_id == r.chain_id
    &&& global_number(s, r) < s.atoms.last().resnum
}

/// The atom made from a retained record.
pub open spec fn atom_of(s: IngestState, r: AtomRecord) -> Atom {
    Atom {
        element: r.element,
        backbone: r.backbone,
        chain_id: r.chain_id,
        res_seq: r.res_seq,
        resnum: global_number(s, r) as i32,
    }
}

/// What a retained record is reported as: the beginning of a further
/// chain; or the atom behind a gap, where its residue number exceeds
/// that of the atom before it in its chain by more than one; or nothing
/// in particular.
pub open spec fn retained_as(s: IngestState, r: AtomRecord) -> RecordOutcome {
    if opens_chain(s, r) {
        RecordOutcome::ChainIncrement { chain_index: next_chain_index(s, r) as i32 }
    } else if s.atoms.len() >= 1 && global_number(s, r) - s.atoms.last().resnum > 1 {
        RecordOutcome::Gap { from: s.atoms.last().resnum, to: global_number(s, r) as i32 }
    } else {
        RecordOutcome::Accepted
    }
}

/// One step of the ingestion: the state after the record, and what
/// became of the record.
///
/// Once the analysis has ended nothing changes any more. A record with a
/// marker that is not admitted, or of a residue that is not a standard
/// one, is dropped. Any other record is to be retained: if `MAX_ATOMS`
/// atoms are held already, the analysis ends; if with its number the
/// record falls back behind the last atom of its own chain, the analysis
/// ends; and otherwise its atom is retained.
pub open spec fn step(s: IngestState, r: AtomRecord) -> (IngestState, RecordOutcome) {
    if s.fault is Some {
        (s, RecordOutcome::Fatal(s.fault->0))
    } else if !admitted_alt_loc(r.alt_loc) {
        (s, RecordOutcome::RejectedAltLoc)
    } else if !r.standard_residue {
        (s, RecordOutcome::RejectedResidue)
    } else if s.atoms.len() >= MAX_ATOMS {
        (
            IngestState { fault: Some(Fatal::TooManyAtoms), ..s },
            RecordOutcome::Fatal(Fatal::TooManyAtoms),
        )
    } else if falls_back(s, r) {
        (
            IngestState { fault: Some(Fatal::ResidueDecrease), ..s },
            RecordOutcome::Fatal(Fatal::ResidueDecrease),
        )
    } else {
        (
            IngestState {
                atoms: s.atoms.push(atom_of(s, r)),
                chain_index: next_chain_index(s, r),
                fault: None,
            },
            retained_as(s, r),
        )
    }
}

/// One step of the ingestion for a record that was too short to be read:
/// it is dropped, unless the analysis has ended.
pub open spec fn step_malformed(s: IngestState) -> (IngestState, RecordOutcome) {
    if s.fault is Some {
        (s, RecordOutcome::Fatal(s.fault->0))
    } else {
        (s, RecordOutcome::RejectedMalformed)
    }
}

/// How often the chain identifier changes from one atom to the next
/// among the atoms up to and including atom `i`.
pub open spec fn chain_changes(atoms: Seq<Atom>, i: int) -> int
    decreases i,
{
    if i <= 0 {
        0
    } else {
        chain_changes(atoms, i - 1) + if atoms[i].chain_id != atoms[i - 1].chain_id {
            1int
        } else {
            0int
        }
    }
}

/// Every atom's global residue number is its local one plus
/// `CHAIN_OFFSET` for each chain before its own.
pub open spec fn well_numbered(atoms: Seq<Atom>) -> bool {
    forall|i: int|
        0 <= i < atoms.len() ==> (#[trigger] atoms[i]).resnum == atoms[i].res_seq + chain_changes(
            atoms,
            i,
        ) * CHAIN_OFFSET
}

/// From one atom to the next within a chain the global residue number
/// never falls.
pub open spec fn chain_monotonic(atoms: Seq<Atom>) -> bool {
    forall|i: int|
        0 <= i < atoms.len() - 1 && atoms[i].chain_id == (#[trigger] atoms[i + 1]).chain_id
            ==> atoms[i].resnum <= atoms[i + 1].resnum
}

/// Every atom has a profile slot.
pub open spec fn all_have_slots(atoms: Seq<Atom>) -> bool {
    forall|i: int| 0 <= i < atoms.len() ==> (#[trigger] atoms[i]).spec_profile_slot() is Some
}

/// What holds of the state of every ingestion.
pub open spec fn well_formed(s: IngestState) -> bool {
    &&& s.atoms.len() <= MAX_ATOMS
    &&& s.chain_index == chain_changes(s.atoms, s.atoms.len() - 1)
    &&& 0 <= s.chain_index <= s.atoms.len()
    &&& well_numbered(s.atoms)
    &&& chain_monotonic(s.atoms)
    &&& all_have_slots(s.atoms)
}

proof fn lemma_chain_changes_of_prefix(atoms: Seq<Atom>, more: Seq<Atom>, i: int)
    requires
        i < atoms.len() <= more.len(),
        forall|j: int| 0 <= j < atoms.len() ==> atoms[j] == more[j],
    ensures
        chain_changes(atoms, i) == chain_changes(more, i),
    decreases i,
{
    if i > 0 {
        lemma_chain_changes_of_prefix(atoms, more, i - 1);
    }
}

/// A step from a well-formed state leads to a well-formed state.
pub proof fn lemma_step_keeps_well_formed(s: IngestState, r: AtomRecord)
    requires
        well_formed(s),
        admits(s, r),
    ensures
        well_formed(step(s, r).0),
{
    let t = step(s, r).0;
    if t.atoms != s.atoms {
        let n = s.atoms.len() as int;
        assert(t.atoms == s.atoms.push(atom_of(s, r)));
        assert forall|i: int| 0 <= i < t.atoms.len() implies chain_changes(t.atoms, i) == if i
            < n {
            chain_changes(s.atoms, i)
        } else {
            next_chain_index(s, r)
        } by {
            if i < n {
                lemma_chain_changes_of_prefix(s.atoms, t.atoms, i);
            } else if n > 0 {
                lemma_chain_changes_of_prefix(s.atoms, t.atoms, n - 1);
            }
        }
        assert(well_numbered(t.atoms)) by {
            assert forall|i: int| 0 <= i < t.atoms.len() implies (#[trigger] t.atoms[i]).resnum
                == t.atoms[i].res_seq + chain_changes(t.atoms, i) * CHAIN_OFFSET by {
                if i < n {
                    assert(t.atoms[i] == s.atoms[i]);
                }
            }
        }
        assert(chain_monotonic(t.atoms)) by {
            assert forall|i: int|
                0 <= i < t.atoms.len() - 1 && t.atoms[i].chain_id == (
                #[trigger] t.atoms[i + 1]).chain_id implies t.atoms[i].resnum <= t.atoms[i
                + 1].resnum by {
                if i + 1 < n {
                    assert(t.atoms[i] == s.atoms[i]);
                    assert(t.atoms[i + 1] == s.atoms[i + 1]);
                }
            }
        }
        assert(all_have_slots(t.atoms)) by {
            assert forall|i: int| 0 <= i < t.atoms.len() implies (
            #[trigger] t.atoms[i]).spec_profile_slot() is Some by {
                if i < n {
                    assert(t.atoms[i] == s.atoms[i]);
                }
            }
        }
    }
}

proof fn lemma_later_atom_is_not_lower(atoms: Seq<Atom>, i: int, j: int)
    requires
        well_numbered(atoms),
        chain_monotonic(atoms),
        forall|k: int| 0 <= k < atoms.len() ==> 0 <= (#[trigger] atoms[k]).res_seq < CHAIN_OFFSET,
        0 <= i <= j < atoms.len(),
    ensures
        atoms[i].resnum <= atoms[j].resnum,
    decreases j - i,
{
    if i < j {
        lemma_later_atom_is_not_lower(atoms, i, j - 1);
        let before = atoms[j - 1];
        let here = atoms[j - 1 + 1];
        assert(here == atoms[j]);
        if before.chain_id != here.chain_id {
            assert(chain_changes(atoms, j) == chain_changes(atoms, j - 1) + 1);
            assert(before.resnum == before.res_seq + chain_changes(atoms, j - 1) * CHAIN_OFFSET);
            assert(here.resnum == here.res_seq + chain_changes(atoms, j) * CHAIN_OFFSET);
        }
    }
}

/// The atoms that an ingestion hands out are sorted by their global
/// residue numbers, as long as the local numbers are not negative and
/// stay below the offset between chains: within a chain the numbers
/// never fall, and from one chain to the next the offset lifts them
/// above all that came before.
pub proof fn lemma_ingested_atoms_are_sorted(atoms: Seq<Atom>)
    requires
        well_numbered(atoms),
        chain_monotonic(atoms),
        forall|i: int| 0 <= i < atoms.len() ==> 0 <= (#[trigger] atoms[i]).res_seq < CHAIN_OFFSET,
    ensures
        sorted_by_residue(atoms),
{
    assert forall|i: int, j: int| 0 <= i <= j < atoms.len() implies (#[trigger] atoms[i]).resnum <= (
    #[trigger] atoms[j]).resnum by {
        lemma_later_atom_is_not_lower(atoms, i, j);
    }
}

/// A record that falls back behind the last atom of its own chain ends
/// the analysis, and nothing that comes after an end changes anything.
pub proof fn lemma_decrease_is_fatal(s: IngestState, r: AtomRecord, later: AtomRecord)
    requires
        retains(s, r),
        falls_back(s, r),
    ensures
        step(s, r).1 == RecordOutcome::Fatal(Fatal::ResidueDecrease),
        step(s, r).0.fault == Some(Fatal::ResidueDecrease),
        step(step(s, r).0, later) == (step(s, r).0, RecordOutcome::Fatal(Fatal::ResidueDecrease)),
{
}

/// The running ingestion of one structure.
pub struct Ingest {
    atoms: Vec<Atom>,
    chain_index: i32,
    fault: Option<Fatal>,
}

impl View for Ingest {
    type V = IngestState;

    closed spec fn view(&self) -> IngestState {
        IngestState { atoms: self.atoms@, chain_index: self.chain_index as int, fault: self.fault }
    }
}

impl Ingest {
    /// An ingestion that has seen no record yet.
    pub fn new() -> (ingest: Ingest)
        ensures
            ingest@ == (IngestState { atoms: Seq::empty(), chain_index: 0, fault: None }),
            well_formed(ingest@),
    {
        Ingest { atoms: Vec::new(), chain_index: 0, fault: None }
    }

    /// Whether `push` can take the record in.
    pub fn admits(&self, rec: &AtomRecord) -> (ok: bool)
        requires
            well_formed(self@),
        ensures
            ok == admits(self@, *rec),
    {
        if self.fault.is_some() || self.atoms.len() >= MAX_ATOMS || !is_admitted_alt_loc(
            rec.alt_loc,
        ) || !rec.standard_residue {
            return true;
        }
        let number = self.number_of(rec);
        -(PROFILE_OFFSET as i64) <= number && number <= (i32::MAX - PROFILE_OFFSET) as i64
    }

    /// The global residue number that the record's atom would have.
    pub fn number_of(&self, rec: &AtomRecord) -> (number: i64)
        requires
            well_formed(self@),
        ensures
            number == global_number(self@, *rec),
    {
        let n = self.atoms.len();
        let index: i64 = if n > 0 && self.atoms[n - 1].chain_id != rec.chain_id {
            self.chain_index as i64 + 1
        } else {
            self.chain_index as i64
        };
        rec.res_seq as i64 + index * CHAIN_OFFSET as i64
    }

    /// Takes the next record in, as `step` says.
    pub fn push(&mut self, rec: AtomRecord) -> (outcome: RecordOutcome)
        requires
            well_formed(old(self)@),
            admits(old(self)@, rec),
        ensures
            (final(self)@, outcome) == step(old(self)@, rec),
            well_formed(final(self)@),
    {
        proof {
            lemma_step_keeps_well_formed(self@, rec);
        }
        if let Some(f) = self.fault {
            return RecordOutcome::Fatal(f);
        }
        if !is_admitted_alt_loc(rec.alt_loc) {
            return RecordOutcome::RejectedAltLoc;
        }
        if !rec.standard_residue {
            return RecordOutcome::RejectedResidue;
        }
        let n = self.atoms.len();
        if n >= MAX_ATOMS {
            self.fault = Some(Fatal::TooManyAtoms);
            return RecordOutcome::Fatal(Fatal::TooManyAtoms);
        }
        let number = self.number_of(&rec);
        let resnum = number as i32;
        let opens = n > 0 && self.atoms[n - 1].chain_id != rec.chain_id;
        if n > 0 && !opens && resnum < self.atoms[n - 1].resnum {
            self.fault = Some(Fatal::ResidueDecrease);
            return RecordOutcome::Fatal(Fatal::ResidueDecrease);
        }
        let outcome = if opens {
            RecordOutcome::ChainIncrement { chain_index: self.chain_index + 1 }
        } else if n >= 1 && resnum as i64 - self.atoms[n - 1].resnum as i64 > 1 {
            RecordOutcome::Gap { from: self.atoms[n - 1].resnum, to: resnum }
        } else {
            RecordOutcome::Accepted
        };
        if opens {
            self.chain_index = self.chain_index + 1;
        }
        self.atoms.push(
            Atom {
                element: rec.element,
                backbone: rec.backbone,
                chain_id: rec.chain_id,
                res_seq: rec.res_seq,
                resnum,
            },
        );
        outcome
    }

    /// Takes the next record in if it can be taken in, and says so if it
    /// cannot, in which case nothing changes.
    pub fn offer(&mut self, rec: AtomRecord) -> (outcome: Option<RecordOutcome>)
        requires
            well_formed(old(self)@),
        ensures
            well_formed(final(self)@),
            match outcome {
                Some(o) => admits(old(self)@, rec) && (final(self)@, o) == step(old(self)@, rec),
                None => !admits(old(self)@, rec) && final(self)@ == old(self)@,
            },
    {
        if self.admits(&rec) {
            Some(self.push(rec))
        } else {
            None
        }
    }

    /// Takes note of a record that was too short to be read, as
    /// `step_malformed` says.
    pub fn push_malformed(&self) -> (outcome: RecordOutcome)
        ensures
            (self@, outcome) == step_malformed(self@),
    {
        if let Some(f) = self.fault {
            return RecordOutcome::Fatal(f);
        }
        RecordOutcome::RejectedMalformed
    }

    /// Number of atoms retained so far.
    pub fn atom_count(&self) -> (n: usize)
        ensures
            n == self@.atoms.len(),
    {
        self.atoms.len()
    }

    /// The atom retained last, if any.
    pub fn last_atom(&self) -> (a: Option<Atom>)
        ensures
            a == if self@.atoms.len() > 0 {
                Some(self@.atoms.last())
            } else {
                None
            },
    {
        let n = self.atoms.len();
        if n > 0 {
            Some(self.atoms[n - 1])
        } else {
            None
        }
    }

    /// Why the analysis has ended, if it has.
    pub fn fault(&self) -> (f: Option<Fatal>)
        ensures
            f == self@.fault,
    {
        self.fault
    }

    /// Whether a further table of atom records is to be read: only as
    /// long as the analysis goes on and no atom has been retained. The
    /// first table that yields an atom is the structure.
    pub fn wants_another_table(&self) -> (more: bool)
        ensures
            more == (self@.fault is None && self@.atoms.len() == 0),
    {
        self.fault.is_none() && self.atoms.len() == 0
    }

    /// Ends the ingestion: the retained atoms, or the reason why the
    /// analysis has ended. The atoms handed out are numbered chain by
    /// chain, never fall back within a chain, and have a profile slot
    /// each.
    pub fn finish(self) -> (r: Result<Vec<Atom>, Fatal>)
        requires
            well_formed(self@),
        ensures
            match r {
                Ok(atoms) => {
                    &&& self@.fault is None
                    &&& atoms@ == self@.atoms
                    &&& atoms.len() <= MAX_ATOMS
                    &&& well_numbered(atoms@)
                    &&& chain_monotonic(atoms@)
                    &&& all_have_slots(atoms@)
                },
                Err(f) => self@.fault == Some(f),
            },
    {
        match self.fault {
            Some(f) => Err(f),
            None => Ok(self.atoms),
        }
    }
}

fn is_admitted_alt_loc(c: u8) -> (r: bool)
    ensures
        r == admitted_alt_loc(c),
{
    c == ' ' as u8 || c == 'A' as u8 || c == 'a' as u8 || c == 'P' as u8
}

} // verus!
