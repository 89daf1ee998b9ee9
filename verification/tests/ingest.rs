use errat::atom::{Atom, Element};
use errat::fault::Fatal;
use errat::ingest::{is_standard_residue, AtomRecord, Ingest, RecordOutcome, MAX_ATOMS};
use errat::pdb::{atom_lines, AtomLine};

fn record(chain_id: u8, res_seq: i32) -> AtomRecord {
    AtomRecord {
        element: Element::Carbon,
        backbone: false,
        alt_loc: b' ',
        standard_residue: true,
        chain_id,
        res_seq,
    }
}

fn number_in(text: &[u8], start: usize, end: usize) -> i32 {
    std::str::from_utf8(&text[start..end]).unwrap_or("").trim().parse::<f64>().unwrap_or(0.0) as i32
}

#[test]
fn parse_pdb_rejects_nonstandard_and_altloc() {
    let pdb = b"\
ATOM      1  N   ALA A   1      11.104  13.207   2.100  1.00 20.00           N\n\
ATOM      2  CA  MSE A   2      12.000  13.000   2.000  1.00 20.00           C\n\
ATOM      3  CA BALA A   3      13.000  13.000   2.000  1.00 20.00           C\n";
    let mut ingest = Ingest::new();
    let mut seen = Vec::new();
    for line in atom_lines(pdb.as_ref(), true) {
        match line {
            AtomLine::Malformed => seen.push(ingest.push_malformed()),
            AtomLine::Fields(f) => {
                let rec = f.record(number_in(pdb.as_ref(), f.res_seq.start, f.res_seq.end));
                assert!(ingest.admits(&rec));
                seen.push(ingest.push(rec));
            }
        }
    }
    assert_eq!(
        seen,
        vec![
            RecordOutcome::Accepted,
            RecordOutcome::RejectedResidue,
            RecordOutcome::RejectedAltLoc
        ]
    );
    let data = ingest.finish().unwrap();
    assert_eq!(data.len(), 1);
}

#[test]
fn first_atom_is_numbered_as_written() {
    let mut ingest = Ingest::new();
    assert_eq!(ingest.push(record(b'A', 7)), RecordOutcome::Accepted);
    let atoms = ingest.finish().unwrap();
    assert_eq!(
        atoms,
        vec![Atom {
            element: Element::Carbon,
            backbone: false,
            chain_id: b'A',
            res_seq: 7,
            resnum: 7
        }]
    );
}

#[test]
fn chain_change_adds_the_chain_offset() {
    let mut ingest = Ingest::new();
    assert_eq!(ingest.push(record(b'A', 1)), RecordOutcome::Accepted);
    assert_eq!(ingest.push(record(b'A', 2)), RecordOutcome::Accepted);
    assert_eq!(
        ingest.push(record(b'B', 1)),
        RecordOutcome::ChainIncrement { chain_index: 1 }
    );
    assert_eq!(ingest.push(record(b'B', 2)), RecordOutcome::Accepted);
    assert_eq!(
        ingest.push(record(b'A', 1)),
        RecordOutcome::ChainIncrement { chain_index: 2 }
    );
    let atoms = ingest.finish().unwrap();
    let numbers: Vec<i32> = atoms.iter().map(|a| a.resnum).collect();
    assert_eq!(numbers, vec![1, 2, 10_001, 10_002, 20_001]);
    let local: Vec<i32> = atoms.iter().map(|a| a.res_seq).collect();
    assert_eq!(local, vec![1, 2, 1, 2, 1]);
}

#[test]
fn residue_decrease_is_fatal() {
    let mut ingest = Ingest::new();
    assert_eq!(ingest.push(record(b'A', 5)), RecordOutcome::Accepted);
    assert_eq!(
        ingest.push(record(b'A', 4)),
        RecordOutcome::Fatal(Fatal::ResidueDecrease)
    );
    assert_eq!(
        ingest.push(record(b'A', 6)),
        RecordOutcome::Fatal(Fatal::ResidueDecrease)
    );
    assert_eq!(ingest.push_malformed(), RecordOutcome::Fatal(Fatal::ResidueDecrease));
    assert_eq!(ingest.atom_count(), 1);
    assert_eq!(ingest.finish(), Err(Fatal::ResidueDecrease));
}

#[test]
fn equal_residue_numbers_are_no_decrease() {
    let mut ingest = Ingest::new();
    assert_eq!(ingest.push(record(b'A', 5)), RecordOutcome::Accepted);
    assert_eq!(ingest.push(record(b'A', 5)), RecordOutcome::Accepted);
    assert_eq!(ingest.finish().unwrap().len(), 2);
}

#[test]
fn lower_number_in_a_new_chain_is_no_decrease() {
    let mut ingest = Ingest::new();
    assert_eq!(ingest.push(record(b'A', 500)), RecordOutcome::Accepted);
    assert_eq!(
        ingest.push(record(b'B', 1)),
        RecordOutcome::ChainIncrement { chain_index: 1 }
    );
    assert_eq!(ingest.finish().unwrap()[1].resnum, 10_001);
}

#[test]
fn gap_within_a_chain_is_reported() {
    let mut ingest = Ingest::new();
    assert_eq!(ingest.push(record(b'A', 1)), RecordOutcome::Accepted);
    assert_eq!(
        ingest.push(record(b'A', 5)),
        RecordOutcome::Gap { from: 1, to: 5 }
    );
    assert_eq!(ingest.push(record(b'A', 6)), RecordOutcome::Accepted);
    assert_eq!(ingest.push(record(b'A', 6)), RecordOutcome::Accepted);
    assert_eq!(
        ingest.push(record(b'A', 9)),
        RecordOutcome::Gap { from: 6, to: 9 }
    );
    // the first atom of a chain is the beginning of a chain, not the end of a gap
    assert_eq!(
        ingest.push(record(b'B', 40)),
        RecordOutcome::ChainIncrement { chain_index: 1 }
    );
    assert_eq!(
        ingest.push(record(b'B', 42)),
        RecordOutcome::Gap { from: 10_040, to: 10_042 }
    );
    assert_eq!(ingest.finish().unwrap().len(), 7);
}

#[test]
fn alternate_location_markers() {
    for marker in [b' ', b'A', b'a', b'P'] {
        let mut ingest = Ingest::new();
        let rec = AtomRecord { alt_loc: marker, ..record(b'A', 1) };
        assert_eq!(ingest.push(rec), RecordOutcome::Accepted);
    }
    for marker in [b'B', b'b', b'p', b'1', b'.', 0u8, 200u8] {
        let mut ingest = Ingest::new();
        let rec = AtomRecord { alt_loc: marker, ..record(b'A', 1) };
        assert_eq!(ingest.push(rec), RecordOutcome::RejectedAltLoc);
        assert_eq!(ingest.atom_count(), 0);
    }
}

#[test]
fn marker_is_judged_before_residue() {
    let mut ingest = Ingest::new();
    let rec = AtomRecord { alt_loc: b'B', standard_residue: false, ..record(b'A', 1) };
    assert_eq!(ingest.push(rec), RecordOutcome::RejectedAltLoc);
    let rec = AtomRecord { standard_residue: false, ..record(b'A', 1) };
    assert_eq!(ingest.push(rec), RecordOutcome::RejectedResidue);
    assert_eq!(ingest.finish().unwrap().len(), 0);
}

#[test]
fn rejected_atoms_do_not_break_a_chain() {
    let mut ingest = Ingest::new();
    assert_eq!(ingest.push(record(b'A', 1)), RecordOutcome::Accepted);
    let other_chain = AtomRecord { standard_residue: false, ..record(b'B', 1) };
    assert_eq!(ingest.push(other_chain), RecordOutcome::RejectedResidue);
    assert_eq!(ingest.push(record(b'A', 2)), RecordOutcome::Accepted);
    let atoms = ingest.finish().unwrap();
    assert_eq!(atoms[1].resnum, 2);
}

#[test]
fn full_structure_is_accepted() {
    let mut ingest = Ingest::new();
    for _ in 0..MAX_ATOMS {
        assert_eq!(ingest.push(record(b'A', 1)), RecordOutcome::Accepted);
    }
    assert_eq!(ingest.finish().unwrap().len(), 249_999);
}

#[test]
fn too_many_atoms_is_fatal() {
    let mut ingest = Ingest::new();
    for _ in 0..MAX_ATOMS {
        assert_eq!(ingest.push(record(b'A', 1)), RecordOutcome::Accepted);
    }
    assert_eq!(ingest.atom_count(), 249_999);
    // records that are dropped do not count
    let rejected = AtomRecord { alt_loc: b'B', ..record(b'A', 1) };
    assert_eq!(ingest.push(rejected), RecordOutcome::RejectedAltLoc);
    assert_eq!(ingest.push_malformed(), RecordOutcome::RejectedMalformed);
    assert_eq!(ingest.push(record(b'A', 1)), RecordOutcome::Fatal(Fatal::TooManyAtoms));
    assert_eq!(ingest.push(rejected), RecordOutcome::Fatal(Fatal::TooManyAtoms));
    assert_eq!(ingest.finish(), Err(Fatal::TooManyAtoms));
}

#[test]
fn malformed_record_is_dropped() {
    let mut ingest = Ingest::new();
    assert_eq!(ingest.push_malformed(), RecordOutcome::RejectedMalformed);
    assert_eq!(ingest.push(record(b'A', 1)), RecordOutcome::Accepted);
    assert_eq!(ingest.push_malformed(), RecordOutcome::RejectedMalformed);
    assert_eq!(ingest.finish().unwrap().len(), 1);
}

#[test]
fn records_without_a_profile_slot_are_not_admitted() {
    let ingest = Ingest::new();
    assert!(ingest.admits(&record(b'A', -4)));
    assert!(!ingest.admits(&record(b'A', -5)));
    assert!(ingest.admits(&record(b'A', i32::MAX - 4)));
    assert!(!ingest.admits(&record(b'A', i32::MAX - 3)));
    // a record that is dropped anyway is admitted whatever its number
    let dropped = AtomRecord { alt_loc: b'B', ..record(b'A', -500) };
    assert!(ingest.admits(&dropped));
}

#[test]
fn offer_refuses_what_is_not_admitted() {
    let mut ingest = Ingest::new();
    assert_eq!(ingest.offer(record(b'A', -5)), None);
    assert_eq!(ingest.atom_count(), 0);
    assert_eq!(ingest.offer(record(b'A', -4)), Some(RecordOutcome::Accepted));
    assert_eq!(ingest.offer(record(b'A', i32::MAX - 3)), None);
    let dropped = AtomRecord { standard_residue: false, ..record(b'A', i32::MAX) };
    assert_eq!(ingest.offer(dropped), Some(RecordOutcome::RejectedResidue));
    assert_eq!(ingest.offer(record(b'B', i32::MAX - 10_004)), Some(RecordOutcome::ChainIncrement { chain_index: 1 }));
    assert_eq!(ingest.offer(record(b'C', i32::MAX - 20_003)), None);
    assert_eq!(ingest.fault(), None);
    assert_eq!(ingest.finish().unwrap().len(), 2);
}

#[test]
fn lowest_admitted_number_has_slot_zero() {
    let mut ingest = Ingest::new();
    assert_eq!(ingest.push(record(b'A', -4)), RecordOutcome::Accepted);
    let atoms = ingest.finish().unwrap();
    assert_eq!(atoms[0].profile_slot(), Some(0));
}

#[test]
fn profile_slot_is_residue_number_plus_four() {
    let atom = |resnum: i32| Atom {
        element: Element::Carbon,
        backbone: false,
        chain_id: b'A',
        res_seq: resnum,
        resnum,
    };
    assert_eq!(atom(1).profile_slot(), Some(5));
    assert_eq!(atom(10_017).profile_slot(), Some(10_021));
    assert_eq!(atom(-4).profile_slot(), Some(0));
    assert_eq!(atom(-5).profile_slot(), None);
    assert_eq!(atom(i32::MAX).profile_slot(), Some(i32::MAX as usize + 4));
}

#[test]
fn standard_residues() {
    for name in [
        "GLY", "ALA", "VAL", "LEU", "ILE", "TYR", "CYS", "MET", "TRP", "PHE", "HIS", "PRO", "SER",
        "THR", "LYS", "ARG", "GLU", "ASP", "GLN", "ASN",
    ] {
        assert!(is_standard_residue(name.as_bytes()), "{}", name);
    }
    for name in ["MSE", "HOH", "ala", "AL", "ALAA", "", "GLX", " DA", "UNK"] {
        assert!(!is_standard_residue(name.as_bytes()), "{}", name);
    }
}

#[test]
fn element_index() {
    assert_eq!(Element::Other.index(), 0);
    assert_eq!(Element::Carbon.index(), 1);
    assert_eq!(Element::Nitrogen.index(), 2);
    assert_eq!(Element::Oxygen.index(), 3);
}
