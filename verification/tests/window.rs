use errat::atom::{Atom, Element};
use errat::tally::{aggregate, Outcome};
use errat::window::{ends_chain_at, scan_window, window_starts, windows, Window};

fn atom(chain_id: u8, res_seq: i32, resnum: i32) -> Atom {
    Atom { element: Element::Carbon, backbone: false, chain_id, res_seq, resnum }
}

/// A single chain with the residues `first..=last`, `per_residue` atoms
/// each.
fn chain(first: i32, last: i32, per_residue: usize) -> Vec<Atom> {
    let mut atoms = Vec::new();
    for r in first..=last {
        for _ in 0..per_residue {
            atoms.push(atom(b'A', r, r));
        }
    }
    atoms
}

#[test]
fn starts_are_the_first_atoms_of_residues() {
    let atoms = chain(1, 4, 3);
    assert_eq!(window_starts(&atoms), vec![0, 3, 6, 9]);
    assert_eq!(window_starts(&Vec::new()), Vec::<usize>::new());
    assert_eq!(window_starts(&chain(7, 7, 5)), vec![0]);
}

#[test]
fn equal_or_lower_residue_number_starts_no_window() {
    let atoms = vec![atom(b'A', 5, 5), atom(b'A', 5, 5), atom(b'A', 4, 4), atom(b'A', 6, 6)];
    assert_eq!(window_starts(&atoms), vec![0, 3]);
}

#[test]
fn window_is_a_run_of_ten_residues() {
    let atoms = chain(1, 12, 2);
    // the tenth atom that closes a residue is the last atom of residue 10
    assert_eq!(scan_window(&atoms, 0), Some(Window { start: 0, end: 19 }));
    assert_eq!(scan_window(&atoms, 2), Some(Window { start: 2, end: 21 }));
    // the tenth residue may be the last of the chain
    assert_eq!(scan_window(&atoms, 4), Some(Window { start: 4, end: 23 }));
    for w in windows(&atoms) {
        let first = atoms[w.start].resnum;
        let last = atoms[w.end].resnum;
        assert_eq!(last - first + 1, 10);
    }
}

#[test]
fn trailing_partial_run_yields_no_window() {
    let atoms = chain(1, 12, 2);
    // from residue 4 on fewer than ten residues are left
    for start in [6, 8, 10, 12, 14, 16, 18, 20, 22] {
        assert_eq!(scan_window(&atoms, start), None, "start {}", start);
    }
    assert_eq!(
        windows(&atoms),
        vec![
            Window { start: 0, end: 19 },
            Window { start: 2, end: 21 },
            Window { start: 4, end: 23 }
        ]
    );
}

#[test]
fn nine_residues_left_give_no_window() {
    // twelve residues of one atom each: from the fourth, nine are left
    let atoms = chain(1, 12, 1);
    assert_eq!(scan_window(&atoms, 2), Some(Window { start: 2, end: 11 }));
    assert_eq!(scan_window(&atoms, 3), None);
}

#[test]
fn ten_residues_give_one_window_and_nine_none() {
    let ten = chain(1, 10, 1);
    assert_eq!(windows(&ten), vec![Window { start: 0, end: 9 }]);
    let nine = chain(1, 9, 1);
    assert_eq!(windows(&nine), Vec::<Window>::new());
    let nine_of_many_atoms = chain(1, 9, 7);
    assert_eq!(windows(&nine_of_many_atoms), Vec::<Window>::new());
}

#[test]
fn chain_of_nine_residues_before_another_chain_gives_no_window() {
    let mut atoms = Vec::new();
    for r in 1..=9 {
        atoms.push(atom(b'A', r, r));
    }
    for r in 1..=30 {
        atoms.push(atom(b'B', r, r + 10_000));
    }
    for start in 0..9 {
        assert_eq!(scan_window(&atoms, start), None, "start {}", start);
    }
    // chain B alone has windows, the first from its first residue
    let found = windows(&atoms);
    assert_eq!(found.len(), 21);
    assert_eq!(found[0], Window { start: 9, end: 18 });
    assert_eq!(found[20], Window { start: 29, end: 38 });
}

#[test]
fn start_beyond_the_atoms_yields_no_window() {
    let atoms = chain(1, 12, 1);
    assert_eq!(scan_window(&atoms, 12), None);
    assert_eq!(scan_window(&atoms, usize::MAX), None);
    assert_eq!(scan_window(&Vec::new(), 0), None);
}

#[test]
fn small_gaps_are_tolerated() {
    // residues 1, 3, 5, ..., 23: every step grows the number by two
    let mut atoms = Vec::new();
    for k in 0..12 {
        atoms.push(atom(b'A', 1 + 2 * k, 1 + 2 * k));
    }
    assert_eq!(scan_window(&atoms, 0), Some(Window { start: 0, end: 9 }));
}

#[test]
fn step_of_the_gap_ceiling_ends_the_chain() {
    // 1..=5, then a step of exactly 100, then 105..=125
    let mut atoms = chain(1, 5, 1);
    atoms.extend(chain(105, 125, 1));
    // the walk from residue 1 counts five residues and stops at residue 5
    assert_eq!(scan_window(&atoms, 0), None);
    // behind the gap windows exist
    assert_eq!(scan_window(&atoms, 5), Some(Window { start: 5, end: 14 }));
    // a step of 99 is a gap within the chain
    let mut atoms = chain(1, 5, 1);
    atoms.extend(chain(104, 114, 1));
    assert_eq!(scan_window(&atoms, 0), Some(Window { start: 0, end: 9 }));
}

#[test]
fn every_chain_has_its_own_windows() {
    // two chains of twelve residues, two atoms each
    let mut atoms = Vec::new();
    for (index, id) in [b'A', b'B'].iter().enumerate() {
        for r in 1..=12 {
            for _ in 0..2 {
                atoms.push(atom(*id, r, r + 10_000 * index as i32));
            }
        }
    }
    assert_eq!(
        windows(&atoms),
        vec![
            Window { start: 0, end: 19 },
            Window { start: 2, end: 21 },
            Window { start: 4, end: 23 },
            Window { start: 24, end: 43 },
            Window { start: 26, end: 45 },
            Window { start: 28, end: 47 }
        ]
    );
}

#[test]
fn walk_does_not_cross_into_the_next_chain() {
    // chain A holds residues 50..=54, chain B residues 100..=120
    let mut atoms = Vec::new();
    for r in 50..=54 {
        atoms.push(atom(b'A', r, r));
    }
    for r in 100..=120 {
        atoms.push(atom(b'B', r, r + 10_000));
    }
    assert_eq!(scan_window(&atoms, 0), None);
    assert_eq!(scan_window(&atoms, 5), Some(Window { start: 5, end: 14 }));
}

#[test]
fn change_of_chain_identifier_ends_the_chain() {
    // the numbers run on from chain A into chain B
    let mut atoms = Vec::new();
    for r in 1..=6 {
        atoms.push(atom(b'A', r, r));
    }
    for r in 7..=20 {
        atoms.push(atom(b'B', r, r));
    }
    assert!(ends_chain_at(&atoms, 5));
    assert!(!ends_chain_at(&atoms, 4));
    assert!(!ends_chain_at(&atoms, 6));
    assert!(ends_chain_at(&atoms, 19));
    assert_eq!(scan_window(&atoms, 0), None);
    assert_eq!(scan_window(&atoms, 6), Some(Window { start: 6, end: 15 }));
    assert_eq!(windows(&atoms).len(), 5);
}

#[test]
fn window_whose_end_has_no_higher_local_number_is_dropped() {
    // the global numbers rise, the local ones do not
    let mut atoms = Vec::new();
    for r in 1..=12 {
        atoms.push(atom(b'A', 5, r));
    }
    assert_eq!(scan_window(&atoms, 0), None);
    assert_eq!(windows(&atoms), Vec::<Window>::new());
}

#[test]
fn falling_residue_number_counts_no_residue() {
    // 1, 2, 3, then back to 2, then 3..=12
    let mut atoms = chain(1, 3, 1);
    atoms.extend(chain(2, 12, 1));
    assert_eq!(window_starts(&atoms), vec![0, 1, 2, 4, 5, 6, 7, 8, 9, 10, 11, 12, 13]);
    // closings from atom 0: atoms 0, 1, then 3, 4, ...: the tenth is atom 10
    assert_eq!(scan_window(&atoms, 0), Some(Window { start: 0, end: 10 }));
}

#[test]
fn structure_with_three_residues_scores_nothing() {
    // N, C, O of three residues
    let mut atoms = Vec::new();
    for r in 1..=3 {
        atoms.push(Atom {
            element: Element::Nitrogen,
            backbone: true,
            chain_id: b'A',
            res_seq: r,
            resnum: r,
        });
        atoms.push(Atom {
            element: Element::Carbon,
            backbone: true,
            chain_id: b'A',
            res_seq: r,
            resnum: r,
        });
        atoms.push(atom(b'A', r, r));
    }
    assert_eq!(windows(&atoms), Vec::<Window>::new());
    let outcomes: Vec<Outcome<f64>> = Vec::new();
    let tally = aggregate(&outcomes);
    assert_eq!(tally.scored(), 0);
    assert_eq!(tally.flagged(), 0);
    assert_eq!(tally.quality_factor(), None);
    assert!(tally.profile().is_empty());
}

#[test]
fn short_chains_yield_no_window_in_any_chain() {
    // three chains of five residues each, numbered from one in each
    let mut atoms = Vec::new();
    for (index, id) in [b'A', b'B', b'C'].iter().enumerate() {
        for r in 1..=5 {
            atoms.push(atom(*id, r, r + 10_000 * index as i32));
        }
    }
    assert_eq!(windows(&atoms), Vec::<Window>::new());
}
