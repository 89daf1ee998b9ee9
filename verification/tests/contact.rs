use errat::atom::{Atom, Element};
use errat::contact::{counts_pair, window_contacts, Contact, NEIGHBOR_REACH};
use errat::grid::{Cell, Grid};
use errat::window::Window;

fn atom(element: Element, backbone: bool, resnum: i32) -> Atom {
    Atom { element, backbone, chain_id: b'A', res_seq: resnum, resnum }
}

fn side(element: Element, resnum: i32) -> Atom {
    atom(element, false, resnum)
}

#[test]
fn reach_is_one_cell() {
    assert_eq!(NEIGHBOR_REACH, 1);
}

#[test]
fn peptide_bond_counts_in_neither_direction() {
    // C of residue 1 and N of residue 2, both backbone atoms
    let atoms = vec![
        atom(Element::Carbon, true, 1),
        atom(Element::Nitrogen, true, 2),
    ];
    let inside = Window { start: 0, end: 1 };
    assert!(!counts_pair(&atoms, inside, 0, 1));
    assert!(!counts_pair(&atoms, inside, 1, 0));
    // whether or not the neighbour lies in the window
    let first_only = Window { start: 0, end: 0 };
    assert!(!counts_pair(&atoms, first_only, 0, 1));
    let second_only = Window { start: 1, end: 1 };
    assert!(!counts_pair(&atoms, second_only, 1, 0));
}

#[test]
fn only_the_true_peptide_bond_is_left_out() {
    let w = Window { start: 0, end: 0 };
    // N of residue 1 and C of residue 2: the wrong way round for a bond
    let atoms = vec![atom(Element::Nitrogen, true, 1), atom(Element::Carbon, true, 2)];
    assert!(counts_pair(&atoms, w, 0, 1));
    // C and N two residues apart
    let atoms = vec![atom(Element::Carbon, true, 1), atom(Element::Nitrogen, true, 3)];
    assert!(counts_pair(&atoms, w, 0, 1));
    // one of the two is no backbone atom
    let atoms = vec![atom(Element::Carbon, true, 1), atom(Element::Nitrogen, false, 2)];
    assert!(counts_pair(&atoms, w, 0, 1));
    let atoms = vec![atom(Element::Carbon, false, 1), atom(Element::Nitrogen, true, 2)];
    assert!(counts_pair(&atoms, w, 0, 1));
    // two backbone carbons of adjacent residues
    let atoms = vec![atom(Element::Carbon, true, 1), atom(Element::Carbon, true, 2)];
    assert!(counts_pair(&atoms, w, 0, 1));
}

#[test]
fn atoms_of_one_residue_are_no_contact() {
    let atoms = vec![side(Element::Carbon, 7), side(Element::Oxygen, 7)];
    let w = Window { start: 0, end: 0 };
    assert!(!counts_pair(&atoms, w, 0, 1));
    assert!(!counts_pair(&atoms, w, 0, 0));
}

#[test]
fn other_elements_take_no_part() {
    let atoms = vec![
        side(Element::Other, 1),
        side(Element::Carbon, 2),
        side(Element::Other, 3),
    ];
    let w = Window { start: 1, end: 1 };
    assert!(!counts_pair(&atoms, w, 1, 0));
    assert!(!counts_pair(&atoms, w, 1, 2));
    let w = Window { start: 0, end: 0 };
    assert!(!counts_pair(&atoms, w, 0, 1));
}

#[test]
fn pair_inside_the_window_counts_once() {
    let atoms = vec![side(Element::Carbon, 1), side(Element::Oxygen, 2)];
    let w = Window { start: 0, end: 1 };
    // only the atom with the higher residue number counts the pair
    assert!(!counts_pair(&atoms, w, 0, 1));
    assert!(counts_pair(&atoms, w, 1, 0));
}

#[test]
fn pair_with_an_atom_outside_the_window_always_counts() {
    let atoms = vec![
        side(Element::Carbon, 1),
        side(Element::Oxygen, 2),
        side(Element::Nitrogen, 3),
    ];
    let w = Window { start: 1, end: 1 };
    // lower and higher residue number alike
    assert!(counts_pair(&atoms, w, 1, 0));
    assert!(counts_pair(&atoms, w, 1, 2));
}

#[test]
fn contacts_come_probe_by_probe_in_query_order() {
    // residues 1, 2, 3 in cells along x; residue 4 far away
    let atoms = vec![
        side(Element::Carbon, 1),
        side(Element::Nitrogen, 2),
        side(Element::Oxygen, 2),
        side(Element::Carbon, 3),
        side(Element::Carbon, 4),
    ];
    let homes = vec![
        Cell { x: 0, y: 0, z: 0 },
        Cell { x: 1, y: 0, z: 0 },
        Cell { x: 1, y: 0, z: 0 },
        Cell { x: 2, y: 0, z: 0 },
        Cell { x: 4, y: 0, z: 0 },
    ];
    let grid = Grid::build(homes).unwrap();
    // the window holds residues 2 and 3
    let w = Window { start: 1, end: 3 };
    let contacts = window_contacts(&atoms, &grid, w);
    assert_eq!(
        contacts,
        vec![
            // atom 1 (residue 2): atom 0 lies outside the window; atom 2 is
            // of the same residue; atom 3 is in the window and higher
            Contact { probe: 1, neighbor: 0 },
            Contact { probe: 2, neighbor: 0 },
            // atom 3 (residue 3): atoms 1 and 2 are in the window and lower;
            // atom 4 is out of reach
            Contact { probe: 3, neighbor: 1 },
            Contact { probe: 3, neighbor: 2 },
        ]
    );
}

#[test]
fn contacts_leave_out_the_peptide_bond() {
    let atoms = vec![
        atom(Element::Nitrogen, true, 1),
        atom(Element::Carbon, true, 1),
        atom(Element::Nitrogen, true, 2),
        atom(Element::Carbon, true, 2),
    ];
    let grid = Grid::build(vec![Cell { x: 0, y: 0, z: 0 }; 4]).unwrap();
    let w = Window { start: 0, end: 3 };
    let contacts = window_contacts(&atoms, &grid, w);
    // of the four pairs across the two residues, C1-N2 is the bond; the
    // other three are counted once each, by the atom of residue 2
    assert_eq!(
        contacts,
        vec![
            Contact { probe: 2, neighbor: 0 },
            Contact { probe: 3, neighbor: 0 },
            Contact { probe: 3, neighbor: 1 },
        ]
    );
}

#[test]
fn atoms_out_of_reach_are_no_candidates() {
    let atoms = vec![side(Element::Carbon, 1), side(Element::Carbon, 2)];
    let grid = Grid::build(vec![Cell { x: 0, y: 0, z: 0 }, Cell { x: 0, y: 2, z: 0 }]).unwrap();
    let w = Window { start: 0, end: 1 };
    assert_eq!(window_contacts(&atoms, &grid, w), Vec::<Contact>::new());
    let grid = Grid::build(vec![Cell { x: 0, y: 0, z: 0 }, Cell { x: 1, y: 1, z: 1 }]).unwrap();
    assert_eq!(
        window_contacts(&atoms, &grid, w),
        vec![Contact { probe: 1, neighbor: 0 }]
    );
}

#[test]
fn grid_finds_every_pair_within_the_cutoff() {
    // 180 atoms at scattered positions in a box of 24 by 20 by 16, three
    // atoms to a residue
    let mut state: u64 = 0x2545_f491_4f6c_dd1d;
    let mut next = |range: f64| {
        state ^= state << 13;
        state ^= state >> 7;
        state ^= state << 17;
        (state % 1_000_000) as f64 / 1_000_000.0 * range
    };
    let elements = [Element::Carbon, Element::Nitrogen, Element::Oxygen, Element::Other];
    let mut atoms = Vec::new();
    let mut xyz = Vec::new();
    for k in 0..180 {
        let resnum = 1 + (k / 3) as i32;
        atoms.push(atom(elements[k % 4], k % 3 != 2, resnum));
        xyz.push([next(24.0), next(20.0), next(16.0)]);
    }
    let mut min = [f64::MAX; 3];
    for p in &xyz {
        for k in 0..3 {
            min[k] = min[k].min(p[k]);
        }
    }
    let cell = |v: f64, k: usize| ((v - (min[k] - 0.00001)) / 4.0).floor() as u32;
    let homes: Vec<Cell> =
        xyz.iter().map(|p| Cell { x: cell(p[0], 0), y: cell(p[1], 1), z: cell(p[2], 2) }).collect();
    let grid = Grid::build(homes).unwrap();
    let close = |a: usize, b: usize| {
        let d: f64 = (0..3).map(|k| (xyz[a][k] - xyz[b][k]).powi(2)).sum();
        d < 3.75 * 3.75
    };
    let mut found_any = false;
    for w in [Window { start: 0, end: 26 }, Window { start: 60, end: 86 }, Window { start: 150, end: 179 }] {
        let mut by_grid: Vec<(usize, usize)> = window_contacts(&atoms, &grid, w)
            .iter()
            .filter(|c| close(c.probe, c.neighbor))
            .map(|c| (c.probe, c.neighbor))
            .collect();
        let mut by_search = Vec::new();
        for a in w.start..=w.end {
            for b in 0..atoms.len() {
                if close(a, b) && counts_pair(&atoms, w, a, b) {
                    by_search.push((a, b));
                }
            }
        }
        found_any = found_any || !by_search.is_empty();
        by_grid.sort();
        by_search.sort();
        assert_eq!(by_grid, by_search);
    }
    assert!(found_any);
}
