use errat::atom::{Atom, Element};
use errat::tally::{aggregate, tally_windows, Band, Fraction, Outcome, Verdict};
use errat::window::{windows, Window};

fn scored(slot: usize, score: f64) -> Outcome<f64> {
    let band = if score > 17.190823041860433 {
        Band::Alarm
    } else if score > 11.526684477428809 {
        Band::Caution
    } else {
        Band::Neutral
    };
    Outcome::Scored { slot, score, band }
}

#[test]
fn twenty_windows_two_flagged_give_ninety_percent() {
    let mut outcomes = Vec::new();
    for k in 0..20 {
        let score = if k == 3 || k == 11 { 12.5 } else { 4.0 };
        outcomes.push(scored(5 + k, score));
    }
    let tally = aggregate(&outcomes);
    assert_eq!(tally.scored(), 20);
    assert_eq!(tally.flagged(), 2);
    let q = tally.quality_factor().unwrap();
    assert_eq!(q, Fraction { numerator: 1800, denominator: 20 });
    assert_eq!(q.numerator as f64 / q.denominator as f64, 90.0);
    assert_eq!(100.0 - 100.0 * tally.flagged() as f64 / tally.scored() as f64, 90.0);
}

#[test]
fn window_above_both_limits_is_flagged_once() {
    let outcomes = vec![scored(5, 30.0), scored(6, 12.0), scored(7, 1.0)];
    let tally = aggregate(&outcomes);
    assert_eq!(tally.scored(), 3);
    assert_eq!(tally.flagged(), 2);
    assert_eq!(
        tally.quality_factor(),
        Some(Fraction { numerator: 100, denominator: 3 })
    );
}

#[test]
fn value_at_the_limit_is_not_flagged() {
    let outcomes = vec![scored(5, 11.526684477428809), scored(6, 17.190823041860433)];
    let tally = aggregate(&outcomes);
    assert_eq!(tally.scored(), 2);
    assert_eq!(tally.flagged(), 1);
}

#[test]
fn no_scored_window_no_quality_factor() {
    let outcomes: Vec<Outcome<f64>> = vec![
        Outcome::UnderSampled { residue: 5 },
        Outcome::UnderSampled { residue: 9 },
    ];
    let tally = aggregate(&outcomes);
    assert_eq!(tally.scored(), 0);
    assert_eq!(tally.flagged(), 0);
    assert_eq!(tally.quality_factor(), None);
    assert!(tally.profile().is_empty());
    assert_eq!(tally.under_sampled(), &vec![5, 9]);
}

#[test]
fn profile_holds_each_value_at_its_slot() {
    let outcomes = vec![
        scored(7, 2.5),
        Outcome::UnderSampled { residue: 6 },
        scored(5, 13.0),
        scored(9, 0.25),
    ];
    let tally = aggregate(&outcomes);
    assert_eq!(
        tally.profile(),
        &vec![
            None,
            None,
            None,
            None,
            None,
            Some(13.0),
            None,
            Some(2.5),
            None,
            Some(0.25)
        ]
    );
    assert_eq!(tally.under_sampled(), &vec![6]);
}

#[test]
fn all_flagged_gives_zero() {
    let outcomes = vec![scored(5, 20.0), scored(6, 20.0)];
    let tally = aggregate(&outcomes);
    assert_eq!(
        tally.quality_factor(),
        Some(Fraction { numerator: 0, denominator: 2 })
    );
}

#[test]
fn order_of_outcomes_does_not_matter() {
    let build = |order: &[usize]| {
        let scores = [1.0, 12.0, 18.0, 3.5, 11.6, 0.0];
        let mut outcomes = Vec::new();
        for &k in order {
            if k == 6 {
                outcomes.push(Outcome::UnderSampled { residue: 40 });
            } else {
                outcomes.push(scored(10 + 2 * k, scores[k]));
            }
        }
        aggregate(&outcomes)
    };
    let forward = build(&[0, 1, 2, 3, 4, 5, 6]);
    let backward = build(&[6, 5, 4, 3, 2, 1, 0]);
    let shuffled = build(&[3, 6, 0, 5, 1, 4, 2]);
    for other in [&backward, &shuffled] {
        assert_eq!(forward.scored(), other.scored());
        assert_eq!(forward.flagged(), other.flagged());
        assert_eq!(forward.profile(), other.profile());
        assert_eq!(forward.quality_factor(), other.quality_factor());
        assert_eq!(forward.under_sampled(), other.under_sampled());
    }
    assert_eq!(forward.scored(), 6);
    assert_eq!(forward.flagged(), 3);
    assert_eq!(forward.profile().len(), 21);
    assert_eq!(forward.profile()[14], Some(18.0));
}

#[test]
fn later_value_replaces_an_earlier_one_in_the_same_slot() {
    let outcomes = vec![scored(5, 1.0), scored(5, 2.0)];
    let tally = aggregate(&outcomes);
    assert_eq!(tally.scored(), 2);
    assert_eq!(tally.profile()[5], Some(2.0));
}

fn one_atom_residues(first: i32, last: i32) -> Vec<Atom> {
    (first..=last)
        .map(|r| Atom {
            element: Element::Carbon,
            backbone: false,
            chain_id: b'A',
            res_seq: r,
            resnum: r,
        })
        .collect()
}

#[test]
fn verdicts_go_to_the_slots_of_their_windows() {
    let atoms = one_atom_residues(50, 62);
    let found = windows(&atoms);
    assert_eq!(
        found,
        vec![
            Window { start: 0, end: 9 },
            Window { start: 1, end: 10 },
            Window { start: 2, end: 11 },
            Window { start: 3, end: 12 }
        ]
    );
    let verdicts = vec![
        Verdict::Scored { score: 3.5, band: Band::Neutral },
        Verdict::UnderSampled,
        Verdict::Scored { score: 12.0, band: Band::Caution },
        Verdict::Scored { score: 40.0, band: Band::Alarm },
    ];
    let tally = tally_windows(&atoms, &found, &verdicts);
    assert_eq!(tally.scored(), 3);
    assert_eq!(tally.flagged(), 2);
    // the slot is the global residue number of the first atom plus four
    assert_eq!(tally.profile().len(), 58);
    assert_eq!(tally.profile()[54], Some(3.5));
    assert_eq!(tally.profile()[55], None);
    assert_eq!(tally.profile()[56], Some(12.0));
    assert_eq!(tally.profile()[57], Some(40.0));
    // an under-sampled window is known by its starting residue number
    assert_eq!(tally.under_sampled(), &vec![51]);
    assert_eq!(
        tally.quality_factor(),
        Some(Fraction { numerator: 100, denominator: 3 })
    );
}

#[test]
fn chains_of_fewer_than_ten_residues_score_nothing() {
    // three chains of nine residues each, numbered from one in each
    let mut atoms = Vec::new();
    for (index, id) in [b'A', b'B', b'C'].iter().enumerate() {
        for r in 1..=9 {
            for element in [Element::Nitrogen, Element::Carbon, Element::Oxygen] {
                atoms.push(Atom {
                    element,
                    backbone: element != Element::Oxygen,
                    chain_id: *id,
                    res_seq: r,
                    resnum: r + 10_000 * index as i32,
                });
            }
        }
    }
    let found = windows(&atoms);
    assert!(found.is_empty());
    let verdicts: Vec<Verdict<f64>> = Vec::new();
    let tally = tally_windows(&atoms, &found, &verdicts);
    assert_eq!(tally.scored(), 0);
    assert_eq!(tally.flagged(), 0);
    assert!(tally.profile().is_empty());
    assert!(tally.under_sampled().is_empty());
    assert_eq!(tally.quality_factor(), None);
}
