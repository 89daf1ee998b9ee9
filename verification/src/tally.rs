//! The aggregator: from the outcomes of the scored windows to the error
//! profile and the figures for the whole structure.
//!
//! The library does no arithmetic on error values. It is generic in their
//! type `T`; whoever computes a value also says in which band it lies.

use vstd::prelude::*;
use crate::atom::Atom;
use crate::window::{
    lemma_listed_window_starts_a_residue, lemma_listed_windows_ascend,
    lemma_windows_have_distinct_slots, sorted_by_residue, windows_upto, Window,
};

verus! {

/// Where an error value lies relative to the two confidence limits.
#[derive(Clone, Copy, Debug, PartialEq, Eq, Structural)]
pub enum Band {
    /// Not above the 95% limit.
    Neutral,
    /// Above the 95% limit, not above the 99% limit.
    Caution,
    /// Above the 99% limit.
    Alarm,
}

/// What became of one window.
#[derive(Debug)]
pub enum Outcome<T> {
    /// The window had too few contacts to be scored; `residue` is the
    /// global residue number with which it starts.
    UnderSampled { residue: i32 },
    /// The window was scored; `slot` is the profile slot of its first
    /// residue.
    Scored { slot: usize, score: T, band: Band },
}

/// The window counts towards the flagged windows: it was scored and its
/// value exceeds the 95% limit. A value above the 99% limit counts once,
/// like any other.
pub open spec fn is_flagged<T>(o: Outcome<T>) -> bool {
    o matches Outcome::Scored { band, .. } && band != Band::Neutral
}

/// Number of outcomes among `s` of which `p` holds.
pub open spec fn count_where<T>(s: Seq<Outcome<T>>, p: spec_fn(Outcome<T>) -> bool) -> nat
    decreases s.len(),
{
    if s.len() == 0 {
        0
    } else {
        count_where(s.drop_last(), p) + if p(s.last()) {
            1nat
        } else {
            0nat
        }
    }
}

/// Number of scored windows among `s`.
pub open spec fn scored_count<T>(s: Seq<Outcome<T>>) -> nat {
    count_where(s, |o: Outcome<T>| o is Scored)
}

/// Number of flagged windows among `s`.
pub open spec fn flagged_count<T>(s: Seq<Outcome<T>>) -> nat {
    count_where(s, |o: Outcome<T>| is_flagged(o))
}

/// The starting residue numbers of the under-sampled windows among `s`,
/// in order.
pub open spec fn under_sampled_residues<T>(s: Seq<Outcome<T>>) -> Seq<i32>
    decreases s.len(),
{
    if s.len() == 0 {
        Seq::empty()
    } else {
        let rest = under_sampled_residues(s.drop_last());
        match s.last() {
            Outcome::UnderSampled { residue } => rest.push(residue),
            Outcome::Scored { .. } => rest,
        }
    }
}

/// The profile `p`, grown with empty slots until it has at least `n`.
pub open spec fn padded<T>(p: Seq<Option<T>>, n: int) -> Seq<Option<T>> {
    if p.len() >= n {
        p
    } else {
        p + Seq::new((n - p.len()) as nat, |i: int| None)
    }
}

/// The error profile after the outcomes `s` were written to it one after
/// the other: each scored window puts its value into its slot, and the
/// profile grows as far as the slots require.
pub open spec fn profile_of<T>(s: Seq<Outcome<T>>) -> Seq<Option<T>>
    decreases s.len(),
{
    if s.len() == 0 {
        Seq::empty()
    } else {
        let p = profile_of(s.drop_last());
        match s.last() {
            Outcome::UnderSampled { .. } => p,
            Outcome::Scored { slot, score, .. } => padded(p, slot + 1).update(
                slot as int,
                Some(score),
            ),
        }
    }
}

/// What a profile holds at a slot; nothing beyond its end.
pub open spec fn entry<T>(p: Seq<Option<T>>, slot: int) -> Option<T> {
    if 0 <= slot < p.len() {
        p[slot]
    } else {
        None
    }
}

/// No two scored windows among `s` share a slot.
pub open spec fn distinct_slots<T>(s: Seq<Outcome<T>>) -> bool {
    forall|j: int, k: int|
        0 <= j < s.len() && 0 <= k < s.len() && j != k && (#[trigger] s[j]) is Scored && (
        #[trigger] s[k]) is Scored ==> s[j]->slot != s[k]->slot
}

/// The overall quality factor as an exact fraction: the hundredfold of the
/// windows that were not flagged, over the windows that were scored.
#[derive(Clone, Copy, Debug, PartialEq, Eq, Structural)]
pub struct Fraction {
    pub numerator: u128,
    pub denominator: u128,
}

/// The figures for a whole structure.
pub struct Tally<T> {
    scored: usize,
    flagged: usize,
    profile: Vec<Option<T>>,
    under_sampled: Vec<i32>,
}

impl<T> Tally<T> {
    #[verifier::type_invariant]
    spec fn wf(self) -> bool {
        self.flagged <= self.scored
    }

    /// Number of windows that were scored.
    pub closed spec fn spec_scored(&self) -> nat {
        self.scored as nat
    }

    /// Number of scored windows whose value exceeds the 95% limit.
    pub closed spec fn spec_flagged(&self) -> nat {
        self.flagged as nat
    }

    /// The error profile, by slot.
    pub closed spec fn spec_profile(&self) -> Seq<Option<T>> {
        self.profile@
    }

    /// The starting residue numbers of the under-sampled windows, in the
    /// order in which they came.
    pub closed spec fn spec_under_sampled(&self) -> Seq<i32> {
        self.under_sampled@
    }

    /// Number of windows that were scored.
    pub fn scored(&self) -> (n: usize)
        ensures
            n == self.spec_scored(),
    {
        self.scored
    }

    /// Number of scored windows whose value exceeds the 95% limit.
    pub fn flagged(&self) -> (n: usize)
        ensures
            n == self.spec_flagged(),
            n <= self.spec_scored(),
    {
        proof {
            use_type_invariant(self);
        }
        self.flagged
    }

    /// The error profile: for each slot the value written there, if any.
    pub fn profile(&self) -> (p: &Vec<Option<T>>)
        ensures
            p@ == self.spec_profile(),
    {
        &self.profile
    }

    /// The starting residue numbers of the under-sampled windows, in the
    /// order in which they came.
    pub fn under_sampled(&self) -> (f: &Vec<i32>)
        ensures
            f@ == self.spec_under_sampled(),
    {
        &self.under_sampled
    }

    /// The overall quality factor, `100 - 100 * flagged / scored`, as the
    /// fraction `100 * (scored - flagged) / scored`. There is none when no
    /// window was scored.
    pub fn quality_factor(&self) -> (q: Option<Fraction>)
        ensures
            self.spec_scored() == 0 <==> q is None,
            q matches Some(f) ==> {
                &&& f.denominator == self.spec_scored()
                &&& f.numerator == 100 * (self.spec_scored() - self.spec_flagged())
                &&& f.numerator + 100 * self.spec_flagged() == 100 * f.denominator
            },
    {
        proof {
            use_type_invariant(self);
        }
        if self.scored == 0 {
            None
        } else {
            let passing: u128 = (self.scored - self.flagged) as u128;
            Some(Fraction { numerator: 100 * passing, denominator: self.scored as u128 })
        }
    }
}

/// Works through the outcomes in the order given: counts the scored
/// windows, counts once each scored window whose band is not `Neutral`,
/// writes each value into its slot of the profile, and collects the
/// starting residue numbers of the under-sampled windows.
pub fn aggregate<T: Copy>(outcomes: &Vec<Outcome<T>>) -> (t: Tally<T>)
    ensures
        t.spec_scored() == scored_count(outcomes@),
        t.spec_flagged() == flagged_count(outcomes@),
        t.spec_flagged() <= t.spec_scored() <= outcomes.len(),
        t.spec_profile() == profile_of(outcomes@),
        t.spec_under_sampled() == under_sampled_residues(outcomes@),
{
    let n = outcomes.len();
    let mut scored: usize = 0;
    let mut flagged: usize = 0;
    let mut profile: Vec<Option<T>> = Vec::new();
    let mut under_sampled: Vec<i32> = Vec::new();
    let mut i: usize = 0;
    while i < n
        invariant
            n == outcomes.len(),
            i <= n,
            flagged <= scored <= i,
            scored == scored_count(outcomes@.take(i as int)),
            flagged == flagged_count(outcomes@.take(i as int)),
            profile@ == profile_of(outcomes@.take(i as int)),
            under_sampled@ == under_sampled_residues(outcomes@.take(i as int)),
        decreases n - i,
    {
        proof {
            assert(outcomes@.take(i as int + 1).drop_last() == outcomes@.take(i as int));
            assert(outcomes@.take(i as int + 1).last() == outcomes@[i as int]);
        }
        match outcomes[i] {
            Outcome::UnderSampled { residue } => {
                under_sampled.push(residue);
            },
            Outcome::Scored { slot, score, band } => {
                scored = scored + 1;
                match band {
                    Band::Neutral => {},
                    Band::Caution => {
                        flagged = flagged + 1;
                    },
                    Band::Alarm => {
                        flagged = flagged + 1;
                    },
                }
                let ghost before = profile@;
                while profile.len() <= slot
                    invariant
                        before.len() <= profile.len(),
                        profile.len() <= slot + 1 || profile@ == before,
                        forall|k: int| 0 <= k < before.len() ==> profile@[k] == before[k],
                        forall|k: int| before.len() <= k < profile.len() ==> profile@[k] is None,
                    decreases slot + 1 - profile.len(),
                {
                    profile.push(None);
                }
                assert(profile@ =~= padded(before, slot + 1));
                profile[slot] = Some(score);
            },
        }
        i = i + 1;
    }
    assert(outcomes@.take(n as int) == outcomes@);
    Tally { scored, flagged, profile, under_sampled }
}

/// What the scoring of one window gave.
#[derive(Debug)]
pub enum Verdict<T> {
    /// The window had too few contacts to be scored.
    UnderSampled,
    /// The window's error value, and the band in which it lies.
    Scored { score: T, band: Band },
}

/// What a verdict makes of a window: an error value goes to the profile
/// slot of the window's first atom; an under-sampled window is known by
/// the global residue number of its first atom.
pub open spec fn outcome_of<T>(atoms: Seq<Atom>, w: Window, verdict: Verdict<T>) -> Outcome<T> {
    match verdict {
        Verdict::UnderSampled => Outcome::UnderSampled { residue: atoms[w.start as int].resnum },
        Verdict::Scored { score, band } => Outcome::Scored {
            slot: atoms[w.start as int].spec_profile_slot()->0,
            score,
            band,
        },
    }
}

/// The outcomes of the windows with their verdicts, window by window.
pub open spec fn outcomes_of<T>(
    atoms: Seq<Atom>,
    windows: Seq<Window>,
    verdicts: Seq<Verdict<T>>,
) -> Seq<Outcome<T>> {
    Seq::new(windows.len(), |k: int| outcome_of(atoms, windows[k], verdicts[k]))
}

/// Gathers the verdicts on the windows of a structure into the figures
/// for the structure: each window's outcome is made from its verdict,
/// and the outcomes are worked through in the order of the windows.
/// Where there is no window, nothing is scored, the profile is empty and
/// no quality factor exists.
pub fn tally_windows<T: Copy>(
    atoms: &Vec<Atom>,
    windows: &Vec<Window>,
    verdicts: &Vec<Verdict<T>>,
) -> (t: Tally<T>)
    requires
        windows.len() == verdicts.len(),
        forall|k: int|
            0 <= k < windows.len() ==> (#[trigger] windows[k]).start < atoms.len()
                && atoms[windows[k].start as int].spec_profile_slot() is Some,
    ensures
        t.spec_scored() == scored_count(outcomes_of(atoms@, windows@, verdicts@)),
        t.spec_flagged() == flagged_count(outcomes_of(atoms@, windows@, verdicts@)),
        t.spec_profile() == profile_of(outcomes_of(atoms@, windows@, verdicts@)),
        t.spec_under_sampled() == under_sampled_residues(
            outcomes_of(atoms@, windows@, verdicts@),
        ),
        t.spec_flagged() <= t.spec_scored() <= windows.len(),
        windows.len() == 0 ==> {
            &&& t.spec_scored() == 0
            &&& t.spec_flagged() == 0
            &&& t.spec_profile() == Seq::<Option<T>>::empty()
            &&& t.spec_under_sampled() == Seq::<i32>::empty()
        },
{
    let n = windows.len();
    let mut outcomes: Vec<Outcome<T>> = Vec::new();
    let mut k: usize = 0;
    while k < n
        invariant
            n == windows.len(),
            n == verdicts.len(),
            k <= n,
            outcomes.len() == k,
            forall|j: int|
                0 <= j < windows.len() ==> (#[trigger] windows[j]).start < atoms.len()
                    && atoms[windows[j].start as int].spec_profile_slot() is Some,
            forall|j: int|
                0 <= j < k ==> outcomes@[j] == outcome_of(atoms@, windows@[j], verdicts@[j]),
        decreases n - k,
    {
        let first = atoms[windows[k].start];
        let outcome = match verdicts[k] {
            Verdict::UnderSampled => Outcome::UnderSampled { residue: first.resnum },
            Verdict::Scored { score, band } => {
                match first.profile_slot() {
                    Some(slot) => Outcome::Scored { slot, score, band },
                    None => Outcome::UnderSampled { residue: first.resnum },
                }
            },
        };
        outcomes.push(outcome);
        k = k + 1;
    }
    proof {
        assert(outcomes@ =~= outcomes_of(atoms@, windows@, verdicts@));
        if n == 0 {
            lemma_no_outcomes_no_scores(outcomes@);
        }
    }
    aggregate(&outcomes)
}

/// Without outcomes nothing is scored, nothing is flagged and the
/// profile is empty.
pub proof fn lemma_no_outcomes_no_scores<T>(s: Seq<Outcome<T>>)
    requires
        s.len() == 0,
    ensures
        scored_count(s) == 0,
        flagged_count(s) == 0,
        profile_of(s) == Seq::<Option<T>>::empty(),
        under_sampled_residues(s) == Seq::<i32>::empty(),
{
}

proof fn lemma_count_where_remove<T>(s: Seq<Outcome<T>>, j: int, p: spec_fn(Outcome<T>) -> bool)
    requires
        0 <= j < s.len(),
    ensures
        count_where(s, p) == count_where(s.remove(j), p) + if p(s[j]) {
            1nat
        } else {
            0nat
        },
    decreases s.len(),
{
    if j == s.len() - 1 {
        assert(s.remove(j) == s.drop_last());
    } else {
        lemma_count_where_remove(s.drop_last(), j, p);
        assert(s.remove(j).drop_last() == s.drop_last().remove(j));
        assert(s.remove(j).last() == s.last());
    }
}

proof fn lemma_count_where_reordered<T>(
    a: Seq<Outcome<T>>,
    b: Seq<Outcome<T>>,
    p: spec_fn(Outcome<T>) -> bool,
)
    requires
        a.to_multiset() == b.to_multiset(),
    ensures
        count_where(a, p) == count_where(b, p),
    decreases a.len(),
{
    broadcast use vstd::multiset::group_multiset_axioms;

    a.to_multiset_ensures();
    b.to_multiset_ensures();
    if a.len() > 0 {
        let x = a.last();
        let a1 = a.drop_last();
        assert(a == a1.push(x));
        vstd::seq_lib::to_multiset_build(a1, x);
        assert(a.contains(x)) by {
            assert(a[a.len() - 1] == x);
        }
        assert(a.to_multiset().count(x) > 0);
        assert(b.to_multiset().count(x) > 0);
        assert(b.contains(x));
        let j = choose|j: int| 0 <= j < b.len() && b[j] == x;
        let b1 = b.remove(j);
        vstd::seq_lib::to_multiset_remove(b, j);
        assert(b1.to_multiset() =~= a1.to_multiset());
        lemma_count_where_reordered(a1, b1, p);
        lemma_count_where_remove(b, j, p);
    }
}

/// A value that the profile holds was written by a scored window with
/// that slot.
proof fn lemma_entry_has_writer<T>(s: Seq<Outcome<T>>, slot: int, v: T) -> (k: int)
    requires
        entry(profile_of(s), slot) == Some(v),
    ensures
        0 <= k < s.len(),
        s[k] is Scored,
        s[k]->slot == slot,
        s[k]->score == v,
    decreases s.len(),
{
    if s.len() == 0 {
        0
    } else {
        let head = s.drop_last();
        match s.last() {
            Outcome::UnderSampled { .. } => lemma_entry_has_writer(head, slot, v),
            Outcome::Scored { slot: at, .. } => {
                if at == slot {
                    s.len() - 1
                } else {
                    assert(entry(profile_of(s), slot) == entry(profile_of(head), slot));
                    lemma_entry_has_writer(head, slot, v)
                }
            },
        }
    }
}

/// The slot of a scored window is not empty.
proof fn lemma_written_slot_is_filled<T>(s: Seq<Outcome<T>>, k: int)
    requires
        0 <= k < s.len(),
        s[k] is Scored,
    ensures
        entry(profile_of(s), s[k]->slot as int) is Some,
    decreases s.len(),
{
    let slot = s[k]->slot as int;
    let head = s.drop_last();
    if k < s.len() - 1 {
        lemma_written_slot_is_filled(head, k);
        match s.last() {
            Outcome::UnderSampled { .. } => {},
            Outcome::Scored { slot: at, .. } => {
                if at != slot {
                    assert(entry(profile_of(s), slot) == entry(profile_of(head), slot));
                }
            },
        }
    }
}

/// A profile that reaches beyond slot `n` was made to by a scored window
/// with a slot of `n` or more.
proof fn lemma_length_has_cause<T>(s: Seq<Outcome<T>>, n: int) -> (k: int)
    requires
        0 <= n < profile_of(s).len(),
    ensures
        0 <= k < s.len(),
        s[k] is Scored,
        s[k]->slot >= n,
    decreases s.len(),
{
    if s.len() == 0 {
        0
    } else {
        let head = s.drop_last();
        match s.last() {
            Outcome::UnderSampled { .. } => lemma_length_has_cause(head, n),
            Outcome::Scored { slot: at, .. } => {
                if at >= n {
                    s.len() - 1
                } else {
                    lemma_length_has_cause(head, n)
                }
            },
        }
    }
}

/// The profile reaches beyond the slot of every scored window.
proof fn lemma_profile_covers_slot<T>(s: Seq<Outcome<T>>, k: int)
    requires
        0 <= k < s.len(),
        s[k] is Scored,
    ensures
        profile_of(s).len() > s[k]->slot,
    decreases s.len(),
{
    if k < s.len() - 1 {
        lemma_profile_covers_slot(s.drop_last(), k);
    }
}

proof fn lemma_same_members<T>(a: Seq<Outcome<T>>, b: Seq<Outcome<T>>, k: int) -> (m: int)
    requires
        a.to_multiset() == b.to_multiset(),
        0 <= k < a.len(),
    ensures
        0 <= m < b.len(),
        b[m] == a[k],
{
    a.to_multiset_ensures();
    b.to_multiset_ensures();
    assert(a.contains(a[k]));
    assert(a.to_multiset().count(a[k]) > 0);
    assert(b.to_multiset().count(a[k]) > 0);
    assert(b.contains(a[k]));
    choose|m: int| 0 <= m < b.len() && b[m] == a[k]
}

proof fn lemma_distinct_slots_reordered<T>(a: Seq<Outcome<T>>, b: Seq<Outcome<T>>)
    requires
        a.to_multiset() == b.to_multiset(),
        distinct_slots(a),
    ensures
        distinct_slots(b),
{
    broadcast use vstd::multiset::group_multiset_axioms;

    assert forall|j: int, k: int|
        0 <= j < b.len() && 0 <= k < b.len() && j != k && (#[trigger] b[j]) is Scored && (
        #[trigger] b[k]) is Scored implies b[j]->slot != b[k]->slot by {
        if b[j]->slot == b[k]->slot {
            let x = b[k];
            let b1 = b.remove(k);
            vstd::seq_lib::to_multiset_remove(b, k);
            let j1 = if j < k {
                j
            } else {
                j - 1
            };
            assert(b1[j1] == b[j]);
            let p = lemma_same_members(b, a, k);
            let a1 = a.remove(p);
            vstd::seq_lib::to_multiset_remove(a, p);
            let q1 = lemma_same_members(b1, a1, j1);
            let q = if q1 < p {
                q1
            } else {
                q1 + 1
            };
            assert(a[q] == b[j]);
            assert(a[p] == b[k]);
            assert(q != p);
        }
    }
}

/// Where no two scored windows share a slot, the profile holds the value
/// of every scored window at that window's slot.
pub proof fn lemma_profile_holds_every_score<T>(s: Seq<Outcome<T>>, k: int)
    requires
        distinct_slots(s),
        0 <= k < s.len(),
        s[k] is Scored,
    ensures
        entry(profile_of(s), s[k]->slot as int) == Some(s[k]->score),
{
    let slot = s[k]->slot as int;
    lemma_written_slot_is_filled(s, k);
    let v = entry(profile_of(s), slot)->0;
    let k2 = lemma_entry_has_writer(s, slot, v);
    assert(k2 == k);
}

/// The order in which the outcomes arrive does not matter: two sequences
/// that hold the same outcomes, in which no two scored windows share a
/// slot, give the same counts and the same profile.
pub proof fn lemma_aggregate_order_independent<T>(a: Seq<Outcome<T>>, b: Seq<Outcome<T>>)
    requires
        a.to_multiset() == b.to_multiset(),
        distinct_slots(a),
    ensures
        scored_count(a) == scored_count(b),
        flagged_count(a) == flagged_count(b),
        profile_of(a) == profile_of(b),
{
    lemma_count_where_reordered(a, b, |o: Outcome<T>| o is Scored);
    lemma_count_where_reordered(a, b, |o: Outcome<T>| is_flagged(o));
    lemma_distinct_slots_reordered(a, b);
    let pa = profile_of(a);
    let pb = profile_of(b);
    if pa.len() > pb.len() {
        let k = lemma_length_has_cause(a, pb.len() as int);
        let m = lemma_same_members(a, b, k);
        lemma_profile_covers_slot(b, m);
    }
    if pb.len() > pa.len() {
        let k = lemma_length_has_cause(b, pa.len() as int);
        let m = lemma_same_members(b, a, k);
        lemma_profile_covers_slot(a, m);
    }
    assert forall|i: int| 0 <= i < pa.len() implies pa[i] == pb[i] by {
        match pa[i] {
            Some(v) => {
                let k = lemma_entry_has_writer(a, i, v);
                let m = lemma_same_members(a, b, k);
                lemma_profile_holds_every_score(b, m);
            },
            None => {
                match pb[i] {
                    Some(v2) => {
                        let k2 = lemma_entry_has_writer(b, i, v2);
                        let m = lemma_same_members(b, a, k2);
                        lemma_written_slot_is_filled(a, m);
                    },
                    None => {},
                }
            },
        }
    }
    assert(pa =~= pb);
}

/// Where the residue numbers never fall and every atom has a profile
/// slot, the outcomes of the windows of a structure have a slot each to
/// themselves, whatever the verdicts are: the profile is written once
/// per residue, and the order of the outcomes does not matter.
pub proof fn lemma_window_outcomes_have_distinct_slots<T>(
    atoms: Seq<Atom>,
    verdicts: Seq<Verdict<T>>,
)
    requires
        atoms.len() <= usize::MAX,
        sorted_by_residue(atoms),
        forall|i: int| 0 <= i < atoms.len() ==> (#[trigger] atoms[i]).spec_profile_slot() is Some,
    ensures
        distinct_slots(outcomes_of(atoms, windows_upto(atoms, atoms.len() as int), verdicts)),
{
    let n = atoms.len() as int;
    let windows = windows_upto(atoms, n);
    let outcomes = outcomes_of(atoms, windows, verdicts);
    assert forall|j: int, k: int|
        0 <= j < outcomes.len() && 0 <= k < outcomes.len() && j != k && (#[trigger] outcomes[j])
            is Scored && (#[trigger] outcomes[k]) is Scored implies outcomes[j]->slot
        != outcomes[k]->slot by {
        lemma_listed_window_starts_a_residue(atoms, n, j);
        lemma_listed_window_starts_a_residue(atoms, n, k);
        if j < k {
            lemma_listed_windows_ascend(atoms, n, j, k);
        } else {
            lemma_listed_windows_ascend(atoms, n, k, j);
        }
        lemma_windows_have_distinct_slots(
            atoms,
            windows[j].start as int,
            windows[k].start as int,
        );
    }
}

} // verus!
