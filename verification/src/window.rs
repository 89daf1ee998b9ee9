//! The window scanner: where scan windows start, and how far each one
//! reaches.

use vstd::prelude::*;
use crate::atom::Atom;

verus! {

/// Number of residues that must be counted for a window to exist.
pub const WINDOW_RESIDUES: usize = 10;

/// A step between consecutive atoms by which the residue number grows by
/// this much or more is a break between chains.
pub const GAP_CEILING: i32 = 100;

/// A scan window, by the indices of its first and last atom.
#[derive(Clone, Copy, Debug, PartialEq, Eq, Structural)]
pub struct Window {
    pub start: usize,
    pub end: usize,
}

/// Atom `i` begins a new residue: it is the very first atom, or the atom
/// before it has a lower residue number.
pub open spec fn starts_residue(atoms: Seq<Atom>, i: int) -> bool {
    &&& 0 <= i < atoms.len()
    &&& (i == 0 || atoms[i].resnum > atoms[i - 1].resnum)
}

/// Atom `v` is the last of its chain: it is the last atom of all, or
/// the next atom has another chain identifier, or the next atom's
/// residue number is higher by `GAP_CEILING` or more. Such a gap is
/// taken for a break between chains; the offset between chains makes
/// every change of chain such a gap, as long as residue numbers stay
/// below the offset.
pub open spec fn ends_chain(atoms: Seq<Atom>, v: int) -> bool {
    &&& 0 <= v < atoms.len()
    &&& ({
        ||| v == atoms.len() - 1
        ||| atoms[v + 1].chain_id != atoms[v].chain_id
        ||| atoms[v + 1].resnum - atoms[v].resnum >= GAP_CEILING
    })
}

/// Walking forward past atom `v` counts one more residue: the next atom
/// has a higher residue number, or the chain ends with `v`.
pub open spec fn closes_residue(atoms: Seq<Atom>, v: int) -> bool {
    &&& 0 <= v < atoms.len()
    &&& (ends_chain(atoms, v) || atoms[v + 1].resnum - atoms[v].resnum > 0)
}

/// How many atoms in `lo..hi` close a residue.
pub open spec fn closing_count(atoms: Seq<Atom>, lo: int, hi: int) -> nat
    decreases hi - lo,
{
    if lo >= hi {
        0
    } else {
        closing_count(atoms, lo, hi - 1) + if closes_residue(atoms, hi - 1) {
            1nat
        } else {
            0nat
        }
    }
}

/// Residues counted by a walk that begins at `start` and has just passed
/// atom `end`: one for every atom on the way that closes a residue. A
/// residue is counted when the walk has passed all of it.
pub open spec fn residues_counted(atoms: Seq<Atom>, start: int, end: int) -> nat {
    closing_count(atoms, start, end + 1)
}

/// No atom in `lo..hi` is the last of its chain.
pub open spec fn within_chain(atoms: Seq<Atom>, lo: int, hi: int) -> bool {
    forall|v: int| lo <= v < hi ==> !#[trigger] ends_chain(atoms, v)
}

/// The `k`-th atom at or after `from` that closes a residue, as far as
/// the chain of `from` reaches.
pub open spec fn nth_closing(atoms: Seq<Atom>, from: int, k: nat) -> Option<int>
    decreases atoms.len() - from,
{
    if from < 0 || from >= atoms.len() || k == 0 {
        None
    } else if closes_residue(atoms, from) {
        if k == 1 {
            Some(from)
        } else if ends_chain(atoms, from) {
            None
        } else {
            nth_closing(atoms, from + 1, (k - 1) as nat)
        }
    } else {
        nth_closing(atoms, from + 1, k)
    }
}

/// The window that starts at atom `start`, if there is one. The walk
/// counts a residue with every atom that closes one, and stops at the
/// atom with which the tenth residue is counted or, before that, at the
/// end of the chain. Only a walk that counted ten gives a window, which
/// is a run of exactly ten residues, and only if the local residue
/// number of its last atom exceeds that of its first.
pub open spec fn spec_scan_window(atoms: Seq<Atom>, start: int) -> Option<Window> {
    match nth_closing(atoms, start, WINDOW_RESIDUES as nat) {
        Some(end) => if atoms[end].res_seq > atoms[start].res_seq {
            Some(Window { start: start as usize, end: end as usize })
        } else {
            None
        },
        None => None,
    }
}

/// Whether the chain of atom `v` ends with it.
pub fn ends_chain_at(atoms: &Vec<Atom>, v: usize) -> (b: bool)
    requires
        v < atoms.len(),
    ensures
        b == ends_chain(atoms@, v as int),
{
    if v == atoms.len() - 1 {
        true
    } else {
        atoms[v + 1].chain_id != atoms[v].chain_id || atoms[v + 1].resnum as i64
            - atoms[v].resnum as i64 >= GAP_CEILING as i64
    }
}

/// Finds the window that starts at atom `start`. The count of residues
/// grows by one with every atom after which the residue number rises or
/// with which the chain ends; the window ends at the atom that brings
/// the count to ten, so that it holds exactly ten residues. There is no
/// window when the chain ends first, when the last atom's local residue
/// number does not exceed the first one's, or when `start` is no atom.
pub fn scan_window(atoms: &Vec<Atom>, start: usize) -> (w: Option<Window>)
    ensures
        w == spec_scan_window(atoms@, start as int),
        w matches Some(win) ==> {
            &&& win.start == start
            &&& start <= win.end < atoms.len()
            &&& closes_residue(atoms@, win.end as int)
            &&& closing_count(atoms@, start as int, win.end + 1) == WINDOW_RESIDUES
            &&& residues_counted(atoms@, start as int, win.end as int) == WINDOW_RESIDUES
            &&& within_chain(atoms@, start as int, win.end as int)
            &&& atoms[win.end as int].res_seq > atoms[start as int].res_seq
        },
{
    let n = atoms.len();
    let mut v: usize = start;
    let mut remaining: usize = WINDOW_RESIDUES;
    while v < n
        invariant
            n == atoms.len(),
            start <= v,
            1 <= remaining <= WINDOW_RESIDUES,
            nth_closing(atoms@, start as int, WINDOW_RESIDUES as nat) == nth_closing(
                atoms@,
                v as int,
                remaining as nat,
            ),
            closing_count(atoms@, start as int, v as int) == WINDOW_RESIDUES - remaining,
            within_chain(atoms@, start as int, v as int),
        decreases n - v,
    {
        let ends = ends_chain_at(atoms, v);
        if ends || atoms[v + 1].resnum > atoms[v].resnum {
            if remaining == 1 {
                if atoms[v].res_seq > atoms[start].res_seq {
                    return Some(Window { start, end: v });
                } else {
                    return None;
                }
            }
            if ends {
                return None;
            }
            remaining = remaining - 1;
        }
        v = v + 1;
    }
    None
}

/// The windows that start before atom `upto`, in ascending order of
/// their first atoms: one for every atom that begins a residue and from
/// which a window can be scanned.
pub open spec fn windows_upto(atoms: Seq<Atom>, upto: int) -> Seq<Window>
    decreases upto,
{
    if upto <= 0 {
        Seq::empty()
    } else {
        let rest = windows_upto(atoms, upto - 1);
        if starts_residue(atoms, upto - 1) && spec_scan_window(atoms, upto - 1) is Some {
            rest.push(spec_scan_window(atoms, upto - 1)->0)
        } else {
            rest
        }
    }
}

/// Atoms that begin no residue add no window.
proof fn lemma_windows_upto_skips(atoms: Seq<Atom>, lo: int, hi: int)
    requires
        lo <= hi,
        forall|i: int| lo <= i < hi ==> !#[trigger] starts_residue(atoms, i),
    ensures
        windows_upto(atoms, hi) == windows_upto(atoms, lo),
    decreases hi - lo,
{
    if lo < hi {
        lemma_windows_upto_skips(atoms, lo, hi - 1);
        assert(!starts_residue(atoms, hi - 1));
    }
}

/// All windows of the structure, in ascending order of their first
/// atoms: for each atom that begins a residue the window that starts
/// there, if there is one.
pub fn windows(atoms: &Vec<Atom>) -> (found: Vec<Window>)
    ensures
        found@ == windows_upto(atoms@, atoms.len() as int),
        forall|k: int|
            0 <= k < found.len() ==> (#[trigger] found[k]).start <= found[k].end < atoms.len(),
{
    let starts = window_starts(atoms);
    let mut found: Vec<Window> = Vec::new();
    let mut k: usize = 0;
    let ghost mut done: int = 0;
    while k < starts.len()
        invariant
            k <= starts.len(),
            forall|j: int|
                0 <= j < starts.len() ==> starts_residue(atoms@, #[trigger] starts[j] as int),
            forall|i: int, j: int| 0 <= i < j < starts.len() ==> starts[i] < starts[j],
            forall|i: int| starts_residue(atoms@, i) ==> starts@.contains(i as usize),
            0 <= done <= atoms.len(),
            k > 0 ==> done == starts[k - 1] + 1,
            k == 0 ==> done == 0,
            found@ == windows_upto(atoms@, done),
            forall|j: int|
                0 <= j < found.len() ==> (#[trigger] found[j]).start <= found[j].end < atoms.len(),
        decreases starts.len() - k,
    {
        let start = starts[k];
        proof {
            assert(starts_residue(atoms@, start as int));
            assert forall|i: int| done <= i < start implies !#[trigger] starts_residue(
                atoms@,
                i,
            ) by {
                if starts_residue(atoms@, i) {
                    let j = choose|j: int| 0 <= j < starts.len() && starts@[j] == i as usize;
                    if j < k {
                        if k > 0 && j < k - 1 {
                            assert(starts[j] < starts[k - 1]);
                        }
                    } else if j > k {
                        assert(starts[k as int] < starts[j]);
                    }
                }
            }
            if done <= start {
                lemma_windows_upto_skips(atoms@, done, start as int);
            } else {
                assert(k > 0);
                assert(starts[k - 1] < starts[k as int]);
            }
        }
        match scan_window(atoms, start) {
            Some(w) => {
                found.push(w);
            },
            None => {},
        }
        proof {
            done = start + 1;
        }
        k = k + 1;
    }
    proof {
        assert forall|i: int| done <= i < atoms.len() implies !#[trigger] starts_residue(
            atoms@,
            i,
        ) by {
            if starts_residue(atoms@, i) {
                let j = choose|j: int| 0 <= j < starts.len() && starts@[j] == i as usize;
                if k > 0 && j < k - 1 {
                    assert(starts[j] < starts[k - 1]);
                }
            }
        }
        lemma_windows_upto_skips(atoms@, done, atoms.len() as int);
    }
    found
}

/// The atoms at which a window starts, in ascending order.
pub fn window_starts(atoms: &Vec<Atom>) -> (starts: Vec<usize>)
    ensures
        forall|k: int| 0 <= k < starts.len() ==> starts_residue(atoms@, #[trigger] starts[k] as int),
        forall|j: int, k: int| 0 <= j < k < starts.len() ==> starts[j] < starts[k],
        forall|i: int| starts_residue(atoms@, i) ==> starts@.contains(i as usize),
{
    let n = atoms.len();
    let mut starts: Vec<usize> = Vec::new();
    let mut i: usize = 0;
    while i < n
        invariant
            n == atoms.len(),
            i <= n,
            forall|k: int|
                0 <= k < starts.len() ==> starts_residue(atoms@, #[trigger] starts[k] as int)
                    && starts[k] < i,
            forall|j: int, k: int| 0 <= j < k < starts.len() ==> starts[j] < starts[k],
            forall|m: int| 0 <= m < i && starts_residue(atoms@, m) ==> starts@.contains(m as usize),
        decreases n - i,
    {
        if i == 0 || atoms[i].resnum > atoms[i - 1].resnum {
            let ghost before = starts@;
            starts.push(i);
            assert(starts@[before.len() as int] == i);
            assert forall|m: int| 0 <= m < i + 1 && starts_residue(atoms@, m) implies starts@.contains(
                m as usize,
            ) by {
                if m < i {
                    let k = choose|k: int| 0 <= k < before.len() && before[k] == m as usize;
                    assert(starts@[k] == m as usize);
                }
            }
        }
        i = i + 1;
    }
    starts
}

/// Counting the closing atoms of `lo..hi` from the front gives the same
/// number as counting them from the back.
proof fn lemma_closing_count_front(atoms: Seq<Atom>, lo: int, hi: int)
    requires
        lo < hi,
    ensures
        closing_count(atoms, lo, hi) == closing_count(atoms, lo + 1, hi) + if closes_residue(
            atoms,
            lo,
        ) {
            1nat
        } else {
            0nat
        },
    decreases hi - lo,
{
    if lo + 1 < hi {
        lemma_closing_count_front(atoms, lo, hi - 1);
        assert(closing_count(atoms, lo + 1, hi) == closing_count(atoms, lo + 1, hi - 1)
            + if closes_residue(atoms, hi - 1) {
            1nat
        } else {
            0nat
        });
    } else {
        assert(closing_count(atoms, lo, lo) == 0);
        assert(closing_count(atoms, lo + 1, hi) == 0);
    }
}

/// What `nth_closing` finds: an atom that closes a residue, has exactly
/// `k - 1` such atoms between `from` and itself, and no end of a chain
/// before it. It finds nothing only when the chain of `from` ends at an
/// atom up to which fewer than `k` atoms close a residue.
proof fn lemma_nth_closing(atoms: Seq<Atom>, from: int, k: nat)
    requires
        0 <= from < atoms.len(),
        k >= 1,
    ensures
        match nth_closing(atoms, from, k) {
            Some(e) => {
                &&& from <= e < atoms.len()
                &&& closes_residue(atoms, e)
                &&& closing_count(atoms, from, e) == k - 1
                &&& within_chain(atoms, from, e)
            },
            None => exists|c: int|
                {
                    &&& from <= c < atoms.len()
                    &&& #[trigger] ends_chain(atoms, c)
                    &&& within_chain(atoms, from, c)
                    &&& closing_count(atoms, from, c + 1) < k
                },
        },
    decreases atoms.len() - from,
{
    if closes_residue(atoms, from) && k == 1 {
        assert(closing_count(atoms, from, from) == 0);
    } else if closes_residue(atoms, from) && ends_chain(atoms, from) {
        assert(closing_count(atoms, from, from) == 0);
        assert(closing_count(atoms, from, from + 1) == 1);
    } else {
        let k2 = if closes_residue(atoms, from) {
            (k - 1) as nat
        } else {
            k
        };
        assert(!ends_chain(atoms, from));
        lemma_nth_closing(atoms, from + 1, k2);
        match nth_closing(atoms, from + 1, k2) {
            Some(e) => {
                lemma_closing_count_front(atoms, from, e);
                assert(within_chain(atoms, from, e));
            },
            None => {
                let c = choose|c: int|
                    {
                        &&& from + 1 <= c < atoms.len()
                        &&& #[trigger] ends_chain(atoms, c)
                        &&& within_chain(atoms, from + 1, c)
                        &&& closing_count(atoms, from + 1, c + 1) < k2
                    };
                lemma_closing_count_front(atoms, from, c + 1);
                assert(within_chain(atoms, from, c));
            },
        }
    }
}

/// A window is a run of exactly ten residues: from its first atom
/// through its last exactly ten atoms close a residue, and the last atom
/// is one of them. It lies within one chain, and its last atom lies in a
/// residue with a higher local number than its first.
pub proof fn lemma_window_counts_ten_residues(atoms: Seq<Atom>, start: int)
    requires
        0 <= start,
        atoms.len() <= usize::MAX,
    ensures
        spec_scan_window(atoms, start) matches Some(w) ==> {
            &&& w.start == start
            &&& start <= w.end < atoms.len()
            &&& closes_residue(atoms, w.end as int)
            &&& closing_count(atoms, start, w.end + 1) == WINDOW_RESIDUES
            &&& residues_counted(atoms, start, w.end as int) == WINDOW_RESIDUES
            &&& within_chain(atoms, start, w.end as int)
            &&& atoms[w.end as int].res_seq > atoms[start].res_seq
        },
{
    if start < atoms.len() {
        lemma_nth_closing(atoms, start, WINDOW_RESIDUES as nat);
    }
}

/// A run that reaches the end of its chain with fewer than ten residues
/// counted yields no window: if the chain of atom `start` ends with atom
/// `end`, and a walk from `start` through `end` counts fewer than ten
/// residues, no window starts at `start`.
pub proof fn lemma_short_run_has_no_window(atoms: Seq<Atom>, start: int, end: int)
    requires
        0 <= start <= end < atoms.len(),
        ends_chain(atoms, end),
        within_chain(atoms, start, end),
        residues_counted(atoms, start, end) < WINDOW_RESIDUES,
    ensures
        spec_scan_window(atoms, start) is None,
{
    lemma_nth_closing(atoms, start, WINDOW_RESIDUES as nat);
    match nth_closing(atoms, start, WINDOW_RESIDUES as nat) {
        Some(e) => {
            assert(e <= end) by {
                if e > end {
                    assert(!ends_chain(atoms, end));
                }
            }
            lemma_closing_count_grows(atoms, start, e + 1, end + 1);
        },
        None => {},
    }
}

/// A longer walk counts no fewer closing atoms.
proof fn lemma_closing_count_grows(atoms: Seq<Atom>, lo: int, mid: int, hi: int)
    requires
        lo <= mid <= hi,
    ensures
        closing_count(atoms, lo, mid) <= closing_count(atoms, lo, hi),
    decreases hi - mid,
{
    if mid < hi {
        lemma_closing_count_grows(atoms, lo, mid, hi - 1);
    }
}

/// The residue numbers never fall from one atom to a later one.
pub open spec fn sorted_by_residue(atoms: Seq<Atom>) -> bool {
    forall|i: int, j: int|
        0 <= i <= j < atoms.len() ==> (#[trigger] atoms[i]).resnum <= (#[trigger] atoms[j]).resnum
}

/// Where the residue numbers never fall, no two windows start in the
/// same residue, so that no two of them have the same profile slot.
pub proof fn lemma_windows_have_distinct_slots(atoms: Seq<Atom>, i: int, j: int)
    requires
        sorted_by_residue(atoms),
        starts_residue(atoms, i),
        starts_residue(atoms, j),
        i != j,
    ensures
        atoms[i].resnum != atoms[j].resnum,
        atoms[i].spec_profile_slot() is Some ==> atoms[i].spec_profile_slot()
            != atoms[j].spec_profile_slot(),
{
    if i < j {
        assert(atoms[i].resnum <= atoms[j - 1].resnum);
    } else {
        assert(atoms[j].resnum <= atoms[i - 1].resnum);
    }
}

/// The atom with which the chain of atom `from` ends.
pub open spec fn chain_end(atoms: Seq<Atom>, from: int) -> int
    decreases atoms.len() - from,
{
    if from < 0 || from >= atoms.len() || ends_chain(atoms, from) {
        from
    } else {
        chain_end(atoms, from + 1)
    }
}

/// A chain ends at or after each of its atoms, and not before.
pub proof fn lemma_chain_end(atoms: Seq<Atom>, from: int)
    requires
        0 <= from < atoms.len(),
    ensures
        from <= chain_end(atoms, from) < atoms.len(),
        ends_chain(atoms, chain_end(atoms, from)),
        within_chain(atoms, from, chain_end(atoms, from)),
    decreases atoms.len() - from,
{
    if !ends_chain(atoms, from) {
        lemma_chain_end(atoms, from + 1);
    }
}

proof fn lemma_no_windows_upto(atoms: Seq<Atom>, upto: int)
    requires
        upto <= atoms.len(),
        forall|start: int|
            0 <= start < atoms.len() ==> #[trigger] residues_counted(
                atoms,
                start,
                chain_end(atoms, start),
            ) < WINDOW_RESIDUES,
    ensures
        windows_upto(atoms, upto) == Seq::<Window>::empty(),
    decreases upto,
{
    if upto > 0 {
        lemma_no_windows_upto(atoms, upto - 1);
        lemma_chain_end(atoms, upto - 1);
        assert(residues_counted(atoms, upto - 1, chain_end(atoms, upto - 1)) < WINDOW_RESIDUES);
        lemma_short_run_has_no_window(atoms, upto - 1, chain_end(atoms, upto - 1));
    }
}

/// A structure in which no walk to the end of a chain counts ten
/// residues has no window at all.
pub proof fn lemma_short_chains_have_no_windows(atoms: Seq<Atom>)
    requires
        forall|start: int|
            0 <= start < atoms.len() ==> #[trigger] residues_counted(
                atoms,
                start,
                chain_end(atoms, start),
            ) < WINDOW_RESIDUES,
    ensures
        windows_upto(atoms, atoms.len() as int) == Seq::<Window>::empty(),
{
    lemma_no_windows_upto(atoms, atoms.len() as int);
}

/// Every window in the list starts at an atom that begins a residue.
pub proof fn lemma_listed_window_starts_a_residue(atoms: Seq<Atom>, upto: int, k: int)
    requires
        upto <= atoms.len() <= usize::MAX,
        0 <= k < windows_upto(atoms, upto).len(),
    ensures
        starts_residue(atoms, windows_upto(atoms, upto)[k].start as int),
        windows_upto(atoms, upto)[k].start < upto,
        spec_scan_window(atoms, windows_upto(atoms, upto)[k].start as int) == Some(
            windows_upto(atoms, upto)[k],
        ),
    decreases upto,
{
    if upto > 0 {
        let rest = windows_upto(atoms, upto - 1);
        if k < rest.len() {
            lemma_listed_window_starts_a_residue(atoms, upto - 1, k);
        } else {
            lemma_window_counts_ten_residues(atoms, upto - 1);
        }
    }
}

/// The windows in the list start at different atoms, in ascending order.
pub proof fn lemma_listed_windows_ascend(atoms: Seq<Atom>, upto: int, j: int, k: int)
    requires
        upto <= atoms.len() <= usize::MAX,
        0 <= j < k < windows_upto(atoms, upto).len(),
    ensures
        windows_upto(atoms, upto)[j].start < windows_upto(atoms, upto)[k].start,
    decreases upto,
{
    if upto > 0 {
        let rest = windows_upto(atoms, upto - 1);
        if k < rest.len() {
            lemma_listed_windows_ascend(atoms, upto - 1, j, k);
        } else {
            lemma_listed_window_starts_a_residue(atoms, upto - 1, j);
            lemma_window_counts_ten_residues(atoms, upto - 1);
        }
    }
}

} // verus!
