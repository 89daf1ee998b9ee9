//! What the report is laid out from, besides the error profile: the
//! residue ranges of the chains and the tick marks of the residue axis.

use vstd::prelude::*;
use crate::atom::{Atom, CHAIN_OFFSET, PROFILE_OFFSET};

verus! {

/// The stretch of the error profile that belongs to one chain.
#[derive(Clone, Copy, Debug, PartialEq, Eq, Structural)]
pub struct ChainRange {
    pub chain_id: u8,
    /// Where the stretch begins: the global residue number of the chain's
    /// first atom plus `PROFILE_OFFSET`, which is the slot of a window
    /// that starts with the chain.
    pub first: i64,
    /// Where the stretch ends: the global residue number of the chain's
    /// last atom minus `PROFILE_OFFSET`.
    pub last: i64,
}

/// Atom `i` is the first of a chain: it is the very first atom, or the
/// atom before it has another chain identifier.
pub open spec fn begins_chain(atoms: Seq<Atom>, i: int) -> bool {
    i == 0 || atoms[i].chain_id != atoms[i - 1].chain_id
}

/// The range of a chain that consists of atom `i` alone.
pub open spec fn range_of_atom(atoms: Seq<Atom>, i: int) -> ChainRange {
    ChainRange {
        chain_id: atoms[i].chain_id,
        first: (atoms[i].resnum + PROFILE_OFFSET) as i64,
        last: (atoms[i].resnum - PROFILE_OFFSET) as i64,
    }
}

/// The range `r`, made to end with atom `i`.
pub open spec fn reaching(r: ChainRange, atoms: Seq<Atom>, i: int) -> ChainRange {
    ChainRange { last: (atoms[i].resnum - PROFILE_OFFSET) as i64, ..r }
}

/// The ranges of the chains among the first `upto` atoms, chain by
/// chain: an atom that begins a chain adds a range, any other atom makes
/// the range of its chain reach as far as itself.
pub open spec fn ranges_upto(atoms: Seq<Atom>, upto: int) -> Seq<ChainRange>
    decreases upto,
{
    if upto <= 0 {
        Seq::empty()
    } else {
        let before = ranges_upto(atoms, upto - 1);
        if begins_chain(atoms, upto - 1) {
            before.push(range_of_atom(atoms, upto - 1))
        } else {
            before.update(before.len() - 1, reaching(before.last(), atoms, upto - 1))
        }
    }
}

/// The residue ranges of the chains of a structure, chain by chain.
pub open spec fn spec_chain_ranges(atoms: Seq<Atom>) -> Seq<ChainRange> {
    ranges_upto(atoms, atoms.len() as int)
}

/// There is a range for every chain that has begun.
pub proof fn lemma_ranges_upto_len(atoms: Seq<Atom>, upto: int)
    ensures
        upto >= 1 ==> 1 <= ranges_upto(atoms, upto).len() <= upto,
        upto <= 0 ==> ranges_upto(atoms, upto).len() == 0,
    decreases upto,
{
    if upto > 0 {
        lemma_ranges_upto_len(atoms, upto - 1);
    }
}

/// Lists the residue ranges of the chains: for every run of atoms with
/// one chain identifier, the stretch of the profile from `PROFILE_OFFSET`
/// behind its first residue number to `PROFILE_OFFSET` before its last.
pub fn chain_ranges(atoms: &Vec<Atom>) -> (ranges: Vec<ChainRange>)
    ensures
        ranges@ == spec_chain_ranges(atoms@),
{
    let n = atoms.len();
    let mut ranges: Vec<ChainRange> = Vec::new();
    let mut i: usize = 0;
    while i < n
        invariant
            n == atoms.len(),
            i <= n,
            ranges@ == ranges_upto(atoms@, i as int),
        decreases n - i,
    {
        proof {
            lemma_ranges_upto_len(atoms@, i as int);
        }
        let last = atoms[i].resnum as i64 - PROFILE_OFFSET as i64;
        if i == 0 || atoms[i].chain_id != atoms[i - 1].chain_id {
            ranges.push(
                ChainRange {
                    chain_id: atoms[i].chain_id,
                    first: atoms[i].resnum as i64 + PROFILE_OFFSET as i64,
                    last,
                },
            );
        } else {
            let open = ranges.len() - 1;
            let current = ranges[open];
            ranges[open] = ChainRange { chain_id: current.chain_id, first: current.first, last };
        }
        i = i + 1;
    }
    ranges
}

/// Every range is that of a run of atoms with one chain identifier: it
/// carries that identifier, begins `PROFILE_OFFSET` after the residue
/// number of an atom that begins a chain, and ends `PROFILE_OFFSET`
/// before the residue number of the last atom before the next chain
/// begins.
pub proof fn lemma_ranges_are_chains(atoms: Seq<Atom>, upto: int, k: int) -> (run: (int, int))
    requires
        0 <= upto <= atoms.len(),
        0 <= k < ranges_upto(atoms, upto).len(),
    ensures
        0 <= run.0 <= run.1 < upto,
        begins_chain(atoms, run.0),
        forall|i: int| run.0 < i <= run.1 ==> !begins_chain(atoms, i),
        run.1 + 1 < upto ==> begins_chain(atoms, run.1 + 1),
        run.1 + 1 == upto <==> k == ranges_upto(atoms, upto).len() - 1,
        ranges_upto(atoms, upto)[k] == (ChainRange {
            chain_id: atoms[run.0].chain_id,
            first: (atoms[run.0].resnum + PROFILE_OFFSET) as i64,
            last: (atoms[run.1].resnum - PROFILE_OFFSET) as i64,
        }),
    decreases upto,
{
    lemma_ranges_upto_len(atoms, upto);
    lemma_ranges_upto_len(atoms, upto - 1);
    let before = ranges_upto(atoms, upto - 1);
    if begins_chain(atoms, upto - 1) {
        if k == before.len() {
            (upto - 1, upto - 1)
        } else {
            lemma_ranges_are_chains(atoms, upto - 1, k)
        }
    } else {
        let run = lemma_ranges_are_chains(atoms, upto - 1, k);
        if k == before.len() - 1 {
            (run.0, upto - 1)
        } else {
            run
        }
    }
}

/// A mark on the residue axis of the report.
#[derive(Clone, Copy, Debug, PartialEq, Eq, Structural)]
pub enum Tick {
    /// No mark at this slot.
    Blank,
    /// A mark without a label.
    Plain,
    /// A mark with the residue number within its chain as its label.
    Labelled { label: i64 },
}

/// The label for a slot: the slot, less the offsets of the chains before
/// its own.
pub open spec fn spec_tick_label(slot: int) -> int {
    if slot >= 0 {
        slot % (CHAIN_OFFSET as int)
    } else {
        -((-slot) % (CHAIN_OFFSET as int))
    }
}

/// The mark at a slot of the profile: a labelled one at every twentieth
/// slot, a plain one at every other tenth.
pub open spec fn spec_tick(slot: int) -> Tick {
    if slot % 20 == 0 {
        Tick::Labelled { label: spec_tick_label(slot) as i64 }
    } else if slot % 10 == 0 {
        Tick::Plain
    } else {
        Tick::Blank
    }
}

/// Says which mark the residue axis has at a slot.
pub fn tick(slot: i32) -> (t: Tick)
    ensures
        t == spec_tick(slot as int),
{
    let wide: i64 = slot as i64;
    let size: i64 = if wide >= 0 {
        wide
    } else {
        -wide
    };
    assert(size % 20 == 0 <==> wide % 20 == 0) by {
        if wide < 0 {
            assert((-wide) % 20 == 0 <==> wide % 20 == 0) by (nonlinear_arith);
        }
    }
    assert(size % 10 == 0 <==> wide % 10 == 0) by {
        if wide < 0 {
            assert((-wide) % 10 == 0 <==> wide % 10 == 0) by (nonlinear_arith);
        }
    }
    if size % 20 == 0 {
        let within = size % (CHAIN_OFFSET as i64);
        Tick::Labelled { label: if wide >= 0 {
            within
        } else {
            -within
        } }
    } else if size % 10 == 0 {
        Tick::Plain
    } else {
        Tick::Blank
    }
}

/// The stretch of the error profile that one page of the report shows.
#[derive(Clone, Copy, Debug, PartialEq, Eq, Structural)]
pub struct PageSpan {
    /// First slot on the page.
    pub first: i64,
    /// Last slot on the page.
    pub last: i64,
}

/// Page `k` of a chain whose pages hold `page_len` slots each: it begins
/// `k` page lengths after the first slot of the chain, and ends with the
/// last slot of the chain where that comes before the page is full.
pub open spec fn spec_page_span(range: ChainRange, page_len: int, k: int) -> PageSpan {
    let first = range.first + page_len * k;
    let full = first + page_len - 1;
    PageSpan { first: first as i64, last: if full > range.last {
        range.last
    } else {
        full as i64
    } }
}

/// The first `pages` pages of a chain.
pub open spec fn spec_page_spans(range: ChainRange, page_len: int, pages: int) -> Seq<PageSpan> {
    Seq::new(
        if pages > 0 {
            pages as nat
        } else {
            0
        },
        |k: int| spec_page_span(range, page_len, k),
    )
}

/// Lays a chain out on pages of `page_len` slots.
pub fn page_spans(range: &ChainRange, page_len: i32, pages: i32) -> (spans: Vec<PageSpan>)
    requires
        -0x1_0000_0000 <= range.first <= 0x1_0000_0000,
    ensures
        spans@ == spec_page_spans(*range, page_len as int, pages as int),
{
    let mut spans: Vec<PageSpan> = Vec::new();
    let mut k: i32 = 0;
    while k < pages
        invariant
            0 <= k,
            k <= pages || k == 0,
            -0x1_0000_0000 <= range.first <= 0x1_0000_0000,
            spans.len() == k,
            forall|j: int| 0 <= j < k ==> spans@[j] == spec_page_span(*range, page_len as int, j),
        decreases pages - k,
    {
        assert(-0x4000_0000_0000_0000 <= page_len * k <= 0x4000_0000_0000_0000) by (nonlinear_arith)
            requires
                -0x8000_0000 <= page_len <= 0x7fff_ffff,
                0 <= k <= 0x7fff_ffff,
        ;
        let first: i64 = range.first + page_len as i64 * k as i64;
        let full: i64 = first + page_len as i64 - 1;
        spans.push(PageSpan { first, last: if full > range.last {
            range.last
        } else {
            full
        } });
        k = k + 1;
    }
    assert(spans@ =~= spec_page_spans(*range, page_len as int, pages as int));
    spans
}

} // verus!
