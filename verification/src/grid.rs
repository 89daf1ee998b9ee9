//! The spatial grid index: atoms bucketed by the cubic cell they lie in,
//! for neighbour queries of bounded cost.

use vstd::prelude::*;
use crate::fault::Fatal;

verus! {

/// The most cells a grid may have.
pub const MAX_CELLS: usize = 199_999;

/// The most atoms one cell may hold.
pub const CELL_CAPACITY: usize = 15;

/// Integer coordinates of a grid cell, counted from the corner of the
/// atoms' bounding box.
#[derive(Clone, Copy, Debug, PartialEq, Eq, Structural)]
pub struct Cell {
    pub x: u32,
    pub y: u32,
    pub z: u32,
}

/// Number of cells along x that a grid needs to cover the first `upto`
/// cells of `homes`: one more than the largest x among them.
pub open spec fn extent_x(homes: Seq<Cell>, upto: int) -> nat
    decreases upto,
{
    if upto <= 0 {
        0
    } else {
        let rest = extent_x(homes, upto - 1);
        if homes[upto - 1].x + 1 > rest {
            (homes[upto - 1].x + 1) as nat
        } else {
            rest
        }
    }
}

/// As `extent_x`, along y.
pub open spec fn extent_y(homes: Seq<Cell>, upto: int) -> nat
    decreases upto,
{
    if upto <= 0 {
        0
    } else {
        let rest = extent_y(homes, upto - 1);
        if homes[upto - 1].y + 1 > rest {
            (homes[upto - 1].y + 1) as nat
        } else {
            rest
        }
    }
}

/// As `extent_x`, along z.
pub open spec fn extent_z(homes: Seq<Cell>, upto: int) -> nat
    decreases upto,
{
    if upto <= 0 {
        0
    } else {
        let rest = extent_z(homes, upto - 1);
        if homes[upto - 1].z + 1 > rest {
            (homes[upto - 1].z + 1) as nat
        } else {
            rest
        }
    }
}

/// Cells per axis of the grid that covers `homes`.
pub open spec fn extents(homes: Seq<Cell>) -> (nat, nat, nat) {
    (
        extent_x(homes, homes.len() as int),
        extent_y(homes, homes.len() as int),
        extent_z(homes, homes.len() as int),
    )
}

/// Number of cells of the grid that covers `homes`.
pub open spec fn cell_total(homes: Seq<Cell>) -> nat {
    let (nx, ny, nz) = extents(homes);
    nx * ny * nz
}

/// The first `upto` atoms that lie in cell `c`, in ascending order.
pub open spec fn members_upto(homes: Seq<Cell>, c: Cell, upto: int) -> Seq<usize>
    decreases upto,
{
    if upto <= 0 {
        Seq::empty()
    } else {
        let rest = members_upto(homes, c, upto - 1);
        if homes[upto - 1] == c {
            rest.push((upto - 1) as usize)
        } else {
            rest
        }
    }
}

/// The atoms that lie in cell `c`, in ascending order.
pub open spec fn members(homes: Seq<Cell>, c: Cell) -> Seq<usize> {
    members_upto(homes, c, homes.len() as int)
}

/// First cell coordinate within `r` of `c`, not below zero.
pub open spec fn axis_lo(c: int, r: int) -> int {
    if c - r > 0 {
        c - r
    } else {
        0
    }
}

/// One past the last cell coordinate within `r` of `c`, not beyond the
/// `n` cells of the axis.
pub open spec fn axis_end(c: int, r: int, n: int) -> int {
    if c + r + 1 < n {
        c + r + 1
    } else {
        n
    }
}

/// The atoms of the cells `x_lo..x_end` of the row at `y`, `z`, cell by
/// cell.
pub open spec fn row_atoms(homes: Seq<Cell>, z: int, y: int, x_lo: int, x_end: int) -> Seq<usize>
    decreases x_end - x_lo,
{
    if x_end <= x_lo {
        Seq::empty()
    } else {
        row_atoms(homes, z, y, x_lo, x_end - 1) + members(
            homes,
            Cell { x: (x_end - 1) as u32, y: y as u32, z: z as u32 },
        )
    }
}

/// The atoms of the rows `y_lo..y_end` of the layer at `z`, row by row.
pub open spec fn layer_atoms(
    homes: Seq<Cell>,
    z: int,
    y_lo: int,
    y_end: int,
    x_lo: int,
    x_end: int,
) -> Seq<usize>
    decreases y_end - y_lo,
{
    if y_end <= y_lo {
        Seq::empty()
    } else {
        layer_atoms(homes, z, y_lo, y_end - 1, x_lo, x_end) + row_atoms(
            homes,
            z,
            y_end - 1,
            x_lo,
            x_end,
        )
    }
}

/// The atoms of the layers `z_lo..z_end`, layer by layer.
pub open spec fn block_atoms(
    homes: Seq<Cell>,
    z_lo: int,
    z_end: int,
    y_lo: int,
    y_end: int,
    x_lo: int,
    x_end: int,
) -> Seq<usize>
    decreases z_end - z_lo,
{
    if z_end <= z_lo {
        Seq::empty()
    } else {
        block_atoms(homes, z_lo, z_end - 1, y_lo, y_end, x_lo, x_end) + layer_atoms(
            homes,
            z_end - 1,
            y_lo,
            y_end,
            x_lo,
            x_end,
        )
    }
}

/// The atoms in the cells of the grid over `homes` that lie within
/// `radius` of cell `c` along every axis: layers in ascending z, within a
/// layer rows in ascending y, within a row cells in ascending x, within a
/// cell atoms in ascending order.
pub open spec fn neighbors_of(homes: Seq<Cell>, c: Cell, radius: int) -> Seq<usize> {
    let (nx, ny, nz) = extents(homes);
    block_atoms(
        homes,
        axis_lo(c.z as int, radius),
        axis_end(c.z as int, radius, nz as int),
        axis_lo(c.y as int, radius),
        axis_end(c.y as int, radius, ny as int),
        axis_lo(c.x as int, radius),
        axis_end(c.x as int, radius, nx as int),
    )
}

/// Cell `a` lies within `radius` of cell `b` along every axis.
pub open spec fn within_reach(a: Cell, b: Cell, radius: int) -> bool {
    &&& b.x - radius <= a.x <= b.x + radius
    &&& b.y - radius <= a.y <= b.y + radius
    &&& b.z - radius <= a.z <= b.z + radius
}

/// Cell `c` lies inside a grid of `nx` by `ny` by `nz` cells.
pub open spec fn in_grid(c: Cell, nx: int, ny: int, nz: int) -> bool {
    c.x < nx && c.y < ny && c.z < nz
}

/// Place of cell `c` in a table that lists the cells row by row, layer by
/// layer.
pub open spec fn linear(c: Cell, nx: int, ny: int) -> int {
    c.x + (c.y + c.z * ny) * nx
}

/// Entry `k` of the table describes exactly the atoms `m`.
spec fn table_holds(counts: Seq<usize>, slots: Seq<usize>, k: int, m: Seq<usize>) -> bool {
    &&& 0 <= k < counts.len()
    &&& counts[k] == m.len()
    &&& m.len() <= CELL_CAPACITY
    &&& forall|j: int| 0 <= j < m.len() ==> slots[k * CELL_CAPACITY + j] == m[j]
}

proof fn lemma_extents_cover(homes: Seq<Cell>, upto: int, i: int)
    requires
        0 <= i < upto <= homes.len(),
    ensures
        homes[i].x < extent_x(homes, upto),
        homes[i].y < extent_y(homes, upto),
        homes[i].z < extent_z(homes, upto),
    decreases upto,
{
    if i < upto - 1 {
        lemma_extents_cover(homes, upto - 1, i);
    }
}

proof fn lemma_scaled_sum_bound(x: int, a: int, n: int, m: int)
    by (nonlinear_arith)
    requires
        0 <= x < n,
        0 <= a < m,
    ensures
        0 <= x + a * n < n * m,
        0 <= a * n,
{
}

proof fn lemma_scaled_sum_unique(x1: int, a1: int, x2: int, a2: int, n: int)
    by (nonlinear_arith)
    requires
        0 <= x1 < n,
        0 <= x2 < n,
        x1 + a1 * n == x2 + a2 * n,
    ensures
        x1 == x2,
        a1 == a2,
{
}

proof fn lemma_product_at_least(a: int, b: int, c: int)
    by (nonlinear_arith)
    requires
        1 <= a,
        1 <= b,
        1 <= c,
    ensures
        a * b * c >= a,
        a * b * c >= b,
        a * b * c >= c,
        a * b * c >= a * b,
        a * b * c >= b * c,
        a * b * c == a * (b * c),
        a * b >= a,
{
}

proof fn lemma_product_at_most(a: int, b: int, amax: int, bmax: int)
    by (nonlinear_arith)
    requires
        0 <= a <= amax,
        0 <= b <= bmax,
    ensures
        0 <= a * b <= amax * bmax,
{
}

/// A cell inside the grid has a place inside the table.
proof fn lemma_linear_bound(c: Cell, nx: int, ny: int, nz: int)
    requires
        in_grid(c, nx, ny, nz),
    ensures
        0 <= linear(c, nx, ny) < nx * ny * nz,
{
    lemma_scaled_sum_bound(c.y as int, c.z as int, ny, nz);
    lemma_scaled_sum_bound(c.x as int, c.y + c.z * ny, nx, ny * nz);
    assert(nx * (ny * nz) == nx * ny * nz) by (nonlinear_arith);
}

/// Two cells inside the grid with the same place in the table are the
/// same cell.
proof fn lemma_linear_injective(a: Cell, b: Cell, nx: int, ny: int, nz: int)
    requires
        in_grid(a, nx, ny, nz),
        in_grid(b, nx, ny, nz),
        linear(a, nx, ny) == linear(b, nx, ny),
    ensures
        a == b,
{
    lemma_scaled_sum_unique(a.x as int, a.y + a.z * ny, b.x as int, b.y + b.z * ny, nx);
    lemma_scaled_sum_unique(a.y as int, a.z as int, b.y as int, b.z as int, ny);
}

proof fn lemma_members_grow(homes: Seq<Cell>, c: Cell, j: int, n: int)
    requires
        j <= n,
    ensures
        members_upto(homes, c, j).len() <= members_upto(homes, c, n).len(),
    decreases n - j,
{
    if j < n {
        lemma_members_grow(homes, c, j, n - 1);
    }
}

/// What a cell's member list holds: atoms of that cell, in ascending
/// order, below the bound.
pub proof fn lemma_members_are_atoms_of_cell(homes: Seq<Cell>, c: Cell, upto: int)
    requires
        upto <= homes.len() <= usize::MAX,
    ensures
        forall|j: int|
            0 <= j < members_upto(homes, c, upto).len() ==> {
                let i = #[trigger] members_upto(homes, c, upto)[j];
                0 <= i < upto && homes[i as int] == c
            },
        forall|j: int, k: int|
            0 <= j < k < members_upto(homes, c, upto).len() ==> members_upto(homes, c, upto)[j]
                < members_upto(homes, c, upto)[k],
        forall|i: int|
            0 <= i < upto && homes[i] == c ==> members_upto(homes, c, upto).contains(i as usize),
    decreases upto,
{
    if upto > 0 {
        lemma_members_are_atoms_of_cell(homes, c, upto - 1);
        let rest = members_upto(homes, c, upto - 1);
        let all = members_upto(homes, c, upto);
        assert forall|i: int| 0 <= i < upto && homes[i] == c implies all.contains(i as usize) by {
            if i < upto - 1 {
                let j = choose|j: int| 0 <= j < rest.len() && rest[j] == i as usize;
                assert(all[j] == i as usize);
            } else {
                assert(all[rest.len() as int] == i as usize);
            }
        }
    }
}

/// Measures the grid that covers `homes`: its cells along x, y and z,
/// unless there would be more than `MAX_CELLS` of them.
fn measure(homes: &Vec<Cell>) -> (dims: Option<(usize, usize, usize)>)
    ensures
        match dims {
            Some((nx, ny, nz)) => {
                &&& extents(homes@) == (nx as nat, ny as nat, nz as nat)
                &&& cell_total(homes@) == nx * ny * nz
                &&& nx * ny * nz <= MAX_CELLS
                &&& nx * ny <= MAX_CELLS
                &&& nx <= MAX_CELLS
                &&& ny <= MAX_CELLS
                &&& nz <= MAX_CELLS
            },
            None => cell_total(homes@) > MAX_CELLS,
        },
{
    let n = homes.len();
    let mut ex: u64 = 0;
    let mut ey: u64 = 0;
    let mut ez: u64 = 0;
    let mut i: usize = 0;
    while i < n
        invariant
            n == homes.len(),
            i <= n,
            ex == extent_x(homes@, i as int),
            ey == extent_y(homes@, i as int),
            ez == extent_z(homes@, i as int),
            ex <= u32::MAX + 1,
            ey <= u32::MAX + 1,
            ez <= u32::MAX + 1,
        decreases n - i,
    {
        let c = homes[i];
        if c.x as u64 + 1 > ex {
            ex = c.x as u64 + 1;
        }
        if c.y as u64 + 1 > ey {
            ey = c.y as u64 + 1;
        }
        if c.z as u64 + 1 > ez {
            ez = c.z as u64 + 1;
        }
        i = i + 1;
    }
    proof {
        assert(cell_total(homes@) == ex * ey * ez);
        if n > 0 {
            lemma_extents_cover(homes@, n as int, 0);
            lemma_product_at_least(ex as int, ey as int, ez as int);
        } else {
            assert(ex * ey * ez == 0 && ex * ey == 0) by (nonlinear_arith)
                requires
                    ex == 0,
            ;
        }
    }
    if ex > MAX_CELLS as u64 {
        return None;
    }
    proof {
        lemma_product_at_most(ex as int, ey as int, MAX_CELLS as int, u32::MAX + 1);
    }
    let layer: u64 = ex * ey;
    if layer > MAX_CELLS as u64 {
        assert(n > 0);
        assert(ex * ey * ez >= ex * ey);
        return None;
    }
    proof {
        lemma_product_at_most(layer as int, ez as int, MAX_CELLS as int, u32::MAX + 1);
    }
    let total: u64 = layer * ez;
    if total > MAX_CELLS as u64 {
        return None;
    }
    assert(total == ex * ey * ez);
    Some((ex as usize, ey as usize, ez as usize))
}

/// Number of atoms among the first `upto` that are filed at place `k`
/// of the table of a grid with `nx` by `ny` cells to a layer.
pub open spec fn filed_at(homes: Seq<Cell>, nx: int, ny: int, k: int, upto: int) -> nat
    decreases upto,
{
    if upto <= 0 {
        0
    } else {
        filed_at(homes, nx, ny, k, upto - 1) + if linear(homes[upto - 1], nx, ny) == k {
            1nat
        } else {
            0nat
        }
    }
}

/// The numbers of atoms of those among the first `upto` places of the
/// table at which more than `CELL_CAPACITY` atoms are filed, in the
/// order of the table.
pub open spec fn overfull_upto(homes: Seq<Cell>, nx: int, ny: int, upto: int) -> Seq<usize>
    decreases upto,
{
    if upto <= 0 {
        Seq::empty()
    } else {
        let rest = overfull_upto(homes, nx, ny, upto - 1);
        let held = filed_at(homes, nx, ny, upto - 1, homes.len() as int);
        if held > CELL_CAPACITY {
            rest.push(held as usize)
        } else {
            rest
        }
    }
}

/// The numbers of atoms of the cells that hold more than `CELL_CAPACITY`
/// in the grid that covers `homes`, in the order of the table; none for
/// a grid with too many cells.
pub open spec fn spec_overfull_cells(homes: Seq<Cell>) -> Seq<usize> {
    let (nx, ny, nz) = extents(homes);
    if nx * ny * nz > MAX_CELLS {
        Seq::empty()
    } else {
        overfull_upto(homes, nx as int, ny as int, (nx * ny * nz) as int)
    }
}

proof fn lemma_filed_at_bound(homes: Seq<Cell>, nx: int, ny: int, k: int, upto: int)
    ensures
        upto >= 0 ==> filed_at(homes, nx, ny, k, upto) <= upto,
        upto <= 0 ==> filed_at(homes, nx, ny, k, upto) == 0,
    decreases upto,
{
    if upto > 0 {
        lemma_filed_at_bound(homes, nx, ny, k, upto - 1);
    }
}

/// What is filed at the place of a cell of the grid is the atoms of that
/// cell.
pub proof fn lemma_filed_at_is_population(homes: Seq<Cell>, c: Cell, upto: int)
    requires
        upto <= homes.len(),
        in_grid(
            c,
            extents(homes).0 as int,
            extents(homes).1 as int,
            extents(homes).2 as int,
        ),
    ensures
        filed_at(
            homes,
            extents(homes).0 as int,
            extents(homes).1 as int,
            linear(c, extents(homes).0 as int, extents(homes).1 as int),
            upto,
        ) == members_upto(homes, c, upto).len(),
    decreases upto,
{
    if upto > 0 {
        lemma_filed_at_is_population(homes, c, upto - 1);
        let (nx, ny, nz) = extents(homes);
        let h = homes[upto - 1];
        lemma_extents_cover(homes, homes.len() as int, upto - 1);
        if linear(h, nx as int, ny as int) == linear(c, nx as int, ny as int) {
            lemma_linear_injective(h, c, nx as int, ny as int, nz as int);
        }
    }
}

proof fn lemma_overfull_upto_lists(homes: Seq<Cell>, nx: int, ny: int, upto: int, k: int)
    requires
        0 <= k < upto,
        filed_at(homes, nx, ny, k, homes.len() as int) > CELL_CAPACITY,
    ensures
        overfull_upto(homes, nx, ny, upto).len() > 0,
    decreases upto,
{
    if k < upto - 1 {
        lemma_overfull_upto_lists(homes, nx, ny, upto - 1, k);
    }
}

proof fn lemma_overfull_upto_place(homes: Seq<Cell>, nx: int, ny: int, upto: int) -> (k: int)
    requires
        overfull_upto(homes, nx, ny, upto).len() > 0,
    ensures
        0 <= k < upto,
        filed_at(homes, nx, ny, k, homes.len() as int) > CELL_CAPACITY,
    decreases upto,
{
    if upto <= 0 {
        0
    } else if filed_at(homes, nx, ny, upto - 1, homes.len() as int) > CELL_CAPACITY {
        upto - 1
    } else {
        lemma_overfull_upto_place(homes, nx, ny, upto - 1)
    }
}

proof fn lemma_filed_atom(homes: Seq<Cell>, nx: int, ny: int, k: int, upto: int) -> (i: int)
    requires
        filed_at(homes, nx, ny, k, upto) > 0,
    ensures
        0 <= i < upto,
        linear(homes[i], nx, ny) == k,
    decreases upto,
{
    if upto <= 0 {
        0
    } else if linear(homes[upto - 1], nx, ny) == k {
        upto - 1
    } else {
        lemma_filed_atom(homes, nx, ny, k, upto - 1)
    }
}

/// The list of overfull cells is empty exactly when no cell holds more
/// atoms than it has room for.
pub proof fn lemma_overfull_cells_are_overflow(homes: Seq<Cell>)
    requires
        homes.len() <= usize::MAX,
        cell_total(homes) <= MAX_CELLS,
    ensures
        spec_overfull_cells(homes).len() > 0 <==> exists|c: Cell| #[trigger]
            members(homes, c).len() > CELL_CAPACITY,
{
    let (nx, ny, nz) = extents(homes);
    let n = homes.len() as int;
    let total = (nx * ny * nz) as int;
    if spec_overfull_cells(homes).len() > 0 {
        let k = lemma_overfull_upto_place(homes, nx as int, ny as int, total);
        let i = lemma_filed_atom(homes, nx as int, ny as int, k, n);
        let c = homes[i];
        lemma_extents_cover(homes, n, i);
        lemma_filed_at_is_population(homes, c, n);
        assert(members(homes, c).len() > CELL_CAPACITY);
    }
    if exists|c: Cell| #[trigger] members(homes, c).len() > CELL_CAPACITY {
        let c = choose|c: Cell| #[trigger] members(homes, c).len() > CELL_CAPACITY;
        lemma_members_are_atoms_of_cell(homes, c, n);
        let a = members(homes, c)[0];
        assert(homes[a as int] == c);
        lemma_extents_cover(homes, n, a as int);
        lemma_linear_bound(c, nx as int, ny as int, nz as int);
        lemma_filed_at_is_population(homes, c, n);
        lemma_overfull_upto_lists(
            homes,
            nx as int,
            ny as int,
            total,
            linear(c, nx as int, ny as int),
        );
    }
}

/// Counts the atoms of every cell of the grid that covers `homes` and
/// lists the counts that exceed `CELL_CAPACITY`, in the order of the
/// table. The list is empty exactly when no cell is overfull, and also
/// for a grid with too many cells.
pub fn overfull_cells(homes: &Vec<Cell>) -> (counts: Vec<usize>)
    ensures
        counts@ == spec_overfull_cells(homes@),
{
    let n = homes.len();
    let (nx, ny, nz) = match measure(homes) {
        Some(dims) => dims,
        None => {
            return Vec::new();
        },
    };
    let cells = nx * ny * nz;
    let mut held: Vec<usize> = vec![0usize; cells];
    proof {
        assert forall|k: int| 0 <= k < cells implies held@[k] == filed_at(
            homes@,
            nx as int,
            ny as int,
            k,
            0,
        ) by {}
    }
    let mut i: usize = 0;
    while i < n
        invariant
            n == homes.len(),
            i <= n,
            extents(homes@) == (nx as nat, ny as nat, nz as nat),
            cells == nx * ny * nz,
            cells <= MAX_CELLS,
            held.len() == cells,
            forall|k: int|
                0 <= k < cells ==> #[trigger] held@[k] == filed_at(
                    homes@,
                    nx as int,
                    ny as int,
                    k,
                    i as int,
                ),
        decreases n - i,
    {
        let h = homes[i];
        proof {
            lemma_extents_cover(homes@, n as int, i as int);
            assert(in_grid(h, nx as int, ny as int, nz as int));
            lemma_linear_bound(h, nx as int, ny as int, nz as int);
            lemma_product_at_least(nx as int, ny as int, nz as int);
            lemma_scaled_sum_bound(h.y as int, h.z as int, ny as int, nz as int);
            lemma_scaled_sum_bound(h.x as int, h.y + h.z * ny, nx as int, ny * nz);
        }
        let k: usize = h.x as usize + (h.y as usize + h.z as usize * ny) * nx;
        proof {
            lemma_filed_at_bound(homes@, nx as int, ny as int, k as int, i as int);
        }
        let before = held[k];
        held[k] = before + 1;
        i = i + 1;
    }
    let mut counts: Vec<usize> = Vec::new();
    let mut k: usize = 0;
    while k < cells
        invariant
            k <= cells,
            held.len() == cells,
            n == homes.len(),
            forall|j: int|
                0 <= j < cells ==> #[trigger] held@[j] == filed_at(
                    homes@,
                    nx as int,
                    ny as int,
                    j,
                    n as int,
                ),
            counts@ == overfull_upto(homes@, nx as int, ny as int, k as int),
        decreases cells - k,
    {
        if held[k] > CELL_CAPACITY {
            counts.push(held[k]);
        }
        k = k + 1;
    }
    counts
}

/// The grid over a structure's atoms. It is built once and only read from
/// then on.
pub struct Grid {
    nx: usize,
    ny: usize,
    nz: usize,
    homes: Vec<Cell>,
    counts: Vec<usize>,
    slots: Vec<usize>,
}

impl Grid {
    #[verifier::type_invariant]
    spec fn wf(self) -> bool {
        &&& extents(self.homes@) == (self.nx as nat, self.ny as nat, self.nz as nat)
        &&& self.nx * self.ny * self.nz <= MAX_CELLS
        &&& self.nx <= MAX_CELLS
        &&& self.ny <= MAX_CELLS
        &&& self.nz <= MAX_CELLS
        &&& self.counts.len() == self.nx * self.ny * self.nz
        &&& self.slots.len() == self.counts.len() * CELL_CAPACITY
        &&& forall|c: Cell| #[trigger]
            in_grid(c, self.nx as int, self.ny as int, self.nz as int) ==> table_holds(
                self.counts@,
                self.slots@,
                linear(c, self.nx as int, self.ny as int),
                members(self.homes@, c),
            )
    }

    /// The cell of each atom, by atom index.
    pub closed spec fn homes(&self) -> Seq<Cell> {
        self.homes@
    }

    /// Builds the grid that covers the given cells, one per atom, and
    /// files every atom under its cell. Along each axis the grid has one
    /// cell more than the largest coordinate that occurs. The build fails
    /// when the grid would have more than `MAX_CELLS` cells, and otherwise
    /// when some cell would hold more than `CELL_CAPACITY` atoms.
    pub fn build(homes: Vec<Cell>) -> (r: Result<Grid, Fatal>)
        ensures
            match r {
                Ok(g) => {
                    &&& g.homes() == homes@
                    &&& cell_total(homes@) <= MAX_CELLS
                    &&& forall|c: Cell| #[trigger] members(homes@, c).len() <= CELL_CAPACITY
                },
                Err(Fatal::TooManyCells) => cell_total(homes@) > MAX_CELLS,
                Err(Fatal::CellOverflow) => {
                    &&& cell_total(homes@) <= MAX_CELLS
                    &&& exists|c: Cell| #[trigger] members(homes@, c).len() > CELL_CAPACITY
                },
                Err(_) => false,
            },
    {
        let n = homes.len();
        let (nx, ny, nz) = match measure(&homes) {
            Some(dims) => dims,
            None => {
                return Err(Fatal::TooManyCells);
            },
        };
        let cells = nx * ny * nz;
        let mut counts: Vec<usize> = vec![0usize; cells];
        let mut slots: Vec<usize> = vec![0usize; cells * CELL_CAPACITY];
        proof {
            assert forall|c: Cell| #[trigger]
                in_grid(c, nx as int, ny as int, nz as int) implies table_holds(
                counts@,
                slots@,
                linear(c, nx as int, ny as int),
                members_upto(homes@, c, 0),
            ) by {
                lemma_linear_bound(c, nx as int, ny as int, nz as int);
                assert(counts@[linear(c, nx as int, ny as int)] == 0);
            }
        }
        let mut i: usize = 0;
        while i < n
            invariant
                n == homes.len(),
                i <= n,
                extents(homes@) == (nx as nat, ny as nat, nz as nat),
                cell_total(homes@) <= MAX_CELLS,
                cells == nx * ny * nz,
                cells <= MAX_CELLS,
                counts.len() == cells,
                slots.len() == cells * CELL_CAPACITY,
                forall|c: Cell| #[trigger]
                    in_grid(c, nx as int, ny as int, nz as int) ==> table_holds(
                        counts@,
                        slots@,
                        linear(c, nx as int, ny as int),
                        members_upto(homes@, c, i as int),
                    ),
            decreases n - i,
        {
            let h = homes[i];
            proof {
                lemma_extents_cover(homes@, n as int, i as int);
                assert(in_grid(h, nx as int, ny as int, nz as int));
                lemma_linear_bound(h, nx as int, ny as int, nz as int);
                lemma_product_at_least(nx as int, ny as int, nz as int);
                lemma_scaled_sum_bound(h.y as int, h.z as int, ny as int, nz as int);
                lemma_scaled_sum_bound(h.x as int, h.y + h.z * ny, nx as int, ny * nz);
            }
            let k: usize = h.x as usize + (h.y as usize + h.z as usize * ny) * nx;
            let held = counts[k];
            if held >= CELL_CAPACITY {
                proof {
                    assert(members_upto(homes@, h, i as int).len() == CELL_CAPACITY);
                    assert(members_upto(homes@, h, i as int + 1).len() == CELL_CAPACITY + 1);
                    lemma_members_grow(homes@, h, i as int + 1, n as int);
                    assert(members(homes@, h).len() > CELL_CAPACITY);
                }
                return Err(Fatal::CellOverflow);
            }
            let ghost counts_before = counts@;
            let ghost slots_before = slots@;
            counts[k] = held + 1;
            slots[k * CELL_CAPACITY + held] = i;
            proof {
                assert forall|c: Cell| #[trigger]
                    in_grid(c, nx as int, ny as int, nz as int) implies table_holds(
                    counts@,
                    slots@,
                    linear(c, nx as int, ny as int),
                    members_upto(homes@, c, i as int + 1),
                ) by {
                    lemma_linear_bound(c, nx as int, ny as int, nz as int);
                    let kc = linear(c, nx as int, ny as int);
                    assert(table_holds(counts_before, slots_before, kc, members_upto(homes@, c, i as int)));
                    if c == h {
                    } else {
                        if kc == k {
                            lemma_linear_injective(c, h, nx as int, ny as int, nz as int);
                        }
                    }
                }
            }
            i = i + 1;
        }
        proof {
            assert forall|c: Cell| #[trigger] members(homes@, c).len() <= CELL_CAPACITY by {
                if in_grid(c, nx as int, ny as int, nz as int) {
                } else {
                    lemma_members_are_atoms_of_cell(homes@, c, n as int);
                    if members(homes@, c).len() > 0 {
                        let a = members(homes@, c)[0];
                        lemma_extents_cover(homes@, n as int, a as int);
                    }
                }
            }
        }
        Ok(Grid { nx, ny, nz, homes, counts, slots })
    }

    /// Number of atoms filed in the grid.
    pub fn atom_count(&self) -> (n: usize)
        ensures
            n == self.homes().len(),
    {
        self.homes.len()
    }

    /// The cell that atom `i` was filed under.
    pub fn home(&self, i: usize) -> (c: Cell)
        requires
            i < self.homes().len(),
        ensures
            c == self.homes()[i as int],
    {
        self.homes[i]
    }

    /// Cells along x, y and z.
    pub fn dims(&self) -> (d: (usize, usize, usize))
        ensures
            extents(self.homes()) == (d.0 as nat, d.1 as nat, d.2 as nat),
    {
        proof {
            use_type_invariant(self);
        }
        (self.nx, self.ny, self.nz)
    }

    /// All atoms in the cells within `radius` of cell `c` along every
    /// axis, the range cut off at the grid's bounds.
    pub fn neighbors(&self, c: Cell, radius: u32) -> (out: Vec<usize>)
        ensures
            out@ == neighbors_of(self.homes(), c, radius as int),
    {
        proof {
            use_type_invariant(self);
        }
        let (x_lo, x_end) = axis_range(c.x, radius, self.nx);
        let (y_lo, y_end) = axis_range(c.y, radius, self.ny);
        let (z_lo, z_end) = axis_range(c.z, radius, self.nz);
        let mut out: Vec<usize> = Vec::new();
        let mut z: usize = z_lo;
        while z < z_end
            invariant
                self.wf(),
                x_end <= self.nx,
                y_end <= self.ny,
                z_end <= self.nz,
                z_lo <= z,
                z <= z_end || z == z_lo,
                out@ == block_atoms(
                    self.homes@,
                    z_lo as int,
                    z as int,
                    y_lo as int,
                    y_end as int,
                    x_lo as int,
                    x_end as int,
                ),
            decreases z_end - z,
        {
            let ghost before_layer = out@;
            let mut y: usize = y_lo;
            while y < y_end
                invariant
                    self.wf(),
                    x_end <= self.nx,
                    y_end <= self.ny,
                    z < z_end <= self.nz,
                    y_lo <= y,
                    y <= y_end || y == y_lo,
                    out@ == before_layer + layer_atoms(
                        self.homes@,
                        z as int,
                        y_lo as int,
                        y as int,
                        x_lo as int,
                        x_end as int,
                    ),
                decreases y_end - y,
            {
                let ghost before_row = out@;
                let mut x: usize = x_lo;
                while x < x_end
                    invariant
                        self.wf(),
                        x_end <= self.nx,
                        y < y_end <= self.ny,
                        z < z_end <= self.nz,
                        x_lo <= x,
                        x <= x_end || x == x_lo,
                        out@ == before_row + row_atoms(
                            self.homes@,
                            z as int,
                            y as int,
                            x_lo as int,
                            x as int,
                        ),
                    decreases x_end - x,
                {
                    let ghost before_cell = out@;
                    let ghost cell = Cell { x: x as u32, y: y as u32, z: z as u32 };
                    proof {
                        lemma_product_at_least(self.nx as int, self.ny as int, self.nz as int);
                        assert(in_grid(cell, self.nx as int, self.ny as int, self.nz as int));
                        lemma_linear_bound(cell, self.nx as int, self.ny as int, self.nz as int);
                        lemma_scaled_sum_bound(y as int, z as int, self.ny as int, self.nz as int);
                        lemma_scaled_sum_bound(
                            x as int,
                            y + z * self.ny,
                            self.nx as int,
                            self.ny * self.nz,
                        );
                    }
                    let k: usize = x + (y + z * self.ny) * self.nx;
                    let held = self.counts[k];
                    let ghost listed = members(self.homes@, cell);
                    let mut m: usize = 0;
                    while m < held
                        invariant
                            self.wf(),
                            k < self.counts.len(),
                            held == listed.len(),
                            held <= CELL_CAPACITY,
                            m <= held,
                            forall|j: int|
                                0 <= j < listed.len() ==> self.slots@[k * CELL_CAPACITY + j]
                                    == listed[j],
                            out@ == before_cell + listed.take(m as int),
                        decreases held - m,
                    {
                        out.push(self.slots[k * CELL_CAPACITY + m]);
                        proof {
                            assert(listed.take(m as int + 1) == listed.take(m as int).push(
                                listed[m as int],
                            ));
                        }
                        m = m + 1;
                    }
                    proof {
                        assert(listed.take(held as int) == listed);
                        assert(out@ =~= before_row + (row_atoms(
                            self.homes@,
                            z as int,
                            y as int,
                            x_lo as int,
                            x as int,
                        ) + listed));
                    }
                    x = x + 1;
                }
                proof {
                    let done = layer_atoms(
                        self.homes@,
                        z as int,
                        y_lo as int,
                        y as int,
                        x_lo as int,
                        x_end as int,
                    );
                    let this_row = row_atoms(
                        self.homes@,
                        z as int,
                        y as int,
                        x_lo as int,
                        x_end as int,
                    );
                    assert(out@ == before_row + this_row);
                    assert(out@ =~= before_layer + (done + this_row));
                }
                y = y + 1;
            }
            proof {
                let done = block_atoms(
                    self.homes@,
                    z_lo as int,
                    z as int,
                    y_lo as int,
                    y_end as int,
                    x_lo as int,
                    x_end as int,
                );
                let this_layer = layer_atoms(
                    self.homes@,
                    z as int,
                    y_lo as int,
                    y_end as int,
                    x_lo as int,
                    x_end as int,
                );
                assert(out@ == done + this_layer);
            }
            z = z + 1;
        }
        out
    }
}

/// The cells along one axis that a query around `c` visits: from
/// `axis_lo` up to, not including, `axis_end`.
fn axis_range(c: u32, radius: u32, n: usize) -> (r: (usize, usize))
    requires
        n <= MAX_CELLS,
    ensures
        r.0 == axis_lo(c as int, radius as int),
        r.1 == axis_end(c as int, radius as int, n as int),
        r.1 <= n,
{
    let lo: u32 = if c > radius {
        c - radius
    } else {
        0
    };
    let reach: u64 = c as u64 + radius as u64 + 1;
    let end: usize = if reach < n as u64 {
        reach as usize
    } else {
        n
    };
    (lo as usize, end)
}

proof fn lemma_concat_contains(a: Seq<usize>, b: Seq<usize>, v: usize)
    ensures
        (a + b).contains(v) <==> a.contains(v) || b.contains(v),
{
    if a.contains(v) {
        let j = choose|j: int| 0 <= j < a.len() && a[j] == v;
        assert((a + b)[j] == v);
    }
    if b.contains(v) {
        let j = choose|j: int| 0 <= j < b.len() && b[j] == v;
        assert((a + b)[a.len() + j] == v);
    }
    if (a + b).contains(v) {
        let j = choose|j: int| 0 <= j < (a + b).len() && (a + b)[j] == v;
        if j < a.len() {
            assert(a[j] == v);
        } else {
            assert(b[j - a.len()] == v);
        }
    }
}

proof fn lemma_concat_no_duplicates(a: Seq<usize>, b: Seq<usize>)
    requires
        a.no_duplicates(),
        b.no_duplicates(),
        forall|v: usize| !(a.contains(v) && b.contains(v)),
    ensures
        (a + b).no_duplicates(),
{
    assert forall|i: int, j: int| 0 <= i < j < (a + b).len() implies (a + b)[i] != (a + b)[j] by {
        if j < a.len() {
        } else if i >= a.len() {
        } else {
            assert(a.contains(a[i]));
            assert(b.contains(b[j - a.len()]));
        }
    }
}

proof fn lemma_extents_fit(homes: Seq<Cell>, upto: int)
    ensures
        extent_x(homes, upto) <= u32::MAX + 1,
        extent_y(homes, upto) <= u32::MAX + 1,
        extent_z(homes, upto) <= u32::MAX + 1,
    decreases upto,
{
    if upto > 0 {
        lemma_extents_fit(homes, upto - 1);
    }
}

proof fn lemma_members_contains(homes: Seq<Cell>, c: Cell, i: usize)
    requires
        homes.len() <= usize::MAX,
    ensures
        members(homes, c).contains(i) <==> i < homes.len() && homes[i as int] == c,
        members(homes, c).no_duplicates(),
{
    lemma_members_are_atoms_of_cell(homes, c, homes.len() as int);
    if members(homes, c).contains(i) {
        let j = choose|j: int| 0 <= j < members(homes, c).len() && members(homes, c)[j] == i;
        assert(members_upto(homes, c, homes.len() as int)[j] == i);
    }
}

proof fn lemma_row_contains(homes: Seq<Cell>, z: int, y: int, x_lo: int, x_end: int, i: usize)
    requires
        homes.len() <= usize::MAX,
        0 <= z <= u32::MAX,
        0 <= y <= u32::MAX,
        0 <= x_lo,
        x_end <= u32::MAX + 1,
    ensures
        row_atoms(homes, z, y, x_lo, x_end).contains(i) <==> {
            &&& i < homes.len()
            &&& homes[i as int].z == z
            &&& homes[i as int].y == y
            &&& x_lo <= homes[i as int].x < x_end
        },
    decreases x_end - x_lo,
{
    if x_end > x_lo {
        let c = Cell { x: (x_end - 1) as u32, y: y as u32, z: z as u32 };
        lemma_row_contains(homes, z, y, x_lo, x_end - 1, i);
        lemma_members_contains(homes, c, i);
        lemma_concat_contains(row_atoms(homes, z, y, x_lo, x_end - 1), members(homes, c), i);
    }
}

proof fn lemma_row_no_duplicates(homes: Seq<Cell>, z: int, y: int, x_lo: int, x_end: int)
    requires
        homes.len() <= usize::MAX,
        0 <= z <= u32::MAX,
        0 <= y <= u32::MAX,
        0 <= x_lo,
        x_end <= u32::MAX + 1,
    ensures
        row_atoms(homes, z, y, x_lo, x_end).no_duplicates(),
    decreases x_end - x_lo,
{
    if x_end > x_lo {
        let c = Cell { x: (x_end - 1) as u32, y: y as u32, z: z as u32 };
        let before = row_atoms(homes, z, y, x_lo, x_end - 1);
        lemma_row_no_duplicates(homes, z, y, x_lo, x_end - 1);
        assert forall|v: usize| !(before.contains(v) && members(homes, c).contains(v)) by {
            lemma_row_contains(homes, z, y, x_lo, x_end - 1, v);
            lemma_members_contains(homes, c, v);
        }
        lemma_members_contains(homes, c, 0);
        lemma_concat_no_duplicates(before, members(homes, c));
    }
}

proof fn lemma_layer_contains(
    homes: Seq<Cell>,
    z: int,
    y_lo: int,
    y_end: int,
    x_lo: int,
    x_end: int,
    i: usize,
)
    requires
        homes.len() <= usize::MAX,
        0 <= z <= u32::MAX,
        0 <= y_lo,
        y_end <= u32::MAX + 1,
        0 <= x_lo,
        x_end <= u32::MAX + 1,
    ensures
        layer_atoms(homes, z, y_lo, y_end, x_lo, x_end).contains(i) <==> {
            &&& i < homes.len()
            &&& homes[i as int].z == z
            &&& y_lo <= homes[i as int].y < y_end
            &&& x_lo <= homes[i as int].x < x_end
        },
    decreases y_end - y_lo,
{
    if y_end > y_lo {
        lemma_layer_contains(homes, z, y_lo, y_end - 1, x_lo, x_end, i);
        lemma_row_contains(homes, z, y_end - 1, x_lo, x_end, i);
        lemma_concat_contains(
            layer_atoms(homes, z, y_lo, y_end - 1, x_lo, x_end),
            row_atoms(homes, z, y_end - 1, x_lo, x_end),
            i,
        );
    }
}

proof fn lemma_layer_no_duplicates(
    homes: Seq<Cell>,
    z: int,
    y_lo: int,
    y_end: int,
    x_lo: int,
    x_end: int,
)
    requires
        homes.len() <= usize::MAX,
        0 <= z <= u32::MAX,
        0 <= y_lo,
        y_end <= u32::MAX + 1,
        0 <= x_lo,
        x_end <= u32::MAX + 1,
    ensures
        layer_atoms(homes, z, y_lo, y_end, x_lo, x_end).no_duplicates(),
    decreases y_end - y_lo,
{
    if y_end > y_lo {
        let before = layer_atoms(homes, z, y_lo, y_end - 1, x_lo, x_end);
        let last = row_atoms(homes, z, y_end - 1, x_lo, x_end);
        lemma_layer_no_duplicates(homes, z, y_lo, y_end - 1, x_lo, x_end);
        lemma_row_no_duplicates(homes, z, y_end - 1, x_lo, x_end);
        assert forall|v: usize| !(before.contains(v) && last.contains(v)) by {
            lemma_layer_contains(homes, z, y_lo, y_end - 1, x_lo, x_end, v);
            lemma_row_contains(homes, z, y_end - 1, x_lo, x_end, v);
        }
        lemma_concat_no_duplicates(before, last);
    }
}

proof fn lemma_block_contains(
    homes: Seq<Cell>,
    z_lo: int,
    z_end: int,
    y_lo: int,
    y_end: int,
    x_lo: int,
    x_end: int,
    i: usize,
)
    requires
        homes.len() <= usize::MAX,
        0 <= z_lo,
        z_end <= u32::MAX + 1,
        0 <= y_lo,
        y_end <= u32::MAX + 1,
        0 <= x_lo,
        x_end <= u32::MAX + 1,
    ensures
        block_atoms(homes, z_lo, z_end, y_lo, y_end, x_lo, x_end).contains(i) <==> {
            &&& i < homes.len()
            &&& z_lo <= homes[i as int].z < z_end
            &&& y_lo <= homes[i as int].y < y_end
            &&& x_lo <= homes[i as int].x < x_end
        },
    decreases z_end - z_lo,
{
    if z_end > z_lo {
        lemma_block_contains(homes, z_lo, z_end - 1, y_lo, y_end, x_lo, x_end, i);
        lemma_layer_contains(homes, z_end - 1, y_lo, y_end, x_lo, x_end, i);
        lemma_concat_contains(
            block_atoms(homes, z_lo, z_end - 1, y_lo, y_end, x_lo, x_end),
            layer_atoms(homes, z_end - 1, y_lo, y_end, x_lo, x_end),
            i,
        );
    }
}

proof fn lemma_block_no_duplicates(
    homes: Seq<Cell>,
    z_lo: int,
    z_end: int,
    y_lo: int,
    y_end: int,
    x_lo: int,
    x_end: int,
)
    requires
        homes.len() <= usize::MAX,
        0 <= z_lo,
        z_end <= u32::MAX + 1,
        0 <= y_lo,
        y_end <= u32::MAX + 1,
        0 <= x_lo,
        x_end <= u32::MAX + 1,
    ensures
        block_atoms(homes, z_lo, z_end, y_lo, y_end, x_lo, x_end).no_duplicates(),
    decreases z_end - z_lo,
{
    if z_end > z_lo {
        let before = block_atoms(homes, z_lo, z_end - 1, y_lo, y_end, x_lo, x_end);
        let last = layer_atoms(homes, z_end - 1, y_lo, y_end, x_lo, x_end);
        lemma_block_no_duplicates(homes, z_lo, z_end - 1, y_lo, y_end, x_lo, x_end);
        lemma_layer_no_duplicates(homes, z_end - 1, y_lo, y_end, x_lo, x_end);
        assert forall|v: usize| !(before.contains(v) && last.contains(v)) by {
            lemma_block_contains(homes, z_lo, z_end - 1, y_lo, y_end, x_lo, x_end, v);
            lemma_layer_contains(homes, z_end - 1, y_lo, y_end, x_lo, x_end, v);
        }
        lemma_concat_no_duplicates(before, last);
    }
}

/// A query returns exactly the atoms whose cell lies within the radius of
/// the queried cell along every axis, and each of them once.
pub proof fn lemma_neighbors_are_atoms_in_reach(homes: Seq<Cell>, c: Cell, radius: int)
    requires
        homes.len() <= usize::MAX,
        0 <= radius,
    ensures
        forall|i: usize|
            #[trigger] neighbors_of(homes, c, radius).contains(i) <==> i < homes.len()
                && within_reach(homes[i as int], c, radius),
        neighbors_of(homes, c, radius).no_duplicates(),
{
    let (nx, ny, nz) = extents(homes);
    let z_lo = axis_lo(c.z as int, radius);
    let z_end = axis_end(c.z as int, radius, nz as int);
    let y_lo = axis_lo(c.y as int, radius);
    let y_end = axis_end(c.y as int, radius, ny as int);
    let x_lo = axis_lo(c.x as int, radius);
    let x_end = axis_end(c.x as int, radius, nx as int);
    lemma_extents_fit(homes, homes.len() as int);
    lemma_block_no_duplicates(homes, z_lo, z_end, y_lo, y_end, x_lo, x_end);
    assert forall|i: usize|
        #[trigger] neighbors_of(homes, c, radius).contains(i) <==> i < homes.len() && within_reach(
            homes[i as int],
            c,
            radius,
        ) by {
        lemma_block_contains(homes, z_lo, z_end, y_lo, y_end, x_lo, x_end, i);
        if i < homes.len() {
            lemma_extents_cover(homes, homes.len() as int, i as int);
        }
    }
}

} // verus!
