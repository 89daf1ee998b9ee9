use errat::fault::Fatal;
use errat::grid::{overfull_cells, Cell, Grid, CELL_CAPACITY, MAX_CELLS};

fn cell(x: u32, y: u32, z: u32) -> Cell {
    Cell { x, y, z }
}

#[test]
fn extents_are_one_more_than_the_largest_coordinate() {
    let grid = Grid::build(vec![cell(0, 0, 0), cell(2, 1, 0), cell(1, 4, 3)]).unwrap();
    assert_eq!(grid.dims(), (3, 5, 4));
    assert_eq!(grid.atom_count(), 3);
    assert_eq!(grid.home(1), cell(2, 1, 0));
}

#[test]
fn empty_grid() {
    let grid = Grid::build(Vec::new()).unwrap();
    assert_eq!(grid.dims(), (0, 0, 0));
    assert_eq!(grid.atom_count(), 0);
    assert_eq!(grid.neighbors(cell(0, 0, 0), 1), Vec::<usize>::new());
}

#[test]
fn neighbors_come_layer_by_layer_row_by_row() {
    // one atom in every cell of a 3 x 3 x 3 grid, filed in scrambled order
    let mut homes = Vec::new();
    for x in 0..3 {
        for y in 0..3 {
            for z in 0..3 {
                homes.push(cell(x, y, z));
            }
        }
    }
    let grid = Grid::build(homes.clone()).unwrap();
    let around_middle = grid.neighbors(cell(1, 1, 1), 1);
    assert_eq!(around_middle.len(), 27);
    let mut expected = Vec::new();
    for z in 0..3u32 {
        for y in 0..3u32 {
            for x in 0..3u32 {
                expected.push((x * 9 + y * 3 + z) as usize);
            }
        }
    }
    assert_eq!(around_middle, expected);
    // at a corner the range is cut off at the grid's bounds
    let at_corner = grid.neighbors(cell(0, 0, 0), 1);
    let cells: Vec<Cell> = at_corner.iter().map(|&i| homes[i]).collect();
    assert_eq!(
        cells,
        vec![
            cell(0, 0, 0),
            cell(1, 0, 0),
            cell(0, 1, 0),
            cell(1, 1, 0),
            cell(0, 0, 1),
            cell(1, 0, 1),
            cell(0, 1, 1),
            cell(1, 1, 1)
        ]
    );
    assert_eq!(grid.neighbors(cell(2, 2, 2), 0), vec![26]);
    assert_eq!(grid.neighbors(cell(1, 1, 1), 5).len(), 27);
}

#[test]
fn atoms_of_a_cell_come_in_ascending_order() {
    let homes = vec![cell(1, 0, 0), cell(0, 0, 0), cell(1, 0, 0), cell(0, 0, 0), cell(1, 0, 0)];
    let grid = Grid::build(homes).unwrap();
    assert_eq!(grid.neighbors(cell(1, 0, 0), 0), vec![0, 2, 4]);
    assert_eq!(grid.neighbors(cell(0, 0, 0), 0), vec![1, 3]);
    assert_eq!(grid.neighbors(cell(0, 0, 0), 1), vec![1, 3, 0, 2, 4]);
}

#[test]
fn query_far_outside_the_grid_finds_nothing() {
    let grid = Grid::build(vec![cell(0, 0, 0), cell(1, 1, 1)]).unwrap();
    assert_eq!(grid.neighbors(cell(5, 0, 0), 1), Vec::<usize>::new());
    assert_eq!(grid.neighbors(cell(0, 9, 0), 2), Vec::<usize>::new());
    assert_eq!(grid.neighbors(cell(u32::MAX, u32::MAX, u32::MAX), u32::MAX), vec![0, 1]);
    assert_eq!(grid.neighbors(cell(3, 3, 3), 2), vec![1]);
}

#[test]
fn cell_count_at_the_ceiling_is_accepted() {
    assert_eq!(MAX_CELLS, 199_999);
    let grid = Grid::build(vec![cell(199_998, 0, 0)]).unwrap();
    assert_eq!(grid.dims(), (199_999, 1, 1));
    assert_eq!(grid.neighbors(cell(199_998, 0, 0), 1), vec![0]);
}

#[test]
fn too_many_cells_is_fatal() {
    assert_eq!(Grid::build(vec![cell(199_999, 0, 0)]).err(), Some(Fatal::TooManyCells));
    assert_eq!(Grid::build(vec![cell(99, 99, 19)]).err(), Some(Fatal::TooManyCells));
    assert_eq!(
        Grid::build(vec![cell(0, 99_999, 0), cell(0, 0, 1)]).err(),
        Some(Fatal::TooManyCells)
    );
    assert_eq!(
        Grid::build(vec![cell(u32::MAX, u32::MAX, u32::MAX)]).err(),
        Some(Fatal::TooManyCells)
    );
}

#[test]
fn full_cell_is_accepted_and_one_more_is_fatal() {
    assert_eq!(CELL_CAPACITY, 15);
    let mut homes = vec![cell(1, 2, 3); 15];
    homes.push(cell(0, 0, 0));
    let grid = Grid::build(homes.clone()).unwrap();
    assert_eq!(grid.neighbors(cell(1, 2, 3), 0), (0..15).collect::<Vec<usize>>());
    homes.push(cell(1, 2, 3));
    assert_eq!(Grid::build(homes).err(), Some(Fatal::CellOverflow));
}

#[test]
fn too_many_cells_is_reported_before_overflow() {
    let mut homes = vec![cell(0, 0, 0); 16];
    homes.push(cell(199_999, 0, 0));
    assert_eq!(Grid::build(homes).err(), Some(Fatal::TooManyCells));
}

#[test]
fn overfull_cells_are_listed_with_their_counts() {
    // 17 atoms in one cell, 15 in another, 16 in a third
    let mut homes = vec![cell(2, 1, 0); 17];
    homes.extend(vec![cell(0, 0, 0); 15]);
    homes.extend(vec![cell(1, 0, 0); 16]);
    homes.push(cell(2, 1, 1));
    assert_eq!(Grid::build(homes.clone()).err(), Some(Fatal::CellOverflow));
    // in the order of the table: rows along x, then y, then z
    assert_eq!(overfull_cells(&homes), vec![16, 17]);
}

#[test]
fn no_overfull_cell_no_counts() {
    let mut homes = vec![cell(1, 2, 3); 15];
    homes.push(cell(0, 0, 0));
    assert!(Grid::build(homes.clone()).is_ok());
    assert_eq!(overfull_cells(&homes), Vec::<usize>::new());
    assert_eq!(overfull_cells(&Vec::new()), Vec::<usize>::new());
    // a grid with too many cells is not counted
    let mut homes = vec![cell(0, 0, 0); 16];
    homes.push(cell(199_999, 0, 0));
    assert_eq!(overfull_cells(&homes), Vec::<usize>::new());
}
