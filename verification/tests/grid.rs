use mazegen::grid::{Cell, Direction, Grid, Position};

fn grid(size: i8) -> Grid {
    Grid::new(size, size)
}

fn assert_neighbors(grid: &Grid, cell: Cell, directions: &[Direction]) {
    for dir in Direction::variants() {
        if directions.contains(&dir) {
            assert!(
                grid.neighbor(&cell, dir).is_some(),
                "Neighbor at {:?} of {:?} should exist",
                dir,
                cell
            );
        } else {
            assert!(
                grid.neighbor(&cell, dir).is_none(),
                "Neighbor at {:?} of {:?} should not exist",
                dir,
                cell
            );
        }
    }
}

#[test]
fn cells_have_right_size() {
    let grid = grid(4);
    assert_eq!(16, grid.cells().len());
}

#[test]
fn cells_have_right_id() {
    let grid = grid(4);
    for (i, x) in grid.cells().iter().enumerate() {
        assert_eq!(i, x.id() as usize, "{:?} is invalid", x)
    }
}

#[test]
fn cells_are_valid() {
    let grid = grid(4);
    for cell in grid.cells() {
        assert!(grid.is_valid(cell.position()), "{:?} is invalid", cell)
    }
}

#[test]
fn corner_cells_dont_have_some_neighbors() {
    let grid = grid(4);
    assert_neighbors(
        &grid,
        Cell::new(0, Position::new(0, 0)),
        &[Direction::EAST, Direction::NORTH],
    );
    assert_neighbors(
        &grid,
        Cell::new(0, Position::new(3, 3)),
        &[Direction::WEST, Direction::SOUTH],
    );
    assert_neighbors(
        &grid,
        Cell::new(0, Position::new(0, 3)),
        &[Direction::WEST, Direction::NORTH],
    );
    assert_neighbors(
        &grid,
        Cell::new(0, Position::new(3, 0)),
        &[Direction::EAST, Direction::SOUTH],
    );
}

#[test]
fn side_cells_dont_have_some_neighbors() {
    let grid = grid(3);
    assert_neighbors(
        &grid,
        Cell::new(0, Position::new(0, 1)),
        &[Direction::NORTH, Direction::WEST, Direction::EAST],
    );
    assert_neighbors(
        &grid,
        Cell::new(0, Position::new(1, 0)),
        &[Direction::NORTH, Direction::SOUTH, Direction::EAST],
    );
    assert_neighbors(
        &grid,
        Cell::new(0, Position::new(2, 1)),
        &[Direction::SOUTH, Direction::WEST, Direction::EAST],
    );
    assert_neighbors(
        &grid,
        Cell::new(0, Position::new(1, 2)),
        &[Direction::NORTH, Direction::SOUTH, Direction::WEST],
    );
}

#[test]
fn binary_tree_links_grid() {
    let mut g = Grid::new(4, 4);
    let mut rng = mazegen::rng::SeededRandom::from_seed(7);
    let links = mazegen::binary_tree::binary_tree(&g, &mut rng);
    // every cell but the north-east corner contributes one symmetric pair
    assert_eq!(links.len(), 30);
    // the set is symmetrically closed
    for &(a, b) in links.iter() {
        assert!(links.contains(&(b, a)));
    }
    g.set_links(links);
}

#[test]
fn sidewinder_links_grid() {
    let mut g = Grid::new(4, 4);
    let mut rng = mazegen::rng::SeededRandom::from_seed(7);
    let links = mazegen::sidewinder::sidewinder(&g, &mut rng);
    assert_eq!(links.len(), 30);
    for &(a, b) in links.iter() {
        assert!(links.contains(&(b, a)));
    }
    g.set_links(links);
}
