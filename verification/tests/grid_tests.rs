use wave_function_collapse::catalog::{get_full_cell_domain, get_piece_domain};
use wave_function_collapse::grid::{CellSolveState, Direction, Grid, PlaceError};
use wave_function_collapse::piece::Cell;
use wave_function_collapse::piece::ConnectionType::{Double, NoConnection};

fn domain_len_at(g: &Grid, x: usize, y: usize) -> usize {
    match &g.grid[y * 6 + x] {
        CellSolveState::Unsolved(d) => d.len(),
        CellSolveState::Solved(_) => panic!("position is solved"),
    }
}

#[test]
fn default_grid_domains_equal_the_full_cell_domain() {
    let g = Grid::default();
    let full = get_full_cell_domain();
    assert_eq!(g.grid.len(), 36);
    assert_eq!(g.visual_grid.len(), 36);
    assert_eq!(g.pieces_left.len(), 13);
    for state in g.grid.iter() {
        match state {
            CellSolveState::Unsolved(d) => {
                assert!(!d.is_empty());
                assert_eq!(d, &full);
            },
            CellSolveState::Solved(_) => panic!("default grid has a solved position"),
        }
    }
    assert!(g.check());
}

#[test]
fn boundary_neighbors_are_the_empty_cell_and_unsolved_neighbors_impose_nothing() {
    let g = Grid::default();
    let empty = Cell::default();
    assert_eq!(g.get_neighbor_cell(5, 0, Direction::Right), Some(empty));
    assert_eq!(g.get_neighbor_cell(0, 0, Direction::Up), Some(empty));
    assert_eq!(g.get_neighbor_cell(0, 3, Direction::Left), Some(empty));
    assert_eq!(g.get_neighbor_cell(2, 5, Direction::Down), Some(empty));
    // Interior neighbors are all unsolved on the default grid.
    assert_eq!(g.get_neighbor_cell(2, 2, Direction::Right), None);
    assert_eq!(g.get_neighbor_cell(2, 2, Direction::Up), None);
    assert_eq!(g.get_neighbor_cell(2, 2, Direction::Left), None);
    assert_eq!(g.get_neighbor_cell(2, 2, Direction::Down), None);
}

#[test]
fn propagation_never_grows_a_domain() {
    let mut g = Grid::default();
    let before: Vec<usize> = (0..36)
        .map(|i| match &g.grid[i] {
            CellSolveState::Unsolved(d) => d.len(),
            CellSolveState::Solved(_) => 0,
        })
        .collect();
    g.do_constraint_propagation();
    for i in 0..36 {
        match &g.grid[i] {
            CellSolveState::Unsolved(d) => assert!(d.len() <= before[i]),
            CellSolveState::Solved(_) => panic!("propagation solved a position"),
        }
    }
}

#[test]
fn placement_scenario_piece_ten_at_zero_two() {
    let mut g = Grid::default();
    let full_len = get_full_cell_domain().len();
    let pieces = get_piece_domain();
    let p10 = pieces[9].clone_piece();
    assert_eq!(p10.piece_id, 10);
    assert!(g.can_place_piece(&p10, 0, 2));
    let result = g.place_piece(&p10, 0, 2);
    assert_eq!(result, Ok(()));
    assert_eq!(g.pieces_left.len(), 12);
    // The four covered positions hold the piece's cells in row-major order.
    let covered = [(0usize, 2usize, 0usize), (1, 2, 1), (0, 3, 2), (1, 3, 3)];
    for (x, y, k) in covered.iter() {
        match &g.grid[y * 6 + x] {
            CellSolveState::Solved(c) => assert_eq!(*c, p10.logical_cells[*k]),
            CellSolveState::Unsolved(_) => panic!("covered position is still unsolved"),
        }
    }
    // All other 32 positions stay unsolved with domains no larger than
    // before.
    let mut unsolved = 0;
    for y in 0..6 {
        for x in 0..6 {
            if covered.iter().any(|(cx, cy, _)| *cx == x && *cy == y) {
                continue;
            }
            match &g.grid[y * 6 + x] {
                CellSolveState::Unsolved(d) => {
                    assert!(d.len() <= full_len);
                    unsolved += 1;
                },
                CellSolveState::Solved(_) => panic!("placement solved an uncovered position"),
            }
        }
    }
    assert_eq!(unsolved, 32);
    assert!(g.check());
}

#[test]
fn placing_over_a_solved_position_fails_with_overwrite() {
    let mut g = Grid::default();
    let pieces = get_piece_domain();
    let p10 = pieces[9].clone_piece();
    assert_eq!(g.place_piece(&p10, 0, 2), Ok(()));
    let before = g.pieces_left.len();
    // Any piece over (0, 2) is rejected, even the all-empty one whose cells
    // would match anything.
    let p9 = pieces[8].clone_piece();
    assert_eq!(p9.piece_id, 9);
    assert_eq!(g.place_piece(&p9, 0, 2), Err(PlaceError::Overwrite));
    assert_eq!(g.place_piece(&p9, 1, 3), Err(PlaceError::Overwrite));
    assert!(!g.can_place_piece(&p9, 0, 2));
    // The failed placements removed nothing.
    assert_eq!(g.pieces_left.len(), before);
    assert!(g.pieces_left.iter().any(|p| p.piece_id == 9));
}

#[test]
fn footprint_off_the_board_fails_with_out_of_bounds() {
    let mut g = Grid::default();
    let pieces = get_piece_domain();
    let p10 = pieces[9].clone_piece();
    assert_eq!(g.place_piece(&p10, 5, 0), Err(PlaceError::OutOfBounds));
    assert_eq!(g.place_piece(&p10, 0, 5), Err(PlaceError::OutOfBounds));
    assert!(!g.can_place_piece(&p10, 5, 5));
    assert_eq!(g.pieces_left.len(), 13);
    // The board is untouched.
    for state in g.grid.iter() {
        assert!(matches!(state, CellSolveState::Unsolved(_)));
    }
}

#[test]
fn starved_domain_after_placement_fails_the_check() {
    let mut g = Grid::default();
    // Force a position whose only candidate demands a Double connector from
    // the board edge; the next propagation starves it.
    let impossible = Cell {
        right: NoConnection,
        top: NoConnection,
        left: Double,
        bottom: NoConnection,
    };
    g.grid[0] = CellSolveState::Unsolved(vec![impossible]);
    assert!(g.check());
    let pieces = get_piece_domain();
    let p9 = pieces[8].clone_piece();
    let before = g.pieces_left.len();
    assert_eq!(g.place_piece(&p9, 4, 5), Err(PlaceError::InconsistentAfterPlacement));
    // The piece was not removed, and the starved domain is now visible to
    // the consistency check.
    assert_eq!(g.pieces_left.len(), before);
    assert!(!g.check());
}

#[test]
fn manually_emptied_domain_fails_the_check() {
    let mut g = Grid::default();
    g.grid[3 * 6 + 4] = CellSolveState::Unsolved(vec![]);
    assert!(!g.check());
}

#[test]
fn snapshot_is_independent_of_the_original() {
    let g = Grid::default();
    let mut copy = g.snapshot();
    copy.grid[0] = CellSolveState::Solved(Cell::default());
    copy.pieces_left.clear();
    assert!(matches!(g.grid[0], CellSolveState::Unsolved(_)));
    assert_eq!(g.pieces_left.len(), 13);
}
