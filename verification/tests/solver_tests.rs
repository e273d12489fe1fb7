use wave_function_collapse::grid::CellSolveState;
use wave_function_collapse::solver::SolverState;

#[test]
fn new_solver_starts_with_one_frame_and_an_empty_memo() {
    let s = SolverState::new();
    assert_eq!(s.grid_stack.len(), 1);
    assert_eq!(s.tried_branches.len(), 1);
    assert!(s.tried_branches[0].is_empty());
    assert_eq!(s.current_grid().pieces_left.len(), 13);
}

#[test]
fn push_and_pop_keep_the_stacks_in_step() {
    let mut s = SolverState::new();
    s.push_state();
    assert_eq!(s.grid_stack.len(), 2);
    assert_eq!(s.tried_branches.len(), 2);
    assert!(s.tried_branches[1].is_empty());
    s.pop_state();
    assert_eq!(s.grid_stack.len(), 1);
    assert_eq!(s.tried_branches.len(), 1);
}

#[test]
fn single_step_places_exactly_one_piece() {
    let mut s = SolverState::new();
    let result = s.step_propagate();
    assert!(result.is_ok());
    assert_eq!(s.grid_stack.len(), 2);
    assert_eq!(s.tried_branches.len(), 2);
    assert_eq!(s.tried_branches[0].len(), 1);
    assert!(s.tried_branches[1].is_empty());
    assert_eq!(s.current_grid().pieces_left.len(), 12);
    assert!(s.current_grid().check());
}

#[test]
fn search_concludes_within_the_step_budget() {
    let mut s = SolverState::new();
    let mut steps: u32 = 0;
    loop {
        if s.step_propagate().is_err() {
            break;
        }
        steps += 1;
        assert!(steps < 100_000, "search did not conclude within the step budget");
    }
    // The search stopped for a definite reason: either the board is fully
    // decided or the root frame ran out of moves.
    let done = s.current_grid().grid.iter().all(|c| matches!(c, CellSolveState::Solved(_)));
    assert!(done || s.grid_stack.len() == 1);
    if done {
        assert!(s.current_grid().check());
    }
}

#[test]
fn solve_terminates_and_reports_a_definite_outcome() {
    let mut s = SolverState::new();
    let solved = s.solve();
    assert_eq!(solved, s.current_grid().pieces_left.is_empty());
    if solved {
        // A solved board is fully decided and consistent.
        assert!(s.current_grid().grid.iter().all(|c| matches!(c, CellSolveState::Solved(_))));
        assert!(s.current_grid().check());
    } else {
        // A failed search has backtracked all the way to the root frame.
        assert_eq!(s.grid_stack.len(), 1);
    }
}
