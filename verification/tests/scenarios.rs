//! End-to-end scenarios for the solver: rows are given per bottle, top to
//! bottom, zero meaning an empty cell.

use water_sort_solver::board::Board;
use water_sort_solver::Movement;
use water_sort_solver::SolveError;
use water_sort_solver::Solver;

/// Replays a movement sequence from a board, asserting each move is legal
/// (pourable, with exactly the pourable amount), and returns the final board.
fn replay_checked(mut board: Board, moves: &[Movement]) -> Board {
    for m in moves {
        assert!(m.from < board.bottle_count());
        assert!(m.to < board.bottle_count());
        assert!(board.is_pourable(m.from, m.to), "illegal move {:?}", (m.from, m.to, m.amount));
        assert_eq!(board.pourable_amount(m.from, m.to), m.amount);
        board = board.apply_pour(*m);
    }
    board
}

#[test]
fn scenario_already_solved_two_bottles() {
    // bottle0 = [1, 1] (bottom to top), bottle1 empty: already solved
    let rows: Vec<Vec<u8>> = vec![vec![1, 1], vec![0, 0]];
    let mut solver = Solver::new();
    let ms = solver.solve(2, 2, &rows).expect("a solved board must succeed");
    assert!(ms.is_empty());
}

#[test]
fn scenario_stuck_board_reports_no_solution() {
    // bottle0 = [1, 2], bottle1 = [2, 1] (bottom to top): no legal pour
    let rows: Vec<Vec<u8>> = vec![vec![2, 1], vec![1, 2]];
    let mut solver = Solver::new();
    let r = solver.solve(2, 2, &rows);
    assert_eq!(r.unwrap_err(), SolveError::NoSolutionFound);
}

#[test]
fn scenario_three_bottles_solvable() {
    // bottle0 = [1, 2], bottle1 = [2, 1], bottle2 empty (bottom to top)
    let rows: Vec<Vec<u8>> = vec![vec![2, 1], vec![1, 2], vec![0, 0]];
    let initial = Board::from_rows(&rows, 2, 3).unwrap();
    assert!(!initial.is_solved_board());
    let mut solver = Solver::new();
    let ms = solver.solve(2, 3, &rows).expect("this board is solvable");
    assert!(!ms.is_empty());
    assert!(ms.len() <= 4, "expected a short solution, got {} moves", ms.len());
    let final_board = replay_checked(initial, &ms);
    assert!(final_board.is_solved_board());
}

#[test]
fn scenario_single_full_bottle_already_solved() {
    // one bottle of capacity 3, full of one color
    let rows: Vec<Vec<u8>> = vec![vec![1, 1, 1]];
    let mut solver = Solver::new();
    let ms = solver.solve(3, 1, &rows).expect("a solved board must succeed");
    assert!(ms.is_empty());
}

#[test]
fn repeated_call_is_a_cache_hit_with_identical_answer() {
    let rows: Vec<Vec<u8>> = vec![vec![2, 1], vec![1, 2], vec![0, 0]];
    let mut solver = Solver::new();
    assert_eq!(solver.cache_len(), 0);
    let first = solver.solve(2, 3, &rows).expect("solvable");
    assert_eq!(solver.cache_len(), 1);
    let second = solver.solve(2, 3, &rows).expect("solvable");
    // the second call is answered from the cache: nothing was added
    assert_eq!(solver.cache_len(), 1);
    assert_eq!(first, second);
}

#[test]
fn accepts_the_largest_configuration() {
    // 12 bottles of 12 levels, all solved
    let mut rows: Vec<Vec<u8>> = vec![vec![7; 12]];
    for _ in 0..11 {
        rows.push(vec![0; 12]);
    }
    let mut solver = Solver::new();
    let ms = solver.solve(12, 12, &rows).expect("a solved board must succeed");
    assert!(ms.is_empty());
}

#[test]
fn rejects_zero_levels() {
    let mut solver = Solver::new();
    let r = solver.solve(0, 2, &vec![vec![], vec![]]);
    assert_eq!(r.unwrap_err(), SolveError::ConfigurationError);
}

#[test]
fn rejects_too_many_levels() {
    let mut solver = Solver::new();
    let r = solver.solve(13, 1, &vec![vec![0; 13]]);
    assert_eq!(r.unwrap_err(), SolveError::ConfigurationError);
}

#[test]
fn rejects_zero_bottles() {
    let mut solver = Solver::new();
    let r = solver.solve(2, 0, &vec![]);
    assert_eq!(r.unwrap_err(), SolveError::ConfigurationError);
}

#[test]
fn rejects_too_many_bottles() {
    let mut solver = Solver::new();
    let rows: Vec<Vec<u8>> = (0..13).map(|_| vec![0, 0]).collect();
    let r = solver.solve(2, 13, &rows);
    assert_eq!(r.unwrap_err(), SolveError::ConfigurationError);
}

#[test]
fn rejects_wrong_bottle_count() {
    let mut solver = Solver::new();
    let r = solver.solve(2, 3, &vec![vec![0, 0], vec![0, 0]]);
    assert_eq!(r.unwrap_err(), SolveError::InputShapeError);
}

#[test]
fn rejects_wrong_row_length() {
    let mut solver = Solver::new();
    let r = solver.solve(2, 2, &vec![vec![0, 0], vec![0, 0, 1]]);
    assert_eq!(r.unwrap_err(), SolveError::InputShapeError);
}

#[test]
fn solves_a_three_color_puzzle() {
    // three colors over three full bottles plus two empty ones
    let rows: Vec<Vec<u8>> = vec![
        vec![3, 2, 1],
        vec![1, 3, 2],
        vec![2, 1, 3],
        vec![0, 0, 0],
        vec![0, 0, 0],
    ];
    let initial = Board::from_rows(&rows, 3, 5).unwrap();
    assert!(!initial.is_solved_board());
    let mut solver = Solver::new();
    let ms = solver.solve(3, 5, &rows).expect("this board is solvable");
    let final_board = replay_checked(initial, &ms);
    assert!(final_board.is_solved_board());
}
