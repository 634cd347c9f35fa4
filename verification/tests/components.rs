//! Component-level checks: pour primitives, conservation, scores,
//! assignments, move generation and the shortcut move.

use water_sort_solver::board::Board;
use water_sort_solver::heuristic::calculate_entropy;
use water_sort_solver::heuristic::calculate_heuristic;
use water_sort_solver::moves::assign_empty_bottles_to_colors;
use water_sort_solver::moves::calculate_move_priority;
use water_sort_solver::moves::count_color;
use water_sort_solver::moves::find_shortcut_move;
use water_sort_solver::moves::generate_sorted_moves_with_assignments;
use water_sort_solver::search::beam_search;
use water_sort_solver::search::enhanced_bfs_search;
use water_sort_solver::search::ida_star_search;
use water_sort_solver::search::optimize_initial_distribution;
use water_sort_solver::Movement;

fn color_total(board: &Board, c: u8) -> usize {
    let mut total = 0;
    for i in 0..board.bottle_count() {
        for j in 0..board.fill_of(i) {
            if board.cell(i, j) == c {
                total += 1;
            }
        }
    }
    total
}

#[test]
fn pour_primitives_on_a_small_board() {
    // bottle0 = [1, 2], bottle1 = [2, 1], bottle2 empty (bottom to top)
    let rows: Vec<Vec<u8>> = vec![vec![2, 1], vec![1, 2], vec![0, 0]];
    let board = Board::from_rows(&rows, 2, 3).unwrap();
    assert_eq!(board.bottle_count(), 3);
    assert_eq!(board.fill_of(0), 2);
    assert_eq!(board.cell(0, 0), 1);
    assert_eq!(board.cell(0, 1), 2);
    assert_eq!(board.top_of(0), 2);
    assert_eq!(board.fill_of(2), 0);
    assert_eq!(board.top_of(2), 0);
    // tops differ and neither is empty
    assert!(!board.is_pourable(0, 1));
    assert_eq!(board.pourable_amount(0, 1), 0);
    // mixed bottle into the empty one: one unit of the top color
    assert!(board.is_pourable(0, 2));
    assert_eq!(board.pourable_amount(0, 2), 1);
    // a bottle never pours into itself
    assert!(!board.is_pourable(1, 1));
}

#[test]
fn pouring_a_monochrome_bottle_into_an_empty_one_is_forbidden() {
    let rows: Vec<Vec<u8>> = vec![vec![0, 1], vec![0, 0]];
    let board = Board::from_rows(&rows, 2, 2).unwrap();
    assert!(!board.is_pourable(0, 1));
}

#[test]
fn a_pour_conserves_every_color() {
    let rows: Vec<Vec<u8>> = vec![vec![2, 1], vec![1, 2], vec![0, 0]];
    let board = Board::from_rows(&rows, 2, 3).unwrap();
    let ones = color_total(&board, 1);
    let twos = color_total(&board, 2);
    let amount = board.pourable_amount(0, 2);
    assert_eq!(amount, 1);
    let after = board.apply_pour(Movement { from: 0, to: 2, amount });
    assert_eq!(color_total(&after, 1), ones);
    assert_eq!(color_total(&after, 2), twos);
    assert_eq!(after.fill_of(0), 1);
    assert_eq!(after.fill_of(2), 1);
    assert_eq!(after.top_of(2), 2);
}

#[test]
fn heuristic_exact_value() {
    // bottle0 = [1, 2] (one transition, unsolved), bottle1 empty; both
    // colors sit in a single bottle and fit one bottle: no color terms.
    // Scaled by ten: 10 (unsolved) + 3 (transition) = 13.
    let rows: Vec<Vec<u8>> = vec![vec![2, 1], vec![0, 0]];
    let board = Board::from_rows(&rows, 2, 2).unwrap();
    assert_eq!(calculate_heuristic(&board), 13);
}

#[test]
fn heuristic_counts_fragmented_colors() {
    // color 1 split over two bottles: 0.8 + 0.5 (fits one bottle), twice a
    // monochrome partial bottle: -0.3 each, both bottles unsolved? no: both
    // are monochrome, hence solved. Scaled: 8 + 5 - 3 - 3 = 7.
    let rows: Vec<Vec<u8>> = vec![vec![0, 1], vec![0, 1]];
    let board = Board::from_rows(&rows, 2, 2).unwrap();
    assert_eq!(calculate_heuristic(&board), 7);
}

#[test]
fn heuristic_large_board_terms() {
    // 8 bottles of 7 levels trigger the large-board terms: bottle0 holds two
    // units of one color (monochrome, partial). Scaled by ten:
    // -0.3 (monochrome not full) + 0.2 (partial) - 0.5 (partial monochrome) = -0.6
    let mut rows: Vec<Vec<u8>> = vec![vec![0, 0, 0, 0, 0, 1, 1]];
    for _ in 0..7 {
        rows.push(vec![0; 7]);
    }
    let board = Board::from_rows(&rows, 7, 8).unwrap();
    assert_eq!(calculate_heuristic(&board), -6);
}

#[test]
fn entropy_exact_value() {
    // bottle0 = [1, 2]: one change, entropy 2; bottle1 empty: 0
    let rows: Vec<Vec<u8>> = vec![vec![2, 1], vec![0, 0]];
    let board = Board::from_rows(&rows, 2, 2).unwrap();
    assert_eq!(calculate_entropy(&board), 2);
    // monochrome bottle: entropy 1
    let rows2: Vec<Vec<u8>> = vec![vec![1, 1], vec![0, 0]];
    let board2 = Board::from_rows(&rows2, 2, 2).unwrap();
    assert_eq!(calculate_entropy(&board2), 1);
}

#[test]
fn move_priority_exact_value() {
    // pouring the top unit of the mixed bottle0 into the empty bottle2:
    // -0.5 (into empty without draining) + 0.1 (one unit) = -0.4, scaled -4
    let rows: Vec<Vec<u8>> = vec![vec![2, 1], vec![1, 2], vec![0, 0]];
    let board = Board::from_rows(&rows, 2, 3).unwrap();
    assert_eq!(calculate_move_priority(&board, 0, 2, 1), -4);
}

#[test]
fn counts_colors_across_the_board() {
    let rows: Vec<Vec<u8>> = vec![vec![2, 1, 1], vec![0, 0, 0], vec![0, 0, 0]];
    let board = Board::from_rows(&rows, 3, 3).unwrap();
    assert_eq!(count_color(&board, 1), 2);
    assert_eq!(count_color(&board, 2), 1);
    assert_eq!(count_color(&board, 3), 0);
}

#[test]
fn assigns_empty_bottles_to_most_needed_colors() {
    // bottle0 = [1, 1, 2] bottom to top; color 1 has two units, color 2 one:
    // the first empty bottle is assigned color 1, the second color 2
    let rows: Vec<Vec<u8>> = vec![vec![2, 1, 1], vec![0, 0, 0], vec![0, 0, 0]];
    let board = Board::from_rows(&rows, 3, 3).unwrap();
    let asg = assign_empty_bottles_to_colors(&board);
    assert_eq!(asg, vec![0, 1, 2]);
}

#[test]
fn generates_assigned_pour_first() {
    // bottle0's top color 2 is assigned to bottle2: that pour is generated
    // in the priority tier and sorts first
    let rows: Vec<Vec<u8>> = vec![vec![2, 1, 1], vec![0, 0, 0], vec![0, 0, 0]];
    let board = Board::from_rows(&rows, 3, 3).unwrap();
    let moves = generate_sorted_moves_with_assignments(&board);
    assert_eq!(moves.len(), 3);
    assert_eq!((moves[0].from, moves[0].to, moves[0].amount), (0, 2, 1));
}

#[test]
fn shortcut_move_completes_a_bottle() {
    // bottle0 = [1], bottle1 = [1]: pouring 0 into 1 fills it to capacity
    let rows: Vec<Vec<u8>> = vec![vec![0, 1], vec![0, 1]];
    let board = Board::from_rows(&rows, 2, 2).unwrap();
    let m = find_shortcut_move(&board).expect("an obvious completing move exists");
    assert_eq!((m.from, m.to, m.amount), (0, 1, 1));
}

#[test]
fn no_shortcut_on_a_stuck_board() {
    let rows: Vec<Vec<u8>> = vec![vec![2, 1], vec![1, 2], vec![0, 0]];
    let board = Board::from_rows(&rows, 2, 3).unwrap();
    assert!(find_shortcut_move(&board).is_none());
}

#[test]
fn each_strategy_solves_the_small_puzzle() {
    let rows: Vec<Vec<u8>> = vec![vec![2, 1], vec![1, 2], vec![0, 0]];
    let board = Board::from_rows(&rows, 2, 3).unwrap();
    for ms in [
        ida_star_search(&board).expect("ida solves it"),
        enhanced_bfs_search(&board).expect("bfs solves it"),
        beam_search(&board, 1000).expect("beam solves it"),
    ] {
        let mut b = Board::from_rows(&rows, 2, 3).unwrap();
        for m in &ms {
            assert!(b.is_pourable(m.from, m.to));
            assert_eq!(b.pourable_amount(m.from, m.to), m.amount);
            b = b.apply_pour(*m);
        }
        assert!(b.is_solved_board());
    }
}

#[test]
fn greedy_preoptimization_replays_legally() {
    // three empty bottles trigger the greedy pass in the controller; run it
    // directly and replay its prefix
    let rows: Vec<Vec<u8>> = vec![
        vec![2, 1, 1],
        vec![1, 2, 2],
        vec![0, 0, 0],
        vec![0, 0, 0],
        vec![0, 0, 0],
    ];
    let board = Board::from_rows(&rows, 3, 5).unwrap();
    let (optimized, prefix) = optimize_initial_distribution(&board);
    let mut b = Board::from_rows(&rows, 3, 5).unwrap();
    for m in &prefix {
        assert!(b.is_pourable(m.from, m.to));
        assert_eq!(b.pourable_amount(m.from, m.to), m.amount);
        b = b.apply_pour(*m);
    }
    for i in 0..b.bottle_count() {
        assert_eq!(b.fill_of(i), optimized.fill_of(i));
        for j in 0..b.fill_of(i) {
            assert_eq!(b.cell(i, j), optimized.cell(i, j));
        }
    }
}

#[test]
fn greedy_on_a_solved_board_changes_nothing() {
    let rows: Vec<Vec<u8>> = vec![vec![1, 1], vec![0, 0], vec![0, 0], vec![0, 0]];
    let board = Board::from_rows(&rows, 2, 4).unwrap();
    let (optimized, prefix) = optimize_initial_distribution(&board);
    assert!(prefix.is_empty());
    assert!(optimized.is_solved_board());
}
