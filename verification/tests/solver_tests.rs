use sudoko::generator::clear_partner;
use sudoko::strategies::{
    get_all_strategies, BoxLineReduction, HiddenSingles, NakedPairs, NakedSingles, PointingPairs,
    SolvingStrategy, Swordfish, XWing,
};
use sudoko::{Cell, Difficulty, SolverStats, Sudoku, SudokuSolver};

const CLASSIC: &str =
    "530070000600195000098000060800060003400803001700020006060000280000419005000080079";
const CLASSIC_SOLVED: &str =
    "534678912672195348198342567859761423426853791713924856961537284287419635345286179";

fn values(board: &Sudoku) -> Vec<Vec<Option<u8>>> {
    board.grid.iter().map(|row| row.iter().map(|cell| cell.value()).collect()).collect()
}

fn generate(solver: &mut SudokuSolver, size: usize, difficulty: Difficulty) -> Sudoku {
    for _ in 0..500 {
        match solver.generate_puzzle(size, difficulty) {
            Ok(puzzle) => return puzzle,
            Err(msg) => assert_eq!(msg, "No solution found"),
        }
    }
    panic!("no puzzle of side {} in 500 tries", size);
}

fn count_empty(board: &Sudoku) -> usize {
    board.grid.iter().map(|row| row.iter().filter(|cell| cell.is_empty()).count()).sum()
}

#[test]
fn solving_the_classic_puzzle_gives_its_solution() {
    let puzzle = Sudoku::from_string(CLASSIC, 9).unwrap();
    let mut solver = SudokuSolver::new();
    let solution = solver.solve(puzzle).unwrap();
    assert!(solution.is_complete());
    assert!(solution.is_valid());
    assert_eq!(solution.get(0, 1).unwrap().value(), Some(3));
    assert_eq!(solution.get(0, 2).unwrap().value(), Some(4));
    let expected = Sudoku::from_string(CLASSIC_SOLVED, 9).unwrap();
    assert_eq!(values(&solution), values(&expected));
    assert_eq!(solution.get(0, 0), Some(Cell::Given(5)));
    assert_eq!(solution.get(0, 2), Some(Cell::Filled(4)));
}

#[test]
fn solving_an_invalid_board_fails_at_once() {
    let text = "110000000000000000000000000000000000000000000000000000000000000000000000000000000";
    let puzzle = Sudoku::from_string(text, 9).unwrap();
    let mut solver = SudokuSolver::new();
    assert_eq!(solver.solve(puzzle.clone()).unwrap_err(), "Invalid initial state");
    assert_eq!(solver.solve_with_stats(puzzle).unwrap_err(), "Invalid initial state");
}

#[test]
fn solving_a_board_without_solution_fails() {
    let text = "1230000000000004";
    let puzzle = Sudoku::from_string(text, 4).unwrap();
    assert!(puzzle.is_valid());
    let mut solver = SudokuSolver::new();
    assert_eq!(solver.solve(puzzle).unwrap_err(), "No solution found");
}

#[test]
fn solving_a_blank_board_needs_search() {
    let mut solver = SudokuSolver::new();
    let (solution, stats) = solver.solve_with_stats(Sudoku::new(4)).unwrap();
    assert!(solution.is_complete());
    assert!(solution.is_valid());
    assert!(stats.backtrack_steps > 0);
    assert_eq!(stats.iterations, 1);
}

#[test]
fn solving_without_search_may_stop_short() {
    let mut solver = SudokuSolver::new();
    solver.set_use_backtracking(false);
    assert_eq!(solver.solve(Sudoku::new(4)).unwrap_err(), "No solution found");
    let puzzle = Sudoku::from_string(CLASSIC, 9).unwrap();
    let solution = solver.solve(puzzle).unwrap();
    assert!(solution.is_complete());
}

#[test]
fn solving_with_no_rounds_of_deduction_searches() {
    let mut solver = SudokuSolver::new();
    solver.set_max_iterations(0);
    let puzzle = Sudoku::from_string(CLASSIC, 9).unwrap();
    let (solution, stats) = solver.solve_with_stats(puzzle).unwrap();
    assert!(solution.is_complete());
    assert!(solution.is_valid());
    assert_eq!(stats.iterations, 0);
    assert_eq!(stats.cells_filled, 0);
    assert!(stats.backtrack_steps >= 51);
}

#[test]
fn stats_of_a_puzzle_solved_by_deduction() {
    let puzzle = Sudoku::from_string(CLASSIC, 9).unwrap();
    let mut solver = SudokuSolver::new();
    let (_, stats) = solver.solve_with_stats(puzzle).unwrap();
    assert_eq!(stats.cells_filled, 51);
    assert_eq!(stats.backtrack_steps, 0);
    assert!(stats.iterations >= 1);
    assert!(stats.iterations <= 1000);
    assert!(!stats.strategies_used.is_empty());
    for (name, count) in &stats.strategies_used {
        assert!(name == "Naked Singles" || name == "Hidden Singles");
        assert!(*count >= 1);
    }
}

#[test]
fn stats_record_counts_by_name() {
    let mut stats = SolverStats::new();
    assert!(stats.strategies_used.is_empty());
    assert_eq!(stats.cells_filled, 0);
    assert_eq!(stats.iterations, 0);
    assert_eq!(stats.backtrack_steps, 0);
    stats.record("Naked Singles");
    stats.record("Hidden Singles");
    stats.record("Naked Singles");
    assert_eq!(
        stats.strategies_used,
        vec![(String::from("Naked Singles"), 2), (String::from("Hidden Singles"), 1)]
    );
}

#[test]
fn strategy_names_in_order() {
    let names: Vec<&str> = get_all_strategies().iter().map(|s| s.name()).collect();
    assert_eq!(
        names,
        vec![
            "Naked Singles",
            "Hidden Singles",
            "Naked Pairs",
            "Pointing Pairs",
            "Box/Line Reduction",
            "X-Wing",
            "Swordfish"
        ]
    );
}

#[test]
fn naked_singles_fill_cells_with_one_candidate() {
    let mut board = Sudoku::from_string("1230000000000000", 4).unwrap();
    assert!(NakedSingles.apply(&mut board));
    assert_eq!(board.get(0, 3), Some(Cell::Filled(4)));
    let mut blank = Sudoku::new(4);
    assert!(!NakedSingles.apply(&mut blank));
    assert_eq!(count_empty(&blank), 16);
}

#[test]
fn hidden_singles_fill_the_only_place_of_a_value() {
    let mut board = Sudoku::from_string("0000001000000100", 4).unwrap();
    assert!(board.get_candidates(0, 0).len() > 1);
    assert!(HiddenSingles.apply(&mut board));
    assert_eq!(board.get(0, 0), Some(Cell::Filled(1)));
    assert!(board.is_valid());
    let mut blank = Sudoku::new(4);
    assert!(!HiddenSingles.apply(&mut blank));
}

#[test]
fn hidden_singles_by_unit() {
    let mut board = Sudoku::from_string("0000001000000100", 4).unwrap();
    assert!(HiddenSingles.apply_to_row(&mut board, 0));
    assert_eq!(board.get(0, 0), Some(Cell::Filled(1)));
    let mut board = Sudoku::from_string("0000001000000100", 4).unwrap();
    assert!(HiddenSingles.apply_to_col(&mut board, 0));
    assert_eq!(board.get(0, 0), Some(Cell::Filled(1)));
    let mut board = Sudoku::from_string("0000001000000100", 4).unwrap();
    assert!(HiddenSingles.apply_to_box(&mut board, 0, 0));
    assert_eq!(board.get(0, 0), Some(Cell::Filled(1)));
    assert!(!HiddenSingles.apply_to_box(&mut board, 1, 1) || board.is_valid());
}

#[test]
fn declared_strategies_leave_the_board_alone() {
    let mut board = Sudoku::from_string(CLASSIC, 9).unwrap();
    let before = values(&board);
    assert!(!NakedPairs.apply(&mut board));
    assert!(!PointingPairs.apply(&mut board));
    assert!(!BoxLineReduction.apply(&mut board));
    assert!(!XWing.apply(&mut board));
    assert!(!Swordfish.apply(&mut board));
    assert_eq!(values(&board), before);
}

#[test]
fn solve_step_applies_the_first_strategy_that_finds_something() {
    let solver = SudokuSolver::new();
    let mut board = Sudoku::from_string(CLASSIC, 9).unwrap();
    let before = count_empty(&board);
    assert!(solver.solve_step(&mut board));
    assert!(count_empty(&board) < before);
    assert!(board.is_valid());
    let mut blank = Sudoku::new(4);
    assert!(!solver.solve_step(&mut blank));
    assert_eq!(count_empty(&blank), 16);
}

#[test]
fn solver_with_chosen_strategies() {
    let mut solver = SudokuSolver::new_with_strategies(vec![Box::new(NakedSingles)]);
    let puzzle = Sudoku::from_string(CLASSIC, 9).unwrap();
    let (solution, stats) = solver.solve_with_stats(puzzle).unwrap();
    assert!(solution.is_complete());
    for (name, _) in &stats.strategies_used {
        assert_eq!(name, "Naked Singles");
    }
    let mut solver = SudokuSolver::default();
    assert!(solver.solve(Sudoku::new(4)).is_ok());
}

#[test]
fn hint_is_the_first_naked_single() {
    let mut puzzle = Sudoku::from_string(CLASSIC, 9).unwrap();
    let mut solver = SudokuSolver::new();
    assert_eq!(solver.get_hint(&mut puzzle), Some((4, 4, 5)));
    assert_eq!(puzzle.to_puzzle_string(), CLASSIC);
}

#[test]
fn hint_falls_back_on_hidden_singles() {
    let mut board = Sudoku::from_string("0000001000000100", 4).unwrap();
    let mut solver = SudokuSolver::new();
    assert_eq!(solver.get_hint(&mut board), Some((0, 0, 1)));
    assert_eq!(board.get(0, 0), Some(Cell::Empty));
}

#[test]
fn hint_is_absent_where_deduction_finds_nothing() {
    let mut solver = SudokuSolver::new();
    let mut blank = Sudoku::new(4);
    assert_eq!(solver.get_hint(&mut blank), None);
    let mut solved = Sudoku::from_string(CLASSIC_SOLVED, 9).unwrap();
    assert_eq!(solver.get_hint(&mut solved), None);
}

#[test]
fn validate_solution_wants_complete_and_valid() {
    let solver = SudokuSolver::new();
    assert!(solver.validate_solution(&Sudoku::from_string(CLASSIC_SOLVED, 9).unwrap()));
    assert!(!solver.validate_solution(&Sudoku::from_string(CLASSIC, 9).unwrap()));
    let wrong = "534678912672195348198342567859761423426853791713924856961537284287419635345286177";
    assert!(!solver.validate_solution(&Sudoku::from_string(wrong, 9).unwrap()));
}

#[test]
fn counting_solutions() {
    let mut solver = SudokuSolver::new();
    let classic = Sudoku::from_string(CLASSIC, 9).unwrap();
    assert_eq!(solver.count_solutions(classic.clone(), 2), 1);
    assert_eq!(solver.count_solutions(classic, 0), 0);
    assert_eq!(solver.count_solutions(Sudoku::new(4), 1000), 288);
    assert_eq!(solver.count_solutions(Sudoku::new(4), 10), 10);
    let solved = Sudoku::from_string(CLASSIC_SOLVED, 9).unwrap();
    assert_eq!(solver.count_solutions(solved, 5), 1);
    let invalid = Sudoku::from_string("1100000000000000", 4).unwrap();
    assert_eq!(solver.count_solutions(invalid, 5), 0);
    let stuck = Sudoku::from_string("1230000000000004", 4).unwrap();
    assert_eq!(solver.count_solutions(stuck, 5), 0);
}

#[test]
fn generated_puzzles_are_valid_and_solvable() {
    let mut solver = SudokuSolver::new();
    for size in [4usize, 9] {
        for difficulty in
            [Difficulty::Easy, Difficulty::Medium, Difficulty::Hard, Difficulty::Expert]
        {
            let puzzle = generate(&mut solver, size, difficulty);
            assert_eq!(puzzle.size, size);
            assert!(puzzle.is_valid());
            let solution = solver.solve(puzzle.clone()).unwrap();
            assert!(solution.is_complete());
            assert!(solution.is_valid());
            for row in 0..size {
                for col in 0..size {
                    if let Some(v) = puzzle.grid[row][col].value() {
                        assert_eq!(solution.grid[row][col].value(), Some(v));
                    }
                }
            }
        }
    }
}

#[test]
fn boards_of_side_sixteen_are_solved() {
    let mut board = Sudoku::new(16);
    for row in 0..16usize {
        for col in 0..16usize {
            if (row + 2 * col) % 3 != 0 {
                let value = ((row * 4 + row / 4 + col) % 16 + 1) as u8;
                board.set(row, col, value).unwrap();
            }
        }
    }
    assert!(board.is_valid());
    assert!(!board.is_complete());
    let mut solver = SudokuSolver::new();
    assert_eq!(solver.count_solutions(board.clone(), 2), 1);
    let solution = solver.solve(board).unwrap();
    assert!(solution.is_complete());
    assert!(solution.is_valid());
    for row in 0..16usize {
        for col in 0..16usize {
            let value = ((row * 4 + row / 4 + col) % 16 + 1) as u8;
            assert_eq!(solution.grid[row][col].value(), Some(value));
        }
    }
}

#[test]
fn generated_puzzles_lack_the_share_of_their_difficulty() {
    let mut solver = SudokuSolver::new();
    assert_eq!(count_empty(&generate(&mut solver, 4, Difficulty::Easy)), 6);
    assert_eq!(count_empty(&generate(&mut solver, 4, Difficulty::Medium)), 8);
    assert_eq!(count_empty(&generate(&mut solver, 4, Difficulty::Hard)), 9);
    assert_eq!(count_empty(&generate(&mut solver, 4, Difficulty::Expert)), 11);
    let easy = count_empty(&generate(&mut solver, 9, Difficulty::Easy));
    assert!(easy >= 31 && easy <= 33);
    let medium = count_empty(&generate(&mut solver, 9, Difficulty::Medium));
    assert!(medium >= 38 && medium <= 42);
    let hard = count_empty(&generate(&mut solver, 9, Difficulty::Hard));
    assert!(hard >= 46 && hard <= 50);
    let expert = count_empty(&generate(&mut solver, 9, Difficulty::Expert));
    assert!(expert >= 54 && expert <= 58);
    assert_eq!(count_empty(&generate(&mut solver, 1, Difficulty::Expert)), 0);
}

#[test]
fn generation_is_left_to_chance() {
    let mut solver = SudokuSolver::new();
    let mut layouts: Vec<String> = Vec::new();
    let mut counts: Vec<usize> = Vec::new();
    for _ in 0..40 {
        let puzzle = generate(&mut solver, 9, Difficulty::Easy);
        counts.push(count_empty(&puzzle));
        layouts.push(puzzle.to_puzzle_string());
    }
    layouts.sort();
    layouts.dedup();
    assert!(layouts.len() > 1);
    counts.sort();
    counts.dedup();
    assert!(counts.len() > 1);
}

#[test]
fn generated_puzzles_hold_filled_cells_only() {
    let mut solver = SudokuSolver::new();
    let puzzle = generate(&mut solver, 9, Difficulty::Medium);
    for row in &puzzle.grid {
        for cell in row {
            assert!(!cell.is_given());
        }
    }
}

#[test]
fn generation_of_side_nine_always_succeeds() {
    let mut solver = SudokuSolver::new();
    for _ in 0..20 {
        assert!(solver.generate_puzzle(9, Difficulty::Hard).is_ok());
    }
}

#[test]
fn a_pass_of_naked_singles_looks_at_each_cell_once() {
    let mut board = Sudoku::from_string("1230000000000000", 4).unwrap();
    assert!(NakedSingles.apply(&mut board));
    assert_eq!(board.to_puzzle_string(), "1234000000000000");
    let mut board = Sudoku::from_string("0230400000000000", 4).unwrap();
    assert_eq!(board.get_candidates(0, 3).len(), 2);
    assert!(NakedSingles.apply(&mut board));
    assert_eq!(board.get(0, 0), Some(Cell::Filled(1)));
    assert_eq!(board.get(0, 3), Some(Cell::Filled(4)));
}

#[test]
fn deduction_alone_counts_its_rounds() {
    let mut solver = SudokuSolver::new();
    solver.set_use_backtracking(false);
    let board = Sudoku::from_string("1234341221434320", 4).unwrap();
    let (solution, stats) = solver.solve_with_stats(board).unwrap();
    assert_eq!(solution.get(3, 3), Some(Cell::Filled(1)));
    assert_eq!(stats.iterations, 1);
    assert_eq!(stats.cells_filled, 1);
    assert_eq!(stats.backtrack_steps, 0);
    assert_eq!(stats.strategies_used, vec![(String::from("Naked Singles"), 1)]);
    let solved = Sudoku::from_string("1234341221434321", 4).unwrap();
    let (_, stats) = solver.solve_with_stats(solved).unwrap();
    assert_eq!(stats.iterations, 0);
    assert!(stats.strategies_used.is_empty());
}

#[test]
fn the_partner_under_a_half_turn_goes_when_the_coin_says_so() {
    let mut board = Sudoku::from_string("1234341221434321", 4).unwrap();
    assert!(!clear_partner(&mut board, 0, 1, false));
    assert_eq!(count_empty(&board), 0);
    assert!(clear_partner(&mut board, 0, 1, true));
    assert_eq!(board.get(3, 2), Some(Cell::Empty));
    assert_eq!(count_empty(&board), 1);
    assert!(!clear_partner(&mut board, 0, 1, true));
    assert_eq!(count_empty(&board), 1);
    let mut odd = Sudoku::from_string(CLASSIC_SOLVED, 9).unwrap();
    assert!(!clear_partner(&mut odd, 4, 4, true));
    assert_eq!(count_empty(&odd), 0);
    assert!(clear_partner(&mut odd, 8, 0, true));
    assert_eq!(odd.get(0, 8), Some(Cell::Empty));
}

#[test]
fn cells_are_taken_at_the_listed_places_in_their_order() {
    let solver = SudokuSolver::new();
    let full = Sudoku::from_string("1234341221434321", 4).unwrap();
    let puzzle = solver.remove_listed(full.clone(), &vec![(1, 1), (0, 0), (2, 3)], 1);
    assert_eq!(puzzle.to_puzzle_string(), "1234301221434321");
    let puzzle = solver.remove_listed(full.clone(), &vec![(1, 1), (0, 0)], 0);
    assert_eq!(puzzle.to_puzzle_string(), "1234341221434321");
    let puzzle = solver.remove_listed(full.clone(), &vec![(1, 1)], 5);
    assert_eq!(puzzle.get(1, 1), Some(Cell::Empty));
    let empty = count_empty(&puzzle);
    assert!(empty == 1 || (empty == 2 && puzzle.get(2, 2) == Some(Cell::Empty)));
    let puzzle = solver.remove_listed(full.clone(), &vec![(1, 1), (1, 1), (2, 2), (0, 3)], 2);
    assert_eq!(puzzle.get(1, 1), Some(Cell::Empty));
    assert_eq!(count_empty(&puzzle), 2);
    assert!(puzzle.get(2, 2) == Some(Cell::Empty));
    let mut seen_partner = false;
    let mut seen_alone = false;
    for _ in 0..200 {
        let puzzle = solver.remove_listed(full.clone(), &vec![(0, 0)], 2);
        if count_empty(&puzzle) == 2 {
            assert_eq!(puzzle.get(3, 3), Some(Cell::Empty));
            seen_partner = true;
        } else {
            assert_eq!(count_empty(&puzzle), 1);
            seen_alone = true;
        }
    }
    assert!(seen_partner && seen_alone);
}

#[test]
fn a_start_without_solution_gives_no_puzzle() {
    let mut solver = SudokuSolver::new();
    let start = Sudoku::from_string("1200340000130024", 4).unwrap();
    assert!(start.is_valid());
    assert_eq!(solver.count_solutions(start.clone(), 2), 0);
    assert_eq!(solver.puzzle_from(start, Difficulty::Easy).unwrap_err(), "No solution found");
    let invalid = Sudoku::from_string("1100000000000000", 4).unwrap();
    assert_eq!(
        solver.puzzle_from(invalid, Difficulty::Easy).unwrap_err(),
        "Invalid initial state"
    );
}

#[test]
fn a_start_with_a_solution_gives_a_puzzle() {
    let mut solver = SudokuSolver::new();
    let start = Sudoku::from_string("1200340000210043", 4).unwrap();
    let puzzle = solver.puzzle_from(start, Difficulty::Easy).unwrap();
    assert_eq!(count_empty(&puzzle), 6);
    assert!(puzzle.is_valid());
    let full = Sudoku::from_string("1234341243212143", 4).unwrap();
    assert!(full.is_valid() && full.is_complete());
    for row in 0..4 {
        for col in 0..4 {
            if let Some(v) = puzzle.grid[row][col].value() {
                assert_eq!(full.grid[row][col].value(), Some(v));
            }
        }
    }
    solver.set_use_backtracking(false);
    let blank = Sudoku::new(4);
    assert_eq!(solver.puzzle_from(blank, Difficulty::Easy).unwrap_err(), "No solution found");
}

#[test]
fn the_smallest_boards_always_give_a_puzzle() {
    let mut solver = SudokuSolver::new();
    for difficulty in [Difficulty::Easy, Difficulty::Medium, Difficulty::Hard, Difficulty::Expert] {
        let puzzle = solver.generate_puzzle(1, difficulty).unwrap();
        assert_eq!(puzzle.get(0, 0), Some(Cell::Filled(1)));
        let none = solver.generate_puzzle(0, difficulty).unwrap();
        assert_eq!(none.size, 0);
    }
    solver.set_use_backtracking(false);
    assert!(solver.generate_puzzle(1, Difficulty::Expert).is_ok());
}

#[test]
fn only_strategies_that_filled_in_something_are_listed() {
    let mut solver = SudokuSolver::new();
    let solved = Sudoku::from_string(CLASSIC_SOLVED, 9).unwrap();
    let (solution, stats) = solver.solve_with_stats(solved.clone()).unwrap();
    assert_eq!(solution.grid, solved.grid);
    assert_eq!(stats.iterations, 0);
    assert_eq!(stats.cells_filled, 0);
    assert_eq!(stats.backtrack_steps, 0);
    assert!(stats.strategies_used.is_empty());
    let (_, stats) = solver.solve_with_stats(Sudoku::from_string(CLASSIC, 9).unwrap()).unwrap();
    for (name, count) in &stats.strategies_used {
        assert!(name == "Naked Singles" || name == "Hidden Singles");
        assert!(*count >= 1 && *count <= stats.iterations);
    }
    let (_, stats) = solver.solve_with_stats(Sudoku::new(4)).unwrap();
    assert!(stats.strategies_used.is_empty());
    assert_eq!(stats.iterations, 1);
}

#[test]
fn hints_are_candidates() {
    let mut solver = SudokuSolver::new();
    for text in [CLASSIC, "000000000000000000000000000000000000000000000000000000000000000000000000000000001"] {
        let mut board = Sudoku::from_string(text, 9).unwrap();
        if let Some((row, col, value)) = solver.get_hint(&mut board) {
            assert!(value >= 1 && value <= 9);
            assert!(board.get_candidates(row, col).contains(&value));
        }
    }
    let mut board = Sudoku::from_string("0000001000000100", 4).unwrap();
    let (row, col, value) = solver.get_hint(&mut board).unwrap();
    assert!(board.get_candidates(row, col).contains(&value));
    assert!(HiddenSingles.apply(&mut board));
    assert!(board.is_valid());
}
