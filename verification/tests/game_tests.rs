use sudoko::game::{starting_puzzle, AppMode, Key, SudokuApp};
use sudoko::Cell;

const CLASSIC: &str =
    "530070000600195000098000060800060003400803001700020006060000280000419005000080079";

#[test]
fn a_new_game_starts_on_the_classic_puzzle() {
    let app = SudokuApp::new();
    assert_eq!(app.puzzle.to_puzzle_string(), CLASSIC);
    assert_eq!(starting_puzzle().to_puzzle_string(), CLASSIC);
    assert_eq!(app.cursor, (0, 0));
    assert!(!app.is_solved);
    assert!(!app.should_quit);
    assert_eq!(app.mode, AppMode::Normal);
    assert_eq!(
        app.message,
        "Welcome to Sudoku! Use arrow keys to move, 1-9 to fill cells, ? for help"
    );
}

#[test]
fn arrows_move_the_cursor_within_the_board() {
    let mut app = SudokuApp::new();
    app.handle_key(Key::Up);
    assert_eq!(app.cursor, (0, 0));
    app.handle_key(Key::Left);
    assert_eq!(app.cursor, (0, 0));
    app.handle_key(Key::Down);
    app.handle_key(Key::Right);
    app.handle_key(Key::Right);
    assert_eq!(app.cursor, (1, 2));
    for _ in 0..12 {
        app.handle_key(Key::Down);
        app.handle_key(Key::Right);
    }
    assert_eq!(app.cursor, (8, 8));
    app.move_cursor(-3, -20);
    assert_eq!(app.cursor, (5, 0));
}

#[test]
fn clues_cannot_be_changed() {
    let mut app = SudokuApp::new();
    app.handle_key(Key::Char('7'));
    assert_eq!(app.message, "Cannot modify given cells!");
    assert_eq!(app.puzzle.get(0, 0), Some(Cell::Given(5)));
    app.handle_key(Key::Delete);
    assert_eq!(app.message, "Cannot modify given cells!");
    assert_eq!(app.puzzle.get(0, 0), Some(Cell::Given(5)));
}

#[test]
fn digits_fill_and_clear_the_cell_under_the_cursor() {
    let mut app = SudokuApp::new();
    app.handle_key(Key::Right);
    app.handle_key(Key::Right);
    app.handle_key(Key::Char('4'));
    assert_eq!(app.puzzle.get(0, 2), Some(Cell::Filled(4)));
    assert_eq!(app.message, "Set 4 at (1, 3)");
    app.handle_key(Key::Char('0'));
    assert_eq!(app.puzzle.get(0, 2), Some(Cell::Empty));
    assert_eq!(app.message, "Cleared cell (1, 3)");
    app.handle_key(Key::Char('9'));
    app.handle_key(Key::Backspace);
    assert_eq!(app.puzzle.get(0, 2), Some(Cell::Empty));
    app.set_value(10);
    assert_eq!(app.message, "Error: Value 10 is too large for 9x9 Sudoku");
    assert_eq!(app.puzzle.get(0, 2), Some(Cell::Empty));
}

#[test]
fn the_last_right_value_solves_the_game() {
    let mut app = SudokuApp::new();
    app.handle_key(Key::Char('s'));
    assert!(app.is_solved);
    assert_eq!(app.message, "Puzzle solved automatically!");
    assert!(app.puzzle.is_complete() && app.puzzle.is_valid());
    app.is_solved = false;
    app.handle_key(Key::Right);
    app.handle_key(Key::Right);
    app.handle_key(Key::Char('0'));
    assert!(!app.is_solved);
    assert_eq!(app.message, "Cleared cell (1, 3)");
    app.handle_key(Key::Char('5'));
    assert!(!app.is_solved);
    assert_eq!(app.message, "Set 5 at (1, 3)");
    app.handle_key(Key::Char('4'));
    assert!(app.is_solved);
    assert_eq!(app.message, "🎉 Congratulations! Puzzle solved!");
}

#[test]
fn a_puzzle_without_solution_is_left_alone() {
    let mut app = SudokuApp::new();
    app.handle_key(Key::Right);
    app.handle_key(Key::Right);
    app.handle_key(Key::Char('1'));
    let before = app.puzzle.to_puzzle_string();
    app.handle_key(Key::Char('S'));
    assert!(!app.is_solved);
    assert_eq!(app.message, "No solution found for this puzzle.");
    assert_eq!(app.puzzle.to_puzzle_string(), before);
}

#[test]
fn reset_goes_back_to_the_start() {
    let mut app = SudokuApp::new();
    app.handle_key(Key::Char('s'));
    app.handle_key(Key::Down);
    app.handle_key(Key::Char('r'));
    assert_eq!(app.puzzle.to_puzzle_string(), CLASSIC);
    assert_eq!(app.cursor, (0, 0));
    assert!(!app.is_solved);
    assert_eq!(app.message, "Puzzle reset to original state.");
}

#[test]
fn hint_moves_the_cursor() {
    let mut app = SudokuApp::new();
    app.handle_key(Key::Char('h'));
    assert_eq!(app.cursor, (4, 4));
    assert_eq!(app.message, "Hint: Try 5 at (5, 5)");
    assert_eq!(app.puzzle.to_puzzle_string(), CLASSIC);
    app.handle_key(Key::Char('s'));
    app.handle_key(Key::Char('H'));
    assert_eq!(app.message, "No obvious hints available.");
    assert_eq!(app.cursor, (4, 4));
}

#[test]
fn new_puzzles_by_difficulty() {
    let mut app = SudokuApp::new();
    app.handle_key(Key::Down);
    app.handle_key(Key::Char('e'));
    assert_eq!(app.message, "Generated new Easy puzzle!");
    assert_eq!(app.cursor, (0, 0));
    assert!(app.puzzle.is_valid());
    app.handle_key(Key::Char('M'));
    assert_eq!(app.message, "Generated new Medium puzzle!");
    app.handle_key(Key::Char('d'));
    assert_eq!(app.message, "Generated new Hard puzzle!");
    app.handle_key(Key::Char('x'));
    assert_eq!(app.message, "Generated new Expert puzzle!");
    assert!(!app.is_solved);
}

#[test]
fn help_opens_and_closes() {
    let mut app = SudokuApp::new();
    app.handle_key(Key::Char('?'));
    assert_eq!(app.mode, AppMode::Help);
    app.handle_key(Key::Char('q'));
    assert!(!app.should_quit);
    assert_eq!(app.mode, AppMode::Help);
    app.handle_key(Key::Down);
    assert_eq!(app.cursor, (0, 0));
    app.handle_key(Key::Esc);
    assert_eq!(app.mode, AppMode::Normal);
    app.handle_key(Key::Char('?'));
    app.handle_key(Key::Enter);
    assert_eq!(app.mode, AppMode::Normal);
    app.handle_key(Key::Char('?'));
    app.handle_key(Key::Char('?'));
    assert_eq!(app.mode, AppMode::Normal);
}

#[test]
fn quit_and_keys_without_meaning() {
    let mut app = SudokuApp::new();
    app.handle_key(Key::Other);
    app.handle_key(Key::Char('z'));
    app.handle_key(Key::Enter);
    assert!(!app.should_quit);
    assert_eq!(app.cursor, (0, 0));
    assert_eq!(app.puzzle.to_puzzle_string(), CLASSIC);
    app.handle_key(Key::Char('Q'));
    assert!(app.should_quit);
}
