use vstd::prelude::*;
use crate::cell::Cell;
use crate::generator::{is_start, least_removals, most_removals, Difficulty};
use crate::grid::Board;
use crate::solver::SudokuSolver;
use crate::strategies::{HiddenSingles, NakedSingles, SolvingStrategy};
use crate::sudoku::{is_square, Sudoku};
use crate::text::{char_cell, decimal, is_puzzle_text, push_decimal, value_error_text};

verus! {

/// The text of the puzzle that a game starts with.
pub open spec fn starting_text() -> Seq<char> {
    "530070000600195000098000060800060003400803001700020006060000280000419005000080079"@
}

/// The puzzle that a game starts with.
pub fn starting_puzzle() -> (puzzle: Sudoku)
    ensures
        puzzle.wf(),
        puzzle.size == 9,
        is_puzzle_text(starting_text(), 9),
        forall|r: int, c: int|
            puzzle@.has(r, c) ==> Some(#[trigger] puzzle@.at(r, c)) == char_cell(
                starting_text()[r * 9 + c],
                9,
            ),
{
    let text = "530070000600195000098000060800060003400803001700020006060000280000419005000080079";
    proof {
        reveal_strlit(
            "530070000600195000098000060800060003400803001700020006060000280000419005000080079",
        );
        assert(3 * 3 == 9);
        assert(is_square(9));
        assert(text@.len() == 81);
        assert forall|i: int| 0 <= i < 81 implies #[trigger] char_cell(text@[i], 9) is Some by {
            let ch = text@[i];
            assert(ch == '0' || ('1' <= ch <= '9'));
        }
    }
    match Sudoku::from_string(text, 9) {
        Ok(puzzle) => puzzle,
        Err(_) => {
            assert(false);
            Sudoku::new(9)
        },
    }
}

/// What the screen shows: the game, or the help over it.
#[derive(Debug, Clone, Copy, PartialEq, Eq, Structural)]
pub enum AppMode {
    Normal,
    Help,
}

/// A key as the game tells keys apart.
#[derive(Debug, Clone, Copy, PartialEq, Eq, Structural)]
pub enum Key {
    Char(char),
    Up,
    Down,
    Left,
    Right,
    Delete,
    Backspace,
    Esc,
    Enter,
    Other,
}

/// A game on a board of side nine: the puzzle as it stands, the place of
/// the cursor, and what the player is told.
pub struct SudokuApp {
    pub puzzle: Sudoku,
    pub cursor: (usize, usize),
    pub message: String,
    pub is_solved: bool,
    pub mode: AppMode,
    pub should_quit: bool,
}

/// `at`, moved by `by` and kept on a board of side nine.
pub open spec fn moved(at: usize, by: int) -> int {
    if at + by < 0 {
        0
    } else if at + by > 8 {
        8
    } else {
        at + by
    }
}

/// The name of a difficulty.
pub open spec fn difficulty_text(difficulty: Difficulty) -> Seq<char> {
    match difficulty {
        Difficulty::Easy => "Easy"@,
        Difficulty::Medium => "Medium"@,
        Difficulty::Hard => "Hard"@,
        Difficulty::Expert => "Expert"@,
    }
}

/// A place as the player reads it, counted from one.
pub open spec fn place_text(row: usize, col: usize) -> Seq<char> {
    "("@ + decimal((row + 1) as nat) + ", "@ + decimal((col + 1) as nat) + ")"@
}

/// What the player is told when a cell was emptied.
pub open spec fn cleared_text(row: usize, col: usize) -> Seq<char> {
    "Cleared cell "@ + place_text(row, col)
}

/// What the player is told when a value was put into a cell.
pub open spec fn set_text(value: u8, row: usize, col: usize) -> Seq<char> {
    "Set "@ + decimal(value as nat) + " at "@ + place_text(row, col)
}

/// What the player is told when a hint was found.
pub open spec fn hint_text(value: u8, row: usize, col: usize) -> Seq<char> {
    "Hint: Try "@ + decimal(value as nat) + " at "@ + place_text(row, col)
}

/// What the player is told when a new puzzle was made.
pub open spec fn generated_text(difficulty: Difficulty) -> Seq<char> {
    "Generated new "@ + difficulty_text(difficulty) + " puzzle!"@
}

/// Appends a place as the player reads it.
fn push_place(out: &mut String, row: usize, col: usize)
    requires
        row < usize::MAX,
        col < usize::MAX,
    ensures
        final(out)@ == old(out)@ + place_text(row, col),
{
    out.append("(");
    push_decimal(out, (row + 1) as u128);
    out.append(", ");
    push_decimal(out, (col + 1) as u128);
    out.append(")");
}

impl SudokuApp {
    /// The puzzle is a well-formed board of side nine and the cursor is on
    /// it.
    pub open spec fn wf(&self) -> bool {
        &&& self.puzzle.wf()
        &&& self.puzzle.size == 9
        &&& self.cursor.0 < 9
        &&& self.cursor.1 < 9
    }

    /// All but the message is as in `before`.
    pub open spec fn same_but_message(&self, before: &SudokuApp) -> bool {
        &&& self.puzzle@ == before.puzzle@
        &&& self.cursor == before.cursor
        &&& self.is_solved == before.is_solved
        &&& self.mode == before.mode
        &&& self.should_quit == before.should_quit
    }

    /// `self` is `before` after the cursor was moved by `(dr, dc)`.
    pub open spec fn is_moved(&self, before: &SudokuApp, dr: int, dc: int) -> bool {
        &&& self.cursor.0 == moved(before.cursor.0, dr)
        &&& self.cursor.1 == moved(before.cursor.1, dc)
        &&& self.puzzle@ == before.puzzle@
        &&& self.message@ == before.message@
        &&& self.is_solved == before.is_solved
        &&& self.mode == before.mode
        &&& self.should_quit == before.should_quit
    }

    /// `self` is `before` after the player tried to put `value` at the
    /// cursor: a clue stays, a value that the board cannot hold is refused,
    /// and a board that ends up complete and valid is solved.
    pub open spec fn is_edited(&self, before: &SudokuApp, value: u8) -> bool {
        let row = before.cursor.0;
        let col = before.cursor.1;
        &&& self.cursor == before.cursor
        &&& self.mode == before.mode
        &&& self.should_quit == before.should_quit
        &&& if before.puzzle@.at(row as int, col as int) is Given {
            &&& self.puzzle@ == before.puzzle@
            &&& self.is_solved == before.is_solved
            &&& self.message@ == "Cannot modify given cells!"@
        } else if value > 9 {
            &&& self.puzzle@ == before.puzzle@
            &&& self.is_solved == before.is_solved
            &&& self.message@ == "Error: "@ + value_error_text(value as nat, 9)
        } else {
            &&& self.puzzle@ == before.puzzle@.with_cell(
                row as int,
                col as int,
                if value == 0 {
                    Cell::Empty
                } else {
                    Cell::Filled(value)
                },
            )
            &&& if self.puzzle@.complete() && self.puzzle@.valid() {
                self.is_solved && self.message@ == "🎉 Congratulations! Puzzle solved!"@
            } else {
                self.is_solved == before.is_solved && self.message@ == if value == 0 {
                    cleared_text(row, col)
                } else {
                    set_text(value, row, col)
                }
            }
        }
    }

    /// `self` is `before` after the solver was asked: the puzzle is solved
    /// if it can be, and left alone if not.
    pub open spec fn is_solved_from(&self, before: &SudokuApp) -> bool {
        &&& self.cursor == before.cursor
        &&& self.mode == before.mode
        &&& self.should_quit == before.should_quit
        &&& if before.puzzle@.solvable() {
            &&& self.puzzle@.solves(before.puzzle@)
            &&& self.is_solved
            &&& self.message@ == "Puzzle solved automatically!"@
        } else {
            &&& self.puzzle@ == before.puzzle@
            &&& self.is_solved == before.is_solved
            &&& self.message@ == "No solution found for this puzzle."@
        }
    }

    /// `self` is `before` after the puzzle was put back to the one a game
    /// starts with.
    pub open spec fn is_reset_from(&self, before: &SudokuApp) -> bool {
        &&& self.cursor == (0usize, 0usize)
        &&& !self.is_solved
        &&& self.mode == before.mode
        &&& self.should_quit == before.should_quit
        &&& self.message@ == "Puzzle reset to original state."@
        &&& forall|r: int, c: int|
            self.puzzle@.has(r, c) ==> Some(#[trigger] self.puzzle@.at(r, c)) == char_cell(
                starting_text()[r * 9 + c],
                9,
            )
    }

    /// `self` is `before` after a new puzzle was asked for: a new puzzle of
    /// the difficulty, or, where the board that chance filled has no
    /// solution, the old one.
    pub open spec fn is_generated_from(&self, before: &SudokuApp, difficulty: Difficulty) -> bool {
        &&& self.mode == before.mode
        &&& self.should_quit == before.should_quit
        &&& {
            ||| {
                &&& self.message@ == generated_text(difficulty)
                &&& self.cursor == (0usize, 0usize)
                &&& !self.is_solved
                &&& self.puzzle@.valid()
                &&& self.puzzle@.solvable()
                &&& least_removals(9, difficulty) <= self.puzzle@.empties() <= most_removals(
                    9,
                    difficulty,
                )
            }
            ||| {
                &&& self.message@ == "Failed to generate new puzzle."@
                &&& self.puzzle@ == before.puzzle@
                &&& self.cursor == before.cursor
                &&& self.is_solved == before.is_solved
                &&& exists|start: Board| #[trigger] is_start(start, 9) && !start.solvable()
            }
        }
    }

    /// `self` is `before` after a hint was asked for: the cursor stands on
    /// a cell whose value deduction gives, or nothing is found.
    pub open spec fn is_hinted_from(&self, before: &SudokuApp) -> bool {
        let b = before.puzzle@;
        &&& self.puzzle@ == b
        &&& self.is_solved == before.is_solved
        &&& self.mode == before.mode
        &&& self.should_quit == before.should_quit
        &&& {
            ||| {
                &&& self.cursor == before.cursor
                &&& self.message@ == "No obvious hints available."@
                &&& !NakedSingles.finds(b)
                &&& !HiddenSingles.finds(b)
            }
            ||| exists|value: u8|
                {
                    &&& self.message@ == #[trigger] hint_text(value, self.cursor.0, self.cursor.1)
                    &&& b.has(self.cursor.0 as int, self.cursor.1 as int)
                    &&& b.at(self.cursor.0 as int, self.cursor.1 as int) is Empty
                    &&& forall|s: Board| #[trigger]
                        s.solves(b) ==> s.at(self.cursor.0 as int, self.cursor.1 as int)
                            == Cell::Filled(value)
                }
        }
    }

    /// What a key does to the game.
    pub open spec fn is_after_key(&self, before: &SudokuApp, key: Key) -> bool {
        if before.mode == AppMode::Help {
            &&& self.same_but_message(
                &SudokuApp {
                    mode: if key == Key::Char('?') || key == Key::Esc || key == Key::Enter {
                        AppMode::Normal
                    } else {
                        AppMode::Help
                    },
                    ..*before
                },
            )
            &&& self.message@ == before.message@
        } else {
            match key {
                Key::Char(c) => if c == 'q' || c == 'Q' {
                    self.same_but_message(&SudokuApp { should_quit: true, ..*before })
                        && self.message@ == before.message@
                } else if c == '?' {
                    self.same_but_message(&SudokuApp { mode: AppMode::Help, ..*before })
                        && self.message@ == before.message@
                } else if c == 's' || c == 'S' {
                    self.is_solved_from(before)
                } else if c == 'r' || c == 'R' {
                    self.is_reset_from(before)
                } else if c == 'h' || c == 'H' {
                    self.is_hinted_from(before)
                } else if c == 'e' || c == 'E' {
                    self.is_generated_from(before, Difficulty::Easy)
                } else if c == 'm' || c == 'M' {
                    self.is_generated_from(before, Difficulty::Medium)
                } else if c == 'd' || c == 'D' {
                    self.is_generated_from(before, Difficulty::Hard)
                } else if c == 'x' || c == 'X' {
                    self.is_generated_from(before, Difficulty::Expert)
                } else if '0' <= c <= '9' {
                    self.is_edited(before, (c as int - '0' as int) as u8)
                } else {
                    self.same_but_message(before) && self.message@ == before.message@
                },
                Key::Up => self.is_moved(before, -1, 0),
                Key::Down => self.is_moved(before, 1, 0),
                Key::Left => self.is_moved(before, 0, -1),
                Key::Right => self.is_moved(before, 0, 1),
                Key::Delete => self.is_edited(before, 0),
                Key::Backspace => self.is_edited(before, 0),
                _ => self.same_but_message(before) && self.message@ == before.message@,
            }
        }
    }

    /// A new game.
    pub fn new() -> (app: Self)
        ensures
            app.wf(),
            app.cursor == (0usize, 0usize),
            !app.is_solved,
            app.mode == AppMode::Normal,
            !app.should_quit,
            app.message@
                == "Welcome to Sudoku! Use arrow keys to move, 1-9 to fill cells, ? for help"@,
            forall|r: int, c: int|
                app.puzzle@.has(r, c) ==> Some(#[trigger] app.puzzle@.at(r, c)) == char_cell(
                    starting_text()[r * 9 + c],
                    9,
                ),
    {
        SudokuApp {
            puzzle: starting_puzzle(),
            cursor: (0, 0),
            message: String::from_str(
                "Welcome to Sudoku! Use arrow keys to move, 1-9 to fill cells, ? for help",
            ),
            is_solved: false,
            mode: AppMode::Normal,
            should_quit: false,
        }
    }

    /// Acts on a key: in the help, three keys close it; in the game, keys
    /// move the cursor, edit the cell under it, or ask for a solution, a
    /// hint, a new puzzle, the help or the end.
    pub fn handle_key(&mut self, key: Key)
        requires
            old(self).wf(),
        ensures
            final(self).wf(),
            final(self).is_after_key(old(self), key),
    {
        match self.mode {
            AppMode::Help => {
                match key {
                    Key::Char(c) => {
                        if c == '?' {
                            self.mode = AppMode::Normal;
                        }
                    },
                    Key::Esc => {
                        self.mode = AppMode::Normal;
                    },
                    Key::Enter => {
                        self.mode = AppMode::Normal;
                    },
                    _ => {},
                }
            },
            AppMode::Normal => {
                match key {
                    Key::Char(c) => {
                        if c == 'q' || c == 'Q' {
                            self.should_quit = true;
                        } else if c == '?' {
                            self.mode = AppMode::Help;
                        } else if c == 's' || c == 'S' {
                            self.solve_puzzle();
                        } else if c == 'r' || c == 'R' {
                            self.reset_puzzle();
                        } else if c == 'h' || c == 'H' {
                            self.get_hint();
                        } else if c == 'e' || c == 'E' {
                            self.generate_new_puzzle(Difficulty::Easy);
                        } else if c == 'm' || c == 'M' {
                            self.generate_new_puzzle(Difficulty::Medium);
                        } else if c == 'd' || c == 'D' {
                            self.generate_new_puzzle(Difficulty::Hard);
                        } else if c == 'x' || c == 'X' {
                            self.generate_new_puzzle(Difficulty::Expert);
                        } else if c >= '0' && c <= '9' {
                            let value = (c as u32 - 48) as u8;
                            self.set_value(value);
                        }
                    },
                    Key::Up => self.move_cursor(-1, 0),
                    Key::Down => self.move_cursor(1, 0),
                    Key::Left => self.move_cursor(0, -1),
                    Key::Right => self.move_cursor(0, 1),
                    Key::Delete => self.set_value(0),
                    Key::Backspace => self.set_value(0),
                    _ => {},
                }
            },
        }
    }

    /// Moves the cursor by `(dr, dc)`, as far as the board goes.
    pub fn move_cursor(&mut self, dr: i32, dc: i32)
        requires
            old(self).wf(),
            old(self).cursor.0 + dr <= i32::MAX,
            old(self).cursor.1 + dc <= i32::MAX,
        ensures
            final(self).wf(),
            final(self).is_moved(old(self), dr as int, dc as int),
    {
        let last = self.puzzle.size as i32 - 1;
        let row = self.cursor.0 as i32 + dr;
        let col = self.cursor.1 as i32 + dc;
        let new_row = if row < 0 {
            0
        } else if row > last {
            last
        } else {
            row
        };
        let new_col = if col < 0 {
            0
        } else if col > last {
            last
        } else {
            col
        };
        self.cursor = (new_row as usize, new_col as usize);
    }

    /// Puts `value` at the cursor, or empties the cell for `0`. A clue is
    /// left as it is.
    pub fn set_value(&mut self, value: u8)
        requires
            old(self).wf(),
        ensures
            final(self).wf(),
            final(self).is_edited(old(self), value),
    {
        let (row, col) = self.cursor;
        if let Some(cell) = self.puzzle.get(row, col) {
            if cell.is_given() {
                self.message = String::from_str("Cannot modify given cells!");
                return ;
            }
        }
        match self.puzzle.set(row, col, value) {
            Ok(_) => {
                if value == 0 {
                    let mut message = String::from_str("Cleared cell ");
                    push_place(&mut message, row, col);
                    self.message = message;
                } else {
                    let mut message = String::from_str("Set ");
                    push_decimal(&mut message, value as u128);
                    message.append(" at ");
                    push_place(&mut message, row, col);
                    self.message = message;
                }
                if self.puzzle.is_complete() && self.puzzle.is_valid() {
                    self.is_solved = true;
                    self.message = String::from_str("🎉 Congratulations! Puzzle solved!");
                }
            },
            Err(e) => {
                let mut message = String::from_str("Error: ");
                message.append(e.as_str());
                self.message = message;
            },
        }
    }

    /// Has the puzzle solved.
    pub fn solve_puzzle(&mut self)
        requires
            old(self).wf(),
        ensures
            final(self).wf(),
            final(self).is_solved_from(old(self)),
    {
        let mut solver = SudokuSolver::new();
        match solver.solve(self.puzzle.clone()) {
            Ok(solution) => {
                self.puzzle = solution;
                self.is_solved = true;
                self.message = String::from_str("Puzzle solved automatically!");
            },
            Err(_) => {
                self.message = String::from_str("No solution found for this puzzle.");
            },
        }
    }

    /// Puts the puzzle back to the one that a game starts with.
    pub fn reset_puzzle(&mut self)
        requires
            old(self).wf(),
        ensures
            final(self).wf(),
            final(self).is_reset_from(old(self)),
    {
        self.puzzle = starting_puzzle();
        self.cursor = (0, 0);
        self.is_solved = false;
        self.message = String::from_str("Puzzle reset to original state.");
    }

    /// Starts on a new puzzle of the given difficulty.
    pub fn generate_new_puzzle(&mut self, difficulty: Difficulty)
        requires
            old(self).wf(),
        ensures
            final(self).wf(),
            final(self).is_generated_from(old(self), difficulty),
    {
        let mut solver = SudokuSolver::new();
        assert(3 * 3 == 9);
        assert(is_square(9));
        match solver.generate_puzzle(9, difficulty) {
            Ok(new_puzzle) => {
                self.puzzle = new_puzzle;
                self.cursor = (0, 0);
                self.is_solved = false;
                let mut message = String::from_str("Generated new ");
                match difficulty {
                    Difficulty::Easy => message.append("Easy"),
                    Difficulty::Medium => message.append("Medium"),
                    Difficulty::Hard => message.append("Hard"),
                    Difficulty::Expert => message.append("Expert"),
                }
                message.append(" puzzle!");
                self.message = message;
            },
            Err(_) => {
                self.message = String::from_str("Failed to generate new puzzle.");
            },
        }
    }

    /// Moves the cursor to a cell that deduction can fill in, and names its
    /// value.
    pub fn get_hint(&mut self)
        requires
            old(self).wf(),
        ensures
            final(self).wf(),
            final(self).is_hinted_from(old(self)),
    {
        let mut solver = SudokuSolver::new();
        let mut temp_puzzle = self.puzzle.clone();
        match solver.get_hint(&mut temp_puzzle) {
            Some((row, col, value)) => {
                self.cursor = (row, col);
                let mut message = String::from_str("Hint: Try ");
                push_decimal(&mut message, value as u128);
                message.append(" at ");
                push_place(&mut message, row, col);
                self.message = message;
                assert(self.message@ == hint_text(value, self.cursor.0, self.cursor.1));
            },
            None => {
                self.message = String::from_str("No obvious hints available.");
                proof {
                    let b = old(self).puzzle@;
                    let list = solver.strategies();
                    assert(list[1].label() == "Hidden Singles"@);
                    assert(!list[1].finds(b));
                    assert(list[0].finds(b) == NakedSingles.finds(b));
                    assert(list[1].finds(b) == HiddenSingles.finds(b));
                }
            },
        }
    }
}

} // verus!
