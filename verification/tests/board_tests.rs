use sudoko::sudoku::box_size_for;
use sudoko::{Cell, Sudoku};

const CLASSIC: &str =
    "530070000600195000098000060800060003400803001700020006060000280000419005000080079";

#[test]
fn box_size_of_perfect_squares() {
    assert_eq!(box_size_for(0), Some(0));
    assert_eq!(box_size_for(1), Some(1));
    assert_eq!(box_size_for(4), Some(2));
    assert_eq!(box_size_for(9), Some(3));
    assert_eq!(box_size_for(16), Some(4));
    assert_eq!(box_size_for(25), Some(5));
}

#[test]
fn box_size_of_other_sizes_is_absent() {
    assert_eq!(box_size_for(10), None);
    assert_eq!(box_size_for(2), None);
    assert_eq!(box_size_for(8), None);
    assert_eq!(box_size_for(usize::MAX), None);
}

#[test]
fn cell_accessors() {
    assert_eq!(Cell::Empty.value(), None);
    assert_eq!(Cell::Given(3).value(), Some(3));
    assert_eq!(Cell::Filled(7).value(), Some(7));
    assert!(Cell::Empty.is_empty());
    assert!(!Cell::Given(1).is_empty());
    assert!(Cell::Given(1).is_given());
    assert!(!Cell::Filled(1).is_given());
    assert!(!Cell::Empty.is_given());
}

#[test]
fn parsing_maps_characters_to_cells() {
    let board = Sudoku::from_string("1.3 0402........", 4).unwrap();
    assert_eq!(board.get(0, 0), Some(Cell::Given(1)));
    assert_eq!(board.get(0, 1), Some(Cell::Empty));
    assert_eq!(board.get(0, 2), Some(Cell::Given(3)));
    assert_eq!(board.get(0, 3), Some(Cell::Empty));
    assert_eq!(board.get(1, 0), Some(Cell::Empty));
    assert_eq!(board.get(1, 1), Some(Cell::Given(4)));
    assert_eq!(board.get(1, 3), Some(Cell::Given(2)));
    assert_eq!(board.get(4, 0), None);
    assert_eq!(board.get(0, 4), None);
}

#[test]
fn parsing_reads_letters_as_values_from_ten() {
    let mut text = String::from("A0G9");
    while text.len() < 256 {
        text.push('.');
    }
    let board = Sudoku::from_string(&text, 16).unwrap();
    assert_eq!(board.get(0, 0), Some(Cell::Given(10)));
    assert_eq!(board.get(0, 2), Some(Cell::Given(16)));
    assert_eq!(board.get(0, 3), Some(Cell::Given(9)));
}

#[test]
fn parsing_rejects_wrong_length() {
    let err = Sudoku::from_string("123", 9).unwrap_err();
    assert_eq!(err, "Invalid input length: expected 81, got 3");
}

#[test]
fn parsing_rejects_digit_out_of_range() {
    let err = Sudoku::from_string("1234341221435321", 4).unwrap_err();
    assert_eq!(err, "Invalid digit 5 at position (3, 0)");
}

#[test]
fn parsing_rejects_letter_out_of_range() {
    let err = Sudoku::from_string("12343412214343A1", 4).unwrap_err();
    assert_eq!(err, "Invalid character A at position (3, 2)");
}

#[test]
fn parsing_rejects_unknown_character() {
    let text = "53007000060019500009800006080006000340080300170002000606000028000041900500008007X";
    let err = Sudoku::from_string(text, 9).unwrap_err();
    assert_eq!(err, "Invalid character X at position (8, 8)");
    let err = Sudoku::from_string("12a4341221434321", 4).unwrap_err();
    assert_eq!(err, "Invalid character a at position (0, 2)");
}

#[test]
fn parsing_reports_the_first_bad_character() {
    let err = Sudoku::from_string("1x34341221y34321", 4).unwrap_err();
    assert_eq!(err, "Invalid character x at position (0, 1)");
}

#[test]
fn set_fills_empties_and_overwrites() {
    let mut board = Sudoku::from_string("1234341221434321", 4).unwrap();
    assert_eq!(board.set(0, 0, 0), Ok(()));
    assert_eq!(board.get(0, 0), Some(Cell::Empty));
    assert_eq!(board.set(0, 0, 4), Ok(()));
    assert_eq!(board.get(0, 0), Some(Cell::Filled(4)));
    assert_eq!(board.set(1, 1, 2), Ok(()));
    assert_eq!(board.get(1, 1), Some(Cell::Filled(2)));
}

#[test]
fn set_rejects_bad_places_and_values() {
    let mut board = Sudoku::new(9);
    assert_eq!(board.set(9, 0, 1), Err(String::from("Invalid position")));
    assert_eq!(board.set(0, 9, 1), Err(String::from("Invalid position")));
    assert_eq!(board.set(0, 0, 10), Err(String::from("Value 10 is too large for 9x9 Sudoku")));
    assert_eq!(board.set(9, 9, 200), Err(String::from("Invalid position")));
    assert_eq!(board.get(0, 0), Some(Cell::Empty));
}

#[test]
fn duplicate_in_a_row_fails_the_row_check_only() {
    let text = "110000000000000000000000000000000000000000000000000000000000000000000000000000000";
    let board = Sudoku::from_string(text, 9).unwrap();
    assert!(!board.is_valid());
    assert!(!board.is_valid_rows());
    assert!(board.is_valid_cols());
    assert!(!board.is_valid_boxes());
    let text = "100010000000000000000000000000000000000000000000000000000000000000000000000000000";
    let board = Sudoku::from_string(text, 9).unwrap();
    assert!(!board.is_valid());
    assert!(!board.is_valid_rows());
    assert!(board.is_valid_cols());
    assert!(board.is_valid_boxes());
}

#[test]
fn duplicate_in_a_column_or_box() {
    let text = "100000000000000000000000000100000000000000000000000000000000000000000000000000000";
    let board = Sudoku::from_string(text, 9).unwrap();
    assert!(board.is_valid_rows());
    assert!(!board.is_valid_cols());
    assert!(board.is_valid_boxes());
    let text = "100000000010000000000000000000000000000000000000000000000000000000000000000000000";
    let board = Sudoku::from_string(text, 9).unwrap();
    assert!(board.is_valid_rows());
    assert!(board.is_valid_cols());
    assert!(!board.is_valid_boxes());
    assert!(!board.is_valid());
}

#[test]
fn candidates_of_the_classic_puzzle() {
    let board = Sudoku::from_string(CLASSIC, 9).unwrap();
    let mut found: Vec<u8> = board.get_candidates(0, 2).into_iter().collect();
    found.sort();
    assert_eq!(found, vec![1, 2, 4]);
    let mut found: Vec<u8> = board.get_candidates(4, 4).into_iter().collect();
    found.sort();
    assert_eq!(found, vec![5]);
    assert!(board.get_candidates(0, 0).is_empty());
}

#[test]
fn candidates_of_a_blank_board_are_all_values() {
    let board = Sudoku::new(4);
    let mut found: Vec<u8> = board.get_candidates(3, 3).into_iter().collect();
    found.sort();
    assert_eq!(found, vec![1, 2, 3, 4]);
}

#[test]
fn candidates_agree_with_placement_on_empty_cells() {
    let board = Sudoku::from_string(CLASSIC, 9).unwrap();
    for row in 0..9 {
        for col in 0..9 {
            let candidates = board.get_candidates(row, col);
            let empty = board.get(row, col) == Some(Cell::Empty);
            if !empty {
                assert!(candidates.is_empty());
            }
            for value in 0..=10u8 {
                if empty {
                    assert_eq!(
                        candidates.contains(&value),
                        board.is_valid_placement(row, col, value)
                    );
                }
            }
        }
    }
}

#[test]
fn placement_ignores_the_cell_itself() {
    let board = Sudoku::from_string(CLASSIC, 9).unwrap();
    assert!(board.is_valid_placement(0, 0, 5));
    assert!(board.get_candidates(0, 0).is_empty());
    assert!(!board.is_valid_placement(0, 0, 3));
    assert!(!board.is_valid_placement(0, 2, 0));
    assert!(!board.is_valid_placement(0, 2, 10));
    assert!(!board.is_valid_placement(9, 2, 1));
    assert!(!board.is_valid_placement(2, 9, 1));
    assert!(board.is_valid_placement(0, 2, 4));
    assert!(!board.is_valid_placement(0, 2, 8));
}

#[test]
fn correct_placement_follows_the_solution() {
    let board = Sudoku::from_string(CLASSIC, 9).unwrap();
    assert!(board.is_correct_placement(0, 2, 4));
    assert!(!board.is_correct_placement(0, 2, 1));
    assert!(board.is_correct_placement(0, 2, 0));
    assert!(!board.is_correct_placement(9, 0, 1));
    assert!(board.is_correct_placement(0, 0, 5));
    assert!(board.is_valid_and_correct_placement(0, 2, 4));
    assert!(!board.is_valid_and_correct_placement(0, 2, 1));
    assert!(!board.is_valid_and_correct_placement(0, 2, 8));
}

#[test]
fn first_empty_cell_in_reading_order() {
    let board = Sudoku::from_string(CLASSIC, 9).unwrap();
    assert_eq!(board.find_empty_cell(), Some((0, 2)));
    let board = Sudoku::from_string("1234341221434321", 4).unwrap();
    assert_eq!(board.find_empty_cell(), None);
    let board = Sudoku::from_string("1234341221434320", 4).unwrap();
    assert_eq!(board.find_empty_cell(), Some((3, 3)));
    assert!(!board.is_complete());
}

#[test]
fn puzzle_text_of_a_board() {
    let board = Sudoku::from_string("1.3 0402........", 4).unwrap();
    assert_eq!(board.to_puzzle_string(), "1030040200000000");
    let mut board = Sudoku::new(16);
    board.set(0, 0, 10).unwrap();
    board.set(0, 1, 16).unwrap();
    board.set(15, 15, 9).unwrap();
    let text = board.to_puzzle_string();
    assert_eq!(text.len(), 256);
    assert!(text.starts_with("AG0"));
    assert!(text.ends_with("09"));
}

#[test]
fn puzzle_text_round_trip() {
    let board = Sudoku::from_string(CLASSIC, 9).unwrap();
    let text = board.to_puzzle_string();
    assert_eq!(text, CLASSIC);
    let again = Sudoku::from_string(&text, 9).unwrap();
    assert_eq!(again.grid, board.grid);
    let board = Sudoku::from_string("1.3 0402........", 4).unwrap();
    let again = Sudoku::from_string(&board.to_puzzle_string(), 4).unwrap();
    assert_eq!(again.grid, board.grid);
}

#[test]
fn grid_layout_of_a_small_board() {
    let board = Sudoku::from_string("1.3404020000...1", 4).unwrap();
    let expected = "1 . |3 4 \n. 4 |. 2 \n---------\n. . |. . \n. . |. 1 \n";
    assert_eq!(board.to_string(), expected);
}

#[test]
fn grid_layout_uses_letters_from_ten() {
    let mut board = Sudoku::new(16);
    board.set(0, 0, 10).unwrap();
    board.set(0, 4, 16).unwrap();
    let text = board.to_string();
    let first_line = text.lines().next().unwrap();
    assert_eq!(first_line, "A . . . |G . . . |. . . . |. . . . ");
    let rule = text.lines().nth(4).unwrap();
    assert_eq!(rule, "-".repeat(16 * 2 + 4 - 1));
}

#[test]
fn clone_is_the_same_board() {
    let board = Sudoku::from_string(CLASSIC, 9).unwrap();
    let copy = board.clone();
    assert_eq!(copy.grid, board.grid);
    assert_eq!(copy.size, 9);
    assert_eq!(copy.box_size, 3);
}

#[test]
fn wide_grid_layout_of_a_small_board() {
    let board = Sudoku::from_string("1.3404020000...1", 4).unwrap();
    let expected =
        " 1  . | 3  4 \n .  4 | .  2 \n-------------\n .  . | .  . \n .  . | .  1 \n";
    assert_eq!(board.render_text(), expected);
}

#[test]
fn grid_layouts_read_back_value_for_value() {
    let mut board = Sudoku::from_string(CLASSIC, 9).unwrap();
    board.set(0, 2, 4).unwrap();
    for text in [board.to_string(), board.render_text()] {
        let cells: String =
            text.chars().filter(|ch| !matches!(ch, ' ' | '|' | '-' | '\n')).collect();
        assert_eq!(cells.len(), 81);
        let again = Sudoku::from_string(&cells, 9).unwrap();
        for row in 0..9 {
            for col in 0..9 {
                assert_eq!(again.grid[row][col].value(), board.grid[row][col].value());
            }
        }
    }
}
