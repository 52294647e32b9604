use vstd::prelude::*;
use vstd::arithmetic::div_mod::lemma_fundamental_div_mod_converse;
use crate::cell::Cell;
use crate::grid::Board;

verus! {

/// `String::push` appends one character and leaves the rest of the string as
/// it was.
pub assume_specification[ String::push ](s: &mut String, ch: char)
    ensures
        final(s)@ == old(s)@.push(ch),
;

/// The character of the decimal digit `d`.
pub open spec fn digit_char(d: int) -> char {
    ('0' as int + d) as char
}

/// `n` written in base ten, without sign or padding.
pub open spec fn decimal(n: nat) -> Seq<char>
    decreases n,
{
    if n < 10 {
        seq![digit_char(n as int)]
    } else {
        decimal(n / 10).push(digit_char((n % 10) as int))
    }
}

/// The character that stands for a cell value in puzzle text: a digit up to
/// nine, then capital letters from `A` for ten.
pub open spec fn value_char(v: u8) -> char {
    if v <= 9 {
        digit_char(v as int)
    } else {
        ('A' as int + v - 10) as char
    }
}

/// The character of a blank cell in puzzle text.
pub open spec fn is_blank(ch: char) -> bool {
    ch == '0' || ch == '.' || ch == ' '
}

/// The value that a character of puzzle text names: `1` to `9` name
/// themselves, `A` to `Z` name ten to thirty-five.
pub open spec fn char_value(ch: char) -> Option<u8> {
    if '1' <= ch <= '9' {
        Some((ch as int - '0' as int) as u8)
    } else if 'A' <= ch <= 'Z' {
        Some((ch as int - 'A' as int + 10) as u8)
    } else {
        None
    }
}

/// The cell that a character of puzzle text stands for on a board of side
/// `size`, where it stands for one.
pub open spec fn char_cell(ch: char, size: nat) -> Option<Cell> {
    if is_blank(ch) {
        Some(Cell::Empty)
    } else {
        match char_value(ch) {
            Some(v) => if v <= size {
                Some(Cell::Given(v))
            } else {
                None
            },
            None => None,
        }
    }
}

/// The character that a cell is written as in puzzle text.
pub open spec fn cell_char(cell: Cell) -> char {
    match cell {
        Cell::Empty => '0',
        Cell::Given(v) => value_char(v),
        Cell::Filled(v) => value_char(v),
    }
}

/// Puzzle text of the right length for side `size`, every character of which
/// stands for a cell.
pub open spec fn is_puzzle_text(s: Seq<char>, size: nat) -> bool {
    &&& s.len() == size * size
    &&& forall|i: int| 0 <= i < s.len() ==> #[trigger] char_cell(s[i], size) is Some
}

/// A board as one line of puzzle text, row after row.
pub open spec fn puzzle_text(b: Board) -> Seq<char> {
    Seq::new(b.size * b.size, |i: int| cell_char(b.at(i / (b.size as int), i % (b.size as int))))
}

/// A place as error messages name it.
pub open spec fn position_text(row: nat, col: nat) -> Seq<char> {
    " at position ("@ + decimal(row) + ", "@ + decimal(col) + ")"@
}

/// The message for a text of the wrong length.
pub open spec fn length_error_text(expected: nat, got: nat) -> Seq<char> {
    "Invalid input length: expected "@ + decimal(expected) + ", got "@ + decimal(got)
}

/// What is reported of a character that stands for no cell: a digit by its
/// value, anything else as it is.
pub open spec fn cell_error_text(ch: char, row: nat, col: nat) -> Seq<char> {
    if '1' <= ch <= '9' {
        "Invalid digit "@ + decimal((ch as int - '0' as int) as nat) + position_text(row, col)
    } else {
        "Invalid character "@.push(ch) + position_text(row, col)
    }
}

/// The message for a value that a board of side `size` cannot hold.
pub open spec fn value_error_text(value: nat, size: nat) -> Seq<char> {
    "Value "@ + decimal(value) + " is too large for "@ + decimal(size) + "x"@ + decimal(size)
        + " Sudoku"@
}

/// The character of a cell in a grid layout: a dot where it is empty.
pub open spec fn layout_char(cell: Cell) -> char {
    match cell {
        Cell::Empty => '.',
        Cell::Given(v) => value_char(v),
        Cell::Filled(v) => value_char(v),
    }
}

/// A cell as a grid layout shows it: its character and a space, and in the
/// wide layout a space before it too.
pub open spec fn cell_text(cell: Cell, wide: bool) -> Seq<char> {
    if wide {
        seq![' ', layout_char(cell), ' ']
    } else {
        seq![layout_char(cell), ' ']
    }
}

/// The bar that stands before column `c` where a new box begins.
pub open spec fn bar_text(b: Board, c: int) -> Seq<char> {
    if c > 0 && c % (b.box_size as int) == 0 {
        seq!['|']
    } else {
        Seq::empty()
    }
}

/// The first `n` cells of row `r` in a grid layout.
pub open spec fn row_text(b: Board, r: int, n: nat, wide: bool) -> Seq<char>
    decreases n,
{
    if n == 0 {
        Seq::empty()
    } else {
        row_text(b, r, (n - 1) as nat, wide) + bar_text(b, n - 1) + cell_text(
            b.at(r, n - 1),
            wide,
        )
    }
}

/// A line of `n` dashes.
pub open spec fn dashes(n: nat) -> Seq<char> {
    Seq::new(n, |i: int| '-')
}

/// The number of characters that a cell takes in a grid layout.
pub open spec fn cell_width(wide: bool) -> nat {
    if wide {
        3
    } else {
        2
    }
}

/// The rule that stands before row `r` where a new band of boxes begins.
pub open spec fn rule_text(b: Board, r: int, wide: bool) -> Seq<char> {
    if r > 0 && r % (b.box_size as int) == 0 {
        dashes((cell_width(wide) * b.size + b.box_size - 1) as nat).push('\n')
    } else {
        Seq::empty()
    }
}

/// The first `n` rows in a grid layout: cell after cell, bars and rules
/// between boxes, each row on a line of its own.
pub open spec fn grid_text(b: Board, n: nat, wide: bool) -> Seq<char>
    decreases n,
{
    if n == 0 {
        Seq::empty()
    } else {
        grid_text(b, (n - 1) as nat, wide) + rule_text(b, n - 1, wide) + row_text(
            b,
            n - 1,
            b.size,
            wide,
        ).push('\n')
    }
}

/// A character that a grid layout puts between the characters of cells.
pub open spec fn is_filler(ch: char) -> bool {
    ch == ' ' || ch == '|' || ch == '-' || ch == '\n'
}

/// The characters of a grid layout that stand for cells.
pub open spec fn layout_cells(text: Seq<char>) -> Seq<char> {
    text.filter(|ch: char| !is_filler(ch))
}

/// The characters of the first `n` cells of row `r` in a grid layout.
pub open spec fn row_cells(b: Board, r: int, n: nat) -> Seq<char> {
    Seq::new(n, |c: int| layout_char(b.at(r, c)))
}

/// The characters of the cells of the first `n` rows in a grid layout.
pub open spec fn grid_cells(b: Board, n: nat) -> Seq<char>
    decreases n,
{
    if n == 0 {
        Seq::empty()
    } else {
        grid_cells(b, (n - 1) as nat) + row_cells(b, n - 1, b.size)
    }
}

/// Every value on the board has a character in puzzle text.
pub open spec fn legible(b: Board) -> bool {
    forall|r: int, c: int|
        b.has(r, c) ==> match (#[trigger] b.at(r, c)).spec_value() {
            Some(v) => v <= 35,
            None => true,
        }
}

/// Every value on the board is small enough for its character to be
/// computed in a byte.
pub open spec fn printable(b: Board) -> bool {
    forall|r: int, c: int|
        b.has(r, c) ==> match (#[trigger] b.at(r, c)).spec_value() {
            Some(v) => v <= 200,
            None => true,
        }
}

/// The character of the decimal digit `d`.
pub(crate) fn digit(d: u8) -> (ch: char)
    requires
        d < 10,
    ensures
        ch == digit_char(d as int),
{
    (48u8 + d) as char
}

/// The character of the value `v`.
pub(crate) fn value_glyph(v: u8) -> (ch: char)
    requires
        v <= 200,
    ensures
        ch == value_char(v),
{
    if v <= 9 {
        digit(v)
    } else {
        (55u8 + v) as char
    }
}

/// Appends `n` in base ten to `out`.
pub(crate) fn push_decimal(out: &mut String, n: u128)
    ensures
        final(out)@ == old(out)@ + decimal(n as nat),
    decreases n,
{
    if n >= 10 {
        push_decimal(out, n / 10);
    }
    out.push(digit((n % 10) as u8));
}

/// Appends the place `(row, col)` as error messages name it.
pub(crate) fn push_position(out: &mut String, row: usize, col: usize)
    ensures
        final(out)@ == old(out)@ + position_text(row as nat, col as nat),
{
    out.append(" at position (");
    push_decimal(out, row as u128);
    out.append(", ");
    push_decimal(out, col as u128);
    out.append(")");
}

/// The cell that `ch` stands for on a board of side `size`.
pub(crate) fn parse_char(ch: char, size: usize) -> (res: Option<Cell>)
    ensures
        res == char_cell(ch, size as nat),
{
    if ch == '0' || ch == '.' || ch == ' ' {
        Some(Cell::Empty)
    } else if ch >= '1' && ch <= '9' {
        let value = (ch as u32 - 48) as u8;
        if value as usize <= size {
            Some(Cell::Given(value))
        } else {
            None
        }
    } else if ch >= 'A' && ch <= 'Z' {
        let value = (ch as u32 - 65 + 10) as u8;
        if value as usize <= size {
            Some(Cell::Given(value))
        } else {
            None
        }
    } else {
        None
    }
}

/// The message for a character that stands for no cell.
pub(crate) fn cell_error(ch: char, row: usize, col: usize) -> (msg: String)
    ensures
        msg@ == cell_error_text(ch, row as nat, col as nat),
{
    if ch >= '1' && ch <= '9' {
        let mut msg = String::from_str("Invalid digit ");
        push_decimal(&mut msg, (ch as u32 - 48) as u128);
        push_position(&mut msg, row, col);
        msg
    } else {
        let mut msg = String::from_str("Invalid character ");
        msg.push(ch);
        push_position(&mut msg, row, col);
        msg
    }
}

/// The message for a text of the wrong length.
pub(crate) fn length_error(size: usize, got: usize) -> (msg: String)
    ensures
        msg@ == length_error_text(size as nat * size as nat, got as nat),
{
    assert(size * size <= u128::MAX) by (nonlinear_arith)
        requires
            size <= 0xffff_ffff_ffff_ffff,
    ;
    let expected: u128 = (size as u128) * (size as u128);
    let mut msg = String::from_str("Invalid input length: expected ");
    push_decimal(&mut msg, expected);
    msg.append(", got ");
    push_decimal(&mut msg, got as u128);
    msg
}

/// The message for a value that a board of side `size` cannot hold.
pub(crate) fn value_error(value: u8, size: usize) -> (msg: String)
    ensures
        msg@ == value_error_text(value as nat, size as nat),
{
    let mut msg = String::from_str("Value ");
    push_decimal(&mut msg, value as u128);
    msg.append(" is too large for ");
    push_decimal(&mut msg, size as u128);
    msg.append("x");
    push_decimal(&mut msg, size as u128);
    msg.append(" Sudoku");
    msg
}

/// The cell at `(r, c)` stands at place `r * size + c` of the puzzle text.
pub proof fn lemma_flat_index(size: int, r: int, c: int)
    requires
        0 <= r < size,
        0 <= c < size,
    ensures
        0 <= r * size,
        0 <= r * size + c < size * size,
        (r * size + c) / size == r,
        (r * size + c) % size == c,
{
    lemma_fundamental_div_mod_converse(r * size + c, size, r, c);
    assert(0 <= r * size && r * size + c < size * size) by (nonlinear_arith)
        requires
            0 <= r < size,
            0 <= c < size,
    ;
}

} // verus!
