use vstd::prelude::*;
use vstd::arithmetic::div_mod::{lemma_fundamental_div_mod, lemma_mod_bound};
use crate::arith::lemma_box_number;
use crate::grid::Board;
use crate::text::{
    bar_text, cell_char, cell_text, char_cell, dashes, grid_cells, grid_text, is_filler,
    is_puzzle_text, layout_cells, layout_char, legible, lemma_flat_index, puzzle_text, row_cells,
    row_text, rule_text,
};

verus! {

/// A board that was read from puzzle text and is written out as puzzle text
/// again is read back cell for cell as it was.
pub proof fn lemma_text_round_trip(s: Seq<char>, board: Board)
    requires
        is_puzzle_text(s, board.size),
        board.wf(),
        forall|r: int, c: int|
            board.has(r, c) ==> Some(#[trigger] board.at(r, c)) == char_cell(
                s[r * board.size + c],
                board.size,
            ),
    ensures
        is_puzzle_text(puzzle_text(board), board.size),
        forall|r: int, c: int|
            board.has(r, c) ==> char_cell(puzzle_text(board)[r * board.size + c], board.size)
                == Some(#[trigger] board.at(r, c)),
{
    let size = board.size as int;
    let text = puzzle_text(board);
    assert forall|r: int, c: int| board.has(r, c) implies char_cell(
        text[r * size + c],
        board.size,
    ) == Some(#[trigger] board.at(r, c)) by {
        lemma_flat_index(size, r, c);
        assert(text[r * size + c] == cell_char(board.at(r, c)));
        assert(board.at(r, c).fits(board.size));
        assert(Some(board.at(r, c)) == char_cell(s[r * size + c], board.size));
    }
    assert forall|i: int| 0 <= i < text.len() implies #[trigger] char_cell(
        text[i],
        board.size,
    ) is Some by {
        assert(size > 0) by (nonlinear_arith)
            requires
                0 <= size,
                0 <= i < size * size,
        ;
        let r = i / size;
        let c = i % size;
        lemma_fundamental_div_mod(i, size);
        lemma_mod_bound(i, size);
        lemma_box_number(size, i);
        assert(size * r == r * size) by (nonlinear_arith);
        assert(char_cell(text[r * size + c], board.size) == Some(board.at(r, c)));
    }
}

/// Whatever filled the cells of a board, its puzzle text is read back value
/// for value, as long as every value has a character.
pub proof fn lemma_puzzle_text_keeps_values(board: Board)
    requires
        board.wf(),
        legible(board),
    ensures
        is_puzzle_text(puzzle_text(board), board.size),
        forall|r: int, c: int|
            board.has(r, c) ==> char_cell(
                puzzle_text(board)[r * board.size + c],
                board.size,
            ).unwrap().spec_value() == (#[trigger] board.at(r, c)).spec_value(),
{
    let size = board.size as int;
    let text = puzzle_text(board);
    assert forall|r: int, c: int| board.has(r, c) implies char_cell(
        text[r * size + c],
        board.size,
    ) is Some && char_cell(text[r * size + c], board.size).unwrap().spec_value() == (
    #[trigger] board.at(r, c)).spec_value() by {
        lemma_flat_index(size, r, c);
        assert(text[r * size + c] == cell_char(board.at(r, c)));
        assert(board.at(r, c).fits(board.size));
    }
    assert forall|i: int| 0 <= i < text.len() implies #[trigger] char_cell(
        text[i],
        board.size,
    ) is Some by {
        assert(size > 0) by (nonlinear_arith)
            requires
                0 <= size,
                0 <= i < size * size,
        ;
        let r = i / size;
        let c = i % size;
        lemma_fundamental_div_mod(i, size);
        lemma_mod_bound(i, size);
        lemma_box_number(size, i);
        assert(size * r == r * size) by (nonlinear_arith);
        assert(board.has(r, c));
        assert(board.at(r, c).spec_value() == board.at(r, c).spec_value());
        assert(char_cell(text[r * size + c], board.size) is Some);
    }
}

/// A cell that is not empty has no candidates, and no candidate of an empty
/// cell stands in the cell's row, column or box.
pub proof fn lemma_candidates_avoid_units(board: Board, r: int, c: int)
    ensures
        !(board.at(r, c) is Empty) ==> board.candidates(r, c) == Set::<u8>::empty(),
        forall|v: u8| #[trigger]
            board.candidates(r, c).contains(v) ==> !board.row_has(r, v) && !board.col_has(c, v)
                && !board.box_has(r / (board.box_size as int), c / (board.box_size as int), v),
{
    if !(board.at(r, c) is Empty) {
        assert(board.candidates(r, c) =~= Set::<u8>::empty());
    }
}

/// For an empty cell, the candidates are the values that can be placed there
/// without repeating a value of its row, column or box.
pub proof fn lemma_candidates_are_placements(board: Board, r: int, c: int, v: u8)
    requires
        board.wf(),
        board.has(r, c),
        board.at(r, c) is Empty,
    ensures
        board.candidates(r, c).contains(v) <==> board.placement_ok(r, c, v),
{
    let bs = board.box_size as int;
    if board.placement_ok(r, c, v) {
        if board.row_has(r, v) {
            let c2 = choose|c2: int|
                0 <= c2 < board.size && (#[trigger] board.at(r, c2)).spec_value() == Some(v);
            assert(board.mates(r, c, r, c2));
        }
        if board.col_has(c, v) {
            let r2 = choose|r2: int|
                0 <= r2 < board.size && (#[trigger] board.at(r2, c)).spec_value() == Some(v);
            assert(board.mates(r, c, r2, c));
        }
        if board.box_has(r / bs, c / bs, v) {
            let (r2, c2) = choose|r2: int, c2: int|
                board.in_box(r / bs, c / bs, r2, c2) && (#[trigger] board.at(
                    r2,
                    c2,
                )).spec_value() == Some(v);
            assert(board.mates(r, c, r2, c2));
        }
    }
    if board.candidate(r, c, v) {
        assert forall|r2: int, c2: int|
            board.mates(r, c, r2, c2) && (r2 != r || c2 != c) implies (#[trigger] board.at(
            r2,
            c2,
        )).spec_value() != Some(v) by {
            if board.at(r2, c2).spec_value() == Some(v) {
                if r2 == r {
                    assert(board.row_has(r, v));
                } else if c2 == c {
                    assert(board.col_has(c, v));
                } else {
                    assert(board.in_box(r / bs, c / bs, r2, c2));
                    assert(board.box_has(r / bs, c / bs, v));
                }
            }
        }
    }
}

/// Leaving the fillers out of a text with one more character leaves that
/// character in, unless it is a filler.
pub proof fn lemma_layout_cells_push(text: Seq<char>, ch: char)
    ensures
        layout_cells(text.push(ch)) == if is_filler(ch) {
            layout_cells(text)
        } else {
            layout_cells(text).push(ch)
        },
{
    reveal(Seq::filter);
    assert(text.push(ch).drop_last() =~= text);
}

/// Leaving the fillers out of two texts in a row is leaving them out of
/// each.
pub proof fn lemma_layout_cells_add(a: Seq<char>, b: Seq<char>)
    ensures
        layout_cells(a + b) == layout_cells(a) + layout_cells(b),
{
    Seq::filter_distributes_over_add(a, b, |ch: char| !is_filler(ch));
}

/// Nothing is left of a line of dashes.
pub proof fn lemma_layout_cells_dashes(n: nat)
    ensures
        layout_cells(dashes(n)) == Seq::<char>::empty(),
    decreases n,
{
    reveal(Seq::filter);
    if n > 0 {
        lemma_layout_cells_dashes((n - 1) as nat);
        assert(dashes(n) =~= dashes((n - 1) as nat).push('-'));
        lemma_layout_cells_push(dashes((n - 1) as nat), '-');
    } else {
        assert(dashes(0) =~= Seq::<char>::empty());
    }
}

/// Of the first cells of a row in a grid layout, the characters of the
/// cells are left.
pub proof fn lemma_layout_cells_row(b: Board, r: int, n: nat, wide: bool)
    requires
        b.wf(),
        legible(b),
        0 <= r < b.size,
        n <= b.size,
    ensures
        layout_cells(row_text(b, r, n, wide)) == row_cells(b, r, n),
    decreases n,
{
    reveal(Seq::filter);
    if n == 0 {
        assert(row_text(b, r, 0, wide) =~= Seq::<char>::empty());
        assert(row_cells(b, r, 0) =~= Seq::<char>::empty());
    } else {
        lemma_layout_cells_row(b, r, (n - 1) as nat, wide);
        let left = row_text(b, r, (n - 1) as nat, wide);
        let bar = bar_text(b, n - 1);
        let cell = b.at(r, n - 1);
        let ch = layout_char(cell);
        assert(b.has(r, n - 1));
        assert(cell.fits(b.size));
        assert(!is_filler(ch));
        let none = Seq::<char>::empty();
        lemma_layout_cells_push(none, '|');
        assert(none.push('|') =~= seq!['|']);
        assert(layout_cells(bar) == none);
        lemma_layout_cells_push(none, ' ');
        lemma_layout_cells_push(none, ch);
        lemma_layout_cells_push(none.push(' '), ch);
        lemma_layout_cells_push(none.push(ch), ' ');
        lemma_layout_cells_push(none.push(' ').push(ch), ' ');
        assert(none.push(ch).push(' ') =~= seq![ch, ' ']);
        assert(none.push(' ').push(ch).push(' ') =~= seq![' ', ch, ' ']);
        assert(layout_cells(cell_text(cell, wide)) == none.push(ch));
        lemma_layout_cells_add(left, bar);
        lemma_layout_cells_add(left + bar, cell_text(cell, wide));
        assert(layout_cells(row_text(b, r, n, wide)) =~= row_cells(b, r, (n - 1) as nat).push(ch));
        assert(row_cells(b, r, (n - 1) as nat).push(ch) =~= row_cells(b, r, n));
    }
}

/// Of the first rows of a grid layout, the characters of the cells are
/// left, row after row.
pub proof fn lemma_layout_cells_grid(b: Board, n: nat, wide: bool)
    requires
        b.wf(),
        legible(b),
        n <= b.size,
    ensures
        layout_cells(grid_text(b, n, wide)) == grid_cells(b, n),
    decreases n,
{
    reveal(Seq::filter);
    if n == 0 {
        assert(grid_text(b, 0, wide) =~= Seq::<char>::empty());
    } else {
        lemma_layout_cells_grid(b, (n - 1) as nat, wide);
        lemma_layout_cells_row(b, n - 1, b.size, wide);
        let above = grid_text(b, (n - 1) as nat, wide);
        let rule = rule_text(b, n - 1, wide);
        let row = row_text(b, n - 1, b.size, wide);
        let none = Seq::<char>::empty();
        if rule.len() > 0 {
            let width = crate::text::cell_width(wide) * b.size + b.box_size - 1;
            lemma_layout_cells_dashes(width as nat);
            lemma_layout_cells_push(dashes(width as nat), '\n');
        } else {
            assert(rule =~= none);
        }
        assert(layout_cells(rule) == none);
        lemma_layout_cells_push(row, '\n');
        lemma_layout_cells_add(above, rule);
        lemma_layout_cells_add(above + rule, row.push('\n'));
        assert(layout_cells(grid_text(b, n, wide)) =~= grid_cells(b, n));
    }
}

/// The characters of the cells of the first rows are as many as the cells,
/// and each stands where its cell stands.
pub proof fn lemma_grid_cells_index(b: Board, n: nat, r: int, c: int)
    requires
        n <= b.size,
        0 <= r < n,
        0 <= c < b.size,
    ensures
        grid_cells(b, n).len() == n * b.size,
        0 <= r * b.size + c < n * b.size,
        grid_cells(b, n)[r * b.size + c] == layout_char(b.at(r, c)),
    decreases n,
{
    let size = b.size as int;
    lemma_grid_cells_len(b, n);
    lemma_grid_cells_len(b, (n - 1) as nat);
    assert((n - 1) * size + size == n * size) by (nonlinear_arith);
    assert(0 <= r * size && r * size + c < (r + 1) * size && (r + 1) * size <= n * size)
        by (nonlinear_arith)
        requires
            0 <= r < n,
            0 <= c < size,
    ;
    if r == n - 1 {
        assert(grid_cells(b, n)[r * size + c] == row_cells(b, n - 1, b.size)[c]);
    } else {
        lemma_grid_cells_index(b, (n - 1) as nat, r, c);
        assert((r + 1) * size <= (n - 1) * size) by (nonlinear_arith)
            requires
                r + 1 <= n - 1,
                size >= 0,
        ;
    }
}

/// The characters of the cells of the first `n` rows are `n * size` many.
pub proof fn lemma_grid_cells_len(b: Board, n: nat)
    ensures
        grid_cells(b, n).len() == n * b.size,
    decreases n,
{
    if n > 0 {
        lemma_grid_cells_len(b, (n - 1) as nat);
        assert((n - 1) * b.size + b.size == n * b.size) by (nonlinear_arith);
    } else {
        assert(0 * b.size == 0) by (nonlinear_arith);
    }
}

/// A board shown in a grid layout is read back value for value from the
/// characters of its cells, as long as every value has a character.
pub proof fn lemma_grid_layout_keeps_values(board: Board, wide: bool)
    requires
        board.wf(),
        legible(board),
    ensures
        layout_cells(grid_text(board, board.size, wide)) == grid_cells(board, board.size),
        is_puzzle_text(grid_cells(board, board.size), board.size),
        forall|r: int, c: int|
            board.has(r, c) ==> char_cell(
                grid_cells(board, board.size)[r * board.size + c],
                board.size,
            ).unwrap().spec_value() == (#[trigger] board.at(r, c)).spec_value(),
{
    let size = board.size as int;
    let cells = grid_cells(board, board.size);
    lemma_layout_cells_grid(board, board.size, wide);
    lemma_grid_cells_len(board, board.size);
    assert forall|r: int, c: int| board.has(r, c) implies char_cell(
        cells[r * size + c],
        board.size,
    ) is Some && char_cell(cells[r * size + c], board.size).unwrap().spec_value() == (
    #[trigger] board.at(r, c)).spec_value() by {
        lemma_grid_cells_index(board, board.size, r, c);
        assert(board.at(r, c).fits(board.size));
    }
    assert forall|i: int| 0 <= i < cells.len() implies #[trigger] char_cell(
        cells[i],
        board.size,
    ) is Some by {
        assert(size > 0) by (nonlinear_arith)
            requires
                0 <= size,
                0 <= i < size * size,
        ;
        let r = i / size;
        let c = i % size;
        lemma_fundamental_div_mod(i, size);
        lemma_mod_bound(i, size);
        lemma_box_number(size, i);
        assert(size * r == r * size) by (nonlinear_arith);
        assert(board.has(r, c));
        assert(board.at(r, c).spec_value() == board.at(r, c).spec_value());
        assert(char_cell(cells[r * size + c], board.size) is Some);
    }
}

} // verus!
