use vstd::prelude::*;
use std::collections::HashSet;
use crate::arith::{lemma_box_index, lemma_box_number, lemma_box_span};
use crate::cell::Cell;
use crate::grid::Board;
use crate::solver::{deduce, lemma_deduce_alike, lemma_standard_alike, SudokuSolver};
use crate::strategies::{standard_strategies, SolvingStrategy};
use crate::text::{
    bar_text, cell_char, cell_error, cell_error_text, cell_text, cell_width, char_cell, dashes,
    grid_text, is_puzzle_text, legible, lemma_flat_index, length_error, length_error_text,
    parse_char, printable, puzzle_text, row_text, rule_text, value_error, value_error_text,
    value_glyph,
};

verus! {

broadcast use vstd::std_specs::hash::group_hash_axioms;

/// A Sudoku board of side `size`, made of `box_size` by `box_size` boxes.
#[derive(Debug)]
pub struct Sudoku {
    pub grid: Vec<Vec<Cell>>,
    pub size: usize,
    pub box_size: usize,
}

impl View for Sudoku {
    type V = Board;

    open spec fn view(&self) -> Board {
        Board {
            size: self.size as nat,
            box_size: self.box_size as nat,
            cells: Seq::new(self.grid@.len(), |r: int| self.grid@[r]@),
        }
    }
}

/// `size` is the square of a whole number.
pub open spec fn is_square(size: nat) -> bool {
    exists|b: nat| #[trigger] (b * b) == size
}

/// The side of the boxes of a board of side `size`: its square root, where
/// that is a whole number.
pub fn box_size_for(size: usize) -> (res: Option<usize>)
    ensures
        match res {
            Some(b) => b * b == size,
            None => !is_square(size as nat),
        },
{
    let mut b: usize = 0;
    loop
        invariant
            b <= size,
            forall|k: nat| k < b ==> #[trigger] (k * k) < size,
        decreases size - b,
    {
        let square = b.checked_mul(b);
        if square == Some(size) {
            return Some(b);
        }
        let below = match square {
            Some(sq) => sq < size,
            None => false,
        };
        if !below {
            assert forall|k: nat| #[trigger] (k * k) != size as nat by {
                if k >= b {
                    assert(k * k >= b * b) by (nonlinear_arith)
                        requires
                            k >= b,
                    ;
                }
            }
            return None;
        }
        assert(b < size) by (nonlinear_arith)
            requires
                (b as int) * (b as int) < size as int,
        ;
        b = b + 1;
    }
}

impl Clone for Sudoku {
    fn clone(&self) -> (res: Self)
        ensures
            res@ == self@,
            res.size == self.size,
            res.box_size == self.box_size,
    {
        let mut grid: Vec<Vec<Cell>> = Vec::new();
        let mut r: usize = 0;
        while r < self.grid.len()
            invariant
                r <= self.grid.len(),
                grid@.len() == r,
                forall|i: int| 0 <= i < r ==> (#[trigger] grid@[i])@ == self.grid@[i]@,
            decreases self.grid.len() - r,
        {
            let mut row: Vec<Cell> = Vec::new();
            let mut c: usize = 0;
            while c < self.grid[r].len()
                invariant
                    r < self.grid.len(),
                    c <= self.grid@[r as int].len(),
                    row@ == self.grid@[r as int]@.take(c as int),
                decreases self.grid@[r as int].len() - c,
            {
                row.push(self.grid[r][c]);
                c = c + 1;
            }
            assert(row@ == self.grid@[r as int]@);
            grid.push(row);
            r = r + 1;
        }
        let res = Sudoku { grid, size: self.size, box_size: self.box_size };
        assert(res@.cells =~= self@.cells);
        res
    }
}

impl Sudoku {
    /// The board is well formed, and the number of its cells fits the
    /// machine's word.
    pub open spec fn wf(&self) -> bool {
        self@.wf() && self.size * self.size <= usize::MAX
    }

    /// An empty board of side `size`.
    pub fn new(size: usize) -> (res: Self)
        requires
            is_square(size as nat),
            size * size <= usize::MAX,
        ensures
            res.wf(),
            res.size == size,
            res@ == Board::blank(size as nat, res.box_size as nat),
    {
        let box_size = match box_size_for(size) {
            Some(b) => b,
            None => 0,
        };
        let mut grid: Vec<Vec<Cell>> = Vec::new();
        let mut r: usize = 0;
        while r < size
            invariant
                r <= size,
                grid@.len() == r,
                forall|i: int|
                    0 <= i < r ==> (#[trigger] grid@[i])@ == Seq::new(
                        size as nat,
                        |c: int| Cell::Empty,
                    ),
            decreases size - r,
        {
            let mut row: Vec<Cell> = Vec::new();
            let mut c: usize = 0;
            while c < size
                invariant
                    c <= size,
                    row@ == Seq::new(c as nat, |c: int| Cell::Empty),
                decreases size - c,
            {
                row.push(Cell::Empty);
                c = c + 1;
                assert(row@ =~= Seq::new(c as nat, |c: int| Cell::Empty));
            }
            grid.push(row);
            r = r + 1;
        }
        let res = Sudoku { grid, size, box_size };
        assert(res@.cells =~= Board::blank(size as nat, box_size as nat).cells);
        res
    }

    /// The cell at `(row, col)`, or nothing where that is off the board.
    pub fn get(&self, row: usize, col: usize) -> (res: Option<Cell>)
        requires
            self.wf(),
        ensures
            res == if self@.has(row as int, col as int) {
                Some(self@.at(row as int, col as int))
            } else {
                None
            },
    {
        if row < self.size && col < self.size {
            assert(self@.cells[row as int] == self.grid@[row as int]@);
            Some(self.grid[row][col])
        } else {
            None
        }
    }

    /// Writes `cell` at `(row, col)`.
    pub fn put(&mut self, row: usize, col: usize, cell: Cell)
        requires
            old(self).wf(),
            old(self)@.has(row as int, col as int),
            cell.fits(old(self).size as nat),
        ensures
            final(self).wf(),
            final(self)@ == old(self)@.with_cell(row as int, col as int, cell),
    {
        assert(self@.cells[row as int] == self.grid@[row as int]@);
        self.grid[row][col] = cell;
        assert(self@.cells =~~= old(self)@.with_cell(row as int, col as int, cell).cells);
        assert forall|r: int, c: int| self@.has(r, c) implies (#[trigger] self@.at(r, c)).fits(
            self@.size,
        ) by {
            assert(old(self)@.at(r, c).fits(self@.size));
        }
    }

    /// No value occurs twice in row `row`.
    fn row_is_valid(&self, row: usize) -> (res: bool)
        requires
            self.wf(),
            row < self.size,
        ensures
            res == self@.row_ok(row as int),
    {
        let mut seen: HashSet<u8> = HashSet::new();
        let mut col: usize = 0;
        while col < self.size
            invariant
                self.wf(),
                row < self.size,
                col <= self.size,
                forall|v: u8|
                    seen@.contains(v) <==> exists|c: int|
                        0 <= c < col && (#[trigger] self@.at(row as int, c)).spec_value() == Some(v),
                forall|c1: int, c2: int|
                    #![trigger self@.at(row as int, c1), self@.at(row as int, c2)]
                    0 <= c1 < c2 < col ==> !self@.at(row as int, c1).clashes(
                        self@.at(row as int, c2),
                    ),
            decreases self.size - col,
        {
            assert(self@.cells[row as int] == self.grid@[row as int]@);
            assert(self@.at(row as int, col as int) == self.grid@[row as int]@[col as int]);
            if let Some(value) = self.grid[row][col].value() {
                if !seen.insert(value) {
                    let ghost c = choose|c: int|
                        0 <= c < col && (#[trigger] self@.at(row as int, c)).spec_value() == Some(
                            value,
                        );
                    assert(self@.at(row as int, c).clashes(self@.at(row as int, col as int)));
                    return false;
                }
            }
            col = col + 1;
        }
        true
    }

    /// No value occurs twice in column `col`.
    fn col_is_valid(&self, col: usize) -> (res: bool)
        requires
            self.wf(),
            col < self.size,
        ensures
            res == self@.col_ok(col as int),
    {
        let mut seen: HashSet<u8> = HashSet::new();
        let mut row: usize = 0;
        while row < self.size
            invariant
                self.wf(),
                col < self.size,
                row <= self.size,
                forall|v: u8|
                    seen@.contains(v) <==> exists|r: int|
                        0 <= r < row && (#[trigger] self@.at(r, col as int)).spec_value() == Some(v),
                forall|r1: int, r2: int|
                    #![trigger self@.at(r1, col as int), self@.at(r2, col as int)]
                    0 <= r1 < r2 < row ==> !self@.at(r1, col as int).clashes(
                        self@.at(r2, col as int),
                    ),
            decreases self.size - row,
        {
            assert(self@.cells[row as int] == self.grid@[row as int]@);
            assert(self@.at(row as int, col as int) == self.grid@[row as int]@[col as int]);
            if let Some(value) = self.grid[row][col].value() {
                if !seen.insert(value) {
                    let ghost r = choose|r: int|
                        0 <= r < row && (#[trigger] self@.at(r, col as int)).spec_value() == Some(
                            value,
                        );
                    assert(self@.at(r, col as int).clashes(self@.at(row as int, col as int)));
                    return false;
                }
            }
            row = row + 1;
        }
        true
    }

    /// No value occurs twice in the box `(box_row, box_col)`.
    fn box_is_valid(&self, box_row: usize, box_col: usize) -> (res: bool)
        requires
            self.wf(),
            box_row < self.box_size,
            box_col < self.box_size,
        ensures
            res == self@.box_ok(box_row as int, box_col as int),
    {
        let bs = self.box_size;
        proof {
            lemma_box_span(bs as int, box_row as int);
            lemma_box_span(bs as int, box_col as int);
            self@.lemma_box_cells(box_row as int, box_col as int);
        }
        let row_start = box_row * bs;
        let col_start = box_col * bs;
        let mut seen: HashSet<u8> = HashSet::new();
        let mut row: usize = row_start;
        while row < row_start + bs
            invariant
                self.wf(),
                bs == self.box_size,
                box_row < bs,
                box_col < bs,
                row_start == box_row * bs,
                col_start == box_col * bs,
                row_start + bs <= self.size,
                col_start + bs <= self.size,
                row_start <= row <= row_start + bs,
                forall|r: int, c: int|
                    #[trigger] self@.in_box(box_row as int, box_col as int, r, c) <==> self@.spans(
                        box_row as int,
                        box_col as int,
                        r,
                        c,
                    ),
                forall|v: u8|
                    seen@.contains(v) <==> exists|r: int, c: int|
                        self@.in_box(box_row as int, box_col as int, r, c) && r < row && (
                        #[trigger] self@.at(r, c)).spec_value() == Some(v),
                forall|r1: int, c1: int, r2: int, c2: int|
                    #![trigger self@.at(r1, c1), self@.at(r2, c2)]
                    self@.in_box(box_row as int, box_col as int, r1, c1) && self@.in_box(
                        box_row as int,
                        box_col as int,
                        r2,
                        c2,
                    ) && (r1 != r2 || c1 != c2) && r1 < row && r2 < row ==> !self@.at(
                        r1,
                        c1,
                    ).clashes(self@.at(r2, c2)),
            decreases row_start + bs - row,
        {
            let mut col: usize = col_start;
            while col < col_start + bs
                invariant
                    self.wf(),
                    bs == self.box_size,
                    box_row < bs,
                    box_col < bs,
                    row_start == box_row * bs,
                    col_start == box_col * bs,
                    row_start + bs <= self.size,
                    col_start + bs <= self.size,
                    row_start <= row < row_start + bs,
                    col_start <= col <= col_start + bs,
                    forall|r: int, c: int|
                        #[trigger] self@.in_box(box_row as int, box_col as int, r, c) <==> self@.spans(
                            box_row as int,
                            box_col as int,
                            r,
                            c,
                        ),
                    forall|v: u8|
                        seen@.contains(v) <==> exists|r: int, c: int|
                            self@.in_box(box_row as int, box_col as int, r, c) && Board::before(
                                r,
                                c,
                                row as int,
                                col as int,
                            ) && (#[trigger] self@.at(r, c)).spec_value() == Some(v),
                    forall|r1: int, c1: int, r2: int, c2: int|
                        #![trigger self@.at(r1, c1), self@.at(r2, c2)]
                        self@.in_box(box_row as int, box_col as int, r1, c1) && self@.in_box(
                            box_row as int,
                            box_col as int,
                            r2,
                            c2,
                        ) && (r1 != r2 || c1 != c2) && Board::before(r1, c1, row as int, col as int)
                            && Board::before(r2, c2, row as int, col as int) ==> !self@.at(
                            r1,
                            c1,
                        ).clashes(self@.at(r2, c2)),
                decreases col_start + bs - col,
            {
                assert(self@.cells[row as int] == self.grid@[row as int]@);
                assert(self@.at(row as int, col as int) == self.grid@[row as int]@[col as int]);
                assert(self@.spans(box_row as int, box_col as int, row as int, col as int));
                assert(self@.in_box(box_row as int, box_col as int, row as int, col as int));
                if let Some(value) = self.grid[row][col].value() {
                    if !seen.insert(value) {
                        let ghost (r, c) = choose|r: int, c: int|
                            self@.in_box(box_row as int, box_col as int, r, c) && Board::before(
                                r,
                                c,
                                row as int,
                                col as int,
                            ) && (#[trigger] self@.at(r, c)).spec_value() == Some(value);
                        assert(self@.at(r, c).clashes(self@.at(row as int, col as int)));
                        return false;
                    }
                }
                col = col + 1;
            }
            row = row + 1;
        }
        true
    }

    /// Every row is free of repeated values.
    pub fn is_valid_rows(&self) -> (res: bool)
        requires
            self.wf(),
        ensures
            res == self@.rows_valid(),
    {
        let mut row: usize = 0;
        while row < self.size
            invariant
                self.wf(),
                row <= self.size,
                forall|r: int| 0 <= r < row ==> #[trigger] self@.row_ok(r),
            decreases self.size - row,
        {
            if !self.row_is_valid(row) {
                return false;
            }
            row = row + 1;
        }
        true
    }

    /// Every column is free of repeated values.
    pub fn is_valid_cols(&self) -> (res: bool)
        requires
            self.wf(),
        ensures
            res == self@.cols_valid(),
    {
        let mut col: usize = 0;
        while col < self.size
            invariant
                self.wf(),
                col <= self.size,
                forall|c: int| 0 <= c < col ==> #[trigger] self@.col_ok(c),
            decreases self.size - col,
        {
            if !self.col_is_valid(col) {
                return false;
            }
            col = col + 1;
        }
        true
    }

    /// Every box is free of repeated values.
    pub fn is_valid_boxes(&self) -> (res: bool)
        requires
            self.wf(),
        ensures
            res == self@.boxes_valid(),
    {
        let mut box_row: usize = 0;
        while box_row < self.box_size
            invariant
                self.wf(),
                box_row <= self.box_size,
                forall|br: int, bc: int|
                    0 <= br < box_row && 0 <= bc < self.box_size ==> #[trigger] self@.box_ok(
                        br,
                        bc,
                    ),
            decreases self.box_size - box_row,
        {
            let mut box_col: usize = 0;
            while box_col < self.box_size
                invariant
                    self.wf(),
                    box_row < self.box_size,
                    box_col <= self.box_size,
                    forall|br: int, bc: int|
                        0 <= br < box_row && 0 <= bc < self.box_size ==> #[trigger] self@.box_ok(
                            br,
                            bc,
                        ),
                    forall|bc: int|
                        0 <= bc < box_col ==> #[trigger] self@.box_ok(box_row as int, bc),
                decreases self.box_size - box_col,
            {
                if !self.box_is_valid(box_row, box_col) {
                    return false;
                }
                box_col = box_col + 1;
            }
            box_row = box_row + 1;
        }
        true
    }

    /// Rows, columns and boxes are all free of repeated values.
    pub fn is_valid(&self) -> (res: bool)
        requires
            self.wf(),
        ensures
            res == self@.valid(),
    {
        self.is_valid_rows() && self.is_valid_cols() && self.is_valid_boxes()
    }

    /// No cell is empty.
    pub fn is_complete(&self) -> (res: bool)
        requires
            self.wf(),
        ensures
            res == self@.complete(),
    {
        match self.find_empty_cell() {
            Some(_) => false,
            None => true,
        }
    }

    /// The first empty cell when the board is read row by row.
    pub fn find_empty_cell(&self) -> (res: Option<(usize, usize)>)
        requires
            self.wf(),
        ensures
            match res {
                Some((row, col)) => {
                    &&& self@.has(row as int, col as int)
                    &&& self@.at(row as int, col as int) is Empty
                    &&& forall|r: int, c: int|
                        self@.has(r, c) && Board::before(r, c, row as int, col as int) ==> !(
                        #[trigger] self@.at(r, c) is Empty)
                },
                None => self@.complete(),
            },
    {
        let mut row: usize = 0;
        while row < self.size
            invariant
                self.wf(),
                row <= self.size,
                forall|r: int, c: int|
                    self@.has(r, c) && r < row ==> !(#[trigger] self@.at(r, c) is Empty),
            decreases self.size - row,
        {
            let mut col: usize = 0;
            while col < self.size
                invariant
                    self.wf(),
                    row < self.size,
                    col <= self.size,
                    forall|r: int, c: int|
                        self@.has(r, c) && Board::before(r, c, row as int, col as int) ==> !(
                        #[trigger] self@.at(r, c) is Empty),
                decreases self.size - col,
            {
                assert(self@.cells[row as int] == self.grid@[row as int]@);
                assert(self@.at(row as int, col as int) == self.grid@[row as int]@[col as int]);
                if self.grid[row][col].is_empty() {
                    return Some((row, col));
                }
                col = col + 1;
            }
            row = row + 1;
        }
        None
    }

    /// The values that may still go into `(row, col)`.
    pub fn get_candidates(&self, row: usize, col: usize) -> (res: HashSet<u8>)
        requires
            self.wf(),
            self@.has(row as int, col as int),
        ensures
            res@ == self@.candidates(row as int, col as int),
    {
        assert(self@.cells[row as int] == self.grid@[row as int]@);
        assert(self@.at(row as int, col as int) == self.grid@[row as int]@[col as int]);
        let mut candidates: HashSet<u8> = HashSet::new();
        if !self.grid[row][col].is_empty() {
            assert(candidates@ =~= self@.candidates(row as int, col as int));
            return candidates;
        }
        let top: u8 = if self.size > 255 {
            255
        } else {
            self.size as u8
        };
        let mut v: u8 = 0;
        while v < top
            invariant
                v <= top,
                forall|w: u8| candidates@.contains(w) <==> 1 <= w <= v,
            decreases top - v,
        {
            v = v + 1;
            candidates.insert(v);
        }
        let mut c: usize = 0;
        while c < self.size
            invariant
                self.wf(),
                row < self.size,
                c <= self.size,
                forall|w: u8|
                    candidates@.contains(w) <==> 1 <= w <= self.size && !(exists|c2: int|
                        0 <= c2 < c && (#[trigger] self@.at(row as int, c2)).spec_value() == Some(
                            w,
                        )),
            decreases self.size - c,
        {
            assert(self@.cells[row as int] == self.grid@[row as int]@);
            assert(self@.at(row as int, c as int) == self.grid@[row as int]@[c as int]);
            if let Some(value) = self.grid[row][c].value() {
                candidates.remove(&value);
            }
            c = c + 1;
        }
        let mut r: usize = 0;
        while r < self.size
            invariant
                self.wf(),
                col < self.size,
                r <= self.size,
                forall|w: u8|
                    candidates@.contains(w) <==> 1 <= w <= self.size && !self@.row_has(
                        row as int,
                        w,
                    ) && !(exists|r2: int|
                        0 <= r2 < r && (#[trigger] self@.at(r2, col as int)).spec_value() == Some(
                            w,
                        )),
            decreases self.size - r,
        {
            assert(self@.cells[r as int] == self.grid@[r as int]@);
            assert(self@.at(r as int, col as int) == self.grid@[r as int]@[col as int]);
            if let Some(value) = self.grid[r][col].value() {
                candidates.remove(&value);
            }
            r = r + 1;
        }
        let bs = self.box_size;
        assert(bs > 0) by (nonlinear_arith)
            requires
                self.size == bs * bs,
                self.size > 0,
        ;
        let box_row = row / bs;
        let box_col = col / bs;
        proof {
            lemma_box_number(bs as int, row as int);
            lemma_box_number(bs as int, col as int);
            lemma_box_span(bs as int, box_row as int);
            lemma_box_span(bs as int, box_col as int);
            self@.lemma_box_cells(box_row as int, box_col as int);
        }
        let row_start = box_row * bs;
        let col_start = box_col * bs;
        let mut r: usize = row_start;
        while r < row_start + bs
            invariant
                self.wf(),
                bs == self.box_size,
                row_start == box_row * bs,
                col_start == box_col * bs,
                row_start + bs <= self.size,
                col_start + bs <= self.size,
                row_start <= r <= row_start + bs,
                forall|r2: int, c2: int|
                    #[trigger] self@.in_box(box_row as int, box_col as int, r2, c2)
                        <==> self@.spans(box_row as int, box_col as int, r2, c2),
                forall|w: u8|
                    candidates@.contains(w) <==> 1 <= w <= self.size && !self@.row_has(
                        row as int,
                        w,
                    ) && !self@.col_has(col as int, w) && !(exists|r2: int, c2: int|
                        self@.in_box(box_row as int, box_col as int, r2, c2) && r2 < r && (
                        #[trigger] self@.at(r2, c2)).spec_value() == Some(w)),
            decreases row_start + bs - r,
        {
            let mut c: usize = col_start;
            while c < col_start + bs
                invariant
                    self.wf(),
                    bs == self.box_size,
                    row_start == box_row * bs,
                    col_start == box_col * bs,
                    row_start + bs <= self.size,
                    col_start + bs <= self.size,
                    row_start <= r < row_start + bs,
                    col_start <= c <= col_start + bs,
                    forall|r2: int, c2: int|
                        #[trigger] self@.in_box(box_row as int, box_col as int, r2, c2)
                            <==> self@.spans(box_row as int, box_col as int, r2, c2),
                    forall|w: u8|
                        candidates@.contains(w) <==> 1 <= w <= self.size && !self@.row_has(
                            row as int,
                            w,
                        ) && !self@.col_has(col as int, w) && !(exists|r2: int, c2: int|
                            self@.in_box(box_row as int, box_col as int, r2, c2) && Board::before(
                                r2,
                                c2,
                                r as int,
                                c as int,
                            ) && (#[trigger] self@.at(r2, c2)).spec_value() == Some(w)),
                decreases col_start + bs - c,
            {
                assert(self@.cells[r as int] == self.grid@[r as int]@);
                assert(self@.at(r as int, c as int) == self.grid@[r as int]@[c as int]);
                assert(self@.spans(box_row as int, box_col as int, r as int, c as int));
                assert(self@.in_box(box_row as int, box_col as int, r as int, c as int));
                if let Some(value) = self.grid[r][c].value() {
                    candidates.remove(&value);
                }
                c = c + 1;
            }
            r = r + 1;
        }
        assert(candidates@ =~= self@.candidates(row as int, col as int));
        candidates
    }

    /// Whether `value` could stand at `(row, col)` without repeating a value
    /// of another cell in its row, column or box.
    pub fn is_valid_placement(&self, row: usize, col: usize, value: u8) -> (res: bool)
        requires
            self.wf(),
        ensures
            res == self@.placement_ok(row as int, col as int, value),
    {
        if row >= self.size || col >= self.size {
            return false;
        }
        if value == 0 || value as usize > self.size {
            return false;
        }
        let mut c: usize = 0;
        while c < self.size
            invariant
                self.wf(),
                row < self.size,
                col < self.size,
                c <= self.size,
                forall|c2: int|
                    0 <= c2 < c && c2 != col ==> (#[trigger] self@.at(
                        row as int,
                        c2,
                    )).spec_value() != Some(value),
            decreases self.size - c,
        {
            assert(self@.cells[row as int] == self.grid@[row as int]@);
            assert(self@.at(row as int, c as int) == self.grid@[row as int]@[c as int]);
            if c != col {
                if self.grid[row][c].value() == Some(value) {
                    assert(self@.mates(row as int, col as int, row as int, c as int));
                    return false;
                }
            }
            c = c + 1;
        }
        let mut r: usize = 0;
        while r < self.size
            invariant
                self.wf(),
                row < self.size,
                col < self.size,
                r <= self.size,
                forall|r2: int|
                    0 <= r2 < r && r2 != row ==> (#[trigger] self@.at(
                        r2,
                        col as int,
                    )).spec_value() != Some(value),
            decreases self.size - r,
        {
            assert(self@.cells[r as int] == self.grid@[r as int]@);
            assert(self@.at(r as int, col as int) == self.grid@[r as int]@[col as int]);
            if r != row {
                if self.grid[r][col].value() == Some(value) {
                    assert(self@.mates(row as int, col as int, r as int, col as int));
                    return false;
                }
            }
            r = r + 1;
        }
        let bs = self.box_size;
        assert(bs > 0) by (nonlinear_arith)
            requires
                self.size == bs * bs,
                self.size > 0,
        ;
        let box_row = row / bs;
        let box_col = col / bs;
        proof {
            lemma_box_number(bs as int, row as int);
            lemma_box_number(bs as int, col as int);
            lemma_box_span(bs as int, box_row as int);
            lemma_box_span(bs as int, box_col as int);
            self@.lemma_box_cells(box_row as int, box_col as int);
        }
        let row_start = box_row * bs;
        let col_start = box_col * bs;
        let mut r: usize = row_start;
        while r < row_start + bs
            invariant
                self.wf(),
                bs == self.box_size,
                row < self.size,
                col < self.size,
                box_row == row / bs,
                box_col == col / bs,
                row_start == box_row * bs,
                col_start == box_col * bs,
                row_start + bs <= self.size,
                col_start + bs <= self.size,
                row_start <= r <= row_start + bs,
                forall|r2: int, c2: int|
                    #[trigger] self@.in_box(box_row as int, box_col as int, r2, c2)
                        <==> self@.spans(box_row as int, box_col as int, r2, c2),
                forall|r2: int, c2: int|
                    self@.in_box(box_row as int, box_col as int, r2, c2) && r2 < r && (r2 != row
                        || c2 != col) ==> (#[trigger] self@.at(r2, c2)).spec_value() != Some(value),
            decreases row_start + bs - r,
        {
            let mut c: usize = col_start;
            while c < col_start + bs
                invariant
                    self.wf(),
                    bs == self.box_size,
                    row < self.size,
                    col < self.size,
                    box_row == row / bs,
                    box_col == col / bs,
                    row_start == box_row * bs,
                    col_start == box_col * bs,
                    row_start + bs <= self.size,
                    col_start + bs <= self.size,
                    row_start <= r < row_start + bs,
                    col_start <= c <= col_start + bs,
                    forall|r2: int, c2: int|
                        #[trigger] self@.in_box(box_row as int, box_col as int, r2, c2)
                            <==> self@.spans(box_row as int, box_col as int, r2, c2),
                    forall|r2: int, c2: int|
                        self@.in_box(box_row as int, box_col as int, r2, c2) && Board::before(
                            r2,
                            c2,
                            r as int,
                            c as int,
                        ) && (r2 != row || c2 != col) ==> (#[trigger] self@.at(
                            r2,
                            c2,
                        )).spec_value() != Some(value),
                decreases col_start + bs - c,
            {
                assert(self@.cells[r as int] == self.grid@[r as int]@);
                assert(self@.at(r as int, c as int) == self.grid@[r as int]@[c as int]);
                assert(self@.spans(box_row as int, box_col as int, r as int, c as int));
                assert(self@.in_box(box_row as int, box_col as int, r as int, c as int));
                if r != row || c != col {
                    if self.grid[r][c].value() == Some(value) {
                        assert(self@.mates(row as int, col as int, r as int, c as int));
                        return false;
                    }
                }
                c = c + 1;
            }
            r = r + 1;
        }
        assert forall|r2: int, c2: int|
            self@.mates(row as int, col as int, r2, c2) && (r2 != row || c2 != col) implies (
        #[trigger] self@.at(r2, c2)).spec_value() != Some(value) by {
            if r2 != row && c2 != col {
                assert(self@.in_box(box_row as int, box_col as int, r2, c2));
            }
        }
        true
    }

    /// Reads a board of side `size` from puzzle text: `size * size`
    /// characters, row after row.
    pub fn from_string(s: &str, size: usize) -> (res: Result<Self, String>)
        requires
            is_square(size as nat),
        ensures
            match res {
                Ok(board) => {
                    &&& is_puzzle_text(s@, size as nat)
                    &&& board.wf()
                    &&& board.size == size
                    &&& legible(board@)
                    &&& forall|r: int, c: int|
                        board@.has(r, c) ==> Some(#[trigger] board@.at(r, c)) == char_cell(
                            s@[r * size + c],
                            size as nat,
                        )
                },
                Err(msg) => if s@.len() != size * size {
                    msg@ == length_error_text(size as nat * size as nat, s@.len())
                } else {
                    exists|r: int, c: int|
                        {
                            &&& 0 <= r < size && 0 <= c < size
                            &&& #[trigger] char_cell(s@[r * size + c], size as nat) is None
                            &&& msg@ == cell_error_text(s@[r * size + c], r as nat, c as nat)
                            &&& forall|r2: int, c2: int|
                                0 <= r2 < size && 0 <= c2 < size && Board::before(r2, c2, r, c)
                                    ==> #[trigger] char_cell(s@[r2 * size + c2], size as nat) is Some
                        }
                },
            },
    {
        let mut chars: Vec<char> = Vec::new();
        for ch in it: s.chars()
            invariant
                chars@ == it.seq().take(it.index() as int),
                it.seq() == s@,
        {
            chars.push(ch);
        }
        assert(chars@ == s@);
        let cells = match size.checked_mul(size) {
            Some(n) => n,
            None => {
                return Err(length_error(size, chars.len()));
            },
        };
        if chars.len() != cells {
            return Err(length_error(size, chars.len()));
        }
        let box_size = match box_size_for(size) {
            Some(b) => b,
            None => 0,
        };
        let mut grid: Vec<Vec<Cell>> = Vec::new();
        let mut row: usize = 0;
        while row < size
            invariant
                chars@ == s@,
                chars@.len() == size * size,
                cells == size * size,
                row <= size,
                grid@.len() == row,
                forall|r: int| 0 <= r < row ==> (#[trigger] grid@[r])@.len() == size,
                forall|r: int, c: int|
                    0 <= r < row && 0 <= c < size ==> char_cell(s@[r * size + c], size as nat)
                        == Some(#[trigger] grid@[r]@[c]),
            decreases size - row,
        {
            let mut line: Vec<Cell> = Vec::new();
            let mut col: usize = 0;
            while col < size
                invariant
                    chars@ == s@,
                    chars@.len() == size * size,
                    cells == size * size,
                    row < size,
                    col <= size,
                    line@.len() == col,
                    grid@.len() == row,
                    forall|r: int, c: int|
                        0 <= r < row && 0 <= c < size ==> char_cell(s@[r * size + c], size as nat)
                            == Some(#[trigger] grid@[r]@[c]),
                    forall|c: int|
                        0 <= c < col ==> char_cell(s@[row * size + c], size as nat) == Some(
                            #[trigger] line@[c],
                        ),
                decreases size - col,
            {
                proof {
                    lemma_flat_index(size as int, row as int, col as int);
                }
                let ch = chars[row * size + col];
                match parse_char(ch, size) {
                    Some(cell) => {
                        line.push(cell);
                    },
                    None => {
                        assert forall|r2: int, c2: int|
                            0 <= r2 < size && 0 <= c2 < size && Board::before(
                                r2,
                                c2,
                                row as int,
                                col as int,
                            ) implies #[trigger] char_cell(s@[r2 * size + c2], size as nat) is Some by {
                            if r2 < row {
                                assert(char_cell(s@[r2 * size + c2], size as nat) == Some(
                                    grid@[r2]@[c2],
                                ));
                            } else {
                                assert(char_cell(s@[row * size + c2], size as nat) == Some(
                                    line@[c2],
                                ));
                            }
                        }
                        return Err(cell_error(ch, row, col));
                    },
                }
                col = col + 1;
            }
            grid.push(line);
            row = row + 1;
        }
        let board = Sudoku { grid, size, box_size };
        proof {
            assert forall|r: int, c: int| board@.has(r, c) implies Some(
                #[trigger] board@.at(r, c),
            ) == char_cell(s@[r * size + c], size as nat) by {
                assert(board@.cells[r] == board.grid@[r]@);
                assert(board@.at(r, c) == board.grid@[r]@[c]);
            }
            assert forall|r: int| 0 <= r < board@.size implies (#[trigger] board@.cells[r]).len()
                == board@.size by {
                assert(board@.cells[r] == board.grid@[r]@);
            }
            assert forall|i: int| 0 <= i < s@.len() implies #[trigger] char_cell(
                s@[i],
                size as nat,
            ) is Some by {
                let r = i / (size as int);
                let c = i % (size as int);
                assert(size > 0) by (nonlinear_arith)
                    requires
                        0 <= i < size * size,
                ;
                vstd::arithmetic::div_mod::lemma_fundamental_div_mod(i, size as int);
                vstd::arithmetic::div_mod::lemma_mod_bound(i, size as int);
                crate::arith::lemma_box_number(size as int, i);
                assert(size * r == r * size) by (nonlinear_arith);
                assert(Some(board@.at(r, c)) == char_cell(s@[r * size + c], size as nat));
            }
        }
        Ok(board)
    }

    /// Sets the cell at `(row, col)`: `0` empties it, a value up to `size`
    /// fills it, whatever it held.
    pub fn set(&mut self, row: usize, col: usize, value: u8) -> (res: Result<(), String>)
        requires
            old(self).wf(),
        ensures
            final(self).wf(),
            match res {
                Ok(_) => {
                    &&& old(self)@.has(row as int, col as int)
                    &&& value <= old(self).size
                    &&& final(self)@ == old(self)@.with_cell(
                        row as int,
                        col as int,
                        if value == 0 {
                            Cell::Empty
                        } else {
                            Cell::Filled(value)
                        },
                    )
                },
                Err(msg) => {
                    &&& final(self)@ == old(self)@
                    &&& if !old(self)@.has(row as int, col as int) {
                        msg@ == "Invalid position"@
                    } else {
                        value > old(self).size && msg@ == value_error_text(
                            value as nat,
                            old(self).size as nat,
                        )
                    }
                },
            },
    {
        if row >= self.size || col >= self.size {
            return Err(String::from_str("Invalid position"));
        }
        if value == 0 {
            self.put(row, col, Cell::Empty);
        } else if value as usize > self.size {
            return Err(value_error(value, self.size));
        } else {
            self.put(row, col, Cell::Filled(value));
        }
        Ok(())
    }

    /// The board as one line of puzzle text: `0` for an empty cell, a digit
    /// or a capital letter for a value.
    pub fn to_puzzle_string(&self) -> (res: String)
        requires
            self.wf(),
            printable(self@),
        ensures
            res@ == puzzle_text(self@),
    {
        let mut out = String::new();
        let mut row: usize = 0;
        while row < self.size
            invariant
                self.wf(),
                printable(self@),
                row <= self.size,
                out@.len() == row * self.size,
                forall|r: int, c: int|
                    0 <= r < row && 0 <= c < self.size ==> out@[r * self.size + c] == cell_char(
                        #[trigger] self@.at(r, c),
                    ),
            decreases self.size - row,
        {
            let mut col: usize = 0;
            while col < self.size
                invariant
                    self.wf(),
                    printable(self@),
                    row < self.size,
                    col <= self.size,
                    out@.len() == row * self.size + col,
                    forall|r: int, c: int|
                        0 <= r < row && 0 <= c < self.size ==> out@[r * self.size + c]
                            == cell_char(#[trigger] self@.at(r, c)),
                    forall|c: int|
                        0 <= c < col ==> out@[row * self.size + c] == cell_char(
                            #[trigger] self@.at(row as int, c),
                        ),
                decreases self.size - col,
            {
                assert(self@.cells[row as int] == self.grid@[row as int]@);
                assert(self@.at(row as int, col as int) == self.grid@[row as int]@[col as int]);
                let ghost before = out@;
                match self.grid[row][col].value() {
                    Some(v) => {
                        out.push(value_glyph(v));
                    },
                    None => {
                        out.push('0');
                    },
                }
                proof {
                    assert forall|r: int, c: int|
                        0 <= r < row && 0 <= c < self.size implies out@[r * self.size + c]
                        == cell_char(#[trigger] self@.at(r, c)) by {
                        lemma_flat_index(self.size as int, r, c);
                        assert(r * self.size + c < row * self.size) by (nonlinear_arith)
                            requires
                                0 <= r < row,
                                0 <= c < self.size,
                        ;
                        assert(out@[r * self.size + c] == before[r * self.size + c]);
                    }
                }
                col = col + 1;
            }
            assert((row + 1) * self.size == row * self.size + self.size) by (nonlinear_arith);
            row = row + 1;
        }
        proof {
            assert forall|i: int| 0 <= i < out@.len() implies out@[i] == puzzle_text(self@)[i] by {
                let size = self.size as int;
                let r = i / size;
                let c = i % size;
                assert(size > 0) by (nonlinear_arith)
                    requires
                        0 <= size,
                        0 <= i < size * size,
                ;
                vstd::arithmetic::div_mod::lemma_fundamental_div_mod(i, size);
                vstd::arithmetic::div_mod::lemma_mod_bound(i, size);
                crate::arith::lemma_box_number(size, i);
                assert(size * r == r * size) by (nonlinear_arith);
                assert(out@[r * size + c] == cell_char(self@.at(r, c)));
            }
            assert(out@ =~= puzzle_text(self@));
        }
        out
    }

    /// The board in its grid layout: a character and a space for each cell,
    /// a dot for an empty one, bars and rules between the boxes.
    pub fn to_string(&self) -> (res: String)
        requires
            self.wf(),
            printable(self@),
        ensures
            res@ == grid_text(self@, self.size as nat, false),
    {
        self.layout(false)
    }

    /// The board in its wide grid layout: each cell's character stands
    /// between two spaces.
    pub fn render_text(&self) -> (res: String)
        requires
            self.wf(),
            printable(self@),
        ensures
            res@ == grid_text(self@, self.size as nat, true),
    {
        self.layout(true)
    }

    /// The board in a grid layout, wide or not.
    fn layout(&self, wide: bool) -> (res: String)
        requires
            self.wf(),
            printable(self@),
        ensures
            res@ == grid_text(self@, self.size as nat, wide),
    {
        let mut out = String::new();
        let mut row: usize = 0;
        assert(out@ =~= grid_text(self@, 0, wide));
        while row < self.size
            invariant
                self.wf(),
                printable(self@),
                row <= self.size,
                out@ == grid_text(self@, row as nat, wide),
            decreases self.size - row,
        {
            let ghost start = out@;
            assert(self.box_size > 0) by (nonlinear_arith)
                requires
                    self.size == self.box_size * self.box_size,
                    self.size > 0,
            ;
            if row > 0 && row % self.box_size == 0 {
                let mut i: usize = 0;
                assert(out@ =~= start + dashes(0));
                while i < self.size
                    invariant
                        i <= self.size,
                        out@ == start + dashes((cell_width(wide) * i) as nat),
                    decreases self.size - i,
                {
                    let ghost drawn = out@;
                    out.push('-');
                    out.push('-');
                    if wide {
                        out.push('-');
                    }
                    i = i + 1;
                    assert(cell_width(wide) * i == cell_width(wide) * (i - 1) + cell_width(wide))
                        by (nonlinear_arith);
                    assert(out@ =~= start + dashes((cell_width(wide) * i) as nat));
                }
                let mut j: usize = 1;
                while j < self.box_size
                    invariant
                        1 <= j <= self.box_size,
                        out@ == start + dashes((cell_width(wide) * self.size + j - 1) as nat),
                    decreases self.box_size - j,
                {
                    out.push('-');
                    j = j + 1;
                    assert(out@ =~= start + dashes(
                        (cell_width(wide) * self.size + j - 1) as nat,
                    ));
                }
                out.push('\n');
                assert(out@ =~= start + rule_text(self@, row as int, wide));
            } else {
                assert(out@ =~= start + rule_text(self@, row as int, wide));
            }
            let ghost mid = out@;
            let mut col: usize = 0;
            assert(out@ =~= mid + row_text(self@, row as int, 0, wide));
            while col < self.size
                invariant
                    self.wf(),
                    printable(self@),
                    row < self.size,
                    col <= self.size,
                    self.box_size > 0,
                    out@ == mid + row_text(self@, row as int, col as nat, wide),
                decreases self.size - col,
            {
                assert(self@.cells[row as int] == self.grid@[row as int]@);
                assert(self@.at(row as int, col as int) == self.grid@[row as int]@[col as int]);
                let ghost left = out@;
                if col > 0 && col % self.box_size == 0 {
                    out.push('|');
                }
                assert(out@ =~= left + bar_text(self@, col as int));
                if wide {
                    out.push(' ');
                }
                match self.grid[row][col].value() {
                    Some(v) => {
                        out.push(value_glyph(v));
                    },
                    None => {
                        out.push('.');
                    },
                }
                out.push(' ');
                assert(out@ =~= left + bar_text(self@, col as int) + cell_text(
                    self@.at(row as int, col as int),
                    wide,
                ));
                col = col + 1;
                assert(out@ =~= mid + row_text(self@, row as int, col as nat, wide));
            }
            out.push('\n');
            row = row + 1;
            assert(out@ =~= grid_text(self@, row as nat, wide));
        }
        out
    }

    /// Whether `value` at `(row, col)` is what a solution of the board holds
    /// there. The cell is emptied on a copy and the copy solved afresh, so
    /// every call costs a whole run of the solver. Emptying a cell (`0`) is
    /// always right.
    pub fn is_correct_placement(&self, row: usize, col: usize, value: u8) -> (res: bool)
        requires
            self.wf(),
        ensures
            !self@.has(row as int, col as int) ==> !res,
            self@.has(row as int, col as int) && value == 0 ==> res,
            self@.has(row as int, col as int) && value != 0 ==> {
                let cleared = self@.with_cell(row as int, col as int, Cell::Empty);
                &&& res ==> exists|s: Board| #[trigger]
                    s.solves(cleared) && s.at(row as int, col as int).spec_value() == Some(value)
                &&& !res ==> !cleared.solvable() || exists|s: Board| #[trigger]
                    s.solves(cleared) && s.at(row as int, col as int).spec_value() != Some(value)
                &&& forall|list: Seq<Box<dyn SolvingStrategy>>| #[trigger]
                    standard_strategies(list) ==> {
                        let d = deduce(list, cleared, 1000);
                        cleared.valid() && d.board.complete() && d.board.valid() ==> res == (
                        d.board.at(row as int, col as int).spec_value() == Some(value))
                    }
            },
    {
        if row >= self.size || col >= self.size {
            return false;
        }
        if value == 0 {
            return true;
        }
        let mut emptied = self.clone();
        emptied.put(row, col, Cell::Empty);
        let ghost cleared = emptied@;
        let mut solver = SudokuSolver::new();
        proof {
            assert forall|list: Seq<Box<dyn SolvingStrategy>>| #[trigger]
                standard_strategies(list) implies deduce(list, cleared, 1000) == deduce(
                solver.strategies(),
                cleared,
                1000,
            ) by {
                lemma_standard_alike(list, solver.strategies());
                lemma_deduce_alike(list, solver.strategies(), cleared, 1000);
            }
        }
        match solver.solve(emptied) {
            Ok(solution) => {
                assert(solution@.solves(cleared));
                assert(solution@.cells[row as int] == solution.grid@[row as int]@);
                assert(solution@.at(row as int, col as int) == solution.grid@[row as int]@[col as int]);
                match solution.get(row, col) {
                    Some(cell) => match cell.value() {
                        Some(correct_value) => value == correct_value,
                        None => false,
                    },
                    None => false,
                }
            },
            Err(_) => false,
        }
    }

    /// Whether `value` at `(row, col)` both repeats no value of its row,
    /// column or box and is what a solution of the board holds there.
    pub fn is_valid_and_correct_placement(&self, row: usize, col: usize, value: u8) -> (res: bool)
        requires
            self.wf(),
        ensures
            res ==> self@.placement_ok(row as int, col as int, value),
            res ==> exists|s: Board| #[trigger]
                s.solves(self@.with_cell(row as int, col as int, Cell::Empty)) && s.at(
                    row as int,
                    col as int,
                ).spec_value() == Some(value),
            !res ==> {
                let cleared = self@.with_cell(row as int, col as int, Cell::Empty);
                ||| !self@.placement_ok(row as int, col as int, value)
                ||| !cleared.solvable()
                ||| exists|s: Board| #[trigger]
                    s.solves(cleared) && s.at(row as int, col as int).spec_value() != Some(value)
            },
            forall|list: Seq<Box<dyn SolvingStrategy>>| #[trigger]
                standard_strategies(list) ==> {
                    let cleared = self@.with_cell(row as int, col as int, Cell::Empty);
                    let d = deduce(list, cleared, 1000);
                    cleared.valid() && d.board.complete() && d.board.valid() ==> res == (
                    self@.placement_ok(row as int, col as int, value) && d.board.at(
                        row as int,
                        col as int,
                    ).spec_value() == Some(value))
                },
    {
        if !self.is_valid_placement(row, col, value) {
            return false;
        }
        self.is_correct_placement(row, col, value)
    }
}

} // verus!
