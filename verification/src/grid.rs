use vstd::prelude::*;
use crate::arith::lemma_box_index;
use crate::cell::Cell;

verus! {

/// The mathematical picture of a board: its side, the side of its boxes, and
/// its cells by row and column.
pub struct Board {
    pub size: nat,
    pub box_size: nat,
    pub cells: Seq<Seq<Cell>>,
}

impl Board {
    /// `(r, c)` lies on the board.
    pub open spec fn has(self, r: int, c: int) -> bool {
        0 <= r < self.size && 0 <= c < self.size
    }

    /// The cell at `(r, c)`.
    pub open spec fn at(self, r: int, c: int) -> Cell {
        self.cells[r][c]
    }

    /// The side is the square of the box side, the grid is `size` by `size`,
    /// and every value lies between 1 and `size`.
    pub open spec fn wf(self) -> bool {
        &&& self.size == self.box_size * self.box_size
        &&& self.cells.len() == self.size
        &&& forall|r: int| 0 <= r < self.size ==> (#[trigger] self.cells[r]).len() == self.size
        &&& forall|r: int, c: int| self.has(r, c) ==> (#[trigger] self.at(r, c)).fits(self.size)
    }

    /// The board of the given side whose cells are all empty.
    pub open spec fn blank(size: nat, box_size: nat) -> Board {
        Board {
            size,
            box_size,
            cells: Seq::new(size, |r: int| Seq::new(size, |c: int| Cell::Empty)),
        }
    }

    /// This board with the cell at `(r, c)` replaced.
    pub open spec fn with_cell(self, r: int, c: int, cell: Cell) -> Board {
        Board { cells: self.cells.update(r, self.cells[r].update(c, cell)), ..self }
    }

    /// No value occurs twice in row `r`.
    pub open spec fn row_ok(self, r: int) -> bool {
        forall|c1: int, c2: int|
            #![trigger self.at(r, c1), self.at(r, c2)]
            0 <= c1 < c2 < self.size ==> !self.at(r, c1).clashes(self.at(r, c2))
    }

    /// No value occurs twice in column `c`.
    pub open spec fn col_ok(self, c: int) -> bool {
        forall|r1: int, r2: int|
            #![trigger self.at(r1, c), self.at(r2, c)]
            0 <= r1 < r2 < self.size ==> !self.at(r1, c).clashes(self.at(r2, c))
    }

    /// `(r, c)` lies in the box with box coordinates `(br, bc)`.
    pub open spec fn in_box(self, br: int, bc: int, r: int, c: int) -> bool {
        self.has(r, c) && r / (self.box_size as int) == br && c / (self.box_size as int) == bc
    }

    /// No value occurs twice in the box `(br, bc)`.
    pub open spec fn box_ok(self, br: int, bc: int) -> bool {
        forall|r1: int, c1: int, r2: int, c2: int|
            #![trigger self.at(r1, c1), self.at(r2, c2)]
            self.in_box(br, bc, r1, c1) && self.in_box(br, bc, r2, c2) && (r1 != r2 || c1 != c2)
                ==> !self.at(r1, c1).clashes(self.at(r2, c2))
    }

    /// No row repeats a value.
    pub open spec fn rows_valid(self) -> bool {
        forall|r: int| 0 <= r < self.size ==> #[trigger] self.row_ok(r)
    }

    /// No column repeats a value.
    pub open spec fn cols_valid(self) -> bool {
        forall|c: int| 0 <= c < self.size ==> #[trigger] self.col_ok(c)
    }

    /// No box repeats a value.
    pub open spec fn boxes_valid(self) -> bool {
        forall|br: int, bc: int|
            0 <= br < self.box_size && 0 <= bc < self.box_size ==> #[trigger] self.box_ok(br, bc)
    }

    /// Every row, column and box is free of repeated values.
    pub open spec fn valid(self) -> bool {
        self.rows_valid() && self.cols_valid() && self.boxes_valid()
    }

    /// No cell is empty.
    pub open spec fn complete(self) -> bool {
        forall|r: int, c: int| self.has(r, c) ==> !(#[trigger] self.at(r, c) is Empty)
    }

    /// `(r2, c2)` shares a row, a column or a box with `(r, c)`; a cell is its
    /// own mate.
    pub open spec fn mates(self, r: int, c: int, r2: int, c2: int) -> bool {
        &&& self.has(r2, c2)
        &&& (r2 == r || c2 == c || (r2 / (self.box_size as int) == r / (self.box_size as int) && c2
            / (self.box_size as int) == c / (self.box_size as int)))
    }

    /// Row `r` holds `v`.
    pub open spec fn row_has(self, r: int, v: u8) -> bool {
        exists|c: int| 0 <= c < self.size && (#[trigger] self.at(r, c)).spec_value() == Some(v)
    }

    /// Column `c` holds `v`.
    pub open spec fn col_has(self, c: int, v: u8) -> bool {
        exists|r: int| 0 <= r < self.size && (#[trigger] self.at(r, c)).spec_value() == Some(v)
    }

    /// The box `(br, bc)` holds `v`.
    pub open spec fn box_has(self, br: int, bc: int, v: u8) -> bool {
        exists|r: int, c: int|
            self.in_box(br, bc, r, c) && (#[trigger] self.at(r, c)).spec_value() == Some(v)
    }

    /// `v` already stands in the row, the column or the box of `(r, c)`.
    pub open spec fn sees(self, r: int, c: int, v: u8) -> bool {
        self.row_has(r, v) || self.col_has(c, v) || self.box_has(
            r / (self.box_size as int),
            c / (self.box_size as int),
            v,
        )
    }

    /// `v` may still go into the empty cell `(r, c)`.
    pub open spec fn candidate(self, r: int, c: int, v: u8) -> bool {
        &&& self.has(r, c)
        &&& self.at(r, c) is Empty
        &&& 1 <= v <= self.size
        &&& !self.sees(r, c, v)
    }

    /// The values that may still go into `(r, c)`; none for a cell that is
    /// not empty.
    pub open spec fn candidates(self, r: int, c: int) -> Set<u8> {
        Set::new(|v: u8| self.candidate(r, c, v))
    }

    /// Putting `v` at `(r, c)` repeats no value of another cell in its row,
    /// column or box. What `(r, c)` holds now plays no part.
    pub open spec fn placement_ok(self, r: int, c: int, v: u8) -> bool {
        &&& self.has(r, c)
        &&& 1 <= v <= self.size
        &&& forall|r2: int, c2: int|
            self.mates(r, c, r2, c2) && (r2 != r || c2 != c) ==> (#[trigger] self.at(
                r2,
                c2,
            )).spec_value() != Some(v)
    }

    /// `self` keeps every value of `b` and has put only filled cells where `b`
    /// was empty.
    pub open spec fn extends(self, b: Board) -> bool {
        &&& self.size == b.size
        &&& self.box_size == b.box_size
        &&& forall|r: int, c: int|
            b.has(r, c) ==> if b.at(r, c) is Empty {
                !(#[trigger] self.at(r, c) is Given)
            } else {
                self.at(r, c) == b.at(r, c)
            }
    }

    /// `self` is a solution of `b`.
    pub open spec fn solves(self, b: Board) -> bool {
        self.wf() && self.complete() && self.valid() && self.extends(b)
    }

    /// `self` has a solution.
    pub open spec fn solvable(self) -> bool {
        exists|s: Board| #[trigger] s.solves(self)
    }

    /// `self` is `full` with some cells emptied.
    pub open spec fn thins(self, full: Board) -> bool {
        &&& self.size == full.size
        &&& self.box_size == full.box_size
        &&& forall|r: int, c: int|
            full.has(r, c) ==> (#[trigger] self.at(r, c)) is Empty || self.at(r, c) == full.at(r, c)
    }

    /// Only boxes on the diagonal hold values.
    pub open spec fn diagonal(self) -> bool {
        forall|r: int, c: int|
            self.has(r, c) && !(#[trigger] self.at(r, c) is Empty) ==> r / (self.box_size as int)
                == c / (self.box_size as int)
    }

    /// No cell is a clue.
    pub open spec fn no_givens(self) -> bool {
        forall|r: int, c: int| self.has(r, c) ==> !(#[trigger] self.at(r, c) is Given)
    }

    /// What `self` holds where `b` was empty is a candidate of `b` there.
    pub open spec fn fills_from(self, b: Board) -> bool {
        forall|r: int, c: int|
            b.has(r, c) && b.at(r, c) is Empty ==> match #[trigger] self.at(r, c) {
                Cell::Filled(v) => b.candidate(r, c, v),
                _ => true,
            }
    }

    /// Every solution of `b` is a solution of `self`.
    pub open spec fn keeps_solutions(self, b: Board) -> bool {
        forall|s: Board| #[trigger] s.solves(b) ==> s.solves(self)
    }

    /// The cell `(r, c)` has exactly one candidate.
    pub open spec fn naked_single(self, r: int, c: int) -> bool {
        self.has(r, c) && self.candidates(r, c).len() == 1
    }

    /// Within its row, `(r, c)` is the only cell that can take `v`.
    pub open spec fn hidden_in_row(self, r: int, c: int, v: u8) -> bool {
        &&& self.candidate(r, c, v)
        &&& forall|c2: int| 0 <= c2 < self.size && c2 != c ==> !#[trigger] self.candidate(r, c2, v)
    }

    /// Within its column, `(r, c)` is the only cell that can take `v`.
    pub open spec fn hidden_in_col(self, r: int, c: int, v: u8) -> bool {
        &&& self.candidate(r, c, v)
        &&& forall|r2: int| 0 <= r2 < self.size && r2 != r ==> !#[trigger] self.candidate(r2, c, v)
    }

    /// Within its box, `(r, c)` is the only cell that can take `v`.
    pub open spec fn hidden_in_box(self, r: int, c: int, v: u8) -> bool {
        &&& self.candidate(r, c, v)
        &&& forall|r2: int, c2: int|
            self.in_box(r / (self.box_size as int), c / (self.box_size as int), r2, c2) && (r2
                != r || c2 != c) ==> !#[trigger] self.candidate(r2, c2, v)
    }

    /// Within its row, its column or its box, `(r, c)` is the only cell that
    /// can take `v`.
    pub open spec fn hidden_single(self, r: int, c: int, v: u8) -> bool {
        self.hidden_in_row(r, c, v) || self.hidden_in_col(r, c, v) || self.hidden_in_box(r, c, v)
    }

    /// `(r, c)` comes before `(r2, c2)` when the board is read row by row.
    pub open spec fn before(r: int, c: int, r2: int, c2: int) -> bool {
        r < r2 || (r == r2 && c < c2)
    }

    /// `(r, c)` lies on the board, with its row and column in the span of the
    /// box `(br, bc)`.
    pub open spec fn spans(self, br: int, bc: int, r: int, c: int) -> bool {
        &&& self.has(r, c)
        &&& br * self.box_size <= r < br * self.box_size + self.box_size
        &&& bc * self.box_size <= c < bc * self.box_size + self.box_size
    }

    /// A cell lies in a box exactly when its row and column lie in the
    /// box's span.
    pub proof fn lemma_box_cells(self, br: int, bc: int)
        requires
            self.wf(),
        ensures
            forall|r: int, c: int| #[trigger] self.in_box(br, bc, r, c) <==> self.spans(br, bc, r, c),
    {
        assert forall|r: int, c: int| #[trigger]
            self.in_box(br, bc, r, c) <==> self.spans(br, bc, r, c) by {
            if self.has(r, c) {
                assert(self.box_size > 0) by (nonlinear_arith)
                    requires
                        self.size == self.box_size * self.box_size,
                        self.size > 0,
                ;
                lemma_box_index(self.box_size as int, r, br);
                lemma_box_index(self.box_size as int, c, bc);
            }
        }
    }
}

} // verus!
