use vstd::prelude::*;
use crate::cell::Cell;
use crate::grid::Board;

verus! {

/// One for an empty cell, nothing for another.
pub open spec fn empty_weight(cell: Cell) -> nat {
    if cell is Empty {
        1
    } else {
        0
    }
}

impl Board {
    /// The number of empty cells among the first `n` of row `r`.
    pub open spec fn row_empties(self, r: int, n: nat) -> nat
        decreases n,
    {
        if n == 0 {
            0
        } else {
            self.row_empties(r, (n - 1) as nat) + empty_weight(self.at(r, n - 1))
        }
    }

    /// The number of empty cells in the first `n` rows.
    pub open spec fn rows_empties(self, n: nat) -> nat
        decreases n,
    {
        if n == 0 {
            0
        } else {
            self.rows_empties((n - 1) as nat) + self.row_empties(n - 1, self.size)
        }
    }

    /// The number of empty cells on the board.
    pub open spec fn empties(self) -> nat {
        self.rows_empties(self.size)
    }

    /// A row prefix holds at most as many empty cells as cells.
    pub proof fn lemma_row_empties_bound(self, r: int, n: nat)
        ensures
            self.row_empties(r, n) <= n,
        decreases n,
    {
        if n > 0 {
            self.lemma_row_empties_bound(r, (n - 1) as nat);
        }
    }

    /// The first `n` rows hold at most `n * size` empty cells.
    pub proof fn lemma_rows_empties_bound(self, n: nat)
        ensures
            self.rows_empties(n) <= n * self.size,
        decreases n,
    {
        if n > 0 {
            self.lemma_rows_empties_bound((n - 1) as nat);
            self.lemma_row_empties_bound(n - 1, self.size);
            assert((n - 1) * self.size + self.size == n * self.size) by (nonlinear_arith);
        }
    }

    /// Rows that agree cell by cell hold the same number of empty cells.
    pub proof fn lemma_row_empties_same(self, other: Board, r: int, n: nat)
        requires
            forall|c: int| 0 <= c < n ==> #[trigger] self.at(r, c) == other.at(r, c),
        ensures
            self.row_empties(r, n) == other.row_empties(r, n),
        decreases n,
    {
        if n > 0 {
            self.lemma_row_empties_same(other, r, (n - 1) as nat);
            assert(self.at(r, n - 1) == other.at(r, n - 1));
        }
    }

    /// Replacing the cell at column `c` changes the count of a row prefix that
    /// reaches past `c` by the difference of the two cells' weights.
    pub proof fn lemma_row_empties_with_cell(self, r: int, c: int, cell: Cell, n: nat)
        requires
            self.wf(),
            self.has(r, c),
            n <= self.size,
        ensures
            self.with_cell(r, c, cell).row_empties(r, n) + (if c < n {
                empty_weight(self.at(r, c))
            } else {
                0
            }) == self.row_empties(r, n) + (if c < n {
                empty_weight(cell)
            } else {
                0
            }),
        decreases n,
    {
        if n > 0 {
            self.lemma_row_empties_with_cell(r, c, cell, (n - 1) as nat);
            let m = self.with_cell(r, c, cell);
            if n - 1 != c {
                assert(m.at(r, n - 1) == self.at(r, n - 1));
            } else {
                assert(m.at(r, c) == cell);
            }
        }
    }

    /// Replacing a cell changes the count of the rows that reach past it by
    /// the difference of the two cells' weights.
    pub proof fn lemma_rows_empties_with_cell(self, r: int, c: int, cell: Cell, n: nat)
        requires
            self.wf(),
            self.has(r, c),
            n <= self.size,
        ensures
            self.with_cell(r, c, cell).rows_empties(n) + (if r < n {
                empty_weight(self.at(r, c))
            } else {
                0
            }) == self.rows_empties(n) + (if r < n {
                empty_weight(cell)
            } else {
                0
            }),
        decreases n,
    {
        if n > 0 {
            self.lemma_rows_empties_with_cell(r, c, cell, (n - 1) as nat);
            let m = self.with_cell(r, c, cell);
            if n - 1 == r {
                self.lemma_row_empties_with_cell(r, c, cell, self.size);
            } else {
                assert forall|c2: int| 0 <= c2 < self.size implies #[trigger] m.at(n - 1, c2)
                    == self.at(n - 1, c2) by {}
                m.lemma_row_empties_same(self, n - 1, self.size);
            }
        }
    }

    /// Replacing a cell changes the number of empty cells by the difference
    /// of the two cells' weights.
    pub proof fn lemma_empties_with_cell(self, r: int, c: int, cell: Cell)
        requires
            self.wf(),
            self.has(r, c),
        ensures
            self.with_cell(r, c, cell).empties() + empty_weight(self.at(r, c)) == self.empties()
                + empty_weight(cell),
    {
        self.lemma_rows_empties_with_cell(r, c, cell, self.size);
    }

    /// A board has at most `size * size` empty cells.
    pub proof fn lemma_empties_bound(self)
        ensures
            self.empties() <= self.size * self.size,
    {
        self.lemma_rows_empties_bound(self.size);
    }

    /// A row prefix without an empty cell counts nothing, and one that counts
    /// nothing has no empty cell.
    pub proof fn lemma_row_empties_zero(self, r: int, n: nat)
        ensures
            self.row_empties(r, n) == 0 <==> forall|c: int|
                0 <= c < n ==> !(#[trigger] self.at(r, c) is Empty),
        decreases n,
    {
        if n > 0 {
            self.lemma_row_empties_zero(r, (n - 1) as nat);
            if self.row_empties(r, n) == 0 {
                assert forall|c: int| 0 <= c < n implies !(#[trigger] self.at(r, c) is Empty) by {
                    if c == n - 1 {
                    }
                }
            } else {
                if self.row_empties(r, (n - 1) as nat) == 0 {
                    assert(self.at(r, n - 1) is Empty);
                }
            }
        }
    }

    /// The first `n` rows count nothing exactly when none of their cells is
    /// empty.
    pub proof fn lemma_rows_empties_zero(self, n: nat)
        requires
            n <= self.size,
        ensures
            self.rows_empties(n) == 0 <==> forall|r: int, c: int|
                0 <= r < n && 0 <= c < self.size ==> !(#[trigger] self.at(r, c) is Empty),
        decreases n,
    {
        if n > 0 {
            self.lemma_rows_empties_zero((n - 1) as nat);
            self.lemma_row_empties_zero(n - 1, self.size);
            if self.rows_empties(n) == 0 {
                assert forall|r: int, c: int| 0 <= r < n && 0 <= c < self.size implies !(
                #[trigger] self.at(r, c) is Empty) by {
                    if r == n - 1 {
                    }
                }
            } else {
                if self.rows_empties((n - 1) as nat) == 0 {
                    let c = choose|c: int| 0 <= c < self.size && #[trigger] self.at(n - 1, c) is Empty;
                    assert(self.at(n - 1, c) is Empty);
                }
            }
        }
    }

    /// A board is complete exactly when it has no empty cell to count.
    pub proof fn lemma_complete_empties(self)
        ensures
            self.complete() <==> self.empties() == 0,
    {
        self.lemma_rows_empties_zero(self.size);
    }

    /// A row prefix of empty cells counts each of them.
    pub proof fn lemma_row_empties_all(self, r: int, n: nat)
        requires
            forall|c: int| 0 <= c < n ==> #[trigger] self.at(r, c) is Empty,
        ensures
            self.row_empties(r, n) == n,
        decreases n,
    {
        if n > 0 {
            self.lemma_row_empties_all(r, (n - 1) as nat);
            assert(self.at(r, n - 1) is Empty);
        }
    }

    /// Rows of empty cells count each of their cells.
    pub proof fn lemma_rows_empties_all(self, n: nat)
        requires
            n <= self.size,
            forall|r: int, c: int| self.has(r, c) ==> #[trigger] self.at(r, c) is Empty,
        ensures
            self.rows_empties(n) == n * self.size,
        decreases n,
    {
        if n > 0 {
            self.lemma_rows_empties_all((n - 1) as nat);
            assert forall|c: int| 0 <= c < self.size implies #[trigger] self.at(n - 1, c) is Empty by {
                assert(self.has(n - 1, c));
            }
            self.lemma_row_empties_all(n - 1, self.size);
            assert((n - 1) * self.size + self.size == n * self.size) by (nonlinear_arith);
        } else {
            assert(n * self.size == 0) by (nonlinear_arith)
                requires
                    n == 0,
            ;
        }
    }

    /// A board of empty cells has as many empty cells as cells.
    pub proof fn lemma_empties_all(self)
        requires
            forall|r: int, c: int| self.has(r, c) ==> #[trigger] self.at(r, c) is Empty,
        ensures
            self.empties() == self.size * self.size,
    {
        self.lemma_rows_empties_all(self.size);
    }
}

} // verus!
