use vstd::prelude::*;
use crate::cell::Cell;
use crate::grid::Board;

verus! {

/// The largest value of a board of side `size`, as far as a byte reaches.
pub open spec fn top_of(size: nat) -> nat {
    if size > 255 {
        255
    } else {
        size
    }
}

impl Board {
    /// The board after a look at `(r, c)`: a cell with one candidate only is
    /// filled with it.
    pub open spec fn naked_at(self, r: int, c: int) -> Board {
        if self.naked_single(r, c) {
            self.with_cell(r, c, Cell::Filled(self.candidates(r, c).choose()))
        } else {
            self
        }
    }

    /// The board after a look at the cells of row `r` from column `c` on,
    /// one after the other, on a board of side `n`.
    pub open spec fn naked_row(self, n: nat, r: int, c: nat) -> Board
        decreases n - c,
    {
        if c >= n {
            self
        } else {
            self.naked_at(r, c as int).naked_row(n, r, c + 1)
        }
    }

    /// The board after a look at all cells from row `r` on, row by row.
    pub open spec fn naked_rows(self, n: nat, r: nat) -> Board
        decreases n - r,
    {
        if r >= n {
            self
        } else {
            self.naked_row(n, r as int, 0).naked_rows(n, r + 1)
        }
    }

    /// The board after a pass of naked singles.
    pub open spec fn naked_pass(self) -> Board {
        self.naked_rows(self.size, 0)
    }

    /// The board after `v` was looked for in row `r`: where one cell only
    /// can take it, it stands there.
    pub open spec fn hidden_row_at(self, r: int, v: u8) -> Board {
        if exists|c: int| self.hidden_in_row(r, c, v) {
            self.with_cell(r, choose|c: int| self.hidden_in_row(r, c, v), Cell::Filled(v))
        } else {
            self
        }
    }

    /// The board after the values above `done`, up to `top`, were looked for
    /// in row `r`, one after the other.
    pub open spec fn hidden_row(self, r: int, top: nat, done: nat) -> Board
        decreases top - done,
    {
        if done >= top {
            self
        } else {
            self.hidden_row_at(r, (done + 1) as u8).hidden_row(r, top, done + 1)
        }
    }

    /// The board after all values were looked for in the rows from `r` on.
    pub open spec fn hidden_rows(self, n: nat, top: nat, r: nat) -> Board
        decreases n - r,
    {
        if r >= n {
            self
        } else {
            self.hidden_row(r as int, top, 0).hidden_rows(n, top, r + 1)
        }
    }

    /// The board after `v` was looked for in column `c`.
    pub open spec fn hidden_col_at(self, c: int, v: u8) -> Board {
        if exists|r: int| self.hidden_in_col(r, c, v) {
            self.with_cell(choose|r: int| self.hidden_in_col(r, c, v), c, Cell::Filled(v))
        } else {
            self
        }
    }

    /// The board after the values above `done`, up to `top`, were looked for
    /// in column `c`.
    pub open spec fn hidden_col(self, c: int, top: nat, done: nat) -> Board
        decreases top - done,
    {
        if done >= top {
            self
        } else {
            self.hidden_col_at(c, (done + 1) as u8).hidden_col(c, top, done + 1)
        }
    }

    /// The board after all values were looked for in the columns from `c`
    /// on.
    pub open spec fn hidden_cols(self, n: nat, top: nat, c: nat) -> Board
        decreases n - c,
    {
        if c >= n {
            self
        } else {
            self.hidden_col(c as int, top, 0).hidden_cols(n, top, c + 1)
        }
    }

    /// `(r, c)` is the only cell of the box `(br, bc)` that can take `v`.
    pub open spec fn hidden_in_box_of(self, br: int, bc: int, r: int, c: int, v: u8) -> bool {
        self.in_box(br, bc, r, c) && self.hidden_in_box(r, c, v)
    }

    /// The board after `v` was looked for in the box `(br, bc)`.
    pub open spec fn hidden_box_at(self, br: int, bc: int, v: u8) -> Board {
        if exists|r: int, c: int| self.hidden_in_box_of(br, bc, r, c, v) {
            let (r, c) = choose|r: int, c: int| self.hidden_in_box_of(br, bc, r, c, v);
            self.with_cell(r, c, Cell::Filled(v))
        } else {
            self
        }
    }

    /// The board after the values above `done`, up to `top`, were looked for
    /// in the box `(br, bc)`.
    pub open spec fn hidden_box(self, br: int, bc: int, top: nat, done: nat) -> Board
        decreases top - done,
    {
        if done >= top {
            self
        } else {
            self.hidden_box_at(br, bc, (done + 1) as u8).hidden_box(br, bc, top, done + 1)
        }
    }

    /// The board after all values were looked for in the boxes of the band
    /// `br` from box `bc` on, on a board with `m` boxes to a band.
    pub open spec fn hidden_band(self, m: nat, top: nat, br: int, bc: nat) -> Board
        decreases m - bc,
    {
        if bc >= m {
            self
        } else {
            self.hidden_box(br, bc as int, top, 0).hidden_band(m, top, br, bc + 1)
        }
    }

    /// The board after all values were looked for in the boxes from the
    /// band `br` on.
    pub open spec fn hidden_bands(self, m: nat, top: nat, br: nat) -> Board
        decreases m - br,
    {
        if br >= m {
            self
        } else {
            self.hidden_band(m, top, br as int, 0).hidden_bands(m, top, br + 1)
        }
    }

    /// The board after a pass of hidden singles: rows, then columns, then
    /// boxes.
    pub open spec fn hidden_pass(self) -> Board {
        let top = top_of(self.size);
        self.hidden_rows(self.size, top, 0).hidden_cols(self.size, top, 0).hidden_bands(
            self.box_size,
            top,
            0,
        )
    }

    /// A set of one has its member for the taking.
    pub proof fn lemma_single_candidate(self, r: int, c: int, v: u8)
        requires
            self.naked_single(r, c),
            self.candidates(r, c).contains(v),
        ensures
            self.candidates(r, c).choose() == v,
    {
        self.lemma_candidates_finite(r, c);
        let set = self.candidates(r, c);
        let w = set.choose();
        assert(set.contains(w));
        if w != v {
            let rest = set.remove(v);
            assert(rest.contains(w));
            assert(rest.len() == 0);
            rest.lemma_len0_is_empty();
        }
    }

    /// In a row, a value has at most one cell that alone can take it.
    pub proof fn lemma_hidden_row_one(self, r: int, c: int, v: u8)
        requires
            self.hidden_in_row(r, c, v),
        ensures
            (choose|c2: int| self.hidden_in_row(r, c2, v)) == c,
    {
        let c2 = choose|c2: int| self.hidden_in_row(r, c2, v);
        assert(self.hidden_in_row(r, c2, v));
        if c2 != c {
            assert(self.candidate(r, c2, v));
        }
    }

    /// In a column, a value has at most one cell that alone can take it.
    pub proof fn lemma_hidden_col_one(self, r: int, c: int, v: u8)
        requires
            self.hidden_in_col(r, c, v),
        ensures
            (choose|r2: int| self.hidden_in_col(r2, c, v)) == r,
    {
        let r2 = choose|r2: int| self.hidden_in_col(r2, c, v);
        assert(self.hidden_in_col(r2, c, v));
        if r2 != r {
            assert(self.candidate(r2, c, v));
        }
    }

    /// In a box, a value has at most one cell that alone can take it.
    pub proof fn lemma_hidden_box_one(self, br: int, bc: int, r: int, c: int, v: u8)
        requires
            self.hidden_in_box_of(br, bc, r, c, v),
        ensures
            (choose|r2: int, c2: int| self.hidden_in_box_of(br, bc, r2, c2, v)) == (r, c),
    {
        let (r2, c2) = choose|r2: int, c2: int| self.hidden_in_box_of(br, bc, r2, c2, v);
        assert(self.hidden_in_box_of(br, bc, r2, c2, v));
        if r2 != r || c2 != c {
            assert(self.candidate(r2, c2, v));
            assert(self.in_box(
                r / (self.box_size as int),
                c / (self.box_size as int),
                r2,
                c2,
            ));
        }
    }
}

} // verus!
