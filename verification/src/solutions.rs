use vstd::prelude::*;
use vstd::arithmetic::div_mod::{lemma_fundamental_div_mod, lemma_mod_bound};
use crate::arith::{lemma_box_number, lemma_box_span};
use crate::values::lemma_all_values_taken;
use crate::cell::Cell;
use crate::grid::Board;

verus! {

impl Board {
    /// On a valid board two different cells of one row, column or box never
    /// hold the same value.
    pub proof fn lemma_valid_mates(self, r1: int, c1: int, r2: int, c2: int)
        requires
            self.wf(),
            self.valid(),
            self.has(r1, c1),
            self.mates(r1, c1, r2, c2),
            r1 != r2 || c1 != c2,
        ensures
            !self.at(r1, c1).clashes(self.at(r2, c2)),
            !self.at(r2, c2).clashes(self.at(r1, c1)),
    {
        if r1 == r2 {
            assert(self.row_ok(r1));
            if c1 < c2 {
                assert(!self.at(r1, c1).clashes(self.at(r1, c2)));
            } else {
                assert(!self.at(r1, c2).clashes(self.at(r1, c1)));
            }
        } else if c1 == c2 {
            assert(self.col_ok(c1));
            if r1 < r2 {
                assert(!self.at(r1, c1).clashes(self.at(r2, c1)));
            } else {
                assert(!self.at(r2, c1).clashes(self.at(r1, c1)));
            }
        } else {
            let bs = self.box_size as int;
            assert(bs > 0) by (nonlinear_arith)
                requires
                    bs >= 0,
                    self.size == bs * bs,
                    self.size > 0,
            ;
            lemma_box_number(bs, r1);
            lemma_box_number(bs, c1);
            assert(self.box_ok(r1 / bs, c1 / bs));
            assert(self.in_box(r1 / bs, c1 / bs, r1, c1));
            assert(self.in_box(r1 / bs, c1 / bs, r2, c2));
            assert(!self.at(r1, c1).clashes(self.at(r2, c2)));
        }
    }

    /// A board that has a solution is valid.
    pub proof fn lemma_solved_is_valid(self, s: Board)
        requires
            s.solves(self),
        ensures
            self.valid(),
    {
        assert forall|r: int| 0 <= r < self.size implies #[trigger] self.row_ok(r) by {
            assert(s.row_ok(r));
            assert forall|c1: int, c2: int|
                #![trigger self.at(r, c1), self.at(r, c2)]
                0 <= c1 < c2 < self.size implies !self.at(r, c1).clashes(self.at(r, c2)) by {
                if self.at(r, c1).clashes(self.at(r, c2)) {
                    assert(s.at(r, c1) == self.at(r, c1));
                    assert(s.at(r, c2) == self.at(r, c2));
                    assert(!s.at(r, c1).clashes(s.at(r, c2)));
                }
            }
        }
        assert forall|c: int| 0 <= c < self.size implies #[trigger] self.col_ok(c) by {
            assert(s.col_ok(c));
            assert forall|r1: int, r2: int|
                #![trigger self.at(r1, c), self.at(r2, c)]
                0 <= r1 < r2 < self.size implies !self.at(r1, c).clashes(self.at(r2, c)) by {
                if self.at(r1, c).clashes(self.at(r2, c)) {
                    assert(s.at(r1, c) == self.at(r1, c));
                    assert(s.at(r2, c) == self.at(r2, c));
                    assert(!s.at(r1, c).clashes(s.at(r2, c)));
                }
            }
        }
        assert forall|br: int, bc: int|
            0 <= br < self.box_size && 0 <= bc < self.box_size implies #[trigger] self.box_ok(
            br,
            bc,
        ) by {
            assert(s.box_ok(br, bc));
            assert forall|r1: int, c1: int, r2: int, c2: int|
                #![trigger self.at(r1, c1), self.at(r2, c2)]
                self.in_box(br, bc, r1, c1) && self.in_box(br, bc, r2, c2) && (r1 != r2 || c1
                    != c2) implies !self.at(r1, c1).clashes(self.at(r2, c2)) by {
                if self.at(r1, c1).clashes(self.at(r2, c2)) {
                    assert(s.at(r1, c1) == self.at(r1, c1));
                    assert(s.at(r2, c2) == self.at(r2, c2));
                    assert(s.in_box(br, bc, r1, c1));
                    assert(s.in_box(br, bc, r2, c2));
                    assert(!s.at(r1, c1).clashes(s.at(r2, c2)));
                }
            }
        }
    }

    /// What a solution holds at an empty cell is one of the cell's
    /// candidates, and it stands there as a filled cell.
    pub proof fn lemma_solution_picks_candidate(self, s: Board, r: int, c: int)
        requires
            s.solves(self),
            self.has(r, c),
            self.at(r, c) is Empty,
        ensures
            s.at(r, c) is Filled,
            self.candidate(r, c, s.at(r, c)->Filled_0),
    {
        assert(!(s.at(r, c) is Empty));
        assert(!(s.at(r, c) is Given));
        assert(s.at(r, c).fits(s.size));
        let v = s.at(r, c)->Filled_0;
        let bs = self.box_size as int;
        if self.row_has(r, v) {
            let c2 = choose|c2: int|
                0 <= c2 < self.size && (#[trigger] self.at(r, c2)).spec_value() == Some(v);
            assert(s.at(r, c2) == self.at(r, c2));
            assert(s.mates(r, c, r, c2));
            s.lemma_valid_mates(r, c, r, c2);
        }
        if self.col_has(c, v) {
            let r2 = choose|r2: int|
                0 <= r2 < self.size && (#[trigger] self.at(r2, c)).spec_value() == Some(v);
            assert(s.at(r2, c) == self.at(r2, c));
            assert(s.mates(r, c, r2, c));
            s.lemma_valid_mates(r, c, r2, c);
        }
        if self.box_has(r / bs, c / bs, v) {
            let (r2, c2) = choose|r2: int, c2: int|
                self.in_box(r / bs, c / bs, r2, c2) && (#[trigger] self.at(
                    r2,
                    c2,
                )).spec_value() == Some(v);
            assert(s.at(r2, c2) == self.at(r2, c2));
            assert(s.mates(r, c, r2, c2));
            s.lemma_valid_mates(r, c, r2, c2);
        }
    }

    /// A solution of a board is a solution of every board between the two.
    pub proof fn lemma_solves_between(self, s: Board, r: int, c: int)
        requires
            s.solves(self),
            self.wf(),
            self.has(r, c),
            self.at(r, c) is Empty,
        ensures
            s.solves(self.with_cell(r, c, s.at(r, c))),
    {
        self.lemma_solution_picks_candidate(s, r, c);
        let m = self.with_cell(r, c, s.at(r, c));
        assert forall|r2: int, c2: int| m.has(r2, c2) implies if m.at(r2, c2) is Empty {
            !(#[trigger] s.at(r2, c2) is Given)
        } else {
            s.at(r2, c2) == m.at(r2, c2)
        } by {
            if r2 == r && c2 == c {
            } else {
                assert(m.at(r2, c2) == self.at(r2, c2));
            }
        }
    }

    /// Extending a board twice extends it.
    pub proof fn lemma_extends_trans(self, m: Board, b: Board)
        requires
            self.extends(m),
            m.extends(b),
        ensures
            self.extends(b),
    {
        assert forall|r: int, c: int| b.has(r, c) implies if b.at(r, c) is Empty {
            !(#[trigger] self.at(r, c) is Given)
        } else {
            self.at(r, c) == b.at(r, c)
        } by {
            assert(m.has(r, c));
            assert(b.at(r, c) is Empty ==> !(m.at(r, c) is Given));
        }
    }

    /// Filling an empty cell extends the board.
    pub proof fn lemma_fill_extends(self, r: int, c: int, v: u8)
        requires
            self.wf(),
            self.has(r, c),
            self.at(r, c) is Empty,
        ensures
            self.with_cell(r, c, Cell::Filled(v)).extends(self),
    {
        let m = self.with_cell(r, c, Cell::Filled(v));
        assert forall|r2: int, c2: int| self.has(r2, c2) implies if self.at(r2, c2) is Empty {
            !(#[trigger] m.at(r2, c2) is Given)
        } else {
            m.at(r2, c2) == self.at(r2, c2)
        } by {
            if r2 == r && c2 == c {
            } else {
                assert(m.at(r2, c2) == self.at(r2, c2));
            }
        }
    }

    /// A complete board has no solution but itself.
    pub proof fn lemma_complete_solution(self, s: Board)
        requires
            self.wf(),
            self.complete(),
            s.solves(self),
        ensures
            s == self,
    {
        assert forall|r: int| 0 <= r < self.size implies #[trigger] s.cells[r] == self.cells[r] by {
            assert forall|c: int| 0 <= c < self.size implies s.cells[r][c] == self.cells[r][c] by {
                assert(s.at(r, c) == self.at(r, c));
            }
            assert(s.cells[r] =~= self.cells[r]);
        }
        assert(s.cells =~= self.cells);
    }

    /// Emptying a cell and filling it again as it was gives the board back.
    pub proof fn lemma_with_cell_undo(self, r: int, c: int, cell: Cell)
        requires
            self.wf(),
            self.has(r, c),
        ensures
            self.with_cell(r, c, cell).with_cell(r, c, self.at(r, c)) == self,
    {
        let m = self.with_cell(r, c, cell).with_cell(r, c, self.at(r, c));
        assert(m.cells =~~= self.cells);
    }

    /// Keeping solutions carries over two steps.
    pub proof fn lemma_keeps_solutions_trans(self, m: Board, b: Board)
        requires
            self.keeps_solutions(m),
            m.keeps_solutions(b),
        ensures
            self.keeps_solutions(b),
    {
        assert forall|s: Board| #[trigger] s.solves(b) implies s.solves(self) by {
            assert(s.solves(m));
        }
    }

    /// Every solution holds the only candidate of a cell that has but one.
    pub proof fn lemma_naked_single_forced(self, s: Board, r: int, c: int, v: u8)
        requires
            s.solves(self),
            self.naked_single(r, c),
            self.candidates(r, c).contains(v),
        ensures
            s.at(r, c) == Cell::Filled(v),
    {
        self.lemma_candidates_finite(r, c);
        self.lemma_solution_picks_candidate(s, r, c);
        let w = s.at(r, c)->Filled_0;
        assert(self.candidates(r, c).contains(w));
        if w != v {
            let rest = self.candidates(r, c).remove(v);
            assert(rest.contains(w));
            assert(rest.len() == 0);
            rest.lemma_len0_is_empty();
        }
    }

    /// A complete row without a repeated value holds every value.
    pub proof fn lemma_full_row_has(self, r: int, v: u8)
        requires
            self.wf(),
            self.complete(),
            self.row_ok(r),
            0 <= r < self.size,
            1 <= v <= self.size,
        ensures
            self.row_has(r, v),
    {
        let f = Seq::new(self.size, |c: int| self.at(r, c).spec_value().unwrap() as int);
        assert forall|i: int| 0 <= i < f.len() implies 1 <= #[trigger] f[i] <= f.len() by {
            assert(self.at(r, i).fits(self.size));
            assert(!(self.at(r, i) is Empty));
        }
        assert forall|i: int, j: int| 0 <= i < j < f.len() implies f[i] != f[j] by {
            assert(!self.at(r, i).clashes(self.at(r, j)));
            assert(!(self.at(r, i) is Empty));
            assert(!(self.at(r, j) is Empty));
        }
        lemma_all_values_taken(f, v as int);
        let i = choose|i: int| 0 <= i < f.len() && f[i] == v;
        assert(!(self.at(r, i) is Empty));
        assert(self.at(r, i).spec_value() == Some(v));
    }

    /// A complete column without a repeated value holds every value.
    pub proof fn lemma_full_col_has(self, c: int, v: u8)
        requires
            self.wf(),
            self.complete(),
            self.col_ok(c),
            0 <= c < self.size,
            1 <= v <= self.size,
        ensures
            self.col_has(c, v),
    {
        let f = Seq::new(self.size, |r: int| self.at(r, c).spec_value().unwrap() as int);
        assert forall|i: int| 0 <= i < f.len() implies 1 <= #[trigger] f[i] <= f.len() by {
            assert(self.at(i, c).fits(self.size));
            assert(!(self.at(i, c) is Empty));
        }
        assert forall|i: int, j: int| 0 <= i < j < f.len() implies f[i] != f[j] by {
            assert(!self.at(i, c).clashes(self.at(j, c)));
            assert(!(self.at(i, c) is Empty));
            assert(!(self.at(j, c) is Empty));
        }
        lemma_all_values_taken(f, v as int);
        let i = choose|i: int| 0 <= i < f.len() && f[i] == v;
        assert(!(self.at(i, c) is Empty));
        assert(self.at(i, c).spec_value() == Some(v));
    }

    /// A complete box without a repeated value holds every value.
    pub proof fn lemma_full_box_has(self, br: int, bc: int, v: u8)
        requires
            self.wf(),
            self.complete(),
            self.box_ok(br, bc),
            0 <= br < self.box_size,
            0 <= bc < self.box_size,
            1 <= v <= self.size,
        ensures
            self.box_has(br, bc, v),
    {
        let bs = self.box_size as int;
        lemma_box_span(bs, br);
        lemma_box_span(bs, bc);
        self.lemma_box_cells(br, bc);
        let f = Seq::new(
            self.size,
            |k: int| self.at(br * bs + k / bs, bc * bs + k % bs).spec_value().unwrap() as int,
        );
        assert forall|i: int| 0 <= i < f.len() implies 1 <= #[trigger] f[i] <= f.len() by {
            let r = br * bs + i / bs;
            let c = bc * bs + i % bs;
            self.lemma_box_cell(br, bc, i);
            assert(self.at(r, c).fits(self.size));
            assert(!(self.at(r, c) is Empty));
        }
        assert forall|i: int, j: int| 0 <= i < j < f.len() implies f[i] != f[j] by {
            let r1 = br * bs + i / bs;
            let c1 = bc * bs + i % bs;
            let r2 = br * bs + j / bs;
            let c2 = bc * bs + j % bs;
            self.lemma_box_cell(br, bc, i);
            self.lemma_box_cell(br, bc, j);
            lemma_fundamental_div_mod(i, bs);
            lemma_fundamental_div_mod(j, bs);
            assert(r1 != r2 || c1 != c2);
            assert(!self.at(r1, c1).clashes(self.at(r2, c2)));
            assert(!(self.at(r1, c1) is Empty));
            assert(!(self.at(r2, c2) is Empty));
        }
        lemma_all_values_taken(f, v as int);
        let k = choose|k: int| 0 <= k < f.len() && f[k] == v;
        let r = br * bs + k / bs;
        let c = bc * bs + k % bs;
        self.lemma_box_cell(br, bc, k);
        assert(!(self.at(r, c) is Empty));
        assert(self.at(r, c).spec_value() == Some(v));
    }

    /// The `k`-th cell of a box, counted row by row, lies in the box.
    pub proof fn lemma_box_cell(self, br: int, bc: int, k: int)
        requires
            self.wf(),
            0 <= br < self.box_size,
            0 <= bc < self.box_size,
            0 <= k < self.size,
        ensures
            self.in_box(
                br,
                bc,
                br * self.box_size + k / (self.box_size as int),
                bc * self.box_size + k % (self.box_size as int),
            ),
    {
        let bs = self.box_size as int;
        lemma_box_span(bs, br);
        lemma_box_span(bs, bc);
        self.lemma_box_cells(br, bc);
        lemma_box_number(bs, k);
        lemma_mod_bound(k, bs);
        assert(self.spans(br, bc, br * bs + k / bs, bc * bs + k % bs));
    }

    /// Every solution puts a value where alone in its row it can go.
    pub proof fn lemma_hidden_in_row_forced(self, s: Board, r: int, c: int, v: u8)
        requires
            s.solves(self),
            self.hidden_in_row(r, c, v),
        ensures
            s.at(r, c) == Cell::Filled(v),
    {
        assert(s.row_ok(r));
        s.lemma_full_row_has(r, v);
        let c2 = choose|c2: int|
            0 <= c2 < s.size && (#[trigger] s.at(r, c2)).spec_value() == Some(v);
        if self.at(r, c2) is Empty {
            self.lemma_solution_picks_candidate(s, r, c2);
            assert(self.candidate(r, c2, v));
            self.lemma_solution_picks_candidate(s, r, c);
        } else {
            assert(s.at(r, c2) == self.at(r, c2));
            assert(self.row_has(r, v));
        }
    }

    /// Every solution puts a value where alone in its column it can go.
    pub proof fn lemma_hidden_in_col_forced(self, s: Board, r: int, c: int, v: u8)
        requires
            s.solves(self),
            self.hidden_in_col(r, c, v),
        ensures
            s.at(r, c) == Cell::Filled(v),
    {
        assert(s.col_ok(c));
        s.lemma_full_col_has(c, v);
        let r2 = choose|r2: int|
            0 <= r2 < s.size && (#[trigger] s.at(r2, c)).spec_value() == Some(v);
        if self.at(r2, c) is Empty {
            self.lemma_solution_picks_candidate(s, r2, c);
            assert(self.candidate(r2, c, v));
            self.lemma_solution_picks_candidate(s, r, c);
        } else {
            assert(s.at(r2, c) == self.at(r2, c));
            assert(self.col_has(c, v));
        }
    }

    /// Every solution puts a value where alone in its box it can go.
    pub proof fn lemma_hidden_in_box_forced(self, s: Board, r: int, c: int, v: u8)
        requires
            s.solves(self),
            self.hidden_in_box(r, c, v),
        ensures
            s.at(r, c) == Cell::Filled(v),
    {
        let bs = self.box_size as int;
        assert(bs > 0) by (nonlinear_arith)
            requires
                bs >= 0,
                self.size == bs * bs,
                self.size > 0,
        ;
        lemma_box_number(bs, r);
        lemma_box_number(bs, c);
        let br = r / bs;
        let bc = c / bs;
        assert(s.box_ok(br, bc));
        s.lemma_full_box_has(br, bc, v);
        let (r2, c2) = choose|r2: int, c2: int|
            s.in_box(br, bc, r2, c2) && (#[trigger] s.at(r2, c2)).spec_value() == Some(v);
        assert(self.in_box(br, bc, r2, c2));
        if self.at(r2, c2) is Empty {
            self.lemma_solution_picks_candidate(s, r2, c2);
            assert(self.candidate(r2, c2, v));
            self.lemma_solution_picks_candidate(s, r, c);
        } else {
            assert(s.at(r2, c2) == self.at(r2, c2));
            assert(self.box_has(br, bc, v));
        }
    }

    /// Filling in what every solution holds keeps the solutions and leaves
    /// one empty cell less.
    pub proof fn lemma_forced_step(self, origin: Board, r: int, c: int, v: u8)
        requires
            self.wf(),
            self.extends(origin),
            self.keeps_solutions(origin),
            self.has(r, c),
            self.at(r, c) is Empty,
            forall|s: Board| #[trigger] s.solves(self) ==> s.at(r, c) == Cell::Filled(v),
        ensures
            self.with_cell(r, c, Cell::Filled(v)).extends(origin),
            self.with_cell(r, c, Cell::Filled(v)).keeps_solutions(origin),
            self.with_cell(r, c, Cell::Filled(v)).empties() + 1 == self.empties(),
    {
        let next = self.with_cell(r, c, Cell::Filled(v));
        self.lemma_fill_extends(r, c, v);
        next.lemma_extends_trans(self, origin);
        assert forall|s: Board| #[trigger] s.solves(origin) implies s.solves(next) by {
            assert(s.solves(self));
            self.lemma_solves_between(s, r, c);
        }
        self.lemma_empties_with_cell(r, c, Cell::Filled(v));
    }

    /// A board that extends another has no more empty cells in a row.
    pub proof fn lemma_extends_row_empties(self, b: Board, r: int, n: nat)
        requires
            self.extends(b),
            0 <= r < b.size,
            n <= b.size,
        ensures
            self.row_empties(r, n) <= b.row_empties(r, n),
        decreases n,
    {
        if n > 0 {
            self.lemma_extends_row_empties(b, r, (n - 1) as nat);
            assert(b.has(r, n - 1));
            assert(b.at(r, n - 1) is Empty || self.at(r, n - 1) == b.at(r, n - 1));
        }
    }

    /// A board that extends another has no more empty cells in its first
    /// rows.
    pub proof fn lemma_extends_rows_empties(self, b: Board, n: nat)
        requires
            self.extends(b),
            n <= b.size,
        ensures
            self.rows_empties(n) <= b.rows_empties(n),
        decreases n,
    {
        if n > 0 {
            self.lemma_extends_rows_empties(b, (n - 1) as nat);
            self.lemma_extends_row_empties(b, n - 1, b.size);
        }
    }

    /// A board that extends another has no more empty cells.
    pub proof fn lemma_extends_empties(self, b: Board)
        requires
            self.extends(b),
        ensures
            self.empties() <= b.empties(),
    {
        self.lemma_extends_rows_empties(b, b.size);
    }

    /// A board extends itself as long as it holds no given cell where it is
    /// empty, which no board does.
    pub proof fn lemma_extends_same(self)
        ensures
            self.extends(self),
            self.keeps_solutions(self),
    {
    }

    /// Emptying the cell that was filled last gives the board back.
    pub proof fn lemma_with_cell_undo_fill(self, origin: Board, r: int, c: int, v: u8)
        requires
            origin.wf(),
            origin.has(r, c),
            origin.at(r, c) is Empty,
            self == origin.with_cell(r, c, Cell::Filled(v)),
        ensures
            self.with_cell(r, c, Cell::Empty) == origin,
    {
        origin.lemma_with_cell_undo(r, c, Cell::Filled(v));
    }

    /// Where only the boxes on the diagonal hold values and no box repeats
    /// one, no row or column does either.
    pub proof fn lemma_diagonal_valid(self)
        requires
            self.wf(),
            self.diagonal(),
            self.boxes_valid(),
        ensures
            self.valid(),
    {
        let bs = self.box_size as int;
        assert forall|r: int| 0 <= r < self.size implies #[trigger] self.row_ok(r) by {
            assert(bs > 0) by (nonlinear_arith)
                requires
                    bs >= 0,
                    self.size == bs * bs,
                    self.size > 0,
            ;
            lemma_box_number(bs, r);
            assert(self.box_ok(r / bs, r / bs));
            assert forall|c1: int, c2: int|
                #![trigger self.at(r, c1), self.at(r, c2)]
                0 <= c1 < c2 < self.size implies !self.at(r, c1).clashes(self.at(r, c2)) by {
                if self.at(r, c1).clashes(self.at(r, c2)) {
                    assert(self.in_box(r / bs, r / bs, r, c1));
                    assert(self.in_box(r / bs, r / bs, r, c2));
                }
            }
        }
        assert forall|c: int| 0 <= c < self.size implies #[trigger] self.col_ok(c) by {
            assert(bs > 0) by (nonlinear_arith)
                requires
                    bs >= 0,
                    self.size == bs * bs,
                    self.size > 0,
            ;
            lemma_box_number(bs, c);
            assert(self.box_ok(c / bs, c / bs));
            assert forall|r1: int, r2: int|
                #![trigger self.at(r1, c), self.at(r2, c)]
                0 <= r1 < r2 < self.size implies !self.at(r1, c).clashes(self.at(r2, c)) by {
                if self.at(r1, c).clashes(self.at(r2, c)) {
                    assert(self.in_box(c / bs, c / bs, r1, c));
                    assert(self.in_box(c / bs, c / bs, r2, c));
                }
            }
        }
    }

    /// A candidate on a board that extends another is a candidate on the
    /// other.
    pub proof fn lemma_candidate_of_extension(self, b: Board, r: int, c: int, v: u8)
        requires
            self.extends(b),
            self.candidate(r, c, v),
        ensures
            b.candidate(r, c, v),
    {
        let bs = b.box_size as int;
        assert(b.has(r, c));
        assert(b.at(r, c) is Empty) by {
            if !(b.at(r, c) is Empty) {
                assert(self.at(r, c) == b.at(r, c));
            }
        }
        if b.row_has(r, v) {
            let c2 = choose|c2: int|
                0 <= c2 < b.size && (#[trigger] b.at(r, c2)).spec_value() == Some(v);
            assert(self.at(r, c2) == b.at(r, c2));
            assert(self.row_has(r, v));
        }
        if b.col_has(c, v) {
            let r2 = choose|r2: int|
                0 <= r2 < b.size && (#[trigger] b.at(r2, c)).spec_value() == Some(v);
            assert(self.at(r2, c) == b.at(r2, c));
            assert(self.col_has(c, v));
        }
        if b.box_has(r / bs, c / bs, v) {
            let (r2, c2) = choose|r2: int, c2: int|
                b.in_box(r / bs, c / bs, r2, c2) && (#[trigger] b.at(r2, c2)).spec_value()
                    == Some(v);
            assert(self.at(r2, c2) == b.at(r2, c2));
            assert(self.in_box(r / bs, c / bs, r2, c2));
            assert(self.box_has(r / bs, c / bs, v));
        }
    }

    /// A valid board with a candidate put into its cell is valid.
    pub proof fn lemma_candidate_keeps_valid(self, r: int, c: int, v: u8)
        requires
            self.wf(),
            self.valid(),
            self.candidate(r, c, v),
        ensures
            self.with_cell(r, c, Cell::Filled(v)).valid(),
    {
        let next = self.with_cell(r, c, Cell::Filled(v));
        let bs = self.box_size as int;
        assert forall|r2: int, c2: int| self.has(r2, c2) && (r2 != r || c2 != c) implies next.at(
            r2,
            c2,
        ) == #[trigger] self.at(r2, c2) by {}
        assert(next.at(r, c) == Cell::Filled(v));
        assert forall|r0: int| 0 <= r0 < next.size implies #[trigger] next.row_ok(r0) by {
            assert(self.row_ok(r0));
            assert forall|c1: int, c2: int|
                #![trigger next.at(r0, c1), next.at(r0, c2)]
                0 <= c1 < c2 < next.size implies !next.at(r0, c1).clashes(next.at(r0, c2)) by {
                let a = self.at(r0, c1);
                let b = self.at(r0, c2);
                assert(!a.clashes(b));
                if r0 == r && (c1 == c || c2 == c) && next.at(r0, c1).clashes(next.at(r0, c2)) {
                    let other = if c1 == c {
                        c2
                    } else {
                        c1
                    };
                    assert(self.at(r, other).spec_value() == Some(v));
                    assert(self.row_has(r, v));
                }
            }
        }
        assert forall|c0: int| 0 <= c0 < next.size implies #[trigger] next.col_ok(c0) by {
            assert(self.col_ok(c0));
            assert forall|r1: int, r2: int|
                #![trigger next.at(r1, c0), next.at(r2, c0)]
                0 <= r1 < r2 < next.size implies !next.at(r1, c0).clashes(next.at(r2, c0)) by {
                let a = self.at(r1, c0);
                let b = self.at(r2, c0);
                assert(!a.clashes(b));
                if c0 == c && (r1 == r || r2 == r) && next.at(r1, c0).clashes(next.at(r2, c0)) {
                    let other = if r1 == r {
                        r2
                    } else {
                        r1
                    };
                    assert(self.at(other, c).spec_value() == Some(v));
                    assert(self.col_has(c, v));
                }
            }
        }
        assert forall|br: int, bc: int|
            0 <= br < next.box_size && 0 <= bc < next.box_size implies #[trigger] next.box_ok(
            br,
            bc,
        ) by {
            assert(self.box_ok(br, bc));
            assert forall|r1: int, c1: int, r2: int, c2: int|
                #![trigger next.at(r1, c1), next.at(r2, c2)]
                next.in_box(br, bc, r1, c1) && next.in_box(br, bc, r2, c2) && (r1 != r2 || c1
                    != c2) implies !next.at(r1, c1).clashes(next.at(r2, c2)) by {
                assert(self.in_box(br, bc, r1, c1));
                assert(self.in_box(br, bc, r2, c2));
                let a = self.at(r1, c1);
                let b = self.at(r2, c2);
                assert(!a.clashes(b));
                if next.at(r1, c1).clashes(next.at(r2, c2)) {
                    if r1 == r && c1 == c {
                        assert(self.at(r2, c2).spec_value() == Some(v));
                        assert(self.in_box(r / bs, c / bs, r2, c2));
                        assert(self.box_has(r / bs, c / bs, v));
                    } else if r2 == r && c2 == c {
                        assert(self.at(r1, c1).spec_value() == Some(v));
                        assert(self.in_box(r / bs, c / bs, r1, c1));
                        assert(self.box_has(r / bs, c / bs, v));
                    }
                }
            }
        }
    }

    /// Putting a candidate into its cell fills the board from where it
    /// started as before, and leaves a valid board valid.
    pub proof fn lemma_candidate_step(self, origin: Board, r: int, c: int, v: u8)
        requires
            self.wf(),
            self.extends(origin),
            self.fills_from(origin),
            self.candidate(r, c, v),
        ensures
            self.with_cell(r, c, Cell::Filled(v)).fills_from(origin),
            self.valid() ==> self.with_cell(r, c, Cell::Filled(v)).valid(),
    {
        let next = self.with_cell(r, c, Cell::Filled(v));
        self.lemma_candidate_of_extension(origin, r, c, v);
        assert forall|r2: int, c2: int|
            origin.has(r2, c2) && origin.at(r2, c2) is Empty implies match #[trigger] next.at(
            r2,
            c2,
        ) {
            Cell::Filled(w) => origin.candidate(r2, c2, w),
            _ => true,
        } by {
            if r2 == r && c2 == c {
            } else {
                assert(next.at(r2, c2) == self.at(r2, c2));
            }
        }
        if self.valid() {
            self.lemma_candidate_keeps_valid(r, c, v);
        }
    }

    /// Filling a board from another that was filled from a third fills it
    /// from the third.
    pub proof fn lemma_fills_trans(self, m: Board, b: Board)
        requires
            self.extends(m),
            m.extends(b),
            self.fills_from(m),
            m.fills_from(b),
        ensures
            self.fills_from(b),
    {
        assert forall|r: int, c: int| b.has(r, c) && b.at(r, c) is Empty implies match #[trigger] self.at(
            r,
            c,
        ) {
            Cell::Filled(v) => b.candidate(r, c, v),
            _ => true,
        } by {
            assert(m.has(r, c));
            if m.at(r, c) is Empty {
                if self.at(r, c) is Filled {
                    self.lemma_filled_candidate(m, b, r, c);
                }
            } else {
                assert(self.at(r, c) == m.at(r, c));
                assert(match m.at(r, c) {
                    Cell::Filled(v) => b.candidate(r, c, v),
                    _ => true,
                });
            }
        }
    }

    /// What was filled in from a board that extends another is a candidate
    /// of the other.
    pub proof fn lemma_filled_candidate(self, m: Board, b: Board, r: int, c: int)
        requires
            m.extends(b),
            self.fills_from(m),
            m.has(r, c),
            m.at(r, c) is Empty,
            self.at(r, c) is Filled,
        ensures
            b.candidate(r, c, self.at(r, c)->Filled_0),
    {
        let v = self.at(r, c)->Filled_0;
        assert(match self.at(r, c) {
            Cell::Filled(w) => m.candidate(r, c, w),
            _ => true,
        });
        m.lemma_candidate_of_extension(b, r, c, v);
    }

    /// `full` with a filled cell in place of every clue that `self` lacks.
    pub open spec fn refilled(self, full: Board) -> Board {
        Board {
            cells: Seq::new(
                full.size,
                |r: int|
                    Seq::new(
                        full.size,
                        |c: int|
                            if self.at(r, c) is Empty {
                                match full.at(r, c) {
                                    Cell::Given(v) => Cell::Filled(v),
                                    other => other,
                                }
                            } else {
                                full.at(r, c)
                            },
                    ),
            ),
            ..full
        }
    }

    /// A solved board from which cells are taken away can be solved again,
    /// whatever filled its cells, and is valid.
    pub proof fn lemma_thinned_can_be_solved(self, full: Board)
        requires
            full.wf(),
            full.complete(),
            full.valid(),
            self.thins(full),
        ensures
            self.refilled(full).solves(self),
            self.solvable(),
            self.valid(),
    {
        let s = self.refilled(full);
        assert forall|r: int, c: int| full.has(r, c) implies (#[trigger] s.at(r, c)).spec_value()
            == full.at(r, c).spec_value() && !(s.at(r, c) is Empty) && (self.at(r, c) is Empty
            ==> !(s.at(r, c) is Given)) && (!(self.at(r, c) is Empty) ==> s.at(r, c) == self.at(
            r,
            c,
        )) by {
            assert(!(full.at(r, c) is Empty));
            assert(self.at(r, c) is Empty || self.at(r, c) == full.at(r, c));
        }
        assert forall|r: int, c: int| s.has(r, c) implies (#[trigger] s.at(r, c)).fits(s.size) by {
            assert(full.at(r, c).fits(full.size));
        }
        assert forall|r: int| 0 <= r < s.size implies #[trigger] s.row_ok(r) by {
            assert(full.row_ok(r));
            assert forall|c1: int, c2: int|
                #![trigger s.at(r, c1), s.at(r, c2)]
                0 <= c1 < c2 < s.size implies !s.at(r, c1).clashes(s.at(r, c2)) by {
                assert(!full.at(r, c1).clashes(full.at(r, c2)));
            }
        }
        assert forall|c: int| 0 <= c < s.size implies #[trigger] s.col_ok(c) by {
            assert(full.col_ok(c));
            assert forall|r1: int, r2: int|
                #![trigger s.at(r1, c), s.at(r2, c)]
                0 <= r1 < r2 < s.size implies !s.at(r1, c).clashes(s.at(r2, c)) by {
                assert(!full.at(r1, c).clashes(full.at(r2, c)));
            }
        }
        assert forall|br: int, bc: int|
            0 <= br < s.box_size && 0 <= bc < s.box_size implies #[trigger] s.box_ok(br, bc) by {
            assert(full.box_ok(br, bc));
            assert forall|r1: int, c1: int, r2: int, c2: int|
                #![trigger s.at(r1, c1), s.at(r2, c2)]
                s.in_box(br, bc, r1, c1) && s.in_box(br, bc, r2, c2) && (r1 != r2 || c1
                    != c2) implies !s.at(r1, c1).clashes(s.at(r2, c2)) by {
                assert(full.in_box(br, bc, r1, c1));
                assert(full.in_box(br, bc, r2, c2));
                assert(!full.at(r1, c1).clashes(full.at(r2, c2)));
            }
        }
        assert(s.solves(self));
        self.lemma_solved_is_valid(s);
    }
}

} // verus!
