use vstd::prelude::*;
use std::collections::HashSet;
use vstd::std_specs::iter::IteratorSpec;
use crate::arith::{lemma_box_number, lemma_box_span};
use crate::cell::Cell;
use crate::deduction::top_of;
use crate::grid::Board;
use crate::sudoku::Sudoku;

verus! {

broadcast use vstd::std_specs::hash::group_hash_axioms;

/// A rule of deduction: it looks at the board and fills in cells whose value
/// every solution shares.
pub trait SolvingStrategy {
    /// The strategy has something to fill in on `b`.
    spec fn finds(&self, b: Board) -> bool;

    /// The board that the strategy makes of `b`.
    spec fn outcome(&self, b: Board) -> Board;

    /// Fills in what the strategy can deduce, and says whether that was
    /// anything.
    fn apply(&self, sudoku: &mut Sudoku) -> (progress: bool)
        requires
            old(sudoku).wf(),
        ensures
            final(sudoku).wf(),
            final(sudoku)@.extends(old(sudoku)@),
            final(sudoku)@.keeps_solutions(old(sudoku)@),
            final(sudoku)@.fills_from(old(sudoku)@),
            old(sudoku)@.valid() ==> final(sudoku)@.valid(),
            final(sudoku)@ == self.outcome(old(sudoku)@),
            progress == (final(sudoku)@ != old(sudoku)@),
            progress == self.finds(old(sudoku)@),
    ;

    /// The strategy's name.
    spec fn label(&self) -> Seq<char>;

    /// The name under which the strategy is reported.
    fn name(&self) -> (res: &'static str)
        ensures
            res@ == self.label(),
    ;
}

/// The only member of a set of one.
pub(crate) fn only_member(set: &HashSet<u8>) -> (v: u8)
    requires
        set@.len() == 1,
    ensures
        set@.contains(v),
{
    for v in it: set.iter()
        invariant
            it.seq().unref().to_set() == set@,
            it.seq().len() == set@.len(),
            it.index() == 0,
    {
        assert(it.seq().unref()[0] == *v);
        return *v;
    }
    0
}

/// The members of a set, each once, in the order in which the set hands them
/// out.
pub(crate) fn members(set: &HashSet<u8>) -> (list: Vec<u8>)
    ensures
        list@.to_set() == set@,
        list@.no_duplicates(),
{
    let mut list: Vec<u8> = Vec::new();
    for v in it: set.iter()
        invariant
            it.seq().unref().to_set() == set@,
            it.seq().no_duplicates(),
            list@.len() == it.index(),
            forall|i: int|
                #![trigger list@[i]]
                #![trigger it.seq().unref()[i]]
                0 <= i < it.index() ==> list@[i] == it.seq().unref()[i],
    {
        list.push(*v);
    }
    assert(list@.to_set() =~= set@);
    list
}

/// The largest value of a board of side `size`, as far as a byte reaches.
pub(crate) fn top_value(size: usize) -> (top: u8)
    ensures
        top == top_of(size as nat),
{
    if size > 255 {
        255
    } else {
        size as u8
    }
}

/// A cell with one candidate only is filled with it.
pub struct NakedSingles;

impl SolvingStrategy for NakedSingles {
    /// Some cell has exactly one candidate.
    open spec fn finds(&self, b: Board) -> bool {
        exists|r: int, c: int| #[trigger] b.naked_single(r, c)
    }

    /// Every cell is looked at once, row by row, and filled if it then has
    /// one candidate only.
    open spec fn outcome(&self, b: Board) -> Board {
        b.naked_pass()
    }

    fn apply(&self, sudoku: &mut Sudoku) -> (progress: bool) {
        let ghost origin = sudoku@;
        let mut progress = false;
        let mut row: usize = 0;
        while row < sudoku.size
            invariant
                sudoku.wf(),
                sudoku@.extends(origin),
                sudoku@.keeps_solutions(origin),
                sudoku@.fills_from(origin),
                origin.valid() ==> sudoku@.valid(),
                sudoku@.empties() <= origin.empties(),
                row <= sudoku.size,
                sudoku.size == origin.size,
                sudoku@.naked_rows(origin.size, row as nat) == origin.naked_pass(),
                progress ==> sudoku@.empties() < origin.empties() && self.finds(origin),
                !progress ==> sudoku@ == origin && forall|r: int, c: int|
                    0 <= r < row ==> !#[trigger] origin.naked_single(r, c),
            decreases sudoku.size - row,
        {
            let mut col: usize = 0;
            while col < sudoku.size
                invariant
                    sudoku.wf(),
                    sudoku@.extends(origin),
                    sudoku@.keeps_solutions(origin),
                    sudoku@.fills_from(origin),
                    origin.valid() ==> sudoku@.valid(),
                    sudoku@.empties() <= origin.empties(),
                    row < sudoku.size,
                    col <= sudoku.size,
                    sudoku.size == origin.size,
                    sudoku@.naked_row(origin.size, row as int, col as nat).naked_rows(
                        origin.size,
                        (row + 1) as nat,
                    ) == origin.naked_pass(),
                    progress ==> sudoku@.empties() < origin.empties() && self.finds(origin),
                    !progress ==> sudoku@ == origin && forall|r: int, c: int|
                        0 <= r < row || (r == row && 0 <= c < col)
                            ==> !#[trigger] origin.naked_single(r, c),
                decreases sudoku.size - col,
            {
                let ghost before = sudoku@;
                assert(sudoku@.cells[row as int] == sudoku.grid@[row as int]@);
                assert(sudoku@.at(row as int, col as int) == sudoku.grid@[row as int]@[col as int]);
                proof {
                    before.lemma_candidates_finite(row as int, col as int);
                }
                if sudoku.grid[row][col].is_empty() {
                    let candidates = sudoku.get_candidates(row, col);
                    if candidates.len() == 1 {
                        let value = only_member(&candidates);
                        proof {
                            assert(before.naked_single(row as int, col as int));
                            assert(before.candidate(row as int, col as int, value));
                            assert forall|s: Board| #[trigger] s.solves(before) implies s.at(
                                row as int,
                                col as int,
                            ) == Cell::Filled(value) by {
                                before.lemma_naked_single_forced(s, row as int, col as int, value);
                            }
                            before.lemma_forced_step(origin, row as int, col as int, value);
                    before.lemma_candidate_step(origin, row as int, col as int, value);
                            before.lemma_single_candidate(row as int, col as int, value);
                        }
                        let placed = sudoku.set(row, col, value);
                        assert(placed is Ok);
                        progress = true;
                    }
                } else {
                    assert(before.candidates(row as int, col as int) =~= Set::empty());
                }
                col = col + 1;
            }
            row = row + 1;
        }
        proof {
            if !progress {
                assert forall|r: int, c: int| !#[trigger] origin.naked_single(r, c) by {
                    if origin.naked_single(r, c) {
                        assert(0 <= r < row);
                    }
                }
            } else {
                assert(sudoku@ != origin);
            }
        }
        progress
    }

    open spec fn label(&self) -> Seq<char> {
        "Naked Singles"@
    }

    fn name(&self) -> (res: &'static str) {
        "Naked Singles"
    }
}

/// Whether the empty cell at `(row, col)` can still take `value`.
pub(crate) fn can_take(sudoku: &Sudoku, row: usize, col: usize, value: u8) -> (res: bool)
    requires
        sudoku.wf(),
        sudoku@.has(row as int, col as int),
    ensures
        res == sudoku@.candidate(row as int, col as int, value),
{
    assert(sudoku@.cells[row as int] == sudoku.grid@[row as int]@);
    assert(sudoku@.at(row as int, col as int) == sudoku.grid@[row as int]@[col as int]);
    if sudoku.grid[row][col].is_empty() {
        let candidates = sudoku.get_candidates(row, col);
        candidates.contains(&value)
    } else {
        false
    }
}

/// A value that can go in one cell only of a row, a column or a box is put
/// there.
pub struct HiddenSingles;

impl SolvingStrategy for HiddenSingles {
    /// Some value has one cell only to go to in some row, column or box.
    open spec fn finds(&self, b: Board) -> bool {
        exists|r: int, c: int, v: u8| #[trigger] b.hidden_single(r, c, v)
    }

    /// Row after row, then column after column, then box after box, each
    /// value in turn is put where alone it can then go.
    open spec fn outcome(&self, b: Board) -> Board {
        b.hidden_pass()
    }

    fn apply(&self, sudoku: &mut Sudoku) -> (progress: bool) {
        let ghost origin = sudoku@;
        let ghost top = top_of(origin.size);
        let mut progress = false;
        let mut row: usize = 0;
        while row < sudoku.size
            invariant
                sudoku.wf(),
                sudoku.size == origin.size,
                sudoku.box_size == origin.box_size,
                top == top_of(origin.size),
                sudoku@.hidden_rows(origin.size, top, row as nat) == origin.hidden_rows(
                    origin.size,
                    top,
                    0,
                ),
                sudoku@.extends(origin),
                sudoku@.keeps_solutions(origin),
                sudoku@.fills_from(origin),
                origin.valid() ==> sudoku@.valid(),
                sudoku@.empties() <= origin.empties(),
                row <= sudoku.size,
                progress ==> sudoku@.empties() < origin.empties() && self.finds(origin),
                !progress ==> sudoku@ == origin && forall|r: int, c: int, v: u8|
                    0 <= r < row ==> !#[trigger] origin.hidden_in_row(r, c, v),
            decreases sudoku.size - row,
        {
            let ghost before = sudoku@;
            let step = self.apply_to_row(sudoku, row);
            proof {
                sudoku@.lemma_extends_trans(before, origin);
                sudoku@.lemma_keeps_solutions_trans(before, origin);
                sudoku@.lemma_fills_trans(before, origin);
                if step && !progress {
                    let (c, v) = choose|c: int, v: u8| #[trigger]
                        origin.hidden_in_row(row as int, c, v);
                    assert(origin.hidden_single(row as int, c, v));
                }
            }
            progress = progress || step;
            row = row + 1;
        }
        let ghost rowed = sudoku@;
        let mut col: usize = 0;
        while col < sudoku.size
            invariant
                sudoku.wf(),
                sudoku.size == origin.size,
                sudoku.box_size == origin.box_size,
                top == top_of(origin.size),
                rowed == origin.hidden_rows(origin.size, top, 0),
                sudoku@.hidden_cols(origin.size, top, col as nat) == rowed.hidden_cols(
                    origin.size,
                    top,
                    0,
                ),
                sudoku@.extends(origin),
                sudoku@.keeps_solutions(origin),
                sudoku@.fills_from(origin),
                origin.valid() ==> sudoku@.valid(),
                sudoku@.empties() <= origin.empties(),
                col <= sudoku.size,
                progress ==> sudoku@.empties() < origin.empties() && self.finds(origin),
                !progress ==> sudoku@ == origin && (forall|r: int, c: int, v: u8|
                    0 <= r < origin.size ==> !#[trigger] origin.hidden_in_row(r, c, v)) && (forall|
                    r: int,
                    c: int,
                    v: u8,
                | 0 <= c < col ==> !#[trigger] origin.hidden_in_col(r, c, v)),
            decreases sudoku.size - col,
        {
            let ghost before = sudoku@;
            let step = self.apply_to_col(sudoku, col);
            proof {
                sudoku@.lemma_extends_trans(before, origin);
                sudoku@.lemma_keeps_solutions_trans(before, origin);
                sudoku@.lemma_fills_trans(before, origin);
                if step && !progress {
                    let (r, v) = choose|r: int, v: u8| #[trigger]
                        origin.hidden_in_col(r, col as int, v);
                    assert(origin.hidden_single(r, col as int, v));
                }
            }
            progress = progress || step;
            col = col + 1;
        }
        let ghost columned = sudoku@;
        let mut box_row: usize = 0;
        while box_row < sudoku.box_size
            invariant
                sudoku.wf(),
                sudoku.size == origin.size,
                sudoku.box_size == origin.box_size,
                top == top_of(origin.size),
                columned == origin.hidden_rows(origin.size, top, 0).hidden_cols(
                    origin.size,
                    top,
                    0,
                ),
                sudoku@.hidden_bands(origin.box_size, top, box_row as nat)
                    == columned.hidden_bands(origin.box_size, top, 0),
                sudoku@.extends(origin),
                sudoku@.keeps_solutions(origin),
                sudoku@.fills_from(origin),
                origin.valid() ==> sudoku@.valid(),
                sudoku@.empties() <= origin.empties(),
                box_row <= sudoku.box_size,
                progress ==> sudoku@.empties() < origin.empties() && self.finds(origin),
                !progress ==> sudoku@ == origin && (forall|r: int, c: int, v: u8|
                    0 <= r < origin.size ==> !#[trigger] origin.hidden_in_row(r, c, v)) && (forall|
                    r: int,
                    c: int,
                    v: u8,
                | 0 <= c < origin.size ==> !#[trigger] origin.hidden_in_col(r, c, v)) && (forall|
                    br: int,
                    bc: int,
                    r: int,
                    c: int,
                    v: u8,
                |
                    #![trigger origin.in_box(br, bc, r, c), origin.hidden_in_box(r, c, v)]
                    0 <= br < box_row && 0 <= bc < origin.box_size && origin.in_box(br, bc, r, c)
                        ==> !origin.hidden_in_box(r, c, v)),
            decreases sudoku.box_size - box_row,
        {
            let mut box_col: usize = 0;
            while box_col < sudoku.box_size
                invariant
                    sudoku.wf(),
                    sudoku.size == origin.size,
                    sudoku.box_size == origin.box_size,
                    top == top_of(origin.size),
                    columned == origin.hidden_rows(origin.size, top, 0).hidden_cols(
                        origin.size,
                        top,
                        0,
                    ),
                    sudoku@.hidden_band(
                        origin.box_size,
                        top,
                        box_row as int,
                        box_col as nat,
                    ).hidden_bands(origin.box_size, top, (box_row + 1) as nat)
                        == columned.hidden_bands(origin.box_size, top, 0),
                    sudoku@.extends(origin),
                    sudoku@.keeps_solutions(origin),
                    sudoku@.fills_from(origin),
                    origin.valid() ==> sudoku@.valid(),
                    sudoku@.empties() <= origin.empties(),
                    box_row < sudoku.box_size,
                    box_col <= sudoku.box_size,
                    progress ==> sudoku@.empties() < origin.empties() && self.finds(origin),
                    !progress ==> sudoku@ == origin && (forall|r: int, c: int, v: u8|
                        0 <= r < origin.size ==> !#[trigger] origin.hidden_in_row(r, c, v))
                        && (forall|r: int, c: int, v: u8|
                        0 <= c < origin.size ==> !#[trigger] origin.hidden_in_col(r, c, v))
                        && (forall|br: int, bc: int, r: int, c: int, v: u8|
                        #![trigger origin.in_box(br, bc, r, c), origin.hidden_in_box(r, c, v)]
                        ((0 <= br < box_row && 0 <= bc < origin.box_size) || (br == box_row && 0
                            <= bc < box_col)) && origin.in_box(br, bc, r, c)
                            ==> !origin.hidden_in_box(r, c, v)),
                decreases sudoku.box_size - box_col,
            {
                let ghost before = sudoku@;
                let step = self.apply_to_box(sudoku, box_row, box_col);
                proof {
                    sudoku@.lemma_extends_trans(before, origin);
                    sudoku@.lemma_keeps_solutions_trans(before, origin);
                sudoku@.lemma_fills_trans(before, origin);
                    if step && !progress {
                        let (r, c, v) = choose|r: int, c: int, v: u8|
                            origin.in_box(box_row as int, box_col as int, r, c)
                                && #[trigger] origin.hidden_in_box(r, c, v);
                        assert(origin.hidden_single(r, c, v));
                    }
                }
                progress = progress || step;
                box_col = box_col + 1;
            }
            box_row = box_row + 1;
        }
        proof {
            if !progress {
                assert forall|r: int, c: int, v: u8| !#[trigger] origin.hidden_single(r, c, v) by {
                    if origin.has(r, c) {
                        let bs = origin.box_size as int;
                        assert(bs > 0) by (nonlinear_arith)
                            requires
                                bs >= 0,
                                origin.size == bs * bs,
                                origin.size > 0,
                        ;
                        lemma_box_number(bs, r);
                        lemma_box_number(bs, c);
                        assert(origin.in_box(r / bs, c / bs, r, c));
                    }
                }
            } else {
                assert(sudoku@ != origin);
            }
        }
        progress
    }

    open spec fn label(&self) -> Seq<char> {
        "Hidden Singles"@
    }

    fn name(&self) -> (res: &'static str) {
        "Hidden Singles"
    }
}

impl HiddenSingles {
    /// Puts each value that has one cell only to go to in row `row` there.
    pub fn apply_to_row(&self, sudoku: &mut Sudoku, row: usize) -> (progress: bool)
        requires
            old(sudoku).wf(),
            row < old(sudoku).size,
        ensures
            final(sudoku).wf(),
            final(sudoku)@.extends(old(sudoku)@),
            final(sudoku)@.keeps_solutions(old(sudoku)@),
            final(sudoku)@.fills_from(old(sudoku)@),
            old(sudoku)@.valid() ==> final(sudoku)@.valid(),
            final(sudoku)@.empties() <= old(sudoku)@.empties(),
            progress ==> final(sudoku)@.empties() < old(sudoku)@.empties(),
            !progress ==> final(sudoku)@ == old(sudoku)@,
            progress == exists|c: int, v: u8| #[trigger] old(sudoku)@.hidden_in_row(row as int, c, v),
            final(sudoku)@ == old(sudoku)@.hidden_row(row as int, top_of(old(sudoku)@.size), 0),
    {
        let ghost origin = sudoku@;
        let mut progress = false;
        let top = top_value(sudoku.size);
        let mut done: u8 = 0;
        proof {
            origin.lemma_extends_same();
        }
        while done < top
            invariant
                sudoku.wf(),
                sudoku@.extends(origin),
                sudoku@.keeps_solutions(origin),
                sudoku@.fills_from(origin),
                origin.valid() ==> sudoku@.valid(),
                sudoku@.empties() <= origin.empties(),
                row < sudoku.size,
                done <= top,
                sudoku.size == origin.size,
                sudoku@.hidden_row(row as int, top as nat, done as nat) == origin.hidden_row(
                    row as int,
                    top as nat,
                    0,
                ),
                top == top_of(sudoku.size as nat),
                progress ==> sudoku@.empties() < origin.empties() && exists|c: int, v: u8| #[trigger]
                    origin.hidden_in_row(row as int, c, v),
                !progress ==> sudoku@ == origin && forall|c: int, v: u8|
                    v <= done ==> !#[trigger] origin.hidden_in_row(row as int, c, v),
            decreases top - done,
        {
            let value: u8 = done + 1;
            let ghost before = sudoku@;
            let mut possible_cells: Vec<usize> = Vec::new();
            let mut col: usize = 0;
            while col < sudoku.size
                invariant
                    sudoku.wf(),
                    sudoku@ == before,
                    row < sudoku.size,
                    col <= sudoku.size,
                    forall|i: int|
                        0 <= i < possible_cells@.len() ==> (#[trigger] possible_cells@[i]) < col
                            && before.candidate(row as int, possible_cells@[i] as int, value),
                    forall|i: int, j: int|
                        0 <= i < j < possible_cells@.len() ==> possible_cells@[i]
                            < possible_cells@[j],
                    forall|c: int|
                        0 <= c < col && #[trigger] before.candidate(row as int, c, value)
                            ==> exists|i: int|
                            0 <= i < possible_cells@.len() && #[trigger] possible_cells@[i] == c,
                decreases sudoku.size - col,
            {
                if can_take(sudoku, row, col, value) {
                    let ghost listed = possible_cells@;
                    possible_cells.push(col);
                    proof {
                        assert forall|c: int|
                            0 <= c < col + 1 && #[trigger] before.candidate(
                                row as int,
                                c,
                                value,
                            ) implies exists|i: int|
                            0 <= i < possible_cells@.len() && #[trigger] possible_cells@[i] == c by {
                            if c < col {
                                let i = choose|i: int|
                                    0 <= i < listed.len() && #[trigger] listed[i] == c;
                                assert(possible_cells@[i] == c);
                            } else {
                                assert(possible_cells@[listed.len() as int] == c);
                            }
                        }
                    }
                }
                col = col + 1;
            }
            if possible_cells.len() == 1 {
                let col = possible_cells[0];
                proof {
                    assert forall|c2: int| 0 <= c2 < before.size && c2 != col implies !#[trigger]
                        before.candidate(row as int, c2, value) by {
                        if before.candidate(row as int, c2, value) {
                            let i = choose|i: int|
                                0 <= i < possible_cells@.len() && #[trigger] possible_cells@[i]
                                    == c2;
                        }
                    }
                    assert(before.hidden_in_row(row as int, col as int, value));
                    assert forall|s: Board| #[trigger] s.solves(before) implies s.at(
                        row as int,
                        col as int,
                    ) == Cell::Filled(value) by {
                        before.lemma_hidden_in_row_forced(s, row as int, col as int, value);
                    }
                    before.lemma_forced_step(origin, row as int, col as int, value);
                    before.lemma_candidate_step(origin, row as int, col as int, value);
                    before.lemma_hidden_row_one(row as int, col as int, value);
                }
                let placed = sudoku.set(row, col, value);
                assert(placed is Ok);
                progress = true;
            } else {
                proof {
                    assert forall|c: int| !#[trigger] before.hidden_in_row(
                        row as int,
                        c,
                        value,
                    ) by {
                        if before.hidden_in_row(row as int, c, value) {
                            let i = choose|i: int|
                                0 <= i < possible_cells@.len() && #[trigger] possible_cells@[i]
                                    == c;
                            let a = possible_cells@[0];
                            let b = possible_cells@[1];
                            assert(a < b);
                            assert(before.candidate(row as int, a as int, value));
                            assert(before.candidate(row as int, b as int, value));
                        }
                    }
                }
            }
            done = done + 1;
        }
        progress
    }

    /// Puts each value that has one cell only to go to in column `col` there.
    pub fn apply_to_col(&self, sudoku: &mut Sudoku, col: usize) -> (progress: bool)
        requires
            old(sudoku).wf(),
            col < old(sudoku).size,
        ensures
            final(sudoku).wf(),
            final(sudoku)@.extends(old(sudoku)@),
            final(sudoku)@.keeps_solutions(old(sudoku)@),
            final(sudoku)@.fills_from(old(sudoku)@),
            old(sudoku)@.valid() ==> final(sudoku)@.valid(),
            final(sudoku)@.empties() <= old(sudoku)@.empties(),
            progress ==> final(sudoku)@.empties() < old(sudoku)@.empties(),
            !progress ==> final(sudoku)@ == old(sudoku)@,
            progress == exists|r: int, v: u8| #[trigger] old(sudoku)@.hidden_in_col(r, col as int, v),
            final(sudoku)@ == old(sudoku)@.hidden_col(col as int, top_of(old(sudoku)@.size), 0),
    {
        let ghost origin = sudoku@;
        let mut progress = false;
        let top = top_value(sudoku.size);
        let mut done: u8 = 0;
        proof {
            origin.lemma_extends_same();
        }
        while done < top
            invariant
                sudoku.wf(),
                sudoku@.extends(origin),
                sudoku@.keeps_solutions(origin),
                sudoku@.fills_from(origin),
                origin.valid() ==> sudoku@.valid(),
                sudoku@.empties() <= origin.empties(),
                col < sudoku.size,
                done <= top,
                sudoku.size == origin.size,
                sudoku@.hidden_col(col as int, top as nat, done as nat) == origin.hidden_col(
                    col as int,
                    top as nat,
                    0,
                ),
                top == top_of(sudoku.size as nat),
                progress ==> sudoku@.empties() < origin.empties() && exists|r: int, v: u8| #[trigger]
                    origin.hidden_in_col(r, col as int, v),
                !progress ==> sudoku@ == origin && forall|r: int, v: u8|
                    v <= done ==> !#[trigger] origin.hidden_in_col(r, col as int, v),
            decreases top - done,
        {
            let value: u8 = done + 1;
            let ghost before = sudoku@;
            let mut possible_cells: Vec<usize> = Vec::new();
            let mut row: usize = 0;
            while row < sudoku.size
                invariant
                    sudoku.wf(),
                    sudoku@ == before,
                    col < sudoku.size,
                    row <= sudoku.size,
                    forall|i: int|
                        0 <= i < possible_cells@.len() ==> (#[trigger] possible_cells@[i]) < row
                            && before.candidate(possible_cells@[i] as int, col as int, value),
                    forall|i: int, j: int|
                        0 <= i < j < possible_cells@.len() ==> possible_cells@[i]
                            < possible_cells@[j],
                    forall|r: int|
                        0 <= r < row && #[trigger] before.candidate(r, col as int, value)
                            ==> exists|i: int|
                            0 <= i < possible_cells@.len() && #[trigger] possible_cells@[i] == r,
                decreases sudoku.size - row,
            {
                if can_take(sudoku, row, col, value) {
                    let ghost listed = possible_cells@;
                    possible_cells.push(row);
                    proof {
                        assert forall|r: int|
                            0 <= r < row + 1 && #[trigger] before.candidate(
                                r,
                                col as int,
                                value,
                            ) implies exists|i: int|
                            0 <= i < possible_cells@.len() && #[trigger] possible_cells@[i] == r by {
                            if r < row {
                                let i = choose|i: int|
                                    0 <= i < listed.len() && #[trigger] listed[i] == r;
                                assert(possible_cells@[i] == r);
                            } else {
                                assert(possible_cells@[listed.len() as int] == r);
                            }
                        }
                    }
                }
                row = row + 1;
            }
            if possible_cells.len() == 1 {
                let row = possible_cells[0];
                proof {
                    assert forall|r2: int| 0 <= r2 < before.size && r2 != row implies !#[trigger]
                        before.candidate(r2, col as int, value) by {
                        if before.candidate(r2, col as int, value) {
                            let i = choose|i: int|
                                0 <= i < possible_cells@.len() && #[trigger] possible_cells@[i]
                                    == r2;
                        }
                    }
                    assert(before.hidden_in_col(row as int, col as int, value));
                    assert forall|s: Board| #[trigger] s.solves(before) implies s.at(
                        row as int,
                        col as int,
                    ) == Cell::Filled(value) by {
                        before.lemma_hidden_in_col_forced(s, row as int, col as int, value);
                    }
                    before.lemma_forced_step(origin, row as int, col as int, value);
                    before.lemma_candidate_step(origin, row as int, col as int, value);
                    before.lemma_hidden_col_one(row as int, col as int, value);
                }
                let placed = sudoku.set(row, col, value);
                assert(placed is Ok);
                progress = true;
            } else {
                proof {
                    assert forall|r: int| !#[trigger] before.hidden_in_col(
                        r,
                        col as int,
                        value,
                    ) by {
                        if before.hidden_in_col(r, col as int, value) {
                            let i = choose|i: int|
                                0 <= i < possible_cells@.len() && #[trigger] possible_cells@[i]
                                    == r;
                            let a = possible_cells@[0];
                            let b = possible_cells@[1];
                            assert(a < b);
                            assert(before.candidate(a as int, col as int, value));
                            assert(before.candidate(b as int, col as int, value));
                        }
                    }
                }
            }
            done = done + 1;
        }
        progress
    }

    /// Puts each value that has one cell only to go to in the box
    /// `(box_row, box_col)` there.
    pub fn apply_to_box(&self, sudoku: &mut Sudoku, box_row: usize, box_col: usize) -> (progress:
        bool)
        requires
            old(sudoku).wf(),
            box_row < old(sudoku).box_size,
            box_col < old(sudoku).box_size,
        ensures
            final(sudoku).wf(),
            final(sudoku)@.extends(old(sudoku)@),
            final(sudoku)@.keeps_solutions(old(sudoku)@),
            final(sudoku)@.fills_from(old(sudoku)@),
            old(sudoku)@.valid() ==> final(sudoku)@.valid(),
            final(sudoku)@.empties() <= old(sudoku)@.empties(),
            progress ==> final(sudoku)@.empties() < old(sudoku)@.empties(),
            !progress ==> final(sudoku)@ == old(sudoku)@,
            progress == exists|r: int, c: int, v: u8|
                old(sudoku)@.in_box(box_row as int, box_col as int, r, c) && #[trigger] old(
                    sudoku,
                )@.hidden_in_box(r, c, v),
            final(sudoku)@ == old(sudoku)@.hidden_box(
                box_row as int,
                box_col as int,
                top_of(old(sudoku)@.size),
                0,
            ),
    {
        let ghost origin = sudoku@;
        let mut progress = false;
        let top = top_value(sudoku.size);
        let bs = sudoku.box_size;
        proof {
            origin.lemma_extends_same();
            lemma_box_span(bs as int, box_row as int);
            lemma_box_span(bs as int, box_col as int);
            origin.lemma_box_cells(box_row as int, box_col as int);
        }
        let row_start = box_row * bs;
        let col_start = box_col * bs;
        let mut done: u8 = 0;
        while done < top
            invariant
                sudoku.wf(),
                sudoku@.extends(origin),
                sudoku@.keeps_solutions(origin),
                sudoku@.fills_from(origin),
                origin.valid() ==> sudoku@.valid(),
                sudoku@.empties() <= origin.empties(),
                bs == sudoku.box_size,
                box_row < bs,
                box_col < bs,
                row_start == box_row * bs,
                col_start == box_col * bs,
                row_start + bs <= sudoku.size,
                col_start + bs <= sudoku.size,
                done <= top,
                sudoku.size == origin.size,
                sudoku@.hidden_box(box_row as int, box_col as int, top as nat, done as nat)
                    == origin.hidden_box(box_row as int, box_col as int, top as nat, 0),
                top == top_of(sudoku.size as nat),
                forall|r: int, c: int|
                    #[trigger] origin.in_box(box_row as int, box_col as int, r, c)
                        <==> origin.spans(box_row as int, box_col as int, r, c),
                progress ==> sudoku@.empties() < origin.empties() && exists|r: int, c: int, v: u8|
                    origin.in_box(box_row as int, box_col as int, r, c)
                        && #[trigger] origin.hidden_in_box(r, c, v),
                !progress ==> sudoku@ == origin && forall|r: int, c: int, v: u8|
                    origin.in_box(box_row as int, box_col as int, r, c) && v <= done
                        ==> !#[trigger] origin.hidden_in_box(r, c, v),
            decreases top - done,
        {
            let value: u8 = done + 1;
            let ghost before = sudoku@;
            proof {
                before.lemma_box_cells(box_row as int, box_col as int);
            }
            let mut possible_cells: Vec<(usize, usize)> = Vec::new();
            let mut row: usize = row_start;
            while row < row_start + bs
                invariant
                    sudoku.wf(),
                    sudoku@ == before,
                    bs == sudoku.box_size,
                    row_start == box_row * bs,
                    col_start == box_col * bs,
                    row_start + bs <= sudoku.size,
                    col_start + bs <= sudoku.size,
                    row_start <= row <= row_start + bs,
                    forall|r: int, c: int|
                        #[trigger] before.in_box(box_row as int, box_col as int, r, c)
                            <==> before.spans(box_row as int, box_col as int, r, c),
                    forall|i: int|
                        0 <= i < possible_cells@.len() ==> {
                            let cell = #[trigger] possible_cells@[i];
                            &&& before.in_box(
                                box_row as int,
                                box_col as int,
                                cell.0 as int,
                                cell.1 as int,
                            )
                            &&& cell.0 < row
                            &&& before.candidate(cell.0 as int, cell.1 as int, value)
                        },
                    forall|i: int, j: int|
                        0 <= i < j < possible_cells@.len() ==> possible_cells@[i]
                            != possible_cells@[j],
                    forall|r: int, c: int|
                        before.in_box(box_row as int, box_col as int, r, c) && r < row
                            && #[trigger] before.candidate(r, c, value) ==> exists|i: int|
                            0 <= i < possible_cells@.len() && #[trigger] possible_cells@[i] == (
                                r as usize,
                                c as usize,
                            ),
                decreases row_start + bs - row,
            {
                let mut col: usize = col_start;
                while col < col_start + bs
                    invariant
                        sudoku.wf(),
                        sudoku@ == before,
                        bs == sudoku.box_size,
                        row_start == box_row * bs,
                        col_start == box_col * bs,
                        row_start + bs <= sudoku.size,
                        col_start + bs <= sudoku.size,
                        row_start <= row < row_start + bs,
                        col_start <= col <= col_start + bs,
                        forall|r: int, c: int|
                            #[trigger] before.in_box(box_row as int, box_col as int, r, c)
                                <==> before.spans(box_row as int, box_col as int, r, c),
                        forall|i: int|
                            0 <= i < possible_cells@.len() ==> {
                                let cell = #[trigger] possible_cells@[i];
                                &&& before.in_box(
                                    box_row as int,
                                    box_col as int,
                                    cell.0 as int,
                                    cell.1 as int,
                                )
                                &&& Board::before(
                                    cell.0 as int,
                                    cell.1 as int,
                                    row as int,
                                    col as int,
                                )
                                &&& before.candidate(cell.0 as int, cell.1 as int, value)
                            },
                        forall|i: int, j: int|
                            0 <= i < j < possible_cells@.len() ==> possible_cells@[i]
                                != possible_cells@[j],
                        forall|r: int, c: int|
                            before.in_box(box_row as int, box_col as int, r, c) && Board::before(
                                r,
                                c,
                                row as int,
                                col as int,
                            ) && #[trigger] before.candidate(r, c, value) ==> exists|i: int|
                                0 <= i < possible_cells@.len() && #[trigger] possible_cells@[i]
                                    == (r as usize, c as usize),
                    decreases col_start + bs - col,
                {
                    assert(before.spans(box_row as int, box_col as int, row as int, col as int));
                    if can_take(sudoku, row, col, value) {
                        let ghost listed = possible_cells@;
                        possible_cells.push((row, col));
                        proof {
                            assert forall|r: int, c: int|
                                before.in_box(box_row as int, box_col as int, r, c)
                                    && Board::before(r, c, row as int, col + 1)
                                    && #[trigger] before.candidate(
                                    r,
                                    c,
                                    value,
                                ) implies exists|i: int|
                                0 <= i < possible_cells@.len() && #[trigger] possible_cells@[i]
                                    == (r as usize, c as usize) by {
                                if Board::before(r, c, row as int, col as int) {
                                    let i = choose|i: int|
                                        0 <= i < listed.len() && #[trigger] listed[i] == (
                                            r as usize,
                                            c as usize,
                                        );
                                    assert(possible_cells@[i] == (r as usize, c as usize));
                                } else {
                                    assert(possible_cells@[listed.len() as int] == (
                                        r as usize,
                                        c as usize,
                                    ));
                                }
                            }
                        }
                    }
                    col = col + 1;
                }
                row = row + 1;
            }
            if possible_cells.len() == 1 {
                let (row, col) = possible_cells[0];
                proof {
                    assert(before.in_box(box_row as int, box_col as int, row as int, col as int));
                    assert forall|r2: int, c2: int|
                        before.in_box(
                            row as int / (before.box_size as int),
                            col as int / (before.box_size as int),
                            r2,
                            c2,
                        ) && (r2 != row || c2 != col) implies !#[trigger] before.candidate(
                        r2,
                        c2,
                        value,
                    ) by {
                        if before.candidate(r2, c2, value) {
                            let i = choose|i: int|
                                0 <= i < possible_cells@.len() && #[trigger] possible_cells@[i]
                                    == (r2 as usize, c2 as usize);
                        }
                    }
                    assert(before.hidden_in_box(row as int, col as int, value));
                    assert forall|s: Board| #[trigger] s.solves(before) implies s.at(
                        row as int,
                        col as int,
                    ) == Cell::Filled(value) by {
                        before.lemma_hidden_in_box_forced(s, row as int, col as int, value);
                    }
                    before.lemma_forced_step(origin, row as int, col as int, value);
                    before.lemma_candidate_step(origin, row as int, col as int, value);
                    assert(before.hidden_in_box_of(
                        box_row as int,
                        box_col as int,
                        row as int,
                        col as int,
                        value,
                    ));
                    before.lemma_hidden_box_one(
                        box_row as int,
                        box_col as int,
                        row as int,
                        col as int,
                        value,
                    );
                }
                let placed = sudoku.set(row, col, value);
                assert(placed is Ok);
                progress = true;
            } else {
                proof {
                    assert forall|r: int, c: int|
                        before.in_box(
                            box_row as int,
                            box_col as int,
                            r,
                            c,
                        ) implies !#[trigger] before.hidden_in_box(r, c, value) by {
                        if before.hidden_in_box(r, c, value) {
                            let i = choose|i: int|
                                0 <= i < possible_cells@.len() && #[trigger] possible_cells@[i]
                                    == (r as usize, c as usize);
                            let a = possible_cells@[0];
                            let b = possible_cells@[1];
                            assert(a != b);
                            assert(before.candidate(a.0 as int, a.1 as int, value));
                            assert(before.candidate(b.0 as int, b.1 as int, value));
                            assert(before.in_box(
                                box_row as int,
                                box_col as int,
                                a.0 as int,
                                a.1 as int,
                            ));
                            assert(before.in_box(
                                box_row as int,
                                box_col as int,
                                b.0 as int,
                                b.1 as int,
                            ));
                        }
                    }
                }
            }
            done = done + 1;
        }
        progress
    }
}

/// Two cells of a unit that share their two candidates. The strategy is
/// declared and fills in nothing.
pub struct NakedPairs;

impl SolvingStrategy for NakedPairs {
    open spec fn finds(&self, b: Board) -> bool {
        false
    }

    open spec fn outcome(&self, b: Board) -> Board {
        b
    }

    fn apply(&self, sudoku: &mut Sudoku) -> (progress: bool) {
        proof {
            sudoku@.lemma_extends_same();
        }
        false
    }

    open spec fn label(&self) -> Seq<char> {
        "Naked Pairs"@
    }

    fn name(&self) -> (res: &'static str) {
        "Naked Pairs"
    }
}

/// The candidates of a value in a box that lie in one row or column. The
/// strategy is declared and fills in nothing.
pub struct PointingPairs;

impl SolvingStrategy for PointingPairs {
    open spec fn finds(&self, b: Board) -> bool {
        false
    }

    open spec fn outcome(&self, b: Board) -> Board {
        b
    }

    fn apply(&self, sudoku: &mut Sudoku) -> (progress: bool) {
        proof {
            sudoku@.lemma_extends_same();
        }
        false
    }

    open spec fn label(&self) -> Seq<char> {
        "Pointing Pairs"@
    }

    fn name(&self) -> (res: &'static str) {
        "Pointing Pairs"
    }
}

/// The candidates of a value in a row or column that lie in one box. The
/// strategy is declared and fills in nothing.
pub struct BoxLineReduction;

impl SolvingStrategy for BoxLineReduction {
    open spec fn finds(&self, b: Board) -> bool {
        false
    }

    open spec fn outcome(&self, b: Board) -> Board {
        b
    }

    fn apply(&self, sudoku: &mut Sudoku) -> (progress: bool) {
        proof {
            sudoku@.lemma_extends_same();
        }
        false
    }

    open spec fn label(&self) -> Seq<char> {
        "Box/Line Reduction"@
    }

    fn name(&self) -> (res: &'static str) {
        "Box/Line Reduction"
    }
}

/// A value confined to two columns in two rows. The strategy is declared and
/// fills in nothing.
pub struct XWing;

impl SolvingStrategy for XWing {
    open spec fn finds(&self, b: Board) -> bool {
        false
    }

    open spec fn outcome(&self, b: Board) -> Board {
        b
    }

    fn apply(&self, sudoku: &mut Sudoku) -> (progress: bool) {
        proof {
            sudoku@.lemma_extends_same();
        }
        false
    }

    open spec fn label(&self) -> Seq<char> {
        "X-Wing"@
    }

    fn name(&self) -> (res: &'static str) {
        "X-Wing"
    }
}

/// A value confined to three columns in three rows. The strategy is declared
/// and fills in nothing.
pub struct Swordfish;

impl SolvingStrategy for Swordfish {
    open spec fn finds(&self, b: Board) -> bool {
        false
    }

    open spec fn outcome(&self, b: Board) -> Board {
        b
    }

    fn apply(&self, sudoku: &mut Sudoku) -> (progress: bool) {
        proof {
            sudoku@.lemma_extends_same();
        }
        false
    }

    open spec fn label(&self) -> Seq<char> {
        "Swordfish"@
    }

    fn name(&self) -> (res: &'static str) {
        "Swordfish"
    }
}

/// The strategies in the order in which a solver applies them: naked
/// singles, hidden singles, then those that fill in nothing.
pub open spec fn standard_strategies(list: Seq<Box<dyn SolvingStrategy>>) -> bool {
    &&& list.len() == 7
    &&& list[0].label() == "Naked Singles"@
    &&& list[1].label() == "Hidden Singles"@
    &&& list[2].label() == "Naked Pairs"@
    &&& list[3].label() == "Pointing Pairs"@
    &&& list[4].label() == "Box/Line Reduction"@
    &&& list[5].label() == "X-Wing"@
    &&& list[6].label() == "Swordfish"@
    &&& forall|b: Board| #[trigger] list[0].finds(b) == NakedSingles.finds(b)
    &&& forall|b: Board| #[trigger] list[1].finds(b) == HiddenSingles.finds(b)
    &&& forall|i: int, b: Board| 2 <= i < 7 ==> !#[trigger] list[i].finds(b)
    &&& forall|b: Board| #[trigger] list[0].outcome(b) == b.naked_pass()
    &&& forall|b: Board| #[trigger] list[1].outcome(b) == b.hidden_pass()
    &&& forall|i: int, b: Board| 2 <= i < 7 ==> #[trigger] list[i].outcome(b) == b
}

/// All strategies, in the order in which a solver applies them.
pub fn get_all_strategies() -> (res: Vec<Box<dyn SolvingStrategy>>)
    ensures
        standard_strategies(res@),
{
    let res: Vec<Box<dyn SolvingStrategy>> = vec![
        Box::new(NakedSingles),
        Box::new(HiddenSingles),
        Box::new(NakedPairs),
        Box::new(PointingPairs),
        Box::new(BoxLineReduction),
        Box::new(XWing),
        Box::new(Swordfish),
    ];
    res
}

} // verus!
