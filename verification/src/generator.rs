use vstd::prelude::*;
use vstd::seq_lib::group_to_multiset_ensures;
use crate::arith::{lemma_box_number, lemma_box_span};
use crate::cell::Cell;
use crate::grid::Board;
use crate::random::{random_in, random_ratio, shuffle};
use crate::solver::{deduce, SudokuSolver};
use crate::sudoku::{is_square, Sudoku};
use crate::text::lemma_flat_index;

verus! {

/// How hard a generated puzzle is to be: the harder, the more cells are
/// taken away.
#[derive(Debug, Clone, Copy)]
pub enum Difficulty {
    Easy,
    Medium,
    Hard,
    Expert,
}

impl Difficulty {
    /// The share of the cells, in hundredths, that is taken away.
    pub open spec fn percent(self) -> nat {
        match self {
            Difficulty::Easy => 40,
            Difficulty::Medium => 50,
            Difficulty::Hard => 60,
            Difficulty::Expert => 70,
        }
    }
}

/// The number of cells taken away before chance plays its part.
pub open spec fn base_removals(size: nat, difficulty: Difficulty) -> nat {
    size * size * difficulty.percent() / 100
}

/// By how much chance may move the number of cells taken away: a twentieth
/// of the base.
pub open spec fn removal_slack(size: nat, difficulty: Difficulty) -> nat {
    base_removals(size, difficulty) / 20
}

/// The least number of cells that a generated puzzle lacks.
pub open spec fn least_removals(size: nat, difficulty: Difficulty) -> nat {
    (base_removals(size, difficulty) - removal_slack(size, difficulty)) as nat
}

/// The greatest number of cells that a generated puzzle lacks. Where chance
/// plays a part, seventeen cells at least are left.
pub open spec fn most_removals(size: nat, difficulty: Difficulty) -> nat {
    let most = base_removals(size, difficulty) + removal_slack(size, difficulty);
    if removal_slack(size, difficulty) > 0 && most > size * size - 17 {
        (size * size - 17) as nat
    } else {
        most
    }
}

/// A board as generation starts from it: only the boxes on the diagonal
/// hold values, each of them all values, and no cell is a clue.
pub open spec fn is_start(start: Board, size: nat) -> bool {
    &&& start.wf()
    &&& start.size == size
    &&& start.no_givens()
    &&& start.diagonal()
    &&& start.valid()
    &&& forall|r: int, c: int|
        start.has(r, c) && r / (start.box_size as int) == c / (start.box_size as int) ==> !(
        #[trigger] start.at(r, c) is Empty)
}

/// How far the taking away of cells has got: the board, and the number of
/// cells taken so far.
pub struct Thinning {
    pub board: Board,
    pub removed: nat,
}

/// The partner of a place under a half turn of the board.
pub open spec fn partner(b: Board, p: (usize, usize)) -> (int, int) {
    (b.size - 1 - p.0, b.size - 1 - p.1)
}

/// The step at place `p`: as long as fewer than `target` cells are taken, a
/// cell that holds a value is emptied, and, if `coin` came up and the number
/// allows, its partner under a half turn too.
pub open spec fn thin_at(t: Thinning, p: (usize, usize), coin: bool, target: nat) -> Thinning {
    if t.removed >= target || t.board.at(p.0 as int, p.1 as int) is Empty {
        t
    } else {
        let cleared = t.board.with_cell(p.0 as int, p.1 as int, Cell::Empty);
        let q = partner(t.board, p);
        if t.removed + 1 < target && coin && (q.0 != p.0 || q.1 != p.1) && !(cleared.at(
            q.0,
            q.1,
        ) is Empty) {
            Thinning { board: cleared.with_cell(q.0, q.1, Cell::Empty), removed: t.removed + 2 }
        } else {
            Thinning { board: cleared, removed: t.removed + 1 }
        }
    }
}

/// The taking away of cells at the first `k` of `positions`, the coin at
/// each as `coins` has it.
pub open spec fn thin(
    full: Board,
    positions: Seq<(usize, usize)>,
    coins: Seq<bool>,
    k: nat,
    target: nat,
) -> Thinning
    decreases k,
{
    if k == 0 {
        Thinning { board: full, removed: 0 }
    } else {
        thin_at(
            thin(full, positions, coins, (k - 1) as nat, target),
            positions[k - 1],
            coins[k - 1],
            target,
        )
    }
}

/// `puzzle` is what is left of `full` once `removed` cells were taken away
/// at `positions`, for some way the coin came up at each.
pub open spec fn thinned_by(
    puzzle: Board,
    full: Board,
    positions: Seq<(usize, usize)>,
    target: nat,
) -> bool {
    exists|coins: Seq<bool>|
        coins.len() == positions.len() && (#[trigger] thin(
            full,
            positions,
            coins,
            positions.len(),
            target,
        )).board == puzzle
}

/// The first steps of the taking away depend on the first coins only.
pub proof fn lemma_thin_prefix(
    full: Board,
    positions: Seq<(usize, usize)>,
    coins: Seq<bool>,
    others: Seq<bool>,
    k: nat,
    target: nat,
)
    requires
        k <= coins.len(),
        k <= others.len(),
        forall|i: int| 0 <= i < k ==> coins[i] == others[i],
    ensures
        thin(full, positions, coins, k, target) == thin(full, positions, others, k, target),
    decreases k,
{
    if k > 0 {
        lemma_thin_prefix(full, positions, coins, others, (k - 1) as nat, target);
    }
}

/// Once the number is reached, further steps change nothing.
pub proof fn lemma_thin_done(
    full: Board,
    positions: Seq<(usize, usize)>,
    coins: Seq<bool>,
    k: nat,
    n: nat,
    target: nat,
)
    requires
        k <= n,
        thin(full, positions, coins, k, target).removed >= target,
    ensures
        thin(full, positions, coins, n, target) == thin(full, positions, coins, k, target),
    decreases n,
{
    if n > k {
        lemma_thin_done(full, positions, coins, k, (n - 1) as nat, target);
    }
}

/// Two sequences with the same items, each as often in one as in the other,
/// have the same members and the same length.
pub proof fn lemma_same_members<T>(a: Seq<T>, b: Seq<T>)
    requires
        a.to_multiset() == b.to_multiset(),
    ensures
        a.len() == b.len(),
        forall|x: T| a.contains(x) <==> b.contains(x),
        a.no_duplicates() ==> b.no_duplicates(),
{
    broadcast use group_to_multiset_ensures;

    assert(a.len() == a.to_multiset().len());
    assert(b.len() == b.to_multiset().len());
    assert forall|x: T| a.contains(x) <==> b.contains(x) by {
        assert(a.contains(x) <==> a.to_multiset().count(x) > 0);
        assert(b.contains(x) <==> b.to_multiset().count(x) > 0);
    }
    if a.no_duplicates() {
        a.lemma_multiset_has_no_duplicates();
        b.lemma_multiset_has_no_duplicates_conv();
    }
}

/// The place `(r, c)` as a pair of indices.
pub open spec fn place(r: int, c: int) -> (usize, usize) {
    (r as usize, c as usize)
}

/// The values from 1 to `size`, in order.
fn all_values(size: usize) -> (values: Vec<u8>)
    requires
        size <= 255,
    ensures
        values@.len() == size,
        forall|i: int| 0 <= i < size ==> #[trigger] values@[i] == i + 1,
{
    let mut values: Vec<u8> = Vec::new();
    let mut v: u8 = 0;
    while (v as usize) < size
        invariant
            size <= 255,
            v <= size,
            values@.len() == v,
            forall|i: int| 0 <= i < v ==> #[trigger] values@[i] == i + 1,
        decreases size - v,
    {
        v = v + 1;
        values.push(v);
    }
    values
}

/// All places of a board of side `size`, row by row.
fn all_positions(size: usize) -> (positions: Vec<(usize, usize)>)
    ensures
        forall|i: int|
            0 <= i < positions@.len() ==> (#[trigger] positions@[i]).0 < size && positions@[i].1
                < size,
        forall|r: int, c: int|
            0 <= r < size && 0 <= c < size ==> positions@.contains(#[trigger] place(r, c)),
{
    let mut positions: Vec<(usize, usize)> = Vec::new();
    let mut row: usize = 0;
    while row < size
        invariant
            row <= size,
            forall|i: int|
                0 <= i < positions@.len() ==> (#[trigger] positions@[i]).0 < size
                    && positions@[i].1 < size,
            forall|r: int, c: int|
                0 <= r < row && 0 <= c < size ==> positions@.contains(#[trigger] place(r, c)),
        decreases size - row,
    {
        let mut col: usize = 0;
        while col < size
            invariant
                row < size,
                col <= size,
                forall|i: int|
                    0 <= i < positions@.len() ==> (#[trigger] positions@[i]).0 < size
                        && positions@[i].1 < size,
                forall|r: int, c: int|
                    (0 <= r < row && 0 <= c < size) || (r == row && 0 <= c < col)
                        ==> positions@.contains(#[trigger] place(r, c)),
            decreases size - col,
        {
            let ghost listed = positions@;
            positions.push((row, col));
            proof {
                assert forall|r: int, c: int|
                    (0 <= r < row && 0 <= c < size) || (r == row && 0 <= c < col
                        + 1) implies positions@.contains(#[trigger] place(r, c)) by {
                    if r == row && c == col {
                        assert(positions@[listed.len() as int] == (row, col));
                    } else {
                        assert(listed.contains(place(r, c)));
                        let i = choose|i: int| 0 <= i < listed.len() && listed[i] == place(r, c);
                        assert(positions@[i] == place(r, c));
                    }
                }
            }
            col = col + 1;
        }
        row = row + 1;
    }
    positions
}

impl SudokuSolver {
    /// The number of cells to take away from a full board of side `size`:
    /// the share that the difficulty names, moved by chance by up to a
    /// twentieth.
    fn cells_to_remove(&self, size: usize, box_size: usize, difficulty: Difficulty) -> (res: usize)
        requires
            size * size * 70 <= usize::MAX,
            size == box_size * box_size,
        ensures
            least_removals(size as nat, difficulty) <= res <= most_removals(size as nat, difficulty),
            res <= size * size,
    {
        assert(size * size <= size * size * 70) by (nonlinear_arith);
        let cells = size * size;
        let base_cells_to_remove = match difficulty {
            Difficulty::Easy => cells * 40 / 100,
            Difficulty::Medium => cells * 50 / 100,
            Difficulty::Hard => cells * 60 / 100,
            Difficulty::Expert => cells * 70 / 100,
        };
        assert(base_cells_to_remove == base_removals(size as nat, difficulty));
        let variation = base_cells_to_remove / 20;
        if variation > 0 {
            assert(cells >= 81) by {
                if box_size <= 2 {
                    assert(size <= 4) by (nonlinear_arith)
                        requires
                            size == box_size * box_size,
                            box_size <= 2,
                    ;
                    assert(size * size <= 16) by (nonlinear_arith)
                        requires
                            size <= 4,
                    ;
                } else {
                    assert(size >= 9) by (nonlinear_arith)
                        requires
                            size == box_size * box_size,
                            box_size >= 3,
                    ;
                    assert(size * size >= 81) by (nonlinear_arith)
                        requires
                            size >= 9,
                    ;
                }
            }
            let min_remove = base_cells_to_remove - variation;
            let max_remove = base_cells_to_remove + variation;
            let ceiling = cells - 17;
            let high = if max_remove < ceiling {
                max_remove
            } else {
                ceiling
            };
            random_in(min_remove, high)
        } else {
            base_cells_to_remove
        }
    }

    /// Writes `values`, row by row, into the square of `box_size` by
    /// `box_size` cells whose first cell is `(start_row, start_col)`.
    fn place_values(
        &self,
        sudoku: &mut Sudoku,
        start_row: usize,
        start_col: usize,
        values: &Vec<u8>,
    ) -> (res: Result<(), String>)
        requires
            old(sudoku).wf(),
            start_row + old(sudoku).box_size <= old(sudoku).size,
            start_col + old(sudoku).box_size <= old(sudoku).size,
            values@.len() == old(sudoku).size,
            forall|i: int| 0 <= i < values@.len() ==> 1 <= #[trigger] values@[i] <= old(sudoku).size,
        ensures
            res is Ok,
            final(sudoku).wf(),
            final(sudoku).size == old(sudoku).size,
            final(sudoku).box_size == old(sudoku).box_size,
            forall|r: int, c: int|
                old(sudoku)@.has(r, c) ==> #[trigger] final(sudoku)@.at(r, c) == if start_row <= r
                    < start_row + old(sudoku).box_size && start_col <= c < start_col + old(sudoku).box_size {
                    Cell::Filled(
                        values@[(r - start_row) * old(sudoku).box_size + (c - start_col)],
                    )
                } else {
                    old(sudoku)@.at(r, c)
                },
    {
        let bs = sudoku.box_size;
        let mut idx: usize = 0;
        let mut row: usize = start_row;
        while row < start_row + bs
            invariant
                sudoku.wf(),
                sudoku.size == old(sudoku).size,
                sudoku.box_size == old(sudoku).box_size,
                bs == sudoku.box_size,
                start_row + bs <= sudoku.size,
                start_col + bs <= sudoku.size,
                start_row <= row <= start_row + bs,
                idx == (row - start_row) * bs,
                values@.len() == sudoku.size,
                forall|i: int| 0 <= i < values@.len() ==> 1 <= #[trigger] values@[i] <= sudoku.size,
                forall|r: int, c: int|
                    old(sudoku)@.has(r, c) ==> #[trigger] sudoku@.at(r, c) == if start_row <= r
                        < row && start_col <= c < start_col + bs {
                        Cell::Filled(values@[(r - start_row) * bs + (c - start_col)])
                    } else {
                        old(sudoku)@.at(r, c)
                    },
            decreases start_row + bs - row,
        {
            let mut col: usize = start_col;
            while col < start_col + bs
                invariant
                    sudoku.wf(),
                    sudoku.size == old(sudoku).size,
                    sudoku.box_size == old(sudoku).box_size,
                    bs == sudoku.box_size,
                    start_row + bs <= sudoku.size,
                    start_col + bs <= sudoku.size,
                    start_row <= row < start_row + bs,
                    start_col <= col <= start_col + bs,
                    idx == (row - start_row) * bs + (col - start_col),
                    values@.len() == sudoku.size,
                    forall|i: int|
                        0 <= i < values@.len() ==> 1 <= #[trigger] values@[i] <= sudoku.size,
                    forall|r: int, c: int|
                        old(sudoku)@.has(r, c) ==> #[trigger] sudoku@.at(r, c) == if start_col <= c
                            < start_col + bs && (start_row <= r < row || (r == row && c < col)) {
                            Cell::Filled(values@[(r - start_row) * bs + (c - start_col)])
                        } else {
                            old(sudoku)@.at(r, c)
                        },
                decreases start_col + bs - col,
            {
                proof {
                    lemma_flat_index(bs as int, row - start_row, col - start_col);
                }
                let ghost before = sudoku@;
                let placed = sudoku.set(row, col, values[idx]);
                match placed {
                    Ok(_) => {},
                    Err(msg) => {
                        return Err(msg);
                    },
                }
                proof {
                    assert forall|r: int, c: int| old(sudoku)@.has(r, c) implies #[trigger] sudoku@.at(
                        r,
                        c,
                    ) == if start_col <= c < start_col + bs && (start_row <= r < row || (r == row
                        && c < col + 1)) {
                        Cell::Filled(values@[(r - start_row) * bs + (c - start_col)])
                    } else {
                        old(sudoku)@.at(r, c)
                    } by {
                        if r == row && c == col {
                        } else {
                            assert(sudoku@.at(r, c) == before.at(r, c));
                        }
                    }
                }
                idx = idx + 1;
                col = col + 1;
            }
            assert((row + 1 - start_row) * bs == (row - start_row) * bs + bs) by (nonlinear_arith);
            row = row + 1;
        }
        Ok(())
    }

    /// Fills the box whose first cell is `(start_row, start_col)` with the
    /// values from 1 to `size` in an order left to chance.
    fn fill_box(&self, sudoku: &mut Sudoku, start_row: usize, start_col: usize) -> (res: Result<
        (),
        String,
    >)
        requires
            old(sudoku).wf(),
            old(sudoku).size <= 255,
            start_row + old(sudoku).box_size <= old(sudoku).size,
            start_col + old(sudoku).box_size <= old(sudoku).size,
        ensures
            res is Ok,
            final(sudoku).wf(),
            final(sudoku).size == old(sudoku).size,
            final(sudoku).box_size == old(sudoku).box_size,
            forall|r: int, c: int|
                old(sudoku)@.has(r, c) && !(start_row <= r < start_row + old(sudoku).box_size
                    && start_col <= c < start_col + old(sudoku).box_size) ==> #[trigger] final(sudoku)@.at(r, c) == old(sudoku)@.at(r, c),
            forall|r: int, c: int|
                start_row <= r < start_row + old(sudoku).box_size && start_col <= c < start_col
                    + old(sudoku).box_size ==> #[trigger] final(sudoku)@.at(r, c) is Filled,
            forall|r1: int, c1: int, r2: int, c2: int|
                #![trigger final(sudoku)@.at(r1, c1), final(sudoku)@.at(r2, c2)]
                start_row <= r1 < start_row + old(sudoku).box_size && start_col <= c1 < start_col
                    + old(sudoku).box_size && start_row <= r2 < start_row + old(sudoku).box_size
                    && start_col <= c2 < start_col + old(sudoku).box_size && (r1 != r2 || c1 != c2)
                    ==> !final(sudoku)@.at(r1, c1).clashes(final(sudoku)@.at(r2, c2)),
    {
        let mut values = all_values(sudoku.size);
        let ghost ordered = values@;
        assert(ordered.no_duplicates());
        shuffle(&mut values);
        proof {
            lemma_same_members(ordered, values@);
            assert forall|i: int| 0 <= i < values@.len() implies 1 <= #[trigger] values@[i]
                <= sudoku.size by {
                assert(values@.contains(values@[i]));
                assert(ordered.contains(values@[i]));
                let k = choose|k: int| 0 <= k < ordered.len() && ordered[k] == values@[i];
                assert(ordered[k] == k + 1);
            }
        }
        let res = self.place_values(sudoku, start_row, start_col, &values);
        proof {
            let bs = sudoku.box_size as int;
            assert forall|r1: int, c1: int, r2: int, c2: int|
                #![trigger sudoku@.at(r1, c1), sudoku@.at(r2, c2)]
                start_row <= r1 < start_row + bs && start_col <= c1 < start_col + bs && start_row
                    <= r2 < start_row + bs && start_col <= c2 < start_col + bs && (r1 != r2 || c1
                    != c2) implies !sudoku@.at(r1, c1).clashes(sudoku@.at(r2, c2)) by {
                lemma_flat_index(bs, r1 - start_row, c1 - start_col);
                lemma_flat_index(bs, r2 - start_row, c2 - start_col);
                let i = (r1 - start_row) * bs + (c1 - start_col);
                let j = (r2 - start_row) * bs + (c2 - start_col);
                assert(i != j);
                assert(old(sudoku)@.has(r1, c1));
                assert(old(sudoku)@.has(r2, c2));
                assert(sudoku@.at(r1, c1) == Cell::Filled(values@[i]));
                assert(sudoku@.at(r2, c2) == Cell::Filled(values@[j]));
            }
            assert forall|r: int, c: int|
                start_row <= r < start_row + bs && start_col <= c < start_col
                    + bs implies #[trigger] sudoku@.at(r, c) is Filled by {
                assert(old(sudoku)@.has(r, c));
            }
        }
        res
    }

    /// Takes cells away from the board at the places of `positions`, in
    /// their order, until `cells_to_remove` are gone or the places are at an
    /// end. After a cell, its partner under a half turn of the board goes
    /// too, seven times in ten, as far as the number allows.
    pub fn remove_listed(
        &self,
        sudoku: Sudoku,
        positions: &Vec<(usize, usize)>,
        cells_to_remove: usize,
    ) -> (puzzle: Sudoku)
        requires
            sudoku.wf(),
            forall|i: int|
                0 <= i < positions@.len() ==> (#[trigger] positions@[i]).0 < sudoku.size
                    && positions@[i].1 < sudoku.size,
        ensures
            puzzle.wf(),
            puzzle.size == sudoku.size,
            puzzle@.thins(sudoku@),
            thinned_by(puzzle@, sudoku@, positions@, cells_to_remove as nat),
            sudoku@.empties() <= puzzle@.empties() <= sudoku@.empties() + cells_to_remove,
            (forall|r: int, c: int|
                0 <= r < sudoku.size && 0 <= c < sudoku.size ==> positions@.contains(
                    #[trigger] place(r, c),
                )) ==> puzzle@.empties() == if sudoku@.empties() + cells_to_remove <= sudoku.size
                * sudoku.size {
                sudoku@.empties() + cells_to_remove
            } else {
                sudoku.size * sudoku.size
            },
    {
        let ghost full = sudoku@;
        let ghost target = cells_to_remove as nat;
        let ghost mut coins: Seq<bool> = Seq::empty();
        let mut sudoku = sudoku;
        let mut removed: usize = 0;
        let size = sudoku.size;
        proof {
            full.lemma_empties_bound();
        }
        let mut k: usize = 0;
        while k < positions.len() && removed < cells_to_remove
            invariant
                sudoku.wf(),
                size == sudoku.size,
                sudoku@.thins(full),
                full.wf(),
                full.size == size,
                target == cells_to_remove,
                k <= positions@.len(),
                coins.len() == k,
                removed <= cells_to_remove,
                sudoku@.empties() == full.empties() + removed,
                thin(full, positions@, coins, k as nat, target) == (Thinning {
                    board: sudoku@,
                    removed: removed as nat,
                }),
                forall|i: int|
                    0 <= i < positions@.len() ==> (#[trigger] positions@[i]).0 < size
                        && positions@[i].1 < size,
                removed < cells_to_remove ==> forall|i: int|
                    0 <= i < k ==> sudoku@.at(
                        (#[trigger] positions@[i]).0 as int,
                        positions@[i].1 as int,
                    ) is Empty,
            decreases positions@.len() - k,
        {
            let (row, col) = positions[k];
            let ghost before = sudoku@;
            let ghost drawn = coins;
            let ghost coin = false;
            assert(before.cells[row as int] == sudoku.grid@[row as int]@);
            assert(before.at(row as int, col as int) == sudoku.grid@[row as int]@[col as int]);
            if !sudoku.grid[row][col].is_empty() {
                proof {
                    before.lemma_empties_with_cell(row as int, col as int, Cell::Empty);
                }
                sudoku.put(row, col, Cell::Empty);
                removed = removed + 1;
                let ghost cleared = sudoku@;
                proof {
                    cleared.lemma_empties_bound();
                }
                let toss = removed < cells_to_remove && random_ratio(7, 10);
                proof {
                    coin = toss;
                }
                if clear_partner(&mut sudoku, row, col, toss) {
                    removed = removed + 1;
                }
                proof {
                    let q = partner(before, (row, col));
                    assert forall|r: int, c: int| full.has(r, c) implies (#[trigger] sudoku@.at(
                        r,
                        c,
                    )) is Empty || sudoku@.at(r, c) == full.at(r, c) by {
                        if (r == row && c == col) || (r == q.0 && c == q.1) {
                        } else {
                            assert(cleared.at(r, c) == before.at(r, c));
                            assert(sudoku@.at(r, c) == before.at(r, c));
                        }
                    }
                    assert forall|i: int| 0 <= i < k + 1 && removed < cells_to_remove implies sudoku@.at(
                        (#[trigger] positions@[i]).0 as int,
                        positions@[i].1 as int,
                    ) is Empty by {
                        let p = positions@[i];
                        if (p.0 == row && p.1 == col) || (p.0 == q.0 && p.1 == q.1) {
                        } else {
                            assert(cleared.at(p.0 as int, p.1 as int) == before.at(
                                p.0 as int,
                                p.1 as int,
                            ));
                            assert(sudoku@.at(p.0 as int, p.1 as int) == before.at(
                                p.0 as int,
                                p.1 as int,
                            ));
                        }
                    }
                }
            }
            proof {
                coins = drawn.push(coin);
                lemma_thin_prefix(full, positions@, drawn, coins, k as nat, target);
                assert(coins[k as int] == coin);
            }
            k = k + 1;
        }
        proof {
            let n = positions@.len();
            let padded = coins + Seq::new((n - k) as nat, |i: int| false);
            lemma_thin_prefix(full, positions@, coins, padded, k as nat, target);
            if k < n {
                lemma_thin_done(full, positions@, padded, k as nat, n, target);
            }
            assert(thin(full, positions@, padded, n, target).board == sudoku@);
            if removed < cells_to_remove && (forall|r: int, c: int|
                0 <= r < size && 0 <= c < size ==> positions@.contains(#[trigger] place(r, c))) {
                assert forall|r: int, c: int| sudoku@.has(r, c) implies #[trigger] sudoku@.at(
                    r,
                    c,
                ) is Empty by {
                    assert(positions@.contains(place(r, c)));
                    let i = choose|i: int| 0 <= i < positions@.len() && positions@[i] == place(r, c);
                    assert(positions@[i].0 as int == r && positions@[i].1 as int == c);
                }
                sudoku@.lemma_empties_all();
            }
            sudoku@.lemma_empties_bound();
        }
        sudoku
    }

    /// Takes `cells_to_remove` cells away from the board, or all that it has
    /// if those are fewer. The places are gone through in an order left to
    /// chance.
    fn remove_cells_symmetrically(&self, sudoku: Sudoku, cells_to_remove: usize) -> (res: Result<
        Sudoku,
        String,
    >)
        requires
            sudoku.wf(),
        ensures
            match res {
                Ok(puzzle) => {
                    &&& puzzle.wf()
                    &&& puzzle.size == sudoku.size
                    &&& puzzle@.thins(sudoku@)
                    &&& puzzle@.empties() == if sudoku@.empties() + cells_to_remove <= sudoku.size
                        * sudoku.size {
                        sudoku@.empties() + cells_to_remove
                    } else {
                        sudoku.size * sudoku.size
                    }
                    &&& exists|positions: Seq<(usize, usize)>|
                        {
                            &&& #[trigger] thinned_by(
                                puzzle@,
                                sudoku@,
                                positions,
                                cells_to_remove as nat,
                            )
                            &&& forall|r: int, c: int|
                                0 <= r < sudoku.size && 0 <= c < sudoku.size
                                    ==> positions.contains(#[trigger] place(r, c))
                        }
                },
                Err(_) => false,
            },
    {
        let size = sudoku.size;
        let mut positions = all_positions(size);
        let ghost ordered = positions@;
        shuffle(&mut positions);
        proof {
            lemma_same_members(ordered, positions@);
            assert forall|i: int| 0 <= i < positions@.len() implies (#[trigger] positions@[i]).0
                < size && positions@[i].1 < size by {
                assert(positions@.contains(positions@[i]));
                assert(ordered.contains(positions@[i]));
                let k = choose|k: int| 0 <= k < ordered.len() && ordered[k] == positions@[i];
                assert(ordered[k].0 < size);
            }
            assert forall|r: int, c: int|
                0 <= r < size && 0 <= c < size implies positions@.contains(#[trigger] place(r, c)) by {
                assert(ordered.contains(place(r, c)));
            }
        }
        let puzzle = self.remove_listed(sudoku, &positions, cells_to_remove);
        proof {
            assert(thinned_by(puzzle@, sudoku@, positions@, cells_to_remove as nat));
        }
        Ok(puzzle)
    }

    /// A board of side `size` whose boxes on the diagonal are filled by
    /// chance: the board that generation starts from.
    fn fill_diagonal(&self, size: usize) -> (res: Result<Sudoku, String>)
        requires
            is_square(size as nat),
            size <= 255,
        ensures
            match res {
                Ok(start) => start.wf() && start.size == size && is_start(start@, size as nat),
                Err(_) => false,
            },
    {
        assert(size * size <= 65025) by (nonlinear_arith)
            requires
                size <= 255,
        ;
        let mut sudoku = Sudoku::new(size);
        let box_size = sudoku.box_size;
        let mut diagonal_indices: Vec<usize> = Vec::new();
        let mut n: usize = 0;
        while n < box_size
            invariant
                n <= box_size,
                diagonal_indices@.len() == n,
                forall|i: int| 0 <= i < n ==> #[trigger] diagonal_indices@[i] == i,
            decreases box_size - n,
        {
            diagonal_indices.push(n);
            n = n + 1;
        }
        let ghost ordered = diagonal_indices@;
        shuffle(&mut diagonal_indices);
        proof {
            lemma_same_members(ordered, diagonal_indices@);
            assert forall|i: int| 0 <= i < diagonal_indices@.len() implies (
            #[trigger] diagonal_indices@[i]) < box_size by {
                assert(diagonal_indices@.contains(diagonal_indices@[i]));
                assert(ordered.contains(diagonal_indices@[i]));
                let k = choose|k: int| 0 <= k < ordered.len() && ordered[k] == diagonal_indices@[i];
                assert(ordered[k] == k);
            }
            assert forall|br: int, bc: int|
                0 <= br < sudoku@.box_size && 0 <= bc < sudoku@.box_size implies #[trigger] sudoku@.box_ok(
                br,
                bc,
            ) by {}
        }
        let mut k: usize = 0;
        while k < diagonal_indices.len()
            invariant
                sudoku.wf(),
                sudoku.size == size,
                sudoku.box_size == box_size,
                size <= 255,
                k <= diagonal_indices@.len(),
                forall|i: int|
                    0 <= i < diagonal_indices@.len() ==> (#[trigger] diagonal_indices@[i])
                        < box_size,
                sudoku@.diagonal(),
                sudoku@.boxes_valid(),
                sudoku@.no_givens(),
                forall|j: int, r: int, c: int|
                    #![trigger diagonal_indices@[j], sudoku@.at(r, c)]
                    0 <= j < k && sudoku@.in_box(
                        diagonal_indices@[j] as int,
                        diagonal_indices@[j] as int,
                        r,
                        c,
                    ) ==> !(sudoku@.at(r, c) is Empty),
            decreases diagonal_indices@.len() - k,
        {
            let i = diagonal_indices[k];
            let ghost before = sudoku@;
            proof {
                lemma_box_span(box_size as int, i as int);
                before.lemma_box_cells(i as int, i as int);
            }
            let filled = self.fill_box(&mut sudoku, i * box_size, i * box_size);
            match filled {
                Ok(_) => {},
                Err(msg) => {
                    return Err(msg);
                },
            }
            proof {
                let after = sudoku@;
                after.lemma_box_cells(i as int, i as int);
                assert forall|r: int, c: int|
                    after.has(r, c) && !(#[trigger] after.at(r, c) is Empty) implies r / (
                    after.box_size as int) == c / (after.box_size as int) by {
                    if after.in_box(i as int, i as int, r, c) {
                    } else {
                        assert(!before.spans(i as int, i as int, r, c));
                        assert(after.at(r, c) == before.at(r, c));
                        assert(!(before.at(r, c) is Empty));
                    }
                }
                assert forall|r: int, c: int| after.has(r, c) implies !(#[trigger] after.at(
                    r,
                    c,
                ) is Given) by {
                    if before.spans(i as int, i as int, r, c) {
                        assert(after.at(r, c) is Filled);
                    } else {
                        assert(after.at(r, c) == before.at(r, c));
                    }
                }
                assert forall|j: int, r: int, c: int|
                    #![trigger diagonal_indices@[j], after.at(r, c)]
                    0 <= j < k + 1 && after.in_box(
                        diagonal_indices@[j] as int,
                        diagonal_indices@[j] as int,
                        r,
                        c,
                    ) implies !(after.at(r, c) is Empty) by {
                    if after.in_box(i as int, i as int, r, c) {
                        assert(before.spans(i as int, i as int, r, c));
                        assert(after.at(r, c) is Filled);
                    } else {
                        assert(!before.in_box(i as int, i as int, r, c));
                        assert(!before.spans(i as int, i as int, r, c));
                        assert(after.at(r, c) == before.at(r, c));
                        assert(before.in_box(
                            diagonal_indices@[j] as int,
                            diagonal_indices@[j] as int,
                            r,
                            c,
                        ));
                    }
                }
                assert forall|br: int, bc: int|
                    0 <= br < after.box_size && 0 <= bc < after.box_size implies #[trigger] after.box_ok(
                    br,
                    bc,
                ) by {
                    assert(before.box_ok(br, bc));
                    assert forall|r1: int, c1: int, r2: int, c2: int|
                        #![trigger after.at(r1, c1), after.at(r2, c2)]
                        after.in_box(br, bc, r1, c1) && after.in_box(br, bc, r2, c2) && (r1 != r2
                            || c1 != c2) implies !after.at(r1, c1).clashes(after.at(r2, c2)) by {
                        if br == i && bc == i {
                            assert(before.spans(i as int, i as int, r1, c1));
                            assert(before.spans(i as int, i as int, r2, c2));
                        } else {
                            assert(before.in_box(br, bc, r1, c1));
                            assert(before.in_box(br, bc, r2, c2));
                            assert(!before.in_box(i as int, i as int, r1, c1));
                            assert(!before.in_box(i as int, i as int, r2, c2));
                            assert(!before.spans(i as int, i as int, r1, c1));
                            assert(!before.spans(i as int, i as int, r2, c2));
                            assert(after.at(r1, c1) == before.at(r1, c1));
                            assert(after.at(r2, c2) == before.at(r2, c2));
                            assert(!before.at(r1, c1).clashes(before.at(r2, c2)));
                        }
                    }
                }
            }
            k = k + 1;
        }
        proof {
            let start = sudoku@;
            start.lemma_diagonal_valid();
            assert forall|r: int, c: int|
                start.has(r, c) && r / (start.box_size as int) == c / (
                start.box_size as int) implies !(#[trigger] start.at(r, c) is Empty) by {
                let b = r / (start.box_size as int);
                assert(start.box_size > 0) by (nonlinear_arith)
                    requires
                        start.size == start.box_size * start.box_size,
                        start.size > 0,
                ;
                lemma_box_number(start.box_size as int, r);
                assert(ordered[b] == b);
                assert(ordered.contains(b as usize));
                assert(diagonal_indices@.contains(b as usize));
                let j = choose|j: int|
                    0 <= j < diagonal_indices@.len() && diagonal_indices@[j] == b as usize;
                assert(start.in_box(
                    diagonal_indices@[j] as int,
                    diagonal_indices@[j] as int,
                    r,
                    c,
                ));
            }
        }
        Ok(sudoku)
    }

    /// A puzzle from the board that generation starts from: the board is
    /// solved, and cells are taken away from the solution, the more the
    /// harder the puzzle is to be. Where the board is not solved, there is
    /// no puzzle.
    pub fn puzzle_from(&mut self, start: Sudoku, difficulty: Difficulty) -> (res: Result<
        Sudoku,
        String,
    >)
        requires
            start.wf(),
            start.size * start.size * 70 <= usize::MAX,
        ensures
            *final(self) == *old(self),
            match res {
                Ok(puzzle) => {
                    &&& puzzle.wf()
                    &&& puzzle.size == start.size
                    &&& puzzle@.valid()
                    &&& puzzle@.solvable()
                    &&& (start@.no_givens() ==> puzzle@.no_givens())
                    &&& least_removals(start.size as nat, difficulty) <= puzzle@.empties()
                        <= most_removals(start.size as nat, difficulty)
                    &&& exists|full: Board| #[trigger] full.solves(start@) && puzzle@.thins(full)
                },
                Err(msg) => if start@.valid() {
                    msg@ == "No solution found"@
                } else {
                    msg@ == "Invalid initial state"@
                },
            },
            old(self).backtracks() ==> (res is Ok <==> start@.solvable()),
            !old(self).backtracks() ==> (res is Ok <==> {
                let d = deduce(old(self).strategies(), start@, old(self).iteration_cap() as nat);
                start@.valid() && d.board.complete() && d.board.valid()
            }),
    {
        let size = start.size;
        let box_size = start.box_size;
        let ghost started = start@;
        let full_solution = match self.solve(start) {
            Ok(solution) => solution,
            Err(msg) => {
                return Err(msg);
            },
        };
        let cells_to_remove = self.cells_to_remove(size, box_size, difficulty);
        let ghost full = full_solution@;
        proof {
            full.lemma_complete_empties();
            assert(full.solves(started));
        }
        let res = self.remove_cells_symmetrically(full_solution, cells_to_remove);
        proof {
            if res is Ok {
                let thinned = res->Ok_0@;
                thinned.lemma_thinned_can_be_solved(full);
                if started.no_givens() {
                    assert forall|r: int, c: int| thinned.has(r, c) implies !(
                    #[trigger] thinned.at(r, c) is Given) by {
                        assert(started.has(r, c));
                        assert(!(started.at(r, c) is Given));
                        assert(!(full.at(r, c) is Given));
                    }
                }
            }
        }
        res
    }

    /// A new puzzle of side `size`: the boxes on the diagonal are filled by
    /// chance, the board is solved, and cells are taken away from the
    /// solution, the more the harder the puzzle is to be. There is a puzzle
    /// exactly when the board that chance filled is solved.
    pub fn generate_puzzle(&mut self, size: usize, difficulty: Difficulty) -> (res: Result<
        Sudoku,
        String,
    >)
        requires
            is_square(size as nat),
            size <= 255,
        ensures
            *final(self) == *old(self),
            match res {
                Ok(puzzle) => {
                    &&& puzzle.wf()
                    &&& puzzle.size == size
                    &&& puzzle@.valid()
                    &&& puzzle@.solvable()
                    &&& puzzle@.no_givens()
                    &&& least_removals(size as nat, difficulty) <= puzzle@.empties()
                        <= most_removals(size as nat, difficulty)
                },
                Err(msg) => msg@ == "No solution found"@,
            },
            size <= 1 ==> res is Ok,
            exists|start: Board|
                {
                    &&& #[trigger] is_start(start, size as nat)
                    &&& old(self).backtracks() ==> (res is Ok <==> start.solvable())
                    &&& !old(self).backtracks() ==> (res is Ok <==> {
                        let d = deduce(
                            old(self).strategies(),
                            start,
                            old(self).iteration_cap() as nat,
                        );
                        d.board.complete() && d.board.valid()
                    })
                    &&& res matches Ok(puzzle) ==> exists|full: Board| #[trigger]
                        full.solves(start) && puzzle@.thins(full)
                },
    {
        assert(size * size * 70 <= usize::MAX) by (nonlinear_arith)
            requires
                size <= 255,
        ;
        let start = match self.fill_diagonal(size) {
            Ok(board) => board,
            Err(msg) => {
                assert(false);
                return Err(msg);
            },
        };
        let ghost started = start@;
        proof {
            assert(is_start(started, size as nat));
            if size <= 1 {
                assert(started.complete()) by {
                    assert forall|r: int, c: int| started.has(r, c) implies !(
                    #[trigger] started.at(r, c) is Empty) by {
                        assert(r == 0 && c == 0);
                    }
                }
                assert(deduce(self.strategies(), started, self.iteration_cap() as nat).board
                    == started);
                started.lemma_extends_same();
                assert(started.solves(started));
            }
        }
        self.puzzle_from(start, difficulty)
    }
}

/// Empties the partner of `(row, col)` under a half turn of the board, if
/// `coin` came up, the partner is another cell, and it holds a value. Says
/// whether it did.
pub fn clear_partner(sudoku: &mut Sudoku, row: usize, col: usize, coin: bool) -> (taken: bool)
    requires
        old(sudoku).wf(),
        old(sudoku)@.has(row as int, col as int),
    ensures
        final(sudoku).wf(),
        ({
            let q = partner(old(sudoku)@, (row, col));
            &&& taken == (coin && (q.0 != row || q.1 != col) && !(old(sudoku)@.at(q.0, q.1) is Empty))
            &&& final(sudoku)@ == if taken {
                old(sudoku)@.with_cell(q.0, q.1, Cell::Empty)
            } else {
                old(sudoku)@
            }
        }),
        final(sudoku)@.empties() == old(sudoku)@.empties() + if taken {
            1nat
        } else {
            0nat
        },
{
    if coin {
        let sym_row = sudoku.size - 1 - row;
        let sym_col = sudoku.size - 1 - col;
        if sym_row != row || sym_col != col {
            assert(sudoku@.cells[sym_row as int] == sudoku.grid@[sym_row as int]@);
            assert(sudoku@.at(sym_row as int, sym_col as int)
                == sudoku.grid@[sym_row as int]@[sym_col as int]);
            if !sudoku.grid[sym_row][sym_col].is_empty() {
                proof {
                    sudoku@.lemma_empties_with_cell(sym_row as int, sym_col as int, Cell::Empty);
                }
                sudoku.put(sym_row, sym_col, Cell::Empty);
                return true;
            }
        }
    }
    false
}

} // verus!
