use vstd::prelude::*;
use vstd::set_lib::{lemma_len_subset, lemma_set_disjoint_lens};
use crate::cell::Cell;
use crate::grid::Board;

verus! {

impl Board {
    /// The solutions of the board.
    pub open spec fn solutions(self) -> Set<Board> {
        Set::new(|s: Board| s.solves(self))
    }

    /// The board with the `i`-th of `vs` at `(r, c)`.
    pub open spec fn branch(self, r: int, c: int, vs: Seq<u8>, i: int) -> Board {
        self.with_cell(r, c, Cell::Filled(vs[i]))
    }

    /// The solutions of the first `k` branches.
    pub open spec fn branch_union(self, r: int, c: int, vs: Seq<u8>, k: nat) -> Set<Board>
        decreases k,
    {
        if k == 0 {
            Set::empty()
        } else {
            self.branch_union(r, c, vs, (k - 1) as nat).union(
                self.branch(r, c, vs, k - 1).solutions(),
            )
        }
    }

    /// The number of solutions of the first `k` branches, branch by branch.
    pub open spec fn branch_total(self, r: int, c: int, vs: Seq<u8>, k: nat) -> nat
        decreases k,
    {
        if k == 0 {
            0
        } else {
            self.branch_total(r, c, vs, (k - 1) as nat) + self.branch(
                r,
                c,
                vs,
                k - 1,
            ).solutions().len()
        }
    }

    /// A board is among the solutions of the first `k` branches exactly when
    /// it solves one of them.
    pub proof fn lemma_branch_union_members(self, r: int, c: int, vs: Seq<u8>, k: nat)
        ensures
            forall|s: Board|
                self.branch_union(r, c, vs, k).contains(s) <==> exists|i: int|
                    0 <= i < k && #[trigger] s.solves(self.branch(r, c, vs, i)),
        decreases k,
    {
        if k > 0 {
            self.lemma_branch_union_members(r, c, vs, (k - 1) as nat);
            assert forall|s: Board|
                self.branch_union(r, c, vs, k).contains(s) <==> exists|i: int|
                    0 <= i < k && #[trigger] s.solves(self.branch(r, c, vs, i)) by {
                if self.branch_union(r, c, vs, k).contains(s) {
                    if self.branch_union(r, c, vs, (k - 1) as nat).contains(s) {
                        let i = choose|i: int|
                            0 <= i < k - 1 && #[trigger] s.solves(self.branch(r, c, vs, i));
                        assert(s.solves(self.branch(r, c, vs, i)));
                    } else {
                        assert(s.solves(self.branch(r, c, vs, k - 1)));
                    }
                }
                if exists|i: int| 0 <= i < k && #[trigger] s.solves(self.branch(r, c, vs, i)) {
                    let i = choose|i: int|
                        0 <= i < k && #[trigger] s.solves(self.branch(r, c, vs, i));
                    if i < k - 1 {
                        assert(self.branch_union(r, c, vs, (k - 1) as nat).contains(s));
                    } else {
                        assert(self.branch(r, c, vs, k - 1).solutions().contains(s));
                    }
                }
            }
        }
    }

    /// A board has finitely many solutions.
    pub proof fn lemma_solutions_finite(self)
        requires
            self.wf(),
        ensures
            self.solutions().finite(),
        decreases self.empties(), 1nat, 0nat,
    {
        if self.complete() {
            assert(self.solutions().subset_of(set![self])) by {
                assert forall|s: Board| self.solutions().contains(s) implies set![self].contains(
                    s,
                ) by {
                    self.lemma_complete_solution(s);
                }
            }
            lemma_len_subset(self.solutions(), set![self]);
        } else {
            let (r, c) = choose|r: int, c: int| self.has(r, c) && #[trigger] self.at(r, c) is Empty;
            let top: nat = if self.size > 255 {
                255
            } else {
                self.size
            };
            let vs = Seq::new(top, |i: int| (i + 1) as u8);
            self.lemma_branches_finite(r, c, vs, top);
            self.lemma_branch_union_members(r, c, vs, top);
            assert(self.solutions().subset_of(self.branch_union(r, c, vs, top))) by {
                assert forall|s: Board| self.solutions().contains(s) implies self.branch_union(
                    r,
                    c,
                    vs,
                    top,
                ).contains(s) by {
                    self.lemma_solution_picks_candidate(s, r, c);
                    self.lemma_solves_between(s, r, c);
                    let v = s.at(r, c)->Filled_0;
                    assert(vs[v - 1] == v);
                    assert(s.solves(self.branch(r, c, vs, v - 1)));
                }
            }
            lemma_len_subset(self.solutions(), self.branch_union(r, c, vs, top));
        }
    }

    /// The first `k` branches at an empty cell have finitely many solutions
    /// between them.
    pub proof fn lemma_branches_finite(self, r: int, c: int, vs: Seq<u8>, k: nat)
        requires
            self.wf(),
            self.has(r, c),
            self.at(r, c) is Empty,
            k <= vs.len(),
            forall|i: int| 0 <= i < vs.len() ==> 1 <= #[trigger] vs[i] <= self.size,
        ensures
            self.branch_union(r, c, vs, k).finite(),
        decreases self.empties(), 0nat, k,
    {
        if k > 0 {
            self.lemma_branches_finite(r, c, vs, (k - 1) as nat);
            let b = self.branch(r, c, vs, k - 1);
            self.lemma_branch_wf(r, c, vs[k - 1]);
            b.lemma_solutions_finite();
        }
    }

    /// Filling an empty cell with a value of the board leaves a well-formed
    /// board with one empty cell less.
    pub proof fn lemma_branch_wf(self, r: int, c: int, v: u8)
        requires
            self.wf(),
            self.has(r, c),
            self.at(r, c) is Empty,
            1 <= v <= self.size,
        ensures
            self.with_cell(r, c, Cell::Filled(v)).wf(),
            self.with_cell(r, c, Cell::Filled(v)).empties() + 1 == self.empties(),
    {
        let b = self.with_cell(r, c, Cell::Filled(v));
        assert forall|r2: int, c2: int| b.has(r2, c2) implies (#[trigger] b.at(r2, c2)).fits(
            b.size,
        ) by {
            if r2 == r && c2 == c {
            } else {
                assert(b.at(r2, c2) == self.at(r2, c2));
            }
        }
        assert forall|r2: int| 0 <= r2 < b.size implies (#[trigger] b.cells[r2]).len() == b.size by {
            assert(self.cells[r2].len() == self.size);
        }
        self.lemma_empties_with_cell(r, c, Cell::Filled(v));
    }

    /// The solutions of branches with different values are different, so
    /// their number is the sum of the numbers of the branches.
    pub proof fn lemma_branch_count(self, r: int, c: int, vs: Seq<u8>, k: nat)
        requires
            self.wf(),
            self.has(r, c),
            self.at(r, c) is Empty,
            k <= vs.len(),
            vs.no_duplicates(),
            forall|i: int| 0 <= i < vs.len() ==> 1 <= #[trigger] vs[i] <= self.size,
        ensures
            self.branch_union(r, c, vs, k).finite(),
            self.branch_union(r, c, vs, k).len() == self.branch_total(r, c, vs, k),
        decreases k,
    {
        self.lemma_branches_finite(r, c, vs, k);
        if k > 0 {
            self.lemma_branch_count(r, c, vs, (k - 1) as nat);
            let rest = self.branch_union(r, c, vs, (k - 1) as nat);
            let last = self.branch(r, c, vs, k - 1).solutions();
            self.lemma_branch_wf(r, c, vs[k - 1]);
            self.branch(r, c, vs, k - 1).lemma_solutions_finite();
            self.lemma_branch_union_members(r, c, vs, (k - 1) as nat);
            assert(rest.disjoint(last)) by {
                assert forall|s: Board| !(rest.contains(s) && last.contains(s)) by {
                    if rest.contains(s) && last.contains(s) {
                        let i = choose|i: int|
                            0 <= i < k - 1 && #[trigger] s.solves(self.branch(r, c, vs, i));
                        let bi = self.branch(r, c, vs, i);
                        let bk = self.branch(r, c, vs, k - 1);
                        assert(s.at(r, c) == bi.at(r, c));
                        assert(s.at(r, c) == bk.at(r, c));
                        assert(vs[i] != vs[k - 1]);
                    }
                }
            }
            lemma_set_disjoint_lens(rest, last);
        }
    }

    /// The branches at an empty cell, one for each of its candidates, have
    /// the solutions of the board between them.
    pub proof fn lemma_branches_cover(self, r: int, c: int, vs: Seq<u8>)
        requires
            self.wf(),
            self.has(r, c),
            self.at(r, c) is Empty,
            vs.to_set() == self.candidates(r, c),
        ensures
            self.branch_union(r, c, vs, vs.len()) == self.solutions(),
    {
        self.lemma_branch_union_members(r, c, vs, vs.len());
        assert forall|s: Board|
            self.branch_union(r, c, vs, vs.len()).contains(s) <==> self.solutions().contains(s) by {
            if self.branch_union(r, c, vs, vs.len()).contains(s) {
                let i = choose|i: int|
                    0 <= i < vs.len() && #[trigger] s.solves(self.branch(r, c, vs, i));
                self.lemma_fill_extends(r, c, vs[i]);
                s.lemma_extends_trans(self.branch(r, c, vs, i), self);
            }
            if self.solutions().contains(s) {
                self.lemma_solution_picks_candidate(s, r, c);
                self.lemma_solves_between(s, r, c);
                let v = s.at(r, c)->Filled_0;
                assert(vs.to_set().contains(v));
                let i = choose|i: int| 0 <= i < vs.len() && vs[i] == v;
                assert(s.solves(self.branch(r, c, vs, i)));
            }
        }
        assert(self.branch_union(r, c, vs, vs.len()) =~= self.solutions());
    }

    /// A complete board is its own only solution if it is valid, and has
    /// none if it is not.
    pub proof fn lemma_complete_count(self)
        requires
            self.wf(),
            self.complete(),
        ensures
            self.solutions().len() == if self.valid() {
                1nat
            } else {
                0nat
            },
    {
        if self.valid() {
            self.lemma_extends_same();
            assert(self.solves(self));
            assert(self.solutions() =~= set![self]) by {
                assert forall|s: Board| self.solutions().contains(s) implies s == self by {
                    self.lemma_complete_solution(s);
                }
            }
        } else {
            assert(self.solutions() =~= Set::empty()) by {
                assert forall|s: Board| !self.solutions().contains(s) by {
                    if s.solves(self) {
                        self.lemma_solved_is_valid(s);
                    }
                }
            }
        }
    }

    /// A board that is not valid has no solution.
    pub proof fn lemma_invalid_count(self)
        requires
            !self.valid(),
        ensures
            self.solutions().len() == 0,
            !self.solvable(),
    {
        assert(self.solutions() =~= Set::empty()) by {
            assert forall|s: Board| !self.solutions().contains(s) by {
                if s.solves(self) {
                    self.lemma_solved_is_valid(s);
                }
            }
        }
        if self.solvable() {
            let s = choose|s: Board| #[trigger] s.solves(self);
            self.lemma_solved_is_valid(s);
        }
    }
}

} // verus!
