use vstd::prelude::*;
use vstd::std_specs::iter::IteratorSpec;
use crate::cell::Cell;
use crate::grid::Board;
use crate::strategies::{
    get_all_strategies, members, only_member, standard_strategies, SolvingStrategy,
};
use crate::sudoku::Sudoku;

verus! {

broadcast use vstd::std_specs::hash::group_hash_axioms;

/// What one run of the solver did.
#[derive(Debug, Clone)]
pub struct SolverStats {
    /// For each strategy that made progress, by name, how often it did.
    pub strategies_used: Vec<(String, usize)>,
    pub cells_filled: usize,
    pub iterations: usize,
    pub backtrack_steps: usize,
}

impl SolverStats {
    /// No name is listed twice, and every name that is listed has made
    /// progress at least once.
    pub open spec fn wf(&self) -> bool {
        &&& forall|i: int, j: int|
            0 <= i < j < self.strategies_used@.len() ==> (#[trigger] self.strategies_used@[i]).0@
                != (#[trigger] self.strategies_used@[j]).0@
        &&& forall|i: int|
            0 <= i < self.strategies_used@.len() ==> (#[trigger] self.strategies_used@[i]).1 >= 1
    }

    /// `name` is listed.
    pub open spec fn lists(&self, name: Seq<char>) -> bool {
        exists|i: int|
            0 <= i < self.strategies_used@.len() && (#[trigger] self.strategies_used@[i]).0@ == name
    }

    /// How often the strategy called `name` is recorded to have made
    /// progress.
    pub open spec fn uses(&self, name: Seq<char>) -> nat {
        if self.lists(name) {
            let i = choose|i: int|
                0 <= i < self.strategies_used@.len() && (#[trigger] self.strategies_used@[i]).0@
                    == name;
            self.strategies_used@[i].1 as nat
        } else {
            0
        }
    }

    /// Nothing done yet.
    pub fn new() -> (res: Self)
        ensures
            res.wf(),
            res.strategies_used@.len() == 0,
            res.cells_filled == 0,
            res.iterations == 0,
            res.backtrack_steps == 0,
    {
        SolverStats {
            strategies_used: Vec::new(),
            cells_filled: 0,
            iterations: 0,
            backtrack_steps: 0,
        }
    }

    /// Records that the strategy called `name` made progress once more. The
    /// count stops at the largest number the machine's word holds.
    pub fn record(&mut self, name: &str)
        requires
            old(self).wf(),
        ensures
            final(self).wf(),
            final(self).uses(name@) == if old(self).uses(name@) < usize::MAX {
                old(self).uses(name@) + 1
            } else {
                usize::MAX as nat
            },
            forall|other: Seq<char>| other != name@ ==> final(self).uses(other) == old(self).uses(other),
            final(self).cells_filled == old(self).cells_filled,
            final(self).iterations == old(self).iterations,
            final(self).backtrack_steps == old(self).backtrack_steps,
    {
        let key = String::from_str(name);
        let ghost before = self.strategies_used@;
        let mut i: usize = 0;
        while i < self.strategies_used.len()
            invariant
                i <= self.strategies_used@.len(),
                self.strategies_used@ == before,
                before == old(self).strategies_used@,
                self.cells_filled == old(self).cells_filled,
                self.iterations == old(self).iterations,
                self.backtrack_steps == old(self).backtrack_steps,
                old(self).wf(),
                key@ == name@,
                forall|j: int| 0 <= j < i ==> (#[trigger] before[j]).0@ != name@,
            decreases self.strategies_used.len() - i,
        {
            if self.strategies_used[i].0 == key {
                let count = self.strategies_used[i].1;
                self.strategies_used[i] = (key, count.saturating_add(1));
                proof {
                    let after = self.strategies_used@;
                    assert forall|j: int| 0 <= j < after.len() implies (#[trigger] after[j]).0@ == (
                    #[trigger] before[j]).0@ by {}
                    assert(before[i as int].0@ == name@);
                    assert(old(self).lists(name@));
                    assert(self.lists(name@)) by {
                        assert(after[i as int].0@ == name@);
                    }
                    assert forall|other: Seq<char>| other != name@ implies self.uses(other) == old(self).uses(other) by {
                        if old(self).lists(other) {
                            let k = choose|k: int|
                                0 <= k < before.len() && (#[trigger] before[k]).0@ == other;
                            assert(after[k].0@ == other);
                            assert(self.lists(other));
                            let m = choose|m: int|
                                0 <= m < after.len() && (#[trigger] after[m]).0@ == other;
                            assert(before[m].0@ == other);
                            assert(m == k);
                        } else {
                            if self.lists(other) {
                                let m = choose|m: int|
                                    0 <= m < after.len() && (#[trigger] after[m]).0@ == other;
                                assert(before[m].0@ == other);
                            }
                        }
                    }
                    let k = choose|k: int|
                        0 <= k < before.len() && (#[trigger] before[k]).0@ == name@;
                    assert(k == i);
                    let m = choose|m: int| 0 <= m < after.len() && (#[trigger] after[m]).0@ == name@;
                    assert(before[m].0@ == name@);
                    assert(m == i);
                }
                return ;
            }
            i = i + 1;
        }
        self.strategies_used.push((key, 1));
        proof {
            let after = self.strategies_used@;
            assert(!old(self).lists(name@));
            assert(after[before.len() as int].0@ == name@);
            assert(self.lists(name@));
            let m = choose|m: int| 0 <= m < after.len() && (#[trigger] after[m]).0@ == name@;
            assert(m == before.len()) by {
                if m < before.len() {
                    assert(before[m].0@ == name@);
                }
            }
            assert forall|other: Seq<char>| other != name@ implies self.uses(other) == old(self).uses(other) by {
                if old(self).lists(other) {
                    let k = choose|k: int|
                        0 <= k < before.len() && (#[trigger] before[k]).0@ == other;
                    assert(after[k].0@ == other);
                    assert(self.lists(other));
                    let m = choose|m: int| 0 <= m < after.len() && (#[trigger] after[m]).0@ == other;
                    assert(m < before.len());
                    assert(before[m].0@ == other);
                    assert(m == k);
                } else {
                    if self.lists(other) {
                        let m = choose|m: int|
                            0 <= m < after.len() && (#[trigger] after[m]).0@ == other;
                        assert(m < before.len());
                        assert(before[m].0@ == other);
                    }
                }
            }
        }
    }

    /// The names that are listed are those that made progress.
    pub proof fn lemma_listed_used(&self)
        requires
            self.wf(),
        ensures
            forall|name: Seq<char>| #[trigger] self.lists(name) <==> self.uses(name) > 0,
            self.strategies_used@.len() == 0 <==> forall|name: Seq<char>|
                #[trigger] self.uses(name) == 0,
    {
        if self.strategies_used@.len() > 0 {
            let first = self.strategies_used@[0].0@;
            assert(self.lists(first));
            assert(self.uses(first) > 0);
        } else {
            assert forall|name: Seq<char>| #[trigger] self.uses(name) == 0 by {
                assert(!self.lists(name));
            }
        }
    }

    /// Records with the same list tell the same of every name.
    pub proof fn lemma_uses_same(&self, other: &SolverStats)
        requires
            self.strategies_used@ == other.strategies_used@,
        ensures
            forall|name: Seq<char>| #[trigger] self.uses(name) == other.uses(name),
    {
        assert forall|name: Seq<char>| #[trigger] self.uses(name) == other.uses(name) by {
            assert(self.lists(name) == other.lists(name));
        }
    }
}

/// What one round of the strategies makes of a board: the board, whether
/// any strategy filled in anything, and whether the round was stopped by a
/// board found invalid.
pub struct Round {
    pub board: Board,
    pub progress: bool,
    pub stopped: bool,
}

/// The round of the strategies from the `k`-th on: each is applied in turn
/// to what the one before left. A strategy that leaves an invalid board
/// stops the round.
pub open spec fn round(list: Seq<Box<dyn SolvingStrategy>>, b: Board, k: nat) -> Round
    decreases list.len() - k,
{
    if k >= list.len() {
        Round { board: b, progress: false, stopped: false }
    } else {
        let next = list[k as int].outcome(b);
        if next != b {
            if !next.valid() {
                Round { board: next, progress: true, stopped: true }
            } else {
                Round { progress: true, ..round(list, next, k + 1) }
            }
        } else {
            round(list, b, k + 1)
        }
    }
}

/// How many strategies called `name` fill in something in the round from
/// the `k`-th strategy on.
pub open spec fn round_uses(
    list: Seq<Box<dyn SolvingStrategy>>,
    b: Board,
    k: nat,
    name: Seq<char>,
) -> nat
    decreases list.len() - k,
{
    if k >= list.len() {
        0
    } else {
        let next = list[k as int].outcome(b);
        if next != b {
            let here: nat = if list[k as int].label() == name {
                1
            } else {
                0
            };
            if !next.valid() {
                here
            } else {
                here + round_uses(list, next, k + 1, name)
            }
        } else {
            round_uses(list, b, k + 1, name)
        }
    }
}

/// What deduction makes of a board: the board, the number of rounds taken,
/// and whether a board found invalid stopped it.
pub struct Deduction {
    pub board: Board,
    pub rounds: nat,
    pub stopped: bool,
}

/// Deduction with at most `cap` rounds: rounds follow one another until the
/// board is complete, a round fills in nothing, or a round is stopped.
pub open spec fn deduce(list: Seq<Box<dyn SolvingStrategy>>, b: Board, cap: nat) -> Deduction
    decreases cap,
{
    if b.complete() || cap == 0 {
        Deduction { board: b, rounds: 0, stopped: false }
    } else {
        let r = round(list, b, 0);
        if r.stopped || !r.progress {
            Deduction { board: r.board, rounds: 1, stopped: r.stopped }
        } else {
            let d = deduce(list, r.board, (cap - 1) as nat);
            Deduction { rounds: d.rounds + 1, ..d }
        }
    }
}

/// How often strategies called `name` fill in something in the course of
/// deduction with at most `cap` rounds.
pub open spec fn deduce_uses(
    list: Seq<Box<dyn SolvingStrategy>>,
    b: Board,
    cap: nat,
    name: Seq<char>,
) -> nat
    decreases cap,
{
    if b.complete() || cap == 0 {
        0
    } else {
        let r = round(list, b, 0);
        if r.stopped || !r.progress {
            round_uses(list, b, 0, name)
        } else {
            round_uses(list, b, 0, name) + deduce_uses(list, r.board, (cap - 1) as nat, name)
        }
    }
}

/// What one step of deduction makes of a board: what the first strategy,
/// from the `k`-th on, that fills in anything makes of it.
pub open spec fn step(list: Seq<Box<dyn SolvingStrategy>>, b: Board, k: nat) -> Board
    decreases list.len() - k,
{
    if k >= list.len() {
        b
    } else if list[k as int].outcome(b) != b {
        list[k as int].outcome(b)
    } else {
        step(list, b, k + 1)
    }
}

/// How many of the strategies from the `k`-th on are called `name`.
pub open spec fn named(list: Seq<Box<dyn SolvingStrategy>>, k: nat, name: Seq<char>) -> nat
    decreases list.len() - k,
{
    if k >= list.len() {
        0
    } else if list[k as int].label() == name {
        1 + named(list, k + 1, name)
    } else {
        named(list, k + 1, name)
    }
}

/// Only a list that holds a strategy called `name` counts any.
pub proof fn lemma_named(list: Seq<Box<dyn SolvingStrategy>>, k: nat, name: Seq<char>)
    ensures
        named(list, k, name) > 0 ==> exists|i: int|
            0 <= i < list.len() && (#[trigger] list[i]).label() == name,
    decreases list.len() - k,
{
    if k < list.len() {
        lemma_named(list, k + 1, name);
        if list[k as int].label() == name {
            assert(list[k as int].label() == name);
        }
    }
}

/// In a round, strategies called `name` fill in something no more often
/// than there are strategies of that name, and not at all where the round
/// fills in nothing.
pub proof fn lemma_round_uses(
    list: Seq<Box<dyn SolvingStrategy>>,
    b: Board,
    k: nat,
    name: Seq<char>,
)
    ensures
        round_uses(list, b, k, name) <= named(list, k, name),
        !round(list, b, k).progress ==> round_uses(list, b, k, name) == 0,
    decreases list.len() - k,
{
    if k < list.len() {
        let next = list[k as int].outcome(b);
        lemma_round_uses(list, next, k + 1, name);
        lemma_round_uses(list, b, k + 1, name);
    }
}

/// In the course of deduction, strategies called `name` fill in something
/// no more often than there are rounds for each strategy of that name.
pub proof fn lemma_deduce_uses(
    list: Seq<Box<dyn SolvingStrategy>>,
    b: Board,
    cap: nat,
    name: Seq<char>,
)
    ensures
        deduce_uses(list, b, cap, name) <= deduce(list, b, cap).rounds * named(list, 0, name),
        deduce_uses(list, b, cap, name) > 0 ==> exists|i: int|
            0 <= i < list.len() && (#[trigger] list[i]).label() == name,
    decreases cap,
{
    let each = named(list, 0, name);
    lemma_named(list, 0, name);
    if !b.complete() && cap > 0 {
        let r = round(list, b, 0);
        lemma_round_uses(list, b, 0, name);
        if r.stopped || !r.progress {
            assert(1 * each == each) by (nonlinear_arith);
        } else {
            lemma_deduce_uses(list, r.board, (cap - 1) as nat, name);
            let rest = deduce(list, r.board, (cap - 1) as nat).rounds;
            assert((rest + 1) * each == rest * each + each) by (nonlinear_arith);
        }
    } else {
        assert(0 * each == 0) by (nonlinear_arith);
    }
    if deduce_uses(list, b, cap, name) > 0 {
        assert(each > 0) by (nonlinear_arith)
            requires
                deduce_uses(list, b, cap, name) <= deduce(list, b, cap).rounds * each,
                deduce_uses(list, b, cap, name) > 0,
                each >= 0,
        ;
    }
}

/// A record that counts what deduction did lists the names that filled in
/// something, each of them the name of a strategy and counted no more often
/// than there were rounds for each strategy of that name.
pub proof fn lemma_stats_names(
    stats: SolverStats,
    list: Seq<Box<dyn SolvingStrategy>>,
    b: Board,
    cap: nat,
)
    requires
        stats.wf(),
        stats.iterations == deduce(list, b, cap).rounds,
        forall|name: Seq<char>|
            #[trigger] stats.uses(name) == capped(deduce_uses(list, b, cap, name)),
    ensures
        forall|name: Seq<char>| #[trigger] stats.lists(name) <==> stats.uses(name) > 0,
        forall|name: Seq<char>|
            #[trigger] stats.lists(name) ==> stats.uses(name) <= stats.iterations * named(
                list,
                0,
                name,
            ) && exists|i: int| 0 <= i < list.len() && (#[trigger] list[i]).label() == name,
        stats.iterations == 0 ==> stats.strategies_used@.len() == 0,
        standard_strategies(list) ==> forall|name: Seq<char>|
            #[trigger] stats.lists(name) ==> (name == "Naked Singles"@ || name
                == "Hidden Singles"@) && 1 <= stats.uses(name) <= stats.iterations,
{
    stats.lemma_listed_used();
    if standard_strategies(list) {
        lemma_standard_named(list);
        assert forall|name: Seq<char>| #[trigger] stats.lists(name) implies (name
            == "Naked Singles"@ || name == "Hidden Singles"@) && 1 <= stats.uses(name)
            <= stats.iterations by {
            lemma_deduce_uses(list, b, cap, name);
            if name != "Naked Singles"@ && name != "Hidden Singles"@ {
                lemma_deduce_uses_standard(list, b, cap, name);
            }
            assert(stats.iterations * 1 == stats.iterations) by (nonlinear_arith);
        }
    }
    assert forall|name: Seq<char>| #[trigger] stats.lists(name) implies stats.uses(name)
        <= stats.iterations * named(list, 0, name) && exists|i: int|
        0 <= i < list.len() && (#[trigger] list[i]).label() == name by {
        lemma_deduce_uses(list, b, cap, name);
    }
    if stats.iterations == 0 {
        assert forall|name: Seq<char>| #[trigger] stats.uses(name) == 0 by {
            lemma_deduce_uses(list, b, cap, name);
            assert(0 * named(list, 0, name) == 0) by (nonlinear_arith);
        }
    }
}

/// Two lists of strategies of which each makes of every board what its
/// fellow in the other list makes of it, under the same name.
pub open spec fn alike(
    list: Seq<Box<dyn SolvingStrategy>>,
    other: Seq<Box<dyn SolvingStrategy>>,
) -> bool {
    &&& list.len() == other.len()
    &&& forall|i: int, b: Board|
        0 <= i < list.len() ==> #[trigger] list[i].outcome(b) == other[i].outcome(b)
    &&& forall|i: int| 0 <= i < list.len() ==> (#[trigger] list[i]).label() == other[i].label()
}

/// Lists of strategies that are alike make the same round.
pub proof fn lemma_round_alike(
    list: Seq<Box<dyn SolvingStrategy>>,
    other: Seq<Box<dyn SolvingStrategy>>,
    b: Board,
    k: nat,
)
    requires
        alike(list, other),
    ensures
        round(list, b, k) == round(other, b, k),
        forall|name: Seq<char>|
            #[trigger] round_uses(list, b, k, name) == round_uses(other, b, k, name),
    decreases list.len() - k,
{
    if k < list.len() {
        let next = list[k as int].outcome(b);
        assert(next == other[k as int].outcome(b));
        assert(list[k as int].label() == other[k as int].label());
        lemma_round_alike(list, other, next, k + 1);
        lemma_round_alike(list, other, b, k + 1);
        assert forall|name: Seq<char>|
            #[trigger] round_uses(list, b, k, name) == round_uses(other, b, k, name) by {
            assert(round_uses(list, next, k + 1, name) == round_uses(other, next, k + 1, name));
            assert(round_uses(list, b, k + 1, name) == round_uses(other, b, k + 1, name));
        }
    }
}

/// Lists of strategies that are alike deduce the same.
pub proof fn lemma_deduce_alike(
    list: Seq<Box<dyn SolvingStrategy>>,
    other: Seq<Box<dyn SolvingStrategy>>,
    b: Board,
    cap: nat,
)
    requires
        alike(list, other),
    ensures
        deduce(list, b, cap) == deduce(other, b, cap),
        forall|name: Seq<char>|
            #[trigger] deduce_uses(list, b, cap, name) == deduce_uses(other, b, cap, name),
    decreases cap,
{
    lemma_round_alike(list, other, b, 0);
    if !b.complete() && cap > 0 {
        let next = round(list, b, 0).board;
        lemma_deduce_alike(list, other, next, (cap - 1) as nat);
        assert forall|name: Seq<char>|
            #[trigger] deduce_uses(list, b, cap, name) == deduce_uses(other, b, cap, name) by {
            assert(round_uses(list, b, 0, name) == round_uses(other, b, 0, name));
            assert(deduce_uses(list, next, (cap - 1) as nat, name) == deduce_uses(
                other,
                next,
                (cap - 1) as nat,
                name,
            ));
        }
    }
}

/// Any two lists of all strategies in their order are alike.
pub proof fn lemma_standard_alike(
    list: Seq<Box<dyn SolvingStrategy>>,
    other: Seq<Box<dyn SolvingStrategy>>,
)
    requires
        standard_strategies(list),
        standard_strategies(other),
    ensures
        alike(list, other),
{
    assert forall|i: int, b: Board| 0 <= i < list.len() implies #[trigger] list[i].outcome(b)
        == other[i].outcome(b) by {
        if i == 0 {
            assert(list[0].outcome(b) == b.naked_pass());
            assert(other[0].outcome(b) == b.naked_pass());
        } else if i == 1 {
            assert(list[1].outcome(b) == b.hidden_pass());
            assert(other[1].outcome(b) == b.hidden_pass());
        } else {
            assert(list[i].outcome(b) == b);
            assert(other[i].outcome(b) == b);
        }
    }
}

/// Among all strategies in their order there is one called "Naked Singles"
/// and one called "Hidden Singles".
pub proof fn lemma_standard_named(list: Seq<Box<dyn SolvingStrategy>>)
    requires
        standard_strategies(list),
    ensures
        named(list, 0, "Naked Singles"@) == 1,
        named(list, 0, "Hidden Singles"@) == 1,
{
    reveal_strlit("Naked Singles");
    reveal_strlit("Hidden Singles");
    reveal_strlit("Naked Pairs");
    reveal_strlit("Pointing Pairs");
    reveal_strlit("Box/Line Reduction");
    reveal_strlit("X-Wing");
    reveal_strlit("Swordfish");
    reveal_with_fuel(named, 8);
    let naked = "Naked Singles"@;
    let hidden = "Hidden Singles"@;
    assert(naked.len() == 13 && hidden.len() == 14);
    assert("Naked Pairs"@.len() == 11);
    assert("Pointing Pairs"@.len() == 14 && "Pointing Pairs"@[0] == 'P');
    assert("Box/Line Reduction"@.len() == 18);
    assert("X-Wing"@.len() == 6);
    assert("Swordfish"@.len() == 9);
    assert(hidden[0] == 'H');
}

/// Of all strategies in their order, only those called "Naked Singles" and
/// "Hidden Singles" ever fill in anything in a round.
pub proof fn lemma_round_uses_standard(
    list: Seq<Box<dyn SolvingStrategy>>,
    b: Board,
    k: nat,
    name: Seq<char>,
)
    requires
        standard_strategies(list),
        name != "Naked Singles"@,
        name != "Hidden Singles"@,
    ensures
        round_uses(list, b, k, name) == 0,
    decreases list.len() - k,
{
    if k < list.len() {
        let next = list[k as int].outcome(b);
        if k >= 2 {
            assert(list[k as int].outcome(b) == b);
        }
        lemma_round_uses_standard(list, next, k + 1, name);
        lemma_round_uses_standard(list, b, k + 1, name);
    }
}

/// Of all strategies in their order, only those called "Naked Singles" and
/// "Hidden Singles" ever fill in anything in the course of deduction.
pub proof fn lemma_deduce_uses_standard(
    list: Seq<Box<dyn SolvingStrategy>>,
    b: Board,
    cap: nat,
    name: Seq<char>,
)
    requires
        standard_strategies(list),
        name != "Naked Singles"@,
        name != "Hidden Singles"@,
    ensures
        deduce_uses(list, b, cap, name) == 0,
    decreases cap,
{
    lemma_round_uses_standard(list, b, 0, name);
    if !b.complete() && cap > 0 {
        lemma_deduce_uses_standard(list, round(list, b, 0).board, (cap - 1) as nat, name);
    }
}

/// A count as the machine's word holds it: it stops at the largest number.
pub open spec fn capped(n: nat) -> nat {
    if n > usize::MAX {
        usize::MAX as nat
    } else {
        n
    }
}

/// The rounds that are left of `cap` after `taken`.
pub open spec fn rounds_left(cap: usize, taken: usize) -> nat {
    if cap >= taken {
        (cap - taken) as nat
    } else {
        0
    }
}

/// Solves boards: first by deduction, strategy after strategy, then by
/// searching.
pub struct SudokuSolver {
    strategies: Vec<Box<dyn SolvingStrategy>>,
    max_iterations: usize,
    use_backtracking: bool,
}

impl SudokuSolver {
    /// The strategies in the order in which they are applied.
    pub closed spec fn strategies(&self) -> Seq<Box<dyn SolvingStrategy>> {
        self.strategies@
    }

    /// The number of rounds of deduction that a run may take.
    pub closed spec fn iteration_cap(&self) -> usize {
        self.max_iterations
    }

    /// Whether a run searches where deduction does not get to the end.
    pub closed spec fn backtracks(&self) -> bool {
        self.use_backtracking
    }

    /// Some strategy has something to fill in on `b`.
    pub open spec fn some_strategy_finds(&self, b: Board) -> bool {
        exists|i: int| 0 <= i < self.strategies().len() && #[trigger] self.strategies()[i].finds(b)
    }

    /// A solver with all strategies, a thousand rounds of deduction and
    /// search.
    pub fn new() -> (res: Self)
        ensures
            standard_strategies(res.strategies()),
            res.iteration_cap() == 1000,
            res.backtracks(),
    {
        SudokuSolver { strategies: get_all_strategies(), max_iterations: 1000, use_backtracking: true }
    }

    /// A solver with the given strategies, a thousand rounds of deduction
    /// and search.
    pub fn new_with_strategies(strategies: Vec<Box<dyn SolvingStrategy>>) -> (res: Self)
        ensures
            res.strategies() == strategies@,
            res.iteration_cap() == 1000,
            res.backtracks(),
    {
        SudokuSolver { strategies, max_iterations: 1000, use_backtracking: true }
    }

    /// Sets the number of rounds of deduction that a run may take.
    pub fn set_max_iterations(&mut self, max_iterations: usize)
        ensures
            final(self).iteration_cap() == max_iterations,
            final(self).strategies() == old(self).strategies(),
            final(self).backtracks() == old(self).backtracks(),
    {
        self.max_iterations = max_iterations;
    }

    /// Sets whether a run searches where deduction does not get to the end.
    pub fn set_use_backtracking(&mut self, use_backtracking: bool)
        ensures
            final(self).backtracks() == use_backtracking,
            final(self).strategies() == old(self).strategies(),
            final(self).iteration_cap() == old(self).iteration_cap(),
    {
        self.use_backtracking = use_backtracking;
    }

    /// The number of empty cells.
    fn count_empty_cells(&self, sudoku: &Sudoku) -> (count: usize)
        requires
            sudoku.wf(),
        ensures
            count == sudoku@.empties(),
    {
        let mut count: usize = 0;
        let mut row: usize = 0;
        while row < sudoku.size
            invariant
                sudoku.wf(),
                row <= sudoku.size,
                count == sudoku@.rows_empties(row as nat),
            decreases sudoku.size - row,
        {
            let ghost start = count;
            let mut col: usize = 0;
            while col < sudoku.size
                invariant
                    sudoku.wf(),
                    row < sudoku.size,
                    col <= sudoku.size,
                    start == sudoku@.rows_empties(row as nat),
                    count == start + sudoku@.row_empties(row as int, col as nat),
                decreases sudoku.size - col,
            {
                assert(sudoku@.cells[row as int] == sudoku.grid@[row as int]@);
                assert(sudoku@.at(row as int, col as int) == sudoku.grid@[row as int]@[col as int]);
                proof {
                    sudoku@.lemma_rows_empties_bound(row as nat);
                    sudoku@.lemma_row_empties_bound(row as int, col as nat);
                    assert(row * sudoku.size + col < sudoku.size * sudoku.size) by (nonlinear_arith)
                        requires
                            row < sudoku.size,
                            col < sudoku.size,
                    ;
                }
                if sudoku.grid[row][col].is_empty() {
                    count = count + 1;
                }
                col = col + 1;
            }
            row = row + 1;
        }
        count
    }

    /// The board is complete and valid.
    pub fn validate_solution(&self, sudoku: &Sudoku) -> (res: bool)
        requires
            sudoku.wf(),
        ensures
            res == (sudoku@.complete() && sudoku@.valid()),
    {
        sudoku.is_complete() && sudoku.is_valid()
    }

    /// The empty cell with the fewest candidates; of several, the first when
    /// the board is read row by row.
    fn find_best_empty_cell(&self, sudoku: &Sudoku) -> (res: Option<(usize, usize)>)
        requires
            sudoku.wf(),
        ensures
            match res {
                Some((row, col)) => {
                    &&& sudoku@.has(row as int, col as int)
                    &&& sudoku@.at(row as int, col as int) is Empty
                    &&& forall|r: int, c: int|
                        sudoku@.has(r, c) && (#[trigger] sudoku@.at(r, c)) is Empty
                            ==> sudoku@.candidates(row as int, col as int).len()
                            <= sudoku@.candidates(r, c).len()
                    &&& forall|r: int, c: int|
                        sudoku@.has(r, c) && (#[trigger] sudoku@.at(r, c)) is Empty && Board::before(
                            r,
                            c,
                            row as int,
                            col as int,
                        ) ==> sudoku@.candidates(row as int, col as int).len()
                            < sudoku@.candidates(r, c).len()
                },
                None => sudoku@.complete(),
            },
    {
        let mut best_cell: Option<(usize, usize)> = None;
        let mut min_candidates: usize = usize::MAX;
        let mut row: usize = 0;
        while row < sudoku.size
            invariant
                sudoku.wf(),
                row <= sudoku.size,
                match best_cell {
                    Some((br, bc)) => {
                        &&& sudoku@.has(br as int, bc as int)
                        &&& Board::before(br as int, bc as int, row as int, 0)
                        &&& sudoku@.at(br as int, bc as int) is Empty
                        &&& min_candidates == sudoku@.candidates(br as int, bc as int).len()
                        &&& min_candidates > 0
                        &&& forall|r: int, c: int|
                            sudoku@.has(r, c) && (#[trigger] sudoku@.at(r, c)) is Empty && r < row
                                ==> min_candidates <= sudoku@.candidates(r, c).len()
                        &&& forall|r: int, c: int|
                            sudoku@.has(r, c) && (#[trigger] sudoku@.at(r, c)) is Empty
                                && Board::before(r, c, br as int, bc as int) ==> min_candidates
                                < sudoku@.candidates(r, c).len()
                    },
                    None => {
                        &&& min_candidates == usize::MAX
                        &&& forall|r: int, c: int|
                            sudoku@.has(r, c) && r < row ==> !(#[trigger] sudoku@.at(r, c) is Empty)
                    },
                },
            decreases sudoku.size - row,
        {
            let mut col: usize = 0;
            while col < sudoku.size
                invariant
                    sudoku.wf(),
                    row < sudoku.size,
                    col <= sudoku.size,
                    match best_cell {
                        Some((br, bc)) => {
                            &&& sudoku@.has(br as int, bc as int)
                            &&& Board::before(br as int, bc as int, row as int, col as int)
                            &&& sudoku@.at(br as int, bc as int) is Empty
                            &&& min_candidates == sudoku@.candidates(br as int, bc as int).len()
                            &&& min_candidates > 0
                            &&& forall|r: int, c: int|
                                sudoku@.has(r, c) && (#[trigger] sudoku@.at(r, c)) is Empty
                                    && Board::before(r, c, row as int, col as int) ==> min_candidates
                                    <= sudoku@.candidates(r, c).len()
                            &&& forall|r: int, c: int|
                                sudoku@.has(r, c) && (#[trigger] sudoku@.at(r, c)) is Empty
                                    && Board::before(r, c, br as int, bc as int) ==> min_candidates
                                    < sudoku@.candidates(r, c).len()
                        },
                        None => {
                            &&& min_candidates == usize::MAX
                            &&& forall|r: int, c: int|
                                sudoku@.has(r, c) && Board::before(r, c, row as int, col as int)
                                    ==> !(#[trigger] sudoku@.at(r, c) is Empty)
                        },
                    },
                decreases sudoku.size - col,
            {
                assert(sudoku@.cells[row as int] == sudoku.grid@[row as int]@);
                assert(sudoku@.at(row as int, col as int) == sudoku.grid@[row as int]@[col as int]);
                if sudoku.grid[row][col].is_empty() {
                    let candidates = sudoku.get_candidates(row, col);
                    proof {
                        sudoku@.lemma_candidates_finite(row as int, col as int);
                    }
                    if candidates.len() < min_candidates {
                        min_candidates = candidates.len();
                        best_cell = Some((row, col));
                        if min_candidates == 0 {
                            return best_cell;
                        }
                    }
                }
                col = col + 1;
            }
            row = row + 1;
        }
        best_cell
    }

    /// Deduction: rounds of all strategies in turn, until a round fills in
    /// nothing, the board is complete, or the cap on rounds is reached. A
    /// board found invalid after a strategy ends it at once.
    fn solve_with_strategies(&self, sudoku: &mut Sudoku, stats: &mut SolverStats) -> (res: bool)
        requires
            old(sudoku).wf(),
            old(stats).wf(),
            old(stats).cells_filled + old(sudoku)@.empties() <= usize::MAX,
        ensures
            final(sudoku).wf(),
            final(stats).wf(),
            final(sudoku)@.extends(old(sudoku)@),
            final(sudoku)@.keeps_solutions(old(sudoku)@),
            res == (final(sudoku)@.complete() && final(sudoku)@.valid()),
            final(stats).cells_filled + final(sudoku)@.empties() == old(stats).cells_filled + old(sudoku)@.empties(),
            final(stats).backtrack_steps == old(stats).backtrack_steps,
            ({
                let d = deduce(
                    self.strategies(),
                    old(sudoku)@,
                    rounds_left(self.iteration_cap(), old(stats).iterations),
                );
                &&& final(sudoku)@ == d.board
                &&& final(stats).iterations == old(stats).iterations + d.rounds
            }),
            forall|name: Seq<char>|
                #[trigger] final(stats).uses(name) == capped(
                    old(stats).uses(name) + deduce_uses(
                        self.strategies(),
                        old(sudoku)@,
                        rounds_left(self.iteration_cap(), old(stats).iterations),
                        name,
                    ),
                ),
    {
        let ghost origin = sudoku@;
        let ghost list = self.strategies();
        let ghost first = stats.iterations;
        let ghost cap0 = rounds_left(self.max_iterations, stats.iterations);
        let ghost whole = deduce(list, origin, cap0);
        let mut progress = true;
        proof {
            origin.lemma_extends_same();
        }
        while progress && !sudoku.is_complete() && stats.iterations < self.max_iterations
            invariant
                sudoku.wf(),
                stats.wf(),
                origin == old(sudoku)@,
                list == self.strategies(),
                first == old(stats).iterations,
                cap0 == rounds_left(self.max_iterations, first),
                whole == deduce(list, origin, cap0),
                sudoku@.extends(origin),
                sudoku@.keeps_solutions(origin),
                stats.cells_filled + sudoku@.empties() == old(stats).cells_filled + origin.empties(),
                old(stats).cells_filled + origin.empties() <= usize::MAX,
                stats.backtrack_steps == old(stats).backtrack_steps,
                first <= stats.iterations,
                if progress {
                    let rest = deduce(
                        list,
                        sudoku@,
                        rounds_left(self.max_iterations, stats.iterations),
                    );
                    &&& whole.board == rest.board
                    &&& whole.rounds == (stats.iterations - first) + rest.rounds
                } else {
                    &&& whole.board == sudoku@
                    &&& whole.rounds == stats.iterations - first
                },
                forall|name: Seq<char>|
                    capped(
                        #[trigger] stats.uses(name) + (if progress {
                            deduce_uses(
                                list,
                                sudoku@,
                                rounds_left(self.max_iterations, stats.iterations),
                                name,
                            )
                        } else {
                            0
                        }),
                    ) == capped(old(stats).uses(name) + deduce_uses(list, origin, cap0, name)),
            decreases self.max_iterations - stats.iterations,
        {
            let ghost start = sudoku@;
            let ghost left = rounds_left(self.max_iterations, stats.iterations);
            let ghost whole_round = round(list, start, 0);
            let ghost tally = *stats;
            progress = false;
            stats.iterations = stats.iterations + 1;
            let ghost taken = stats.iterations;
            proof {
                stats.lemma_uses_same(&tally);
                assert forall|name: Seq<char>|
                    capped(
                        #[trigger] stats.uses(name) + round_uses(list, sudoku@, 0, name) + (
                        if whole_round.stopped || !whole_round.progress {
                            0
                        } else {
                            deduce_uses(list, whole_round.board, (left - 1) as nat, name)
                        }),
                    ) == capped(old(stats).uses(name) + deduce_uses(list, origin, cap0, name)) by {
                    assert(stats.uses(name) == tally.uses(name));
                    assert(capped(tally.uses(name) + deduce_uses(list, start, left, name))
                        == capped(old(stats).uses(name) + deduce_uses(list, origin, cap0, name)));
                }
            }
            let mut k: usize = 0;
            while k < self.strategies.len()
                invariant
                    sudoku.wf(),
                    stats.wf(),
                    k <= self.strategies@.len(),
                    origin == old(sudoku)@,
                    list == self.strategies(),
                    first == old(stats).iterations,
                    cap0 == rounds_left(self.max_iterations, first),
                    whole == deduce(list, origin, cap0),
                    stats.iterations == taken,
                    first < taken <= self.max_iterations,
                    left == rounds_left(self.max_iterations, (taken - 1) as usize),
                    left > 0,
                    !start.complete(),
                    whole_round == round(list, start, 0),
                    whole.board == deduce(list, start, left).board,
                    whole.rounds == (taken - 1 - first) + deduce(list, start, left).rounds,
                    sudoku@.extends(origin),
                    sudoku@.keeps_solutions(origin),
                    stats.cells_filled + sudoku@.empties() == old(stats).cells_filled
                        + origin.empties(),
                    old(stats).cells_filled + origin.empties() <= usize::MAX,
                    stats.backtrack_steps == old(stats).backtrack_steps,
                    whole_round.board == round(list, sudoku@, k as nat).board,
                    whole_round.stopped == round(list, sudoku@, k as nat).stopped,
                    whole_round.progress == (progress || round(list, sudoku@, k as nat).progress),
                    forall|name: Seq<char>|
                        capped(
                            #[trigger] stats.uses(name) + round_uses(list, sudoku@, k as nat, name)
                                + (if whole_round.stopped || !whole_round.progress {
                                0
                            } else {
                                deduce_uses(list, whole_round.board, (left - 1) as nat, name)
                            }),
                        ) == capped(old(stats).uses(name) + deduce_uses(list, origin, cap0, name)),
                decreases self.strategies@.len() - k,
            {
                let ghost before = sudoku@;
                let ghost tally = *stats;
                let initial_empty_count = self.count_empty_cells(sudoku);
                if self.strategies[k].apply(sudoku) {
                    let final_empty_count = self.count_empty_cells(sudoku);
                    proof {
                        sudoku@.lemma_extends_empties(before);
                        sudoku@.lemma_extends_trans(before, origin);
                        sudoku@.lemma_keeps_solutions_trans(before, origin);
                    }
                    let cells_filled = initial_empty_count - final_empty_count;
                    stats.cells_filled = stats.cells_filled + cells_filled;
                    proof {
                        stats.lemma_uses_same(&tally);
                    }
                    let ghost counted = *stats;
                    stats.record(self.strategies[k].name());
                    progress = true;
                    let valid = sudoku.is_valid();
                    proof {
                        let label = list[k as int].label();
                        assert(sudoku@ == list[k as int].outcome(before));
                        assert forall|name: Seq<char>|
                            capped(
                                #[trigger] stats.uses(name) + (if valid {
                                    round_uses(list, sudoku@, (k + 1) as nat, name)
                                } else {
                                    0
                                }) + (if whole_round.stopped || !whole_round.progress {
                                    0
                                } else {
                                    deduce_uses(list, whole_round.board, (left - 1) as nat, name)
                                }),
                            ) == capped(
                                old(stats).uses(name) + deduce_uses(list, origin, cap0, name),
                            ) by {
                            let here: nat = if label == name {
                                1
                            } else {
                                0
                            };
                            assert(round_uses(list, before, k as nat, name) == here + (if valid {
                                round_uses(list, sudoku@, (k + 1) as nat, name)
                            } else {
                                0
                            }));
                            assert(counted.uses(name) == tally.uses(name));
                            assert(stats.uses(name) == capped(tally.uses(name) + here));
                            assert(capped(
                                tally.uses(name) + round_uses(list, before, k as nat, name) + (
                                if whole_round.stopped || !whole_round.progress {
                                    0
                                } else {
                                    deduce_uses(list, whole_round.board, (left - 1) as nat, name)
                                }),
                            ) == capped(
                                old(stats).uses(name) + deduce_uses(list, origin, cap0, name),
                            ));
                        }
                    }
                    if !valid {
                        proof {
                            assert(whole_round.stopped);
                            assert(whole_round.board == sudoku@);
                            assert(deduce(list, start, left).board == sudoku@);
                            assert forall|name: Seq<char>|
                                #[trigger] stats.uses(name) == capped(
                                    old(stats).uses(name) + deduce_uses(
                                        list,
                                        origin,
                                        cap0,
                                        name,
                                    ),
                                ) by {
                                assert(capped(stats.uses(name) + 0 + 0) == capped(
                                    old(stats).uses(name) + deduce_uses(list, origin, cap0, name),
                                ));
                            }
                        }
                        return false;
                    }
                } else {
                    assert(sudoku@ == before);
                    assert(sudoku@ == list[k as int].outcome(before));
                }
                k = k + 1;
            }
            proof {
                assert(whole_round.board == sudoku@);
                assert(!whole_round.stopped);
                assert(whole_round.progress == progress);
                assert(rounds_left(self.max_iterations, stats.iterations) == left - 1);
                assert forall|name: Seq<char>|
                    capped(
                        #[trigger] stats.uses(name) + (if progress {
                            deduce_uses(
                                list,
                                sudoku@,
                                rounds_left(self.max_iterations, stats.iterations),
                                name,
                            )
                        } else {
                            0
                        }),
                    ) == capped(old(stats).uses(name) + deduce_uses(list, origin, cap0, name)) by {
                    assert(capped(
                        stats.uses(name) + round_uses(
                            list,
                            sudoku@,
                            self.strategies@.len() as nat,
                            name,
                        ) + (if whole_round.stopped || !whole_round.progress {
                            0
                        } else {
                            deduce_uses(list, whole_round.board, (left - 1) as nat, name)
                        }),
                    ) == capped(old(stats).uses(name) + deduce_uses(list, origin, cap0, name)));
                }
            }
        }
        proof {
            assert(whole.board == sudoku@);
            assert(whole.rounds == stats.iterations - first);
            assert forall|name: Seq<char>|
                #[trigger] stats.uses(name) == capped(
                    old(stats).uses(name) + deduce_uses(list, origin, cap0, name),
                ) by {
                assert(capped(
                    stats.uses(name) + (if progress {
                        deduce_uses(
                            list,
                            sudoku@,
                            rounds_left(self.max_iterations, stats.iterations),
                            name,
                        )
                    } else {
                        0
                    }),
                ) == capped(old(stats).uses(name) + deduce_uses(list, origin, cap0, name)));
            }
        }
        sudoku.is_complete() && sudoku.is_valid()
    }

    /// Search: the empty cell with the fewest candidates is given each of
    /// them in turn, and the rest is searched in the same way, until a board
    /// is complete and valid. A value that leads nowhere is taken back.
    fn solve_with_backtracking(&self, sudoku: &mut Sudoku, stats: &mut SolverStats) -> (found: bool)
        requires
            old(sudoku).wf(),
        ensures
            final(sudoku).wf(),
            found ==> final(sudoku)@.solves(old(sudoku)@),
            !found ==> final(sudoku)@ == old(sudoku)@ && !old(sudoku)@.solvable(),
            final(stats).strategies_used == old(stats).strategies_used,
            final(stats).cells_filled == old(stats).cells_filled,
            final(stats).iterations == old(stats).iterations,
            final(stats).backtrack_steps >= old(stats).backtrack_steps,
            found && !old(sudoku)@.complete() ==> final(stats).backtrack_steps > old(stats).backtrack_steps || final(stats).backtrack_steps == usize::MAX,
        decreases old(sudoku)@.empties(),
    {
        let ghost origin = sudoku@;
        proof {
            origin.lemma_extends_same();
        }
        if sudoku.is_complete() {
            let valid = sudoku.is_valid();
            proof {
                if !valid && origin.solvable() {
                    let s = choose|s: Board| #[trigger] s.solves(origin);
                    origin.lemma_complete_solution(s);
                }
            }
            return valid;
        }
        let (row, col) = match self.find_best_empty_cell(sudoku) {
            Some(pos) => pos,
            None => {
                return false;
            },
        };
        let candidates = members(&sudoku.get_candidates(row, col));
        let mut k: usize = 0;
        while k < candidates.len()
            invariant
                sudoku.wf(),
                sudoku@ == origin,
                origin == old(sudoku)@,
                origin.wf(),
                origin.has(row as int, col as int),
                origin.at(row as int, col as int) is Empty,
                k <= candidates@.len(),
                candidates@.to_set() == origin.candidates(row as int, col as int),
                forall|i: int|
                    0 <= i < k ==> !(#[trigger] origin.with_cell(
                        row as int,
                        col as int,
                        Cell::Filled(candidates@[i]),
                    )).solvable(),
                stats.strategies_used == old(stats).strategies_used,
                stats.cells_filled == old(stats).cells_filled,
                stats.iterations == old(stats).iterations,
                stats.backtrack_steps >= old(stats).backtrack_steps,
            decreases candidates@.len() - k,
        {
            let value: u8 = candidates[k];
            assert(candidates@.to_set().contains(value));
            assert(origin.candidate(row as int, col as int, value));
            let ghost tried = origin.with_cell(row as int, col as int, Cell::Filled(value));
            proof {
                origin.lemma_fill_extends(row as int, col as int, value);
                origin.lemma_empties_with_cell(row as int, col as int, Cell::Filled(value));
                tried.lemma_with_cell_undo_fill(origin, row as int, col as int, value);
            }
            if sudoku.set(row, col, value).is_ok() {
                stats.backtrack_steps = stats.backtrack_steps.saturating_add(1);
                if sudoku.is_valid() {
                    if self.solve_with_backtracking(sudoku, stats) {
                        proof {
                            sudoku@.lemma_extends_trans(tried, origin);
                        }
                        return true;
                    }
                } else {
                    proof {
                        if tried.solvable() {
                            let s = choose|s: Board| #[trigger] s.solves(tried);
                            tried.lemma_solved_is_valid(s);
                        }
                    }
                }
                let undone = sudoku.set(row, col, 0);
                assert(undone is Ok);
            }
            k = k + 1;
        }
        proof {
            if origin.solvable() {
                let s = choose|s: Board| #[trigger] s.solves(origin);
                origin.lemma_solution_picks_candidate(s, row as int, col as int);
                let v = s.at(row as int, col as int)->Filled_0;
                assert(candidates@.to_set().contains(v));
                let i = choose|i: int| 0 <= i < candidates@.len() && candidates@[i] == v;
                origin.lemma_solves_between(s, row as int, col as int);
                assert(origin.with_cell(row as int, col as int, Cell::Filled(candidates@[i])).solvable());
            }
        }
        false
    }

    /// Solves the board: by deduction, and where that does not get to the
    /// end and the solver searches, by search. A board that is not valid is
    /// turned down before anything is tried.
    pub fn solve(&mut self, sudoku: Sudoku) -> (res: Result<Sudoku, String>)
        requires
            sudoku.wf(),
        ensures
            *final(self) == *old(self),
            match res {
                Ok(solved) => {
                    let d = deduce(
                        old(self).strategies(),
                        sudoku@,
                        old(self).iteration_cap() as nat,
                    );
                    &&& solved.wf()
                    &&& solved@.solves(sudoku@)
                    &&& solved@.extends(d.board)
                    &&& (d.board.complete() && d.board.valid() ==> solved@ == d.board)
                },
                Err(msg) => if sudoku@.valid() {
                    msg@ == "No solution found"@
                } else {
                    msg@ == "Invalid initial state"@
                },
            },
            !sudoku@.valid() ==> res is Err,
            old(self).backtracks() ==> (res is Ok <==> sudoku@.solvable()),
            !old(self).backtracks() ==> (res is Ok <==> {
                let d = deduce(old(self).strategies(), sudoku@, old(self).iteration_cap() as nat);
                sudoku@.valid() && d.board.complete() && d.board.valid()
            }),
            ({
                let d = deduce(old(self).strategies(), sudoku@, old(self).iteration_cap() as nat);
                sudoku@.valid() && d.board.complete() && d.board.valid()
            }) ==> res is Ok,
    {
        match self.solve_with_stats(sudoku) {
            Ok((solved, _)) => Ok(solved),
            Err(msg) => Err(msg),
        }
    }

    /// Solves the board as `solve` does, and says what the run did: the
    /// rounds of deduction, the cells that deduction filled in, how often
    /// each strategy filled in something, and the values that search tried.
    pub fn solve_with_stats(&mut self, sudoku: Sudoku) -> (res: Result<(Sudoku, SolverStats), String>)
        requires
            sudoku.wf(),
        ensures
            *final(self) == *old(self),
            match res {
                Ok((solved, stats)) => {
                    let d = deduce(
                        old(self).strategies(),
                        sudoku@,
                        old(self).iteration_cap() as nat,
                    );
                    &&& solved.wf()
                    &&& solved@.solves(sudoku@)
                    &&& solved@.extends(d.board)
                    &&& stats.wf()
                    &&& stats.iterations == d.rounds
                    &&& stats.cells_filled == sudoku@.empties() - d.board.empties()
                    &&& forall|name: Seq<char>|
                        #[trigger] stats.uses(name) == capped(
                            deduce_uses(
                                old(self).strategies(),
                                sudoku@,
                                old(self).iteration_cap() as nat,
                                name,
                            ),
                        )
                    &&& forall|name: Seq<char>| #[trigger] stats.lists(name) <==> stats.uses(name) > 0
                    &&& forall|name: Seq<char>|
                        #[trigger] stats.lists(name) ==> stats.uses(name) <= stats.iterations
                            * named(old(self).strategies(), 0, name) && exists|i: int|
                            0 <= i < old(self).strategies().len() && (#[trigger] old(self).strategies()[i]).label() == name
                    &&& (d.rounds == 0 ==> stats.strategies_used@.len() == 0)
                    &&& (standard_strategies(old(self).strategies()) ==> forall|name: Seq<char>|
                        #[trigger] stats.lists(name) ==> (name == "Naked Singles"@ || name
                            == "Hidden Singles"@) && 1 <= stats.uses(name) <= stats.iterations)
                    &&& if d.board.complete() && d.board.valid() {
                        solved@ == d.board && stats.backtrack_steps == 0
                    } else {
                        stats.backtrack_steps > 0
                    }
                },
                Err(msg) => if sudoku@.valid() {
                    msg@ == "No solution found"@
                } else {
                    msg@ == "Invalid initial state"@
                },
            },
            !sudoku@.valid() ==> res is Err,
            old(self).backtracks() ==> (res is Ok <==> sudoku@.solvable()),
            !old(self).backtracks() ==> (res is Ok <==> {
                let d = deduce(old(self).strategies(), sudoku@, old(self).iteration_cap() as nat);
                sudoku@.valid() && d.board.complete() && d.board.valid()
            }),
            ({
                let d = deduce(old(self).strategies(), sudoku@, old(self).iteration_cap() as nat);
                sudoku@.valid() && d.board.complete() && d.board.valid()
            }) ==> res is Ok,
    {
        let mut sudoku = sudoku;
        let ghost origin = sudoku@;
        if !sudoku.is_valid() {
            proof {
                origin.lemma_invalid_count();
            }
            return Err(String::from_str("Invalid initial state"));
        }
        let mut stats = SolverStats::new();
        proof {
            origin.lemma_empties_bound();
            assert forall|name: Seq<char>| #[trigger] stats.uses(name) == 0 by {
                assert(!stats.lists(name));
            }
        }
        if self.solve_with_strategies(&mut sudoku, &mut stats) {
            proof {
                assert(sudoku@.solves(origin));
                sudoku@.lemma_extends_same();
                lemma_stats_names(stats, self.strategies(), origin, self.max_iterations as nat);
            }
            return Ok((sudoku, stats));
        }
        let ghost deduced = sudoku@;
        let ghost tally = stats;
        if self.use_backtracking {
            if self.solve_with_backtracking(&mut sudoku, &mut stats) {
                proof {
                    stats.lemma_uses_same(&tally);
                    lemma_stats_names(stats, self.strategies(), origin, self.max_iterations as nat);
                    sudoku@.lemma_extends_trans(deduced, origin);
                    deduced.lemma_solved_is_valid(sudoku@);
                    assert(sudoku@.solves(origin));
                }
                return Ok((sudoku, stats));
            }
            proof {
                if origin.solvable() {
                    let s = choose|s: Board| #[trigger] s.solves(origin);
                    assert(s.solves(deduced));
                }
            }
        }
        if sudoku.is_complete() && sudoku.is_valid() {
            Ok((sudoku, stats))
        } else {
            Err(String::from_str("No solution found"))
        }
    }

    /// A cell that can be filled in by deduction, and its value: the first
    /// cell with one candidate only, or else the first cell that a strategy
    /// called "Hidden Singles" would fill in. The board is left as it is.
    pub fn get_hint(&mut self, sudoku: &mut Sudoku) -> (res: Option<(usize, usize, u8)>)
        requires
            old(sudoku).wf(),
        ensures
            *final(self) == *old(self),
            *final(sudoku) == *old(sudoku),
            match res {
                Some((row, col, value)) => {
                    let b = old(sudoku)@;
                    &&& b.has(row as int, col as int)
                    &&& b.at(row as int, col as int) is Empty
                    &&& 1 <= value <= b.size
                    &&& b.candidate(row as int, col as int, value)
                    &&& forall|s: Board| #[trigger]
                        s.solves(b) ==> s.at(row as int, col as int) == Cell::Filled(value)
                    &&& (exists|r: int, c: int| #[trigger] b.naked_single(r, c)) ==> {
                        &&& b.naked_single(row as int, col as int)
                        &&& b.candidates(row as int, col as int).contains(value)
                        &&& forall|r: int, c: int|
                            Board::before(r, c, row as int, col as int) ==> !#[trigger] b.naked_single(
                                r,
                                c,
                            )
                    }
                    &&& (forall|r: int, c: int| !#[trigger] b.naked_single(r, c)) ==> exists|
                        k: int,
                    |
                        {
                            &&& 0 <= k < old(self).strategies().len()
                            &&& (#[trigger] old(self).strategies()[k]).label()
                                == "Hidden Singles"@
                            &&& old(self).strategies()[k].outcome(b).at(row as int, col as int)
                                == Cell::Filled(value)
                            &&& forall|r: int, c: int|
                                b.has(r, c) && Board::before(r, c, row as int, col as int)
                                    ==> #[trigger] old(self).strategies()[k].outcome(b).at(r, c)
                                    == b.at(r, c)
                            &&& forall|i: int|
                                0 <= i < k && (#[trigger] old(self).strategies()[i]).label()
                                    == "Hidden Singles"@ ==> old(self).strategies()[i].outcome(b)
                                    == b
                        }
                },
                None => {
                    let b = old(sudoku)@;
                    &&& forall|r: int, c: int| !#[trigger] b.naked_single(r, c)
                    &&& forall|i: int|
                        0 <= i < old(self).strategies().len() && (#[trigger] old(self).strategies()[i]).label() == "Hidden Singles"@ ==> !old(self).strategies()[i].finds(b)
                },
            },
    {
        let ghost b = sudoku@;
        let mut row: usize = 0;
        while row < sudoku.size
            invariant
                sudoku.wf(),
                *sudoku == *old(sudoku),
                b == sudoku@,
                row <= sudoku.size,
                forall|r: int, c: int| 0 <= r < row ==> !#[trigger] b.naked_single(r, c),
            decreases sudoku.size - row,
        {
            let mut col: usize = 0;
            while col < sudoku.size
                invariant
                    sudoku.wf(),
                    *sudoku == *old(sudoku),
                    b == sudoku@,
                    row < sudoku.size,
                    col <= sudoku.size,
                    forall|r: int, c: int|
                        0 <= r < row || (r == row && 0 <= c < col) ==> !#[trigger] b.naked_single(
                            r,
                            c,
                        ),
                decreases sudoku.size - col,
            {
                assert(b.cells[row as int] == sudoku.grid@[row as int]@);
                assert(b.at(row as int, col as int) == sudoku.grid@[row as int]@[col as int]);
                proof {
                    b.lemma_candidates_finite(row as int, col as int);
                }
                if sudoku.grid[row][col].is_empty() {
                    let candidates = sudoku.get_candidates(row, col);
                    if candidates.len() == 1 {
                        let value = only_member(&candidates);
                        proof {
                            assert(b.naked_single(row as int, col as int));
                            assert forall|s: Board| #[trigger] s.solves(b) implies s.at(
                                row as int,
                                col as int,
                            ) == Cell::Filled(value) by {
                                b.lemma_naked_single_forced(s, row as int, col as int, value);
                            }
                            assert forall|r: int, c: int|
                                Board::before(
                                    r,
                                    c,
                                    row as int,
                                    col as int,
                                ) implies !#[trigger] b.naked_single(r, c) by {
                                if b.naked_single(r, c) {
                                    assert(b.has(r, c));
                                }
                            }
                        }
                        return Some((row, col, value));
                    }
                } else {
                    assert(b.candidates(row as int, col as int) =~= Set::empty());
                }
                col = col + 1;
            }
            row = row + 1;
        }
        assert forall|r: int, c: int| !#[trigger] b.naked_single(r, c) by {
            if b.naked_single(r, c) {
                assert(0 <= r < row);
            }
        }
        let wanted = String::from_str("Hidden Singles");
        let mut k: usize = 0;
        while k < self.strategies.len()
            invariant
                sudoku.wf(),
                *sudoku == *old(sudoku),
                *self == *old(self),
                b == sudoku@,
                wanted@ == "Hidden Singles"@,
                k <= self.strategies@.len(),
                forall|r: int, c: int| !#[trigger] b.naked_single(r, c),
                forall|i: int|
                    0 <= i < k && (#[trigger] self.strategies()[i]).label() == "Hidden Singles"@
                        ==> !self.strategies()[i].finds(b) && self.strategies()[i].outcome(b) == b,
            decreases self.strategies@.len() - k,
        {
            if String::from_str(self.strategies[k].name()) == wanted {
                let mut temp_sudoku = sudoku.clone();
                assert(temp_sudoku.wf());
                if self.strategies[k].apply(&mut temp_sudoku) {
                    let ghost t = temp_sudoku@;
                    let mut row: usize = 0;
                    while row < sudoku.size
                        invariant
                            sudoku.wf(),
                            temp_sudoku.wf(),
                            *sudoku == *old(sudoku),
                            b == sudoku@,
                            t == temp_sudoku@,
                            t.extends(b),
                            t.keeps_solutions(b),
                            t.fills_from(b),
                            k < self.strategies@.len(),
                            *self == *old(self),
                            self.strategies()[k as int].label() == "Hidden Singles"@,
                            self.strategies()[k as int].outcome(b) == t,
                            forall|i: int|
                                0 <= i < k && (#[trigger] self.strategies()[i]).label()
                                    == "Hidden Singles"@ ==> self.strategies()[i].outcome(b) == b,
                            forall|r: int, c: int| !#[trigger] b.naked_single(r, c),
                            row <= sudoku.size,
                            forall|r: int, c: int|
                                0 <= r < row && 0 <= c < b.size ==> #[trigger] t.at(r, c) == b.at(
                                    r,
                                    c,
                                ),
                        decreases sudoku.size - row,
                    {
                        let mut col: usize = 0;
                        while col < sudoku.size
                            invariant
                                sudoku.wf(),
                                temp_sudoku.wf(),
                                *sudoku == *old(sudoku),
                                b == sudoku@,
                                t == temp_sudoku@,
                                t.extends(b),
                                t.keeps_solutions(b),
                                t.fills_from(b),
                                k < self.strategies@.len(),
                                *self == *old(self),
                                self.strategies()[k as int].label() == "Hidden Singles"@,
                                self.strategies()[k as int].outcome(b) == t,
                                forall|i: int|
                                    0 <= i < k && (#[trigger] self.strategies()[i]).label()
                                        == "Hidden Singles"@ ==> self.strategies()[i].outcome(b) == b,
                                forall|r: int, c: int| !#[trigger] b.naked_single(r, c),
                                row < sudoku.size,
                                col <= sudoku.size,
                                forall|r: int, c: int|
                                    (0 <= r < row && 0 <= c < b.size) || (r == row && 0 <= c < col)
                                        ==> #[trigger] t.at(r, c) == b.at(r, c),
                            decreases sudoku.size - col,
                        {
                            assert(b.cells[row as int] == sudoku.grid@[row as int]@);
                            assert(b.at(row as int, col as int) == sudoku.grid@[row as int]@[col as int]);
                            assert(t.cells[row as int] == temp_sudoku.grid@[row as int]@);
                            assert(t.at(row as int, col as int) == temp_sudoku.grid@[row as int]@[col as int]);
                            if sudoku.grid[row][col] != temp_sudoku.grid[row][col] {
                                if let Some(value) = temp_sudoku.grid[row][col].value() {
                                    proof {
                                        assert(b.at(row as int, col as int) is Empty);
                                        assert(t.at(row as int, col as int) == Cell::Filled(value));
                                        let list = self.strategies();
                                        assert(list[k as int].label() == "Hidden Singles"@);
                                        assert(list[k as int].outcome(b) == t);
                                        assert forall|r: int, c: int|
                                            b.has(r, c) && Board::before(
                                                r,
                                                c,
                                                row as int,
                                                col as int,
                                            ) implies #[trigger] list[k as int].outcome(b).at(r, c)
                                            == b.at(r, c) by {
                                            assert(t.at(r, c) == b.at(r, c));
                                        }
                                        assert forall|s: Board| #[trigger] s.solves(b) implies s.at(
                                            row as int,
                                            col as int,
                                        ) == Cell::Filled(value) by {
                                            assert(s.solves(t));
                                        }
                                    }
                                    return Some((row, col, value));
                                }
                            }
                            col = col + 1;
                        }
                        row = row + 1;
                    }
                    proof {
                        assert forall|r: int| 0 <= r < b.size implies #[trigger] t.cells[r]
                            == b.cells[r] by {
                            assert forall|c: int| 0 <= c < b.size implies t.cells[r][c]
                                == b.cells[r][c] by {
                                assert(t.at(r, c) == b.at(r, c));
                            }
                            assert(t.cells[r] =~= b.cells[r]);
                        }
                        assert(t.cells =~= b.cells);
                        assert(t == b);
                        assert(false);
                    }
                }
            }
            k = k + 1;
        }
        None
    }

    /// The number of solutions of the board, counted up to `max_solutions`
    /// and no further.
    pub fn count_solutions(&mut self, sudoku: Sudoku, max_solutions: usize) -> (count: usize)
        requires
            sudoku.wf(),
        ensures
            *final(self) == *old(self),
            sudoku@.solutions().finite(),
            count == if sudoku@.solutions().len() <= max_solutions {
                sudoku@.solutions().len()
            } else {
                max_solutions as nat
            },
    {
        let mut sudoku = sudoku;
        let mut count: usize = 0;
        proof {
            sudoku@.lemma_solutions_finite();
        }
        self.count_solutions_recursive(&mut sudoku, &mut count, max_solutions);
        count
    }

    /// Adds the number of solutions of the board to `count`, as far as
    /// `max_solutions`: the first empty cell is given each of its candidates
    /// in turn, and the boards that stay valid are counted in the same way.
    fn count_solutions_recursive(&self, sudoku: &mut Sudoku, count: &mut usize, max_solutions: usize)
        requires
            old(sudoku).wf(),
        ensures
            final(sudoku).wf(),
            final(sudoku)@ == old(sudoku)@,
            *final(count) == if *old(count) >= max_solutions {
                *old(count) as int
            } else if *old(count) + old(sudoku)@.solutions().len() <= max_solutions {
                *old(count) + old(sudoku)@.solutions().len()
            } else {
                max_solutions as int
            },
        decreases old(sudoku)@.empties(),
    {
        let ghost origin = sudoku@;
        let ghost start = *count;
        if *count >= max_solutions {
            return ;
        }
        if sudoku.is_complete() {
            proof {
                origin.lemma_complete_count();
            }
            if sudoku.is_valid() {
                *count = *count + 1;
            }
            return ;
        }
        let (row, col) = match sudoku.find_empty_cell() {
            Some(pos) => pos,
            None => {
                return ;
            },
        };
        let candidates = members(&sudoku.get_candidates(row, col));
        proof {
            assert forall|i: int| 0 <= i < candidates@.len() implies 1 <= #[trigger] candidates@[i]
                <= origin.size by {
                assert(candidates@.to_set().contains(candidates@[i]));
                assert(origin.candidate(row as int, col as int, candidates@[i]));
            }
            origin.lemma_branch_count(row as int, col as int, candidates@, candidates@.len());
            origin.lemma_branches_cover(row as int, col as int, candidates@);
        }
        let mut k: usize = 0;
        while k < candidates.len()
            invariant
                sudoku.wf(),
                sudoku@ == origin,
                origin == old(sudoku)@,
                origin.wf(),
                origin.has(row as int, col as int),
                origin.at(row as int, col as int) is Empty,
                k <= candidates@.len(),
                start == *old(count),
                start < max_solutions,
                candidates@.no_duplicates(),
                forall|i: int|
                    0 <= i < candidates@.len() ==> 1 <= #[trigger] candidates@[i] <= origin.size,
                *count == if start + origin.branch_total(
                    row as int,
                    col as int,
                    candidates@,
                    k as nat,
                ) <= max_solutions {
                    start + origin.branch_total(row as int, col as int, candidates@, k as nat)
                } else {
                    max_solutions as int
                },
            decreases candidates@.len() - k,
        {
            let value: u8 = candidates[k];
            let ghost tried = origin.branch(row as int, col as int, candidates@, k as int);
            proof {
                origin.lemma_branch_wf(row as int, col as int, value);
                tried.lemma_with_cell_undo_fill(origin, row as int, col as int, value);
            }
            if sudoku.set(row, col, value).is_ok() {
                if sudoku.is_valid() {
                    self.count_solutions_recursive(sudoku, count, max_solutions);
                } else {
                    proof {
                        tried.lemma_invalid_count();
                    }
                }
                let undone = sudoku.set(row, col, 0);
                assert(undone is Ok);
            }
            k = k + 1;
        }
    }

    /// One step of deduction: the first strategy that has something to fill
    /// in does so.
    pub fn solve_step(&self, sudoku: &mut Sudoku) -> (res: bool)
        requires
            old(sudoku).wf(),
        ensures
            final(sudoku).wf(),
            final(sudoku)@.extends(old(sudoku)@),
            final(sudoku)@.keeps_solutions(old(sudoku)@),
            final(sudoku)@.fills_from(old(sudoku)@),
            old(sudoku)@.valid() ==> final(sudoku)@.valid(),
            final(sudoku)@ == step(self.strategies(), old(sudoku)@, 0),
            res == (final(sudoku)@ != old(sudoku)@),
            res == self.some_strategy_finds(old(sudoku)@),
    {
        proof {
            sudoku@.lemma_extends_same();
        }
        let mut k: usize = 0;
        while k < self.strategies.len()
            invariant
                sudoku.wf(),
                sudoku@ == old(sudoku)@,
                k <= self.strategies@.len(),
                forall|i: int| 0 <= i < k ==> !#[trigger] self.strategies@[i].finds(old(sudoku)@),
                step(self.strategies(), old(sudoku)@, 0) == step(
                    self.strategies(),
                    old(sudoku)@,
                    k as nat,
                ),
            decreases self.strategies@.len() - k,
        {
            if self.strategies[k].apply(sudoku) {
                assert(self.strategies()[k as int].finds(old(sudoku)@));
                return true;
            }
            k = k + 1;
        }
        false
    }
}

impl Default for SudokuSolver {
    fn default() -> (res: Self)
        ensures
            standard_strategies(res.strategies()),
            res.iteration_cap() == 1000,
            res.backtracks(),
    {
        Self::new()
    }
}

} // verus!
