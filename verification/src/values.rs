use vstd::prelude::*;
use vstd::set_lib::{lemma_int_range, lemma_len_subset, lemma_subset_equality, set_int_range};
use crate::grid::Board;

verus! {

/// The values from 1 to `n`.
pub open spec fn values_upto(n: nat) -> Set<u8> {
    Set::new(|v: u8| 1 <= v <= n)
}

/// There are `n` values from 1 to `n`, as far as a byte reaches.
pub proof fn lemma_values_upto(n: nat)
    ensures
        values_upto(n).finite(),
        values_upto(n).len() == if n <= 255 {
            n
        } else {
            255
        },
    decreases n,
{
    if n == 0 {
        assert(values_upto(0) =~= Set::empty());
    } else {
        lemma_values_upto((n - 1) as nat);
        if n <= 255 {
            assert(values_upto(n) =~= values_upto((n - 1) as nat).insert(n as u8));
        } else {
            assert(values_upto(n) =~= values_upto((n - 1) as nat));
        }
    }
}

/// `n` different numbers between 1 and `n` are all the numbers between 1 and
/// `n`.
pub proof fn lemma_all_values_taken(f: Seq<int>, v: int)
    requires
        forall|i: int| 0 <= i < f.len() ==> 1 <= #[trigger] f[i] <= f.len(),
        forall|i: int, j: int| 0 <= i < j < f.len() ==> f[i] != f[j],
        1 <= v <= f.len(),
    ensures
        exists|i: int| 0 <= i < f.len() && f[i] == v,
{
    let n = f.len() as int;
    assert(f.no_duplicates());
    f.unique_seq_to_set();
    lemma_int_range(1, n + 1);
    assert(f.to_set().subset_of(set_int_range(1, n + 1))) by {
        assert forall|x: int| f.to_set().contains(x) implies set_int_range(1, n + 1).contains(x) by {
            let i = choose|i: int| 0 <= i < f.len() && f[i] == x;
            assert(1 <= f[i] <= f.len());
        }
    }
    lemma_len_subset(f.to_set(), set_int_range(1, n + 1));
    lemma_subset_equality(f.to_set(), set_int_range(1, n + 1));
    assert(set_int_range(1, n + 1).contains(v));
    assert(f.to_set().contains(v));
    assert(f.contains(v));
}

impl Board {
    /// A cell has finitely many candidates, no more than the board has
    /// values.
    pub proof fn lemma_candidates_finite(self, r: int, c: int)
        ensures
            self.candidates(r, c).finite(),
            self.candidates(r, c).len() <= self.size,
            self.candidates(r, c).len() <= 255,
    {
        lemma_values_upto(self.size);
        assert(self.candidates(r, c).subset_of(values_upto(self.size)));
        lemma_len_subset(self.candidates(r, c), values_upto(self.size));
    }
}

} // verus!
