//! A counting argument used where contour lines are shown to end.

use vstd::prelude::*;

verus! {

/// Pigeonhole: a sequence of natural numbers below `bound` that is longer than
/// `bound` repeats one of them.
pub proof fn lemma_pigeonhole(ranks: Seq<int>, bound: int) -> (pair: (int, int))
    requires
        0 <= bound,
        forall|i: int| 0 <= i < ranks.len() ==> 0 <= #[trigger] ranks[i] < bound,
        ranks.len() > bound,
    ensures
        0 <= pair.0 < pair.1 < ranks.len(),
        ranks[pair.0] == ranks[pair.1],
{
    if ranks.no_duplicates() {
        ranks.unique_seq_to_set();
        let hi: int = bound;
        vstd::set_lib::lemma_int_range(0, hi);
        assert(ranks.to_set().subset_of(vstd::set_lib::set_int_range(0, hi))) by {
            assert forall|r: int| ranks.to_set().contains(r) implies vstd::set_lib::set_int_range(0, hi).contains(
                r,
            ) by {
                let i = choose|i: int| 0 <= i < ranks.len() && ranks[i] == r;
                assert(0 <= ranks[i] < bound);
            }
        }
        vstd::set_lib::lemma_len_subset(ranks.to_set(), vstd::set_lib::set_int_range(0, hi));
        assert(false);
        (0, 0)
    } else {
        let (i, j) = choose|i: int, j: int|
            0 <= i < ranks.len() && 0 <= j < ranks.len() && i != j && ranks[i] == ranks[j];
        if i < j {
            (i, j)
        } else {
            (j, i)
        }
    }
}

} // verus!
