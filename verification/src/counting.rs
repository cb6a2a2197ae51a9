//! Counting.
use vstd::prelude::*;

verus! {

/// Numbers that are all different and all below `m` are at most `m` many.
pub proof fn lemma_pigeonhole(s: Seq<int>, m: nat)
    requires
        s.no_duplicates(),
        forall|i: int| 0 <= i < s.len() ==> 0 <= #[trigger] s[i] < m,
    ensures
        s.len() <= m,
{
    s.unique_seq_to_set();
    vstd::set_lib::lemma_int_range(0, m as int);
    assert(s.to_set().subset_of(vstd::set_lib::set_int_range(0, m as int)));
    vstd::set_lib::lemma_len_subset(s.to_set(), vstd::set_lib::set_int_range(0, m as int));
}

} // verus!
