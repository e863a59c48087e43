//! The key types of the maps and sets in use.

use vstd::prelude::*;

verus! {

/// The integers and pairs of integers that serve as keys are totally ordered, as the ordered
/// maps and sets of the standard library require.
pub proof fn lemma_ordered_keys()
    ensures
        vstd::laws_cmp::obeys_cmp::<u32>(),
        vstd::laws_cmp::obeys_cmp::<u64>(),
        vstd::laws_cmp::obeys_cmp::<(u32, u32)>(),
{
    broadcast use vstd::laws_cmp::group_laws_cmp;

}

} // verus!
