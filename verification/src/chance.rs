use rand::Rng;
use vstd::prelude::*;

verus! {

/// A position in `0..bound`, chosen by the thread-local generator of `rand`
/// (`rand::rng()` followed by `Rng::random_range`).
///
/// `random_range` panics on an empty range, hence `bound > 0`; on a
/// non-empty half-open range of integers it returns a value inside it.
/// Which position comes back is left open: it rests on chance. The
/// generator seeds itself from the operating system on its first use on a
/// thread and reseeds itself from time to time, and panics if the operating
/// system gives no entropy; that depends on the machine, not on `bound`, and
/// no clause here speaks of it.
#[verifier::external_body]
pub(crate) fn random_index(bound: usize) -> (index: usize)
    requires
        bound > 0,
    ensures
        index < bound,
{
    rand::rng().random_range(0..bound)
}

/// `index` is a position that the random source can answer when asked for
/// a position in `0..bound`.
pub closed spec fn random_pick(bound: usize, index: usize) -> bool {
    call_ensures(random_index, (bound,), index)
}

/// Each position of `picks` is one that the random source can answer when
/// asked for a position in what the earlier ones left of a store of `len`
/// items.
pub open spec fn random_picks(len: nat, picks: Seq<usize>) -> bool {
    forall|k: int| 0 <= k < picks.len() ==> random_pick((len - k) as usize, #[trigger] picks[k])
}

/// A position that the random source answers lies inside the range asked
/// for.
pub proof fn lemma_random_pick_in_range(bound: usize, index: usize)
    requires
        random_pick(bound, index),
    ensures
        index < bound,
{
}

/// An answer of `random_index` is a `random_pick`.
pub(crate) proof fn lemma_random_pick_of_call(bound: usize, index: usize)
    requires
        call_ensures(random_index, (bound,), index),
    ensures
        random_pick(bound, index),
{
}

/// Positions answered by `random_index`, one per step, are `random_picks`.
pub(crate) proof fn lemma_random_picks_of_calls(len: nat, picks: Seq<usize>)
    requires
        forall|k: int|
            0 <= k < picks.len() ==> call_ensures(random_index, ((len - k) as usize,), #[trigger] picks[k]),
    ensures
        random_picks(len, picks),
{
}

} // verus!
