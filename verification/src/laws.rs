//! Laws that relate several operations of the pool traits. Each proof
//! function takes the states that a sequence of calls passes through,
//! requires of each step what that call's `ensures` states, and proves the
//! combined effect.
use vstd::prelude::*;

use crate::draw::{
    distinct_draw_layout, distinct_draw_size, distinct_draw_stops, is_subsequence_of, left_after,
    less_one_of_each, picks_fit, repeats, taken_at,
};
use crate::chance::{lemma_random_pick_in_range, random_pick, random_picks};
use crate::item::PoolItem;
use crate::pool::ItemPool;
use crate::recycling::RecyclingItemPool;

verus! {

broadcast use vstd::seq_lib::group_to_multiset_ensures, vstd::multiset::group_multiset_axioms;

/// Putting back the item that `remove_one` returned restores the pool's
/// contents: the same items, each as often as before, and the same length.
pub proof fn law_put_undoes_remove_one<T: PoolItem, P: ItemPool<T>>(
    before: &P,
    removed: &P,
    restored: &P,
    item: T,
)
    requires
        exists|i: int|
            0 <= i < before.pool_view().len() && before.pool_view()[i] == item
                && removed.pool_view() == before.pool_view().remove(i),
        restored.pool_view() == removed.pool_view().push(item),
    ensures
        restored.pool_view().to_multiset() == before.pool_view().to_multiset(),
        restored.pool_view().len() == before.pool_view().len(),
{
    let i = choose|i: int|
        0 <= i < before.pool_view().len() && before.pool_view()[i] == item
            && removed.pool_view() == before.pool_view().remove(i);
    assert(removed.pool_view().to_multiset() == before.pool_view().to_multiset().remove(item));
    assert(before.pool_view().to_multiset().count(item) > 0);
    assert(restored.pool_view().to_multiset() =~= before.pool_view().to_multiset());
}

/// A discarded item is available again in the main pool once the discard
/// pile has been recycled: the main pool is the old pool, then the old
/// discard pile, then the item, and the discard pile is empty.
pub proof fn law_recycle_returns_discarded<T: PoolItem, P: RecyclingItemPool<T>>(
    before: &P,
    discarded: &P,
    recycled: &P,
    item: T,
)
    requires
        discarded.discard_view() == before.discard_view().push(item),
        discarded.pool_view() == before.pool_view(),
        recycled.pool_view() == discarded.pool_view() + discarded.discard_view(),
        recycled.discard_view() == Seq::<T>::empty(),
    ensures
        recycled.pool_view() == before.pool_view() + before.discard_view().push(item),
        recycled.pool_view().contains(item),
        recycled.pool_view().len() == before.pool_view().len() + before.discard_view().len() + 1,
        recycled.discard_view().len() == 0,
{
    let k = (before.pool_view().len() + before.discard_view().len()) as int;
    assert(recycled.pool_view()[k] == item);
}

/// `get_set` is `recycle_discarded` followed by `remove_set`: a state that
/// `recycle_discarded` leads to, and then a draw that `remove_set` makes
/// from it, together meet what `get_set` states of the first state.
pub proof fn law_get_set_is_recycle_then_remove_set<T: PoolItem, P: RecyclingItemPool<T>>(
    before: &P,
    recycled: &P,
    after: &P,
    removed: Set<T>,
    size: usize,
)
    requires
        recycled.pool_view() == before.pool_view() + before.discard_view(),
        recycled.discard_view() == Seq::<T>::empty(),
        removed.finite(),
        removed.len() == distinct_draw_size(recycled.pool_view(), size as nat),
        removed.subset_of(recycled.pool_view().to_set()),
        after.pool_view().len() == recycled.pool_view().len() - removed.len(),
        less_one_of_each(recycled.pool_view(), after.pool_view(), removed),
        distinct_draw_layout(
            recycled.pool_view(),
            after.pool_view(),
            removed,
            size as nat,
        ),
        exists|picks: Seq<usize>|
            {
                &&& picks_fit(recycled.pool_view().len(), picks)
                &&& distinct_draw_stops(recycled.pool_view(), picks, size as nat)
                &&& removed == taken_at(recycled.pool_view(), picks).to_set()
                &&& after.pool_view() == left_after(recycled.pool_view(), picks) + repeats(taken_at(recycled.pool_view(), picks))
            },
        after.discard_view() == recycled.discard_view(),
    ensures
        removed.len() == distinct_draw_size(before.pool_view() + before.discard_view(), size as nat),
        removed.subset_of((before.pool_view() + before.discard_view()).to_set()),
        after.pool_view().len() == before.pool_view().len() + before.discard_view().len()
            - removed.len(),
        less_one_of_each(before.pool_view() + before.discard_view(), after.pool_view(), removed),
        distinct_draw_layout(
            before.pool_view() + before.discard_view(),
            after.pool_view(),
            removed,
            size as nat,
        ),
        exists|picks: Seq<usize>|
            {
                &&& picks_fit((before.pool_view() + before.discard_view()).len(), picks)
                &&& distinct_draw_stops((before.pool_view() + before.discard_view()), picks, size as nat)
                &&& removed == taken_at((before.pool_view() + before.discard_view()), picks).to_set()
                &&& after.pool_view() == left_after((before.pool_view() + before.discard_view()), picks) + repeats(taken_at((before.pool_view() + before.discard_view()), picks))
            },
        after.discard_view() == Seq::<T>::empty(),
{
}

/// Nothing is lost or made up by `remove_set`: the pool afterwards, together
/// with the drawn set, holds each item as often as the pool did before, and
/// the pool's distinct items are the drawn ones plus those still left.
pub proof fn law_remove_set_keeps_items<T>(before: Seq<T>, after: Seq<T>, removed: Set<T>)
    requires
        less_one_of_each(before, after, removed),
    ensures
        forall|x: T| #[trigger] before.contains(x) <==> (after.contains(x) || removed.contains(x)),
        removed.subset_of(before.to_set()),
{
    assert forall|x: T| #[trigger] before.contains(x) <==> (after.contains(x) || removed.contains(x)) by {
        assert(before.to_multiset().count(x) == after.to_multiset().count(x) + (if removed.contains(x) {
            1nat
        } else {
            0nat
        }));
    }
}

/// `remove_many` hands out an item no more often than the pool held it, and
/// every item it hands out was in the pool.
pub proof fn law_remove_many_draws_only_held_items<T>(before: Seq<T>, after: Seq<T>, removed: Seq<T>)
    requires
        before.to_multiset() == after.to_multiset().add(removed.to_multiset()),
    ensures
        forall|x: T| #[trigger] removed.to_multiset().count(x) <= before.to_multiset().count(x),
        forall|i: int| 0 <= i < removed.len() ==> before.contains(#[trigger] removed[i]),
{
    assert forall|i: int| 0 <= i < removed.len() implies before.contains(#[trigger] removed[i]) by {
        assert(removed.contains(removed[i]));
        assert(removed.to_multiset().count(removed[i]) > 0);
        assert(before.to_multiset().count(removed[i]) > 0);
    }
}

/// A draw of at most one distinct item sets nothing aside: what is left is
/// the pool with the drawn item taken out, in order.
pub proof fn law_single_draw_sets_nothing_aside<T>(
    before: Seq<T>,
    after: Seq<T>,
    removed: Set<T>,
    size: nat,
)
    requires
        size <= 1,
        removed.finite(),
        removed.len() <= size,
        distinct_draw_layout(before, after, removed, size),
    ensures
        is_subsequence_of(after, before),
{
    let kept = choose|kept: int|
        {
            &&& 0 <= kept <= after.len()
            &&& is_subsequence_of(after.take(kept), before)
            &&& forall|i: int| kept <= i < after.len() ==> removed.contains(#[trigger] after[i])
            &&& removed.len() < size ==> kept == 0
            &&& (removed.len() == size && size > 0) ==> exists|v: T|
                removed.contains(v) && !(#[trigger] after.skip(kept).contains(v))
        };
    if kept < after.len() {
        let w = after[kept];
        assert(removed.contains(w));
        if removed.len() == size && size > 0 {
            let v = choose|v: T| removed.contains(v) && !after.skip(kept).contains(v);
            assert(removed.remove(v).len() == 0);
            assert(removed.remove(v).contains(w) == false);
            assert(after.skip(kept)[0] == w);
            assert(false);
        } else {
            assert(removed.len() == 0);
            assert(removed.contains(w));
            assert(false);
        }
    }
    assert(after.take(kept) == after);
}

/// `remove_one` takes its item at a position that the random source gave
/// for the whole pool: the position is one that the source answers when
/// asked for `0..len`, `len` being the pool's length before the call, and
/// not for a shorter range. The item was in the pool, the pool loses
/// exactly that one occurrence, and its length drops by one.
pub proof fn law_remove_one_draws_over_whole_pool<T>(before: Seq<T>, after: Seq<T>, item: T)
    requires
        exists|i: int|
            0 <= i < before.len() && random_pick(before.len() as usize, i as usize) && before[i]
                == item && after == before.remove(i),
    ensures
        exists|i: int|
            #![trigger before[i]]
            random_pick(before.len() as usize, i as usize) && 0 <= i < before.len() && before[i]
                == item,
        before.contains(item),
        after.len() + 1 == before.len(),
        before.to_multiset() == after.to_multiset().insert(item),
{
    let i = choose|i: int|
        0 <= i < before.len() && random_pick(before.len() as usize, i as usize) && before[i] == item
            && after == before.remove(i);
    assert(before[i] == item);
    assert(after.to_multiset() == before.to_multiset().remove(item));
    assert(before.to_multiset().count(item) > 0);
    assert(before.to_multiset() =~= after.to_multiset().insert(item));
}

/// Every answer the random source can give for the whole pool is an outcome
/// that `remove_one` allows: taking the item at that position, and leaving
/// the rest in order. With the law above, the outcomes of `remove_one` are
/// exactly the source's answers for `0..len`.
pub proof fn law_remove_one_admits_every_draw<T>(before: Seq<T>, index: usize)
    requires
        before.len() <= usize::MAX,
        random_pick(before.len() as usize, index),
    ensures
        exists|i: int|
            0 <= i < before.len() && random_pick(before.len() as usize, i as usize) && before[i]
                == before[index as int] && before.remove(index as int) == before.remove(i),
        0 <= index < before.len(),
{
    lemma_random_pick_in_range(before.len() as usize, index);
    let i = index as int;
    assert(0 <= i < before.len() && random_pick(before.len() as usize, i as usize) && before[i]
        == before[index as int] && before.remove(index as int) == before.remove(i));
}

/// Positions that the random source answers, one per draw, each for the
/// length of what the earlier draws left, all lie inside what was left: the
/// draws of `remove_many`, `remove_set` and `get_set` always take an item
/// that is there.
pub proof fn law_random_picks_fit(len: nat, picks: Seq<usize>)
    requires
        picks.len() <= len,
        len <= usize::MAX,
        random_picks(len, picks),
    ensures
        picks_fit(len, picks),
{
    assert forall|k: int| 0 <= k < picks.len() implies #[trigger] picks[k] < len - k by {
        assert(random_pick((len - k) as usize, picks[k]));
        lemma_random_pick_in_range((len - k) as usize, picks[k]);
    }
}

} // verus!
