use std::collections::HashSet;
use vstd::prelude::*;
use vstd::std_specs::hash::obeys_key_model;

use crate::draw::{
    distinct_draw_layout, distinct_draw_size, distinct_draw_stops, draw_distinct, draw_many, draw_one,
    is_subsequence_of, left_after, less_one_of_each, picked_by, picks_fit, repeats, taken_at,
};
use crate::chance::{
    lemma_random_pick_of_call, lemma_random_picks_of_calls, random_index, random_pick, random_picks,
};
use crate::item::PoolItem;

verus! {

/// A resource that manages a single store of items.
///
/// An implementor says where its items live by `pool`; the other methods
/// add items to that store and take random items out of it.
pub trait ItemPool<T: PoolItem> {
    /// The items of the main pool, in storage order.
    spec fn pool_view(&self) -> Seq<T>;

    /// The items held aside from the main pool, such as the discard pile of
    /// a `RecyclingItemPool`; a plain pool holds none. The methods of this
    /// trait leave them as they are.
    spec fn discard_view(&self) -> Seq<T>;

    /// The main pool of items, for reading and writing.
    ///
    /// What the caller writes through the reference becomes the main pool;
    /// the items held aside do not change.
    fn pool(&mut self) -> (store: &mut Vec<T>)
        ensures
            store@ == old(self).pool_view(),
            final(self).pool_view() == final(store)@,
            final(self).discard_view() == old(self).discard_view(),
    ;

    /// Adds an item at the end of the pool.
    fn put(&mut self, item: T)
        ensures
            final(self).pool_view() == old(self).pool_view().push(item),
            final(self).discard_view() == old(self).discard_view(),
    {
        self.pool().push(item);
    }

    /// Removes one randomly chosen item from the pool and returns it, or
    /// returns `None` when the pool is empty.
    fn remove_one(&mut self) -> (removed: Option<T>)
        ensures
            removed is None <==> old(self).pool_view().len() == 0,
            removed is None ==> final(self).pool_view() == old(self).pool_view(),
            removed matches Some(item) ==> exists|i: int|
                0 <= i < old(self).pool_view().len() && old(self).pool_view()[i] == item
                    && final(self).pool_view() == old(self).pool_view().remove(i),
            removed matches Some(item) ==> exists|i: int|
                0 <= i < old(self).pool_view().len() && random_pick(
                    old(self).pool_view().len() as usize,
                    i as usize,
                ) && old(self).pool_view()[i] == item && final(self).pool_view() == old(
                    self,
                ).pool_view().remove(i),
            final(self).discard_view() == old(self).discard_view(),
    {
        let store = self.pool();
        if store.is_empty() {
            None
        } else {
            let ghost before = store@;
            let item = draw_one(store, &random_index);
            proof {
                let i = choose|i: int|
                    0 <= i < before.len() && call_ensures(random_index, (before.len() as usize,), i as usize)
                        && before[i] == item && store@ == before.remove(i);
                lemma_random_pick_of_call(before.len() as usize, i as usize);
            }
            Some(item)
        }
    }

    /// Removes `size` randomly chosen items from the pool and returns them in
    /// the order drawn; the items left keep their order. An item that the
    /// pool holds more than once may come out more than once.
    ///
    /// The pool must not be empty, and `size` must not exceed its length.
    fn remove_many(&mut self, size: usize) -> (removed: Vec<T>)
        requires
            old(self).pool_view().len() > 0,
            size <= old(self).pool_view().len(),
        ensures
            removed@.len() == size,
            final(self).pool_view().len() == old(self).pool_view().len() - size,
            old(self).pool_view().to_multiset() == final(self).pool_view().to_multiset().add(
                removed@.to_multiset(),
            ),
            is_subsequence_of(final(self).pool_view(), old(self).pool_view()),
            exists|picks: Seq<usize>|
                {
                    &&& picks.len() == size
                    &&& picks_fit(old(self).pool_view().len(), picks)
                    &&& removed@ == taken_at(old(self).pool_view(), picks)
                    &&& final(self).pool_view() == left_after(old(self).pool_view(), picks)
                },
            exists|picks: Seq<usize>|
                {
                    &&& picks.len() == size
                    &&& random_picks(old(self).pool_view().len(), picks)
                    &&& removed@ == taken_at(old(self).pool_view(), picks)
                    &&& final(self).pool_view() == left_after(old(self).pool_view(), picks)
                },
            final(self).discard_view() == old(self).discard_view(),
    {
        let store = self.pool();
        let ghost before = store@;
        let removed = draw_many(store, size, &random_index);
        proof {
            let picks = choose|picks: Seq<usize>|
                {
                    &&& picks.len() == size
                    &&& picks_fit(before.len(), picks)
                    &&& picked_by(random_index, before.len(), picks)
                    &&& removed@ == taken_at(before, picks)
                    &&& store@ == left_after(before, picks)
                };
            lemma_random_picks_of_calls(before.len(), picks);
        }
        removed
    }

    /// Removes `size` distinct, randomly chosen items from the pool and
    /// returns them as a set; a pool with fewer than `size` distinct items
    /// gives up one of each.
    ///
    /// A drawn item equal to one already chosen is set aside and another is
    /// drawn; the set-aside items return to the end of the pool afterwards,
    /// behind the items never drawn, which keep their order.
    /// The pool must not be empty, and `size` must not exceed its length.
    /// The items' `Hash` and `Eq` must agree (`obeys_key_model`); vstd
    /// establishes this for primitive item types only, so a verified caller
    /// with a derived item type, such as a newtype around an integer, cannot
    /// meet it without assuming it.
    fn remove_set(&mut self, size: usize) -> (removed: HashSet<T>)
        requires
            obeys_key_model::<T>(),
            old(self).pool_view().len() > 0,
            size <= old(self).pool_view().len(),
        ensures
            removed@.finite(),
            removed@.len() == distinct_draw_size(old(self).pool_view(), size as nat),
            removed@.subset_of(old(self).pool_view().to_set()),
            final(self).pool_view().len() == old(self).pool_view().len() - removed@.len(),
            less_one_of_each(old(self).pool_view(), final(self).pool_view(), removed@),
            distinct_draw_layout(
                old(self).pool_view(),
                final(self).pool_view(),
                removed@,
                size as nat,
            ),
            exists|picks: Seq<usize>|
                {
                    &&& picks_fit(old(self).pool_view().len(), picks)
                    &&& distinct_draw_stops(old(self).pool_view(), picks, size as nat)
                    &&& removed@ == taken_at(old(self).pool_view(), picks).to_set()
                    &&& final(self).pool_view() == left_after(old(self).pool_view(), picks) + repeats(taken_at(old(self).pool_view(), picks))
                },
            exists|picks: Seq<usize>|
                {
                    &&& random_picks(old(self).pool_view().len(), picks)
                    &&& distinct_draw_stops(old(self).pool_view(), picks, size as nat)
                    &&& removed@ == taken_at(old(self).pool_view(), picks).to_set()
                    &&& final(self).pool_view() == left_after(old(self).pool_view(), picks) + repeats(taken_at(old(self).pool_view(), picks))
                },
            final(self).discard_view() == old(self).discard_view(),
    {
        let store = self.pool();
        let ghost before = store@;
        let removed = draw_distinct(store, size, &random_index);
        proof {
            let picks = choose|picks: Seq<usize>|
                {
                    &&& picks_fit(before.len(), picks)
                    &&& picked_by(random_index, before.len(), picks)
                    &&& distinct_draw_stops(before, picks, size as nat)
                    &&& removed@ == taken_at(before, picks).to_set()
                    &&& store@ == left_after(before, picks) + repeats(taken_at(before, picks))
                };
            lemma_random_picks_of_calls(before.len(), picks);
        }
        removed
    }
}

} // verus!
