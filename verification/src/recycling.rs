use std::collections::HashSet;
use vstd::prelude::*;
use vstd::std_specs::hash::obeys_key_model;

use crate::draw::{
    distinct_draw_layout, distinct_draw_size, distinct_draw_stops, left_after, less_one_of_each,
    picks_fit, repeats, taken_at,
};
use crate::chance::random_picks;
use crate::item::PoolItem;
use crate::pool::ItemPool;

verus! {

/// An item pool with a discard pile: items can be set aside for a while and
/// later recycled into the main pool. The discard pile is what
/// `ItemPool::discard_view` describes.
pub trait RecyclingItemPool<T: PoolItem>: ItemPool<T> {
    /// The discard pile, for reading and writing.
    ///
    /// What the caller writes through the reference becomes the discard
    /// pile; the main pool does not change.
    fn get_discard_pool(&mut self) -> (store: &mut Vec<T>)
        ensures
            store@ == old(self).discard_view(),
            final(self).discard_view() == final(store)@,
            final(self).pool_view() == old(self).pool_view(),
    ;

    /// Adds an item at the end of the discard pile. The main pool is left
    /// as it is: an item taken from it must be removed from it separately.
    fn discard_one(&mut self, item: T)
        ensures
            final(self).discard_view() == old(self).discard_view().push(item),
            final(self).pool_view() == old(self).pool_view(),
    {
        self.get_discard_pool().push(item);
    }

    /// Moves every item of the discard pile, in order, to the end of the main
    /// pool; the discard pile is then empty.
    fn recycle_discarded(&mut self)
        ensures
            final(self).pool_view() == old(self).pool_view() + old(self).discard_view(),
            final(self).discard_view() == Seq::<T>::empty(),
    {
        let mut discard_pool: Vec<T> = Vec::new();
        core::mem::swap(&mut discard_pool, self.get_discard_pool());
        self.pool().append(&mut discard_pool);
    }

    /// Recycles the discard pile, then removes `size` distinct, randomly
    /// chosen items from the main pool as `remove_set` does.
    ///
    /// The main pool and the discard pile together must not be empty, and
    /// `size` must not exceed their combined length.
    /// As for `remove_set`, the items' `Hash` and `Eq` must agree
    /// (`obeys_key_model`), which vstd establishes for primitive item types
    /// only.
    fn get_set(&mut self, size: usize) -> (removed: HashSet<T>)
        requires
            obeys_key_model::<T>(),
            old(self).pool_view().len() + old(self).discard_view().len() > 0,
            size <= old(self).pool_view().len() + old(self).discard_view().len(),
        ensures
            removed@.finite(),
            removed@.len() == distinct_draw_size(
                old(self).pool_view() + old(self).discard_view(),
                size as nat,
            ),
            removed@.subset_of((old(self).pool_view() + old(self).discard_view()).to_set()),
            final(self).pool_view().len() == old(self).pool_view().len() + old(
                self,
            ).discard_view().len() - removed@.len(),
            less_one_of_each(
                old(self).pool_view() + old(self).discard_view(),
                final(self).pool_view(),
                removed@,
            ),
            distinct_draw_layout(
                old(self).pool_view() + old(self).discard_view(),
                final(self).pool_view(),
                removed@,
                size as nat,
            ),
            exists|picks: Seq<usize>|
                {
                    &&& picks_fit((old(self).pool_view() + old(self).discard_view()).len(), picks)
                    &&& distinct_draw_stops((old(self).pool_view() + old(self).discard_view()), picks, size as nat)
                    &&& removed@ == taken_at((old(self).pool_view() + old(self).discard_view()), picks).to_set()
                    &&& final(self).pool_view() == left_after((old(self).pool_view() + old(self).discard_view()), picks) + repeats(taken_at((old(self).pool_view() + old(self).discard_view()), picks))
                },
            exists|picks: Seq<usize>|
                {
                    &&& random_picks((old(self).pool_view() + old(self).discard_view()).len(), picks)
                    &&& distinct_draw_stops((old(self).pool_view() + old(self).discard_view()), picks, size as nat)
                    &&& removed@ == taken_at((old(self).pool_view() + old(self).discard_view()), picks).to_set()
                    &&& final(self).pool_view() == left_after((old(self).pool_view() + old(self).discard_view()), picks) + repeats(taken_at((old(self).pool_view() + old(self).discard_view()), picks))
                },
            final(self).discard_view() == Seq::<T>::empty(),
    {
        self.recycle_discarded();
        ItemPool::remove_set(self, size)
    }
}

} // verus!
