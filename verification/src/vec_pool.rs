//! Ready-made pools that keep their items in plain vectors.
use vstd::prelude::*;

use crate::item::PoolItem;
use crate::pool::ItemPool;
use crate::recycling::RecyclingItemPool;

verus! {

/// A pool whose items live in one vector.
pub struct VecPool<T> {
    pub items: Vec<T>,
}

impl<T: PoolItem> ItemPool<T> for VecPool<T> {
    open spec fn pool_view(&self) -> Seq<T> {
        self.items@
    }

    open spec fn discard_view(&self) -> Seq<T> {
        Seq::empty()
    }

    fn pool(&mut self) -> (store: &mut Vec<T>) {
        &mut self.items
    }
}

/// A pool with a discard pile, each kept in a vector of its own.
pub struct RecyclingVecPool<T> {
    pub items: Vec<T>,
    pub discarded: Vec<T>,
}

impl<T: PoolItem> ItemPool<T> for RecyclingVecPool<T> {
    open spec fn pool_view(&self) -> Seq<T> {
        self.items@
    }

    open spec fn discard_view(&self) -> Seq<T> {
        self.discarded@
    }

    fn pool(&mut self) -> (store: &mut Vec<T>) {
        &mut self.items
    }
}

impl<T: PoolItem> RecyclingItemPool<T> for RecyclingVecPool<T> {
    fn get_discard_pool(&mut self) -> (store: &mut Vec<T>) {
        &mut self.discarded
    }
}

} // verus!
