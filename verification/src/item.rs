use vstd::prelude::*;

verus! {

/// Items that can be stored in and retrieved from a pool.
///
/// `Hash` and `Eq` let a pool recognise an item that it has already handed
/// out in a draw of distinct items; `Sync` lets a pool be shared across
/// threads.
pub trait PoolItem: core::hash::Hash + Eq + Sync {
}

/// Every type that is `Hash + Eq + Sync` is a pool item.
impl<T> PoolItem for T where T: core::hash::Hash + Eq + Sync {
}

} // verus!
