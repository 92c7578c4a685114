//! Pools of reusable items: random single draws, draws of several items,
//! draws of distinct items, and a discard pile that can be recycled into
//! the main pool.

pub mod item;
mod chance;
pub mod draw;
pub mod pool;
pub mod recycling;
pub mod laws;
pub mod vec_pool;

pub use item::PoolItem;
pub use pool::ItemPool;
pub use recycling::RecyclingItemPool;
pub use vec_pool::{RecyclingVecPool, VecPool};
