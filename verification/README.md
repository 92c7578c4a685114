# itempool

Pools of reusable items, verified with Verus: random single draws
(`remove_one`), draws of several items (`remove_many`), draws of distinct
items (`remove_set`), and a discard pile that can be recycled into the main
pool (`discard_one`, `recycle_discarded`, `get_set`).

- `src/item.rs`: the `PoolItem` bound on items.
- `src/pool.rs`: the `ItemPool` trait; an implementor names its store with
  `pool` and describes it with `pool_view`.
- `src/recycling.rs`: the `RecyclingItemPool` trait with the discard pile.
- `src/draw.rs`: the draws on a vector that the traits run, each taking the
  function that picks a position (the traits hand it `rand`'s), and the
  spec functions their contracts use.
- `src/chance.rs`: the random position, taken from `rand`.
- `src/vec_pool.rs`: `VecPool` and `RecyclingVecPool`, pools kept in vectors.
- `src/laws.rs`: laws that relate several operations.

`getrandom` is named with its `wasm_js` feature for `wasm32-unknown-unknown`;
that target also needs `--cfg getrandom_backend="wasm_js"` in its build flags.

The original source also holds a Bevy system, `initialize_default_pool`,
which only calls `Commands::init_resource` on a pool resource. That file is
not part of the original crate's module tree (its `lib.rs` declares no
`mod bevy`, and the file relies on unstable trait aliases), so it has no
counterpart here and `bevy_ecs` is not a dependency.
