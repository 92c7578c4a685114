use std::collections::HashSet;

use itempool::draw::{draw_distinct, draw_many, draw_one, take_at};
use itempool::{ItemPool, RecyclingItemPool, RecyclingVecPool, VecPool};

#[derive(Debug, Clone, Copy, PartialEq, Eq, Hash)]
struct TestItem(i32);

type TestPool = VecPool<TestItem>;

type TestRecyclingPool = RecyclingVecPool<TestItem>;

fn sorted(mut items: Vec<TestItem>) -> Vec<i32> {
    items.sort_by_key(|item| item.0);
    items.into_iter().map(|item| item.0).collect()
}

#[test]
fn test_put() {
    let mut pool = TestPool { items: vec![] };
    pool.put(TestItem(1));
    pool.put(TestItem(2));
    assert_eq!(pool.pool().len(), 2);
}

#[test]
fn test_remove_one_empty() {
    let mut pool = TestPool { items: vec![] };
    assert_eq!(pool.remove_one(), None);
}

#[test]
fn test_remove_one_success() {
    let mut pool = TestPool {
        items: vec![TestItem(1), TestItem(2), TestItem(3)],
    };
    let item = pool.remove_one();
    assert!(item.is_some());
    assert_eq!(pool.pool().len(), 2);
}

#[test]
fn test_remove_many() {
    let mut pool = TestPool {
        items: (0..10).map(TestItem).collect(),
    };
    let items = pool.remove_many(5);
    assert_eq!(items.len(), 5);
    assert_eq!(pool.pool().len(), 5);
}

#[test]
fn test_remove_set_uniqueness() {
    let mut pool = TestPool {
        items: (0..10).map(TestItem).collect(),
    };
    let set = pool.remove_set(5);
    assert_eq!(set.len(), 5);
    assert_eq!(pool.pool().len(), 5);

    // Verify all items are unique
    let vec: Vec<_> = set.into_iter().collect();
    let unique_set: HashSet<_> = vec.iter().copied().collect();
    assert_eq!(vec.len(), unique_set.len());
}

#[test]
fn test_remove_set_all_items() {
    let mut pool = TestPool {
        items: (0..5).map(TestItem).collect(),
    };
    let set = pool.remove_set(5);
    assert_eq!(set.len(), 5);
    assert_eq!(pool.pool().len(), 0);
}

#[test]
fn test_discard_and_recycle() {
    let mut pool = TestRecyclingPool {
        items: (0..5).map(TestItem).collect(),
        discarded: vec![],
    };

    pool.discard_one(TestItem(10));
    pool.discard_one(TestItem(11));
    assert_eq!(pool.get_discard_pool().len(), 2);
    assert_eq!(pool.pool().len(), 5);

    pool.recycle_discarded();
    assert_eq!(pool.get_discard_pool().len(), 0);
    assert_eq!(pool.pool().len(), 7);
}

#[test]
fn test_get_set_with_recycling() {
    let mut pool = TestRecyclingPool {
        items: (0..3).map(TestItem).collect(),
        discarded: (3..7).map(TestItem).collect(),
    };

    let set = pool.get_set(5);
    assert_eq!(set.len(), 5);
    assert_eq!(pool.get_discard_pool().len(), 0);
    assert_eq!(pool.pool().len(), 2);
}

#[test]
fn test_multiple_operations() {
    let mut pool = TestRecyclingPool {
        items: (0..10).map(TestItem).collect(),
        discarded: vec![],
    };

    // Remove some items
    let _first = pool.remove_one();
    assert_eq!(pool.pool().len(), 9);

    // Remove a set
    let _set = pool.remove_set(3);
    assert_eq!(pool.pool().len(), 6);

    // Discard and recycle
    pool.discard_one(TestItem(100));
    pool.recycle_discarded();
    assert_eq!(pool.pool().len(), 7);
}

#[test]
fn test_pool_trait_object_safety() {
    // This test verifies that our traits can be used properly
    let mut pool = TestPool {
        items: vec![TestItem(1), TestItem(2)],
    };

    let item_ref: &mut dyn ItemPool<TestItem> = &mut pool;
    item_ref.put(TestItem(3));
    assert_eq!(item_ref.pool().len(), 3);
}

#[test]
fn put_appends_at_the_end() {
    let mut pool = TestPool { items: vec![TestItem(4)] };
    pool.put(TestItem(7));
    pool.put(TestItem(2));
    assert_eq!(pool.items, vec![TestItem(4), TestItem(7), TestItem(2)]);
}

#[test]
fn remove_one_takes_one_item_and_keeps_the_order_of_the_rest() {
    for _ in 0..50 {
        let original: Vec<TestItem> = (0..6).map(TestItem).collect();
        let mut pool = TestPool { items: original.clone() };
        let item = pool.remove_one().expect("the pool is not empty");
        let position = original.iter().position(|x| *x == item).unwrap();
        let mut expected = original.clone();
        expected.remove(position);
        assert_eq!(pool.items, expected);
    }
}

#[test]
fn remove_one_drains_a_pool_then_returns_none() {
    let mut pool = TestPool {
        items: (0..8).map(TestItem).collect(),
    };
    let mut drawn = Vec::new();
    while let Some(item) = pool.remove_one() {
        drawn.push(item);
    }
    assert_eq!(sorted(drawn), (0..8).collect::<Vec<i32>>());
    assert!(pool.items.is_empty());
    assert_eq!(pool.remove_one(), None);
}

#[test]
fn remove_one_from_a_single_item_pool() {
    let mut pool = TestPool { items: vec![TestItem(42)] };
    assert_eq!(pool.remove_one(), Some(TestItem(42)));
    assert!(pool.items.is_empty());
}

#[test]
fn remove_many_keeps_every_item_somewhere() {
    for _ in 0..50 {
        let mut pool = TestPool {
            items: vec![TestItem(1), TestItem(1), TestItem(2), TestItem(3), TestItem(3), TestItem(3)],
        };
        let drawn = pool.remove_many(4);
        assert_eq!(drawn.len(), 4);
        assert_eq!(pool.items.len(), 2);
        let mut all = drawn.clone();
        all.extend(pool.items.iter().copied());
        assert_eq!(sorted(all), vec![1, 1, 2, 3, 3, 3]);
    }
}

#[test]
fn remove_many_of_everything_empties_the_pool() {
    let mut pool = TestPool {
        items: (0..4).map(TestItem).collect(),
    };
    let drawn = pool.remove_many(4);
    assert_eq!(sorted(drawn), vec![0, 1, 2, 3]);
    assert!(pool.items.is_empty());
}

#[test]
fn remove_many_of_zero_leaves_the_pool() {
    let mut pool = TestPool { items: vec![TestItem(9), TestItem(8)] };
    let drawn = pool.remove_many(0);
    assert!(drawn.is_empty());
    assert_eq!(pool.items, vec![TestItem(9), TestItem(8)]);
}

#[test]
fn remove_set_with_duplicates_returns_distinct_items() {
    for _ in 0..50 {
        let mut pool = TestPool {
            items: vec![TestItem(1), TestItem(1), TestItem(1), TestItem(2)],
        };
        let set = pool.remove_set(2);
        let expected: HashSet<TestItem> = [TestItem(1), TestItem(2)].into_iter().collect();
        assert_eq!(set, expected);
        assert_eq!(pool.items, vec![TestItem(1), TestItem(1)]);
    }
}

#[test]
fn remove_set_takes_one_of_each_drawn_item() {
    for _ in 0..50 {
        let mut pool = TestPool {
            items: vec![TestItem(5), TestItem(5), TestItem(6), TestItem(7), TestItem(7)],
        };
        let set = pool.remove_set(2);
        assert_eq!(set.len(), 2);
        assert_eq!(pool.items.len(), 3);
        let mut all: Vec<TestItem> = set.iter().copied().collect();
        all.extend(pool.items.iter().copied());
        assert_eq!(sorted(all), vec![5, 5, 6, 7, 7]);
    }
}

#[test]
fn remove_set_of_zero_leaves_the_pool() {
    let mut pool = TestPool { items: vec![TestItem(3), TestItem(1)] };
    let set = pool.remove_set(0);
    assert!(set.is_empty());
    assert_eq!(pool.items, vec![TestItem(3), TestItem(1)]);
}

#[test]
fn discard_one_leaves_the_main_pool() {
    let mut pool = TestRecyclingPool {
        items: vec![TestItem(1)],
        discarded: vec![TestItem(2)],
    };
    pool.discard_one(TestItem(1));
    assert_eq!(pool.items, vec![TestItem(1)]);
    assert_eq!(pool.discarded, vec![TestItem(2), TestItem(1)]);
}

#[test]
fn recycle_appends_the_discard_pile_in_order() {
    let mut pool = TestRecyclingPool {
        items: vec![TestItem(0), TestItem(1)],
        discarded: vec![TestItem(5), TestItem(6)],
    };
    pool.recycle_discarded();
    assert_eq!(pool.items, vec![TestItem(0), TestItem(1), TestItem(5), TestItem(6)]);
    assert!(pool.discarded.is_empty());
}

#[test]
fn recycle_with_an_empty_discard_pile_changes_nothing() {
    let mut pool = TestRecyclingPool {
        items: vec![TestItem(3)],
        discarded: vec![],
    };
    pool.recycle_discarded();
    assert_eq!(pool.items, vec![TestItem(3)]);
    assert!(pool.discarded.is_empty());
}

#[test]
fn discarded_item_comes_back_after_recycling() {
    let mut pool = TestRecyclingPool {
        items: vec![TestItem(0)],
        discarded: vec![TestItem(8)],
    };
    pool.discard_one(TestItem(9));
    pool.recycle_discarded();
    assert_eq!(pool.items, vec![TestItem(0), TestItem(8), TestItem(9)]);
    assert!(pool.discarded.is_empty());
}

#[test]
fn put_after_remove_one_restores_the_items() {
    let mut pool = TestPool {
        items: vec![TestItem(2), TestItem(4), TestItem(4), TestItem(6)],
    };
    let item = pool.remove_one().unwrap();
    pool.put(item);
    assert_eq!(sorted(pool.items.clone()), vec![2, 4, 4, 6]);
}

#[test]
fn get_set_draws_from_the_discard_pile_too() {
    let mut pool = TestRecyclingPool {
        items: vec![],
        discarded: vec![TestItem(1), TestItem(2), TestItem(3)],
    };
    let set = pool.get_set(3);
    let expected: HashSet<TestItem> = [TestItem(1), TestItem(2), TestItem(3)].into_iter().collect();
    assert_eq!(set, expected);
    assert!(pool.items.is_empty());
    assert!(pool.discarded.is_empty());
}

#[test]
fn get_set_with_duplicates_across_pool_and_pile() {
    for _ in 0..50 {
        let mut pool = TestRecyclingPool {
            items: vec![TestItem(1), TestItem(2)],
            discarded: vec![TestItem(2), TestItem(3)],
        };
        let set = pool.get_set(3);
        let expected: HashSet<TestItem> = [TestItem(1), TestItem(2), TestItem(3)].into_iter().collect();
        assert_eq!(set, expected);
        assert_eq!(pool.items, vec![TestItem(2)]);
        assert!(pool.discarded.is_empty());
    }
}

fn strictly_increasing(items: &[TestItem]) -> bool {
    items.windows(2).all(|pair| pair[0].0 < pair[1].0)
}

#[test]
fn remove_many_keeps_the_order_of_the_items_left() {
    for _ in 0..50 {
        let mut pool = TestPool {
            items: (0..9).map(TestItem).collect(),
        };
        let drawn = pool.remove_many(4);
        assert_eq!(drawn.len(), 4);
        assert_eq!(pool.items.len(), 5);
        assert!(strictly_increasing(&pool.items));
    }
}

#[test]
fn remove_set_keeps_the_order_of_the_items_never_drawn() {
    for _ in 0..50 {
        let mut pool = TestPool {
            items: (0..9).map(TestItem).collect(),
        };
        let set = pool.remove_set(4);
        assert_eq!(set.len(), 4);
        assert_eq!(pool.items.len(), 5);
        assert!(strictly_increasing(&pool.items));
        assert!(pool.items.iter().all(|item| !set.contains(item)));
    }
}

#[test]
fn remove_set_returns_set_aside_items_to_the_end() {
    for _ in 0..50 {
        let mut pool = TestPool {
            items: vec![TestItem(1), TestItem(2), TestItem(2), TestItem(3)],
        };
        let set = pool.remove_set(1);
        assert_eq!(set.len(), 1);
        assert_eq!(pool.items.len(), 3);
        let drawn = *set.iter().next().unwrap();
        let mut expected = vec![TestItem(1), TestItem(2), TestItem(2), TestItem(3)];
        let position = expected.iter().position(|x| *x == drawn).unwrap();
        expected.remove(position);
        let mut left = pool.items.clone();
        left.sort_by_key(|item| item.0);
        assert_eq!(left, expected);
    }
}

#[test]
fn remove_set_with_fewer_distinct_items_gives_one_of_each() {
    for _ in 0..50 {
        let mut pool = TestPool {
            items: vec![TestItem(1), TestItem(1)],
        };
        let set = pool.remove_set(2);
        let expected: HashSet<TestItem> = [TestItem(1)].into_iter().collect();
        assert_eq!(set, expected);
        assert_eq!(pool.items, vec![TestItem(1)]);
    }
}

#[test]
fn remove_set_of_the_whole_pool_with_duplicates() {
    for _ in 0..50 {
        let mut pool = TestPool {
            items: vec![TestItem(4), TestItem(5), TestItem(4), TestItem(5), TestItem(6)],
        };
        let set = pool.remove_set(5);
        let expected: HashSet<TestItem> = [TestItem(4), TestItem(5), TestItem(6)].into_iter().collect();
        assert_eq!(set, expected);
        assert_eq!(sorted(pool.items.clone()), vec![4, 5]);
    }
}

#[test]
fn get_set_with_fewer_distinct_items_empties_the_pile() {
    for _ in 0..50 {
        let mut pool = TestRecyclingPool {
            items: vec![TestItem(7)],
            discarded: vec![TestItem(7), TestItem(8)],
        };
        let set = pool.get_set(3);
        let expected: HashSet<TestItem> = [TestItem(7), TestItem(8)].into_iter().collect();
        assert_eq!(set, expected);
        assert_eq!(pool.items, vec![TestItem(7)]);
        assert!(pool.discarded.is_empty());
    }
}

#[test]
fn take_at_removes_the_given_position() {
    let mut store = vec![TestItem(1), TestItem(2), TestItem(3)];
    assert_eq!(take_at(&mut store, 1), TestItem(2));
    assert_eq!(store, vec![TestItem(1), TestItem(3)]);
}

#[test]
fn draw_one_at_the_first_position() {
    let mut store = vec![TestItem(5), TestItem(6), TestItem(7)];
    let drawn = draw_one(&mut store, &|_bound: usize| 0usize);
    assert_eq!(drawn, TestItem(5));
    assert_eq!(store, vec![TestItem(6), TestItem(7)]);
}

#[test]
fn draw_many_from_the_back() {
    let mut store = vec![TestItem(1), TestItem(2), TestItem(3), TestItem(4)];
    let drawn = draw_many(&mut store, 2, &|bound: usize| bound - 1);
    assert_eq!(drawn, vec![TestItem(4), TestItem(3)]);
    assert_eq!(store, vec![TestItem(1), TestItem(2)]);
}

#[test]
fn draw_distinct_from_the_front_sets_a_repeat_aside() {
    let mut store = vec![TestItem(1), TestItem(1), TestItem(2), TestItem(3)];
    let drawn = draw_distinct(&mut store, 2, &|_bound: usize| 0usize);
    let expected: HashSet<TestItem> = [TestItem(1), TestItem(2)].into_iter().collect();
    assert_eq!(drawn, expected);
    assert_eq!(store, vec![TestItem(3), TestItem(1)]);
}

#[test]
fn draw_distinct_that_runs_out_draws_everything() {
    let mut store = vec![TestItem(2), TestItem(2), TestItem(9)];
    let drawn = draw_distinct(&mut store, 3, &|_bound: usize| 0usize);
    let expected: HashSet<TestItem> = [TestItem(2), TestItem(9)].into_iter().collect();
    assert_eq!(drawn, expected);
    assert_eq!(store, vec![TestItem(2)]);
}

#[test]
fn draw_distinct_of_one_sets_nothing_aside() {
    let mut store = vec![TestItem(1), TestItem(2), TestItem(1), TestItem(3)];
    let drawn = draw_distinct(&mut store, 1, &|_bound: usize| 0usize);
    let expected: HashSet<TestItem> = [TestItem(1)].into_iter().collect();
    assert_eq!(drawn, expected);
    assert_eq!(store, vec![TestItem(2), TestItem(1), TestItem(3)]);
}
