//! Draws from a vector of items at positions that a given function picks,
//! the work behind the pool traits.
use std::collections::HashSet;
use vstd::prelude::*;
use vstd::std_specs::hash::obeys_key_model;

use crate::item::PoolItem;

verus! {

broadcast use vstd::seq_lib::group_to_multiset_ensures, vstd::multiset::group_multiset_axioms;

/// `after` is `before` less one occurrence of each member of `taken`:
/// every item occurs in `before` exactly as often as in `after`, plus once
/// more where `taken` holds it.
pub open spec fn less_one_of_each<T>(before: Seq<T>, after: Seq<T>, taken: Set<T>) -> bool {
    forall|x: T| #[trigger]
        before.to_multiset().count(x) == after.to_multiset().count(x) + (if taken.contains(x) {
            1nat
        } else {
            0nat
        })
}

/// The number of distinct items in `items`.
pub open spec fn distinct_count<T>(items: Seq<T>) -> nat {
    items.to_set().len()
}

/// How many distinct items a draw of `size` distinct items from `items`
/// yields: `size`, or every distinct item when `items` holds fewer.
pub open spec fn distinct_draw_size<T>(items: Seq<T>, size: nat) -> nat {
    if size <= distinct_count(items) {
        size
    } else {
        distinct_count(items)
    }
}

/// `after` is a layout that a draw of the distinct items `drawn`, asked for
/// `size` of them, can leave behind in a store that held `before`: the items
/// never drawn, in their order, followed by set-aside copies of drawn items.
/// A draw that found fewer than `size` distinct items drew everything, so
/// nothing was left undrawn; a draw that found `size` of them (`size > 0`)
/// ended on a newly found item, of which no copy was set aside.
pub open spec fn distinct_draw_layout<T>(before: Seq<T>, after: Seq<T>, drawn: Set<T>, size: nat) -> bool {
    exists|kept: int|
        {
            &&& 0 <= kept <= after.len()
            &&& is_subsequence_of(after.take(kept), before)
            &&& forall|i: int| kept <= i < after.len() ==> drawn.contains(#[trigger] after[i])
            &&& drawn.len() < size ==> kept == 0
            &&& (drawn.len() == size && size > 0) ==> exists|v: T|
                drawn.contains(v) && !(#[trigger] after.skip(kept).contains(v))
        }
}

/// `positions` picks `sub` out of `whole`: the positions increase strictly,
/// lie inside `whole`, and `whole` holds `sub[i]` at `positions[i]`.
pub open spec fn picks_out<T>(positions: Seq<int>, sub: Seq<T>, whole: Seq<T>) -> bool {
    &&& positions.len() == sub.len()
    &&& forall|i: int|
        0 <= i < positions.len() ==> 0 <= #[trigger] positions[i] < whole.len() && whole[positions[i]]
            == sub[i]
    &&& forall|i: int, j: int|
        0 <= i < j < positions.len() ==> #[trigger] positions[i] < #[trigger] positions[j]
}

/// `sub` is `whole` with some items left out and the others in their order.
pub open spec fn is_subsequence_of<T>(sub: Seq<T>, whole: Seq<T>) -> bool {
    exists|positions: Seq<int>| picks_out(positions, sub, whole)
}

/// Every sequence is a subsequence of itself.
proof fn lemma_subsequence_of_itself<T>(s: Seq<T>)
    ensures
        is_subsequence_of(s, s),
{
    let positions = Seq::new(s.len(), |i: int| i);
    assert(picks_out(positions, s, s));
}

/// Removing one item from a subsequence leaves a subsequence.
proof fn lemma_subsequence_remove<T>(sub: Seq<T>, whole: Seq<T>, k: int)
    requires
        is_subsequence_of(sub, whole),
        0 <= k < sub.len(),
    ensures
        is_subsequence_of(sub.remove(k), whole),
{
    let positions = choose|positions: Seq<int>| picks_out(positions, sub, whole);
    let kept = positions.remove(k);
    assert forall|i: int, j: int| 0 <= i < j < kept.len() implies #[trigger] kept[i] < #[trigger] kept[j] by {
        let a = if i < k { i } else { i + 1 };
        let b = if j < k { j } else { j + 1 };
        assert(kept[i] == positions[a] && kept[j] == positions[b]);
        assert(positions[a] < positions[b]);
    }
    assert forall|i: int| 0 <= i < kept.len() implies 0 <= #[trigger] kept[i] < whole.len() && whole[kept[i]]
        == sub.remove(k)[i] by {
        let a = if i < k { i } else { i + 1 };
        assert(kept[i] == positions[a]);
    }
    assert(picks_out(kept, sub.remove(k), whole));
}

/// What is left of `items` after taking out, in turn, the item at each
/// position of `picks`; each position counts in what the earlier ones left.
pub open spec fn left_after<T>(items: Seq<T>, picks: Seq<usize>) -> Seq<T>
    decreases picks.len(),
{
    if picks.len() == 0 {
        items
    } else {
        left_after(items, picks.drop_last()).remove(picks.last() as int)
    }
}

/// The items taken out of `items` at the positions of `picks`, in turn, in
/// the order taken.
pub open spec fn taken_at<T>(items: Seq<T>, picks: Seq<usize>) -> Seq<T>
    decreases picks.len(),
{
    if picks.len() == 0 {
        Seq::empty()
    } else {
        taken_at(items, picks.drop_last()).push(
            left_after(items, picks.drop_last())[picks.last() as int],
        )
    }
}

/// The items of `drawn` equal to an earlier item of `drawn`, in order.
pub open spec fn repeats<T>(drawn: Seq<T>) -> Seq<T>
    decreases drawn.len(),
{
    if drawn.len() == 0 {
        Seq::empty()
    } else if drawn.drop_last().contains(drawn.last()) {
        repeats(drawn.drop_last()).push(drawn.last())
    } else {
        repeats(drawn.drop_last())
    }
}

/// Each position of `picks` lies inside what the earlier ones left of a
/// store of `len` items.
pub open spec fn picks_fit(len: nat, picks: Seq<usize>) -> bool {
    forall|k: int| 0 <= k < picks.len() ==> #[trigger] picks[k] < len - k
}

/// Each position of `picks` is one that `pick` can answer for the length of
/// what the earlier ones left of a store of `len` items.
pub open spec fn picked_by<F: Fn(usize) -> usize>(pick: F, len: nat, picks: Seq<usize>) -> bool {
    forall|k: int| 0 <= k < picks.len() ==> call_ensures(pick, ((len - k) as usize,), #[trigger] picks[k])
}

/// A draw of `size` distinct items from `items` at the positions `picks`
/// goes on while it holds fewer than `size` distinct items, and stops once
/// it holds `size` of them or has taken every item.
pub open spec fn distinct_draw_stops<T>(items: Seq<T>, picks: Seq<usize>, size: nat) -> bool {
    &&& forall|j: int|
        0 <= j < picks.len() ==> #[trigger] taken_at(items, picks.take(j)).to_set().len() < size
    &&& taken_at(items, picks).to_set().len() == size || picks.len() == items.len()
}

/// `pick` answers every positive bound with a position below it.
pub open spec fn picks_below<F: Fn(usize) -> usize>(pick: F) -> bool {
    &&& forall|bound: usize| bound > 0 ==> #[trigger] call_requires(pick, (bound,))
    &&& forall|bound: usize, index: usize|
        #[trigger] call_ensures(pick, (bound,), index) ==> index < bound
}

/// Removes the item at `index` and returns it; the other items keep their
/// order.
pub fn take_at<T>(store: &mut Vec<T>, index: usize) -> (taken: T)
    requires
        index < old(store)@.len(),
    ensures
        taken == old(store)@[index as int],
        final(store)@ == old(store)@.remove(index as int),
{
    store.remove(index)
}

/// Removes the item at the position that `pick` gives for the store's
/// length, and returns it; the other items keep their order.
pub fn draw_one<T, F: Fn(usize) -> usize>(store: &mut Vec<T>, pick: &F) -> (drawn: T)
    requires
        old(store)@.len() > 0,
        picks_below(*pick),
    ensures
        exists|i: int|
            0 <= i < old(store)@.len() && call_ensures(*pick, (old(store)@.len() as usize,), i as usize)
                && old(store)@[i] == drawn && final(store)@ == old(store)@.remove(i),
{
    let index = pick(store.len());
    take_at(store, index)
}

/// Removes `size` items, one position from `pick` at a time, and returns
/// them in the order drawn; the items left keep their order.
pub fn draw_many<T, F: Fn(usize) -> usize>(store: &mut Vec<T>, size: usize, pick: &F) -> (drawn: Vec<T>)
    requires
        size <= old(store)@.len(),
        picks_below(*pick),
    ensures
        drawn@.len() == size,
        final(store)@.len() == old(store)@.len() - size,
        old(store)@.to_multiset() == final(store)@.to_multiset().add(drawn@.to_multiset()),
        is_subsequence_of(final(store)@, old(store)@),
        exists|picks: Seq<usize>|
            {
                &&& picks.len() == size
                &&& picks_fit(old(store)@.len(), picks)
                &&& picked_by(*pick, old(store)@.len(), picks)
                &&& drawn@ == taken_at(old(store)@, picks)
                &&& final(store)@ == left_after(old(store)@, picks)
            },
{
    let ghost before = store@;
    let ghost mut picks: Seq<usize> = Seq::empty();
    proof {
        lemma_subsequence_of_itself(before);
    }
    let mut values: Vec<T> = Vec::with_capacity(size);
    let mut round: usize = 0;
    while round < size
        invariant
            round <= size,
            size <= before.len(),
            store@.len() == before.len() - round,
            values@.len() == round,
            before.to_multiset() == store@.to_multiset().add(values@.to_multiset()),
            is_subsequence_of(store@, before),
            picks_below(*pick),
            picks.len() == round,
            picks_fit(before.len(), picks),
            picked_by(*pick, before.len(), picks),
            values@ == taken_at(before, picks),
            store@ == left_after(before, picks),
        decreases size - round,
    {
        let ghost prev_store = store@;
        let ghost prev_picks = picks;
        let index = pick(store.len());
        let drawn_item = take_at(store, index);
        proof {
            let i = index as int;
            assert(store@.to_multiset() == prev_store.to_multiset().remove(drawn_item));
            lemma_subsequence_remove(prev_store, before, i);
            picks = prev_picks.push(index);
            assert(picks.drop_last() =~= prev_picks);
            assert forall|k: int| 0 <= k < picks.len() implies #[trigger] picks[k] < before.len() - k by {
                if k < prev_picks.len() {
                    assert(picks[k] == prev_picks[k]);
                }
            }
            assert forall|k: int| 0 <= k < picks.len() implies call_ensures(*pick, ((before.len() - k) as usize,), #[trigger] picks[k]) by {
                if k < prev_picks.len() {
                    assert(picks[k] == prev_picks[k]);
                }
            }
            assert(left_after(before, picks) == prev_store.remove(i));
            assert(taken_at(before, picks) == taken_at(before, prev_picks).push(drawn_item));
        }
        values.push(drawn_item);
        round = round + 1;
        assert(before.to_multiset() =~= store@.to_multiset().add(values@.to_multiset()));
    }
    values
}

/// Every item of `origin` is still in `store` or already in `taken`, when
/// the item counts of `origin` are split between `store`, `aside` (whose
/// items are all in `taken`) and `taken`.
proof fn lemma_every_item_kept<T>(origin: Seq<T>, store: Seq<T>, aside: Seq<T>, taken: Set<T>)
    requires
        forall|i: int| 0 <= i < aside.len() ==> taken.contains(#[trigger] aside[i]),
        forall|x: T| #[trigger]
            origin.to_multiset().count(x) == store.to_multiset().count(x)
                + aside.to_multiset().count(x) + (if taken.contains(x) {
                1nat
            } else {
                0nat
            }),
    ensures
        forall|x: T| origin.contains(x) ==> store.contains(x) || taken.contains(x),
{
    assert forall|x: T| origin.contains(x) implies store.contains(x) || taken.contains(x) by {
        assert(origin.to_multiset().count(x) > 0);
        if aside.to_multiset().count(x) > 0 {
            let i = choose|i: int| 0 <= i < aside.len() && aside[i] == x;
            assert(taken.contains(aside[i]));
        } else if !taken.contains(x) {
            assert(store.to_multiset().count(x) > 0);
        }
    }
}

/// Draws items, at the positions that `pick` gives, until `size` distinct
/// ones are held or `store` runs out; an item equal to one already held is
/// set aside, and the set-aside items go back to the end of `store` once the
/// draw is complete.
pub fn draw_distinct<T: PoolItem, F: Fn(usize) -> usize>(
    store: &mut Vec<T>,
    size: usize,
    pick: &F,
) -> (drawn: HashSet<T>)
    requires
        obeys_key_model::<T>(),
        picks_below(*pick),
    ensures
        drawn@.finite(),
        drawn@.len() == distinct_draw_size(old(store)@, size as nat),
        drawn@.subset_of(old(store)@.to_set()),
        final(store)@.len() == old(store)@.len() - drawn@.len(),
        less_one_of_each(old(store)@, final(store)@, drawn@),
        distinct_draw_layout(old(store)@, final(store)@, drawn@, size as nat),
        exists|picks: Seq<usize>|
            {
                &&& picks_fit(old(store)@.len(), picks)
                &&& picked_by(*pick, old(store)@.len(), picks)
                &&& distinct_draw_stops(old(store)@, picks, size as nat)
                &&& drawn@ == taken_at(old(store)@, picks).to_set()
                &&& final(store)@ == left_after(old(store)@, picks) + repeats(
                    taken_at(old(store)@, picks),
                )
            },
{
    let ghost before = store@;
    let ghost mut picks: Seq<usize> = Seq::empty();
    proof {
        lemma_subsequence_of_itself(before);
    }
    let mut needed = size;
    let mut colliding: Vec<T> = Vec::new();
    let mut values: HashSet<T> = HashSet::new();
    while needed > 0 && store.len() > 0
        invariant
            obeys_key_model::<T>(),
            picks_below(*pick),
            needed <= size,
            values@.finite(),
            values@.len() + needed == size,
            before.len() == store@.len() + colliding@.len() + values@.len(),
            values@.subset_of(before.to_set()),
            is_subsequence_of(store@, before),
            forall|i: int| 0 <= i < colliding@.len() ==> values@.contains(#[trigger] colliding@[i]),
            needed == 0 && size > 0 ==> exists|v: T| values@.contains(v) && !colliding@.contains(v),
            store@.len() + picks.len() == before.len(),
            picks_fit(before.len(), picks),
            picked_by(*pick, before.len(), picks),
            store@ == left_after(before, picks),
            values@ == taken_at(before, picks).to_set(),
            colliding@ == repeats(taken_at(before, picks)),
            forall|j: int|
                0 <= j < picks.len() ==> #[trigger] taken_at(before, picks.take(j)).to_set().len()
                    < size,
            forall|x: T| #[trigger]
                before.to_multiset().count(x) == store@.to_multiset().count(x)
                    + colliding@.to_multiset().count(x) + (if values@.contains(x) {
                    1nat
                } else {
                    0nat
                }),
        decreases store@.len(),
    {
        let ghost prev_store = store@;
        let ghost prev_colliding = colliding@;
        let ghost prev_values = values@;
        let ghost prev_picks = picks;
        let ghost prev_taken = taken_at(before, picks);
        let index = pick(store.len());
        let draw = take_at(store, index);
        proof {
            let i = index as int;
            assert(store@.to_multiset() == prev_store.to_multiset().remove(draw));
            assert(prev_store.to_multiset().count(draw) > 0);
            lemma_subsequence_remove(prev_store, before, i);
            picks = prev_picks.push(index);
            assert(picks.drop_last() =~= prev_picks);
            assert forall|k: int| 0 <= k < picks.len() implies #[trigger] picks[k] < before.len() - k by {
                if k < prev_picks.len() {
                    assert(picks[k] == prev_picks[k]);
                }
            }
            assert forall|k: int| 0 <= k < picks.len() implies call_ensures(*pick, ((before.len() - k) as usize,), #[trigger] picks[k]) by {
                if k < prev_picks.len() {
                    assert(picks[k] == prev_picks[k]);
                }
            }
            assert(left_after(before, picks) == prev_store.remove(i));
            assert(taken_at(before, picks) == prev_taken.push(draw));
            assert(taken_at(before, picks).drop_last() =~= prev_taken);
            assert forall|x: T| #[trigger] taken_at(before, picks).contains(x) <==> (prev_taken.contains(x) || x == draw) by {
                let t = taken_at(before, picks);
                if t.contains(x) {
                    let k = choose|k: int| 0 <= k < t.len() && t[k] == x;
                    if k < prev_taken.len() {
                        assert(prev_taken[k] == x);
                    }
                }
                if prev_taken.contains(x) {
                    let k = choose|k: int| 0 <= k < prev_taken.len() && prev_taken[k] == x;
                    assert(t[k] == x);
                }
                if x == draw {
                    assert(t[prev_taken.len() as int] == x);
                }
            }
            assert(taken_at(before, picks).to_set() =~= prev_values.insert(draw));
            assert(prev_values.contains(draw) == prev_taken.contains(draw));
            assert forall|j: int| 0 <= j < picks.len() implies #[trigger] taken_at(before, picks.take(j)).to_set().len() < size by {
                if j < prev_picks.len() {
                    assert(picks.take(j) =~= prev_picks.take(j));
                } else {
                    assert(picks.take(j) =~= prev_picks);
                }
            }
        }
        if values.contains(&draw) {
            colliding.push(draw);
            assert forall|i: int| 0 <= i < colliding@.len() implies values@.contains(#[trigger] colliding@[i]) by {
                if i < prev_colliding.len() {
                    assert(colliding@[i] == prev_colliding[i]);
                }
            }
        } else {
            assert(!colliding@.contains(draw));
            values.insert(draw);
            needed = needed - 1;
            assert(values@ == prev_values.insert(draw));
            assert(prev_store.contains(draw));
            assert(before.to_multiset().count(draw) > 0);
        }
    }
    proof {
        assert(before.to_set().finite()) by {
            vstd::seq_lib::seq_to_set_is_finite(before);
        }
        vstd::set_lib::lemma_len_subset(values@, before.to_set());
        if needed > 0 {
            lemma_every_item_kept(before, store@, colliding@, values@);
            assert(before.to_set().subset_of(values@));
            vstd::set_lib::lemma_len_subset(before.to_set(), values@);
        }
    }
    let ghost pre_append = store@;
    let ghost set_aside = colliding@;
    store.append(&mut colliding);
    proof {
        assert(store@ == pre_append + set_aside);
        vstd::seq_lib::lemma_multiset_commutative(pre_append, set_aside);
        assert(store@.take(pre_append.len() as int) == pre_append);
        assert forall|i: int| pre_append.len() <= i < store@.len() implies values@.contains(#[trigger] store@[i]) by {
            assert(store@[i] == set_aside[i - pre_append.len()]);
        }
        let kept = pre_append.len() as int;
        assert(store@.skip(kept) == set_aside);
        assert(distinct_draw_stops(before, picks, size as nat));
        if values@.len() < size {
            assert(pre_append.len() == 0);
        }
    }
    values
}

} // verus!
