//! Which items of a list are the first ones with their key.

use itertools::Itertools;
use vstd::prelude::*;

verus! {

/// The positions, in ascending order, at which a key occurs for the first time.
pub open spec fn first_positions<K>(keys: Seq<K>) -> Seq<int>
    decreases keys.len(),
{
    if keys.len() == 0 {
        Seq::empty()
    } else {
        let before = first_positions(keys.drop_last());
        if keys.drop_last().contains(keys.last()) {
            before
        } else {
            before.push(keys.len() - 1)
        }
    }
}

/// The items at the given positions, in the order of the positions.
pub open spec fn pick<T>(items: Seq<T>, positions: Seq<int>) -> Seq<T> {
    Seq::new(positions.len(), |i: int| items[positions[i]])
}

/// The first item of each key, in the order of the items.
pub open spec fn first_by_key<K, T>(keys: Seq<K>, items: Seq<T>) -> Seq<T> {
    pick(items, first_positions(keys))
}

/// The keys of a list of keyed items.
pub open spec fn keys_of<T>(items: Seq<(Vec<u8>, T)>) -> Seq<Seq<u8>> {
    Seq::new(items.len(), |i: int| items[i].0@)
}

/// Calls `Itertools::unique_by` on a list of keyed items, with the key of an item as its key.
/// What is believed: of the items with equal keys (byte strings, compared byte by byte) the call
/// keeps the first and leaves out the others, and it keeps the order of those that stay.
#[verifier::external_body]
pub(crate) fn unique_by_key<T>(items: Vec<(Vec<u8>, T)>) -> (kept: Vec<(Vec<u8>, T)>)
    ensures
        kept@ == first_by_key(keys_of(items@), items@),
{
    items.into_iter().unique_by(|item| item.0.clone()).collect()
}

/// The first positions are the positions whose key does not occur before them, in ascending
/// order.
pub proof fn first_positions_are_first<K>(keys: Seq<K>)
    ensures
        forall|a: int|
            0 <= a < first_positions(keys).len() ==> 0 <= #[trigger] first_positions(keys)[a]
                < keys.len(),
        forall|a: int, b: int|
            0 <= a < b < first_positions(keys).len() ==> #[trigger] first_positions(keys)[a]
                < #[trigger] first_positions(keys)[b],
        forall|i: int| #[trigger]
            first_positions(keys).contains(i) <==> 0 <= i < keys.len() && (forall|j: int|
                0 <= j < i ==> keys[j] != keys[i]),
    decreases keys.len(),
{
    if keys.len() > 0 {
        let init = keys.drop_last();
        let last = keys.len() - 1;
        first_positions_are_first(init);
        let before = first_positions(init);
        let after = first_positions(keys);
        assert forall|i: int| #[trigger] after.contains(i) <==> 0 <= i < keys.len() && (forall|
            j: int,
        |
            0 <= j < i ==> keys[j] != keys[i]) by {
            if i == last {
                if init.contains(keys.last()) {
                    let j = choose|j: int| 0 <= j < init.len() && init[j] == keys.last();
                    assert(keys[j] == keys[i]);
                    assert(!before.contains(i));
                } else {
                    assert(after[after.len() - 1] == i);
                    assert forall|j: int| 0 <= j < i implies keys[j] != keys[i] by {
                        assert(init[j] == keys[j]);
                    }
                }
            } else {
                if before.contains(i) {
                    let a = choose|a: int| 0 <= a < before.len() && before[a] == i;
                    assert(after[a] == i);
                    assert(init[i] == keys[i]);
                    assert forall|j: int| 0 <= j < i implies keys[j] != keys[i] by {
                        assert(init[j] == keys[j]);
                    }
                }
                if after.contains(i) {
                    let a = choose|a: int| 0 <= a < after.len() && after[a] == i;
                    assert(before[a] == i);
                    assert(before.contains(i));
                }
                if 0 <= i < keys.len() && (forall|j: int| 0 <= j < i ==> keys[j] != keys[i]) {
                    assert forall|j: int| 0 <= j < i implies init[j] != init[i] by {
                        assert(keys[j] != keys[i]);
                    }
                    assert(before.contains(i));
                }
            }
        }
    }
}

/// The first positions depend only on which keys are equal.
pub(crate) proof fn first_positions_of_like_keys<K, L>(keys: Seq<K>, like: Seq<L>)
    requires
        keys.len() == like.len(),
        forall|i: int, j: int|
            #![trigger keys[i], keys[j]]
            #![trigger like[i], like[j]]
            0 <= i < keys.len() && 0 <= j < keys.len() ==> (keys[i] == keys[j] <==> like[i]
                == like[j]),
    ensures
        first_positions(keys) == first_positions(like),
    decreases keys.len(),
{
    if keys.len() > 0 {
        let n = keys.len() - 1;
        first_positions_of_like_keys(keys.drop_last(), like.drop_last());
        if keys.drop_last().contains(keys.last()) {
            let i = choose|i: int| 0 <= i < n && keys.drop_last()[i] == keys.last();
            assert(keys[i] == keys[n]);
            assert(like.drop_last()[i] == like[n]);
        }
        if like.drop_last().contains(like.last()) {
            let i = choose|i: int| 0 <= i < n && like.drop_last()[i] == like.last();
            assert(like[i] == like[n]);
            assert(keys.drop_last()[i] == keys[n]);
        }
    }
}

/// All positions are first positions just where no key occurs twice.
pub(crate) proof fn first_positions_of_distinct_keys<K>(keys: Seq<K>)
    ensures
        first_positions(keys).len() <= keys.len(),
        first_positions(keys).len() == keys.len() <==> keys.no_duplicates(),
    decreases keys.len(),
{
    if keys.len() > 0 {
        let init = keys.drop_last();
        let n = keys.len() - 1;
        first_positions_of_distinct_keys(init);
        if init.contains(keys.last()) {
            let i = choose|i: int| 0 <= i < n && init[i] == keys.last();
            assert(keys[i] == keys[n]);
        }
        if init.no_duplicates() && !init.contains(keys.last()) {
            assert forall|i: int, j: int|
                0 <= i < keys.len() && 0 <= j < keys.len() && i != j implies keys[i] != keys[j] by {
                if i == n {
                    assert(init[j] == keys[j]);
                } else if j == n {
                    assert(init[i] == keys[i]);
                } else {
                    assert(init[i] == keys[i] && init[j] == keys[j]);
                }
            }
        }
        if keys.no_duplicates() {
            assert forall|i: int, j: int|
                0 <= i < n && 0 <= j < n && i != j implies init[i] != init[j] by {
                assert(init[i] == keys[i] && init[j] == keys[j]);
            }
        }
    }
}

/// One more item is kept if its key did not occur before, and it does not change which of the
/// items before it are kept.
pub proof fn one_more_item<K, T>(keys: Seq<K>, items: Seq<T>, key: K, item: T)
    requires
        keys.len() == items.len(),
    ensures
        first_by_key(Seq::<K>::empty(), Seq::<T>::empty()) == Seq::<T>::empty(),
        (exists|i: int| 0 <= i < keys.len() && #[trigger] keys[i] == key) ==> first_by_key(
            keys.push(key),
            items.push(item),
        ) == first_by_key(keys, items),
        (forall|i: int| 0 <= i < keys.len() ==> #[trigger] keys[i] != key) ==> first_by_key(
            keys.push(key),
            items.push(item),
        ) == first_by_key(keys, items).push(item),
{
    let more = keys.push(key);
    first_positions_are_first(keys);
    assert(more.drop_last() =~= keys);
    assert(first_by_key(Seq::<K>::empty(), Seq::<T>::empty()) =~= Seq::<T>::empty());
    let before = first_by_key(keys, items);
    let after = first_by_key(more, items.push(item));
    if keys.contains(key) {
        assert(after =~= before);
    } else {
        assert forall|i: int| 0 <= i < keys.len() implies #[trigger] keys[i] != key by {
            assert(keys.contains(keys[i]));
        }
        assert(after =~= before.push(item));
    }
}

} // verus!
