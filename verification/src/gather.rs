//! Collecting what the items of a list stand for, however often.

use vstd::multiset::Multiset;
use vstd::prelude::*;

use crate::unique::{first_by_key, first_positions_are_first};

verus! {

broadcast use vstd::multiset::group_multiset_axioms;

/// All that the items of a list stand for.
pub open spec fn gather<T, U>(items: Seq<T>, each: spec_fn(T) -> Multiset<U>) -> Multiset<U>
    decreases items.len(),
{
    if items.len() == 0 {
        Multiset::empty()
    } else {
        gather(items.drop_last(), each).add(each(items.last()))
    }
}

/// Two lists one after the other stand for what both stand for.
pub(crate) proof fn gather_of_both<T, U>(first: Seq<T>, second: Seq<T>, each: spec_fn(T) -> Multiset<U>)
    ensures
        gather(first + second, each) == gather(first, each).add(gather(second, each)),
    decreases second.len(),
{
    if second.len() == 0 {
        assert(first + second =~= first);
        assert(gather(first, each) =~= gather(first, each).add(gather(second, each)));
    } else {
        gather_of_both(first, second.drop_last(), each);
        assert((first + second).drop_last() =~= first + second.drop_last());
        assert(gather(first + second, each) =~= gather(first, each).add(gather(second, each)));
    }
}

/// What a list of one item stands for.
pub(crate) proof fn gather_of_one<T, U>(item: T, each: spec_fn(T) -> Multiset<U>)
    ensures
        gather(seq![item], each) == each(item),
{
    reveal_with_fuel(gather, 2);
    assert(seq![item].drop_last() =~= Seq::empty());
    assert(gather(seq![item], each) =~= each(item));
}

/// The order of the items does not matter.
pub(crate) proof fn gather_in_any_order<T, U>(
    one: Seq<T>,
    other: Seq<T>,
    each: spec_fn(T) -> Multiset<U>,
)
    requires
        one.to_multiset() == other.to_multiset(),
    ensures
        gather(one, each) == gather(other, each),
    decreases one.len(),
{
    one.to_multiset_ensures();
    other.to_multiset_ensures();
    if one.len() > 0 {
        let last = one.last();
        assert(one[one.len() - 1] == last);
        assert(one.contains(last));
        assert(other.to_multiset().count(last) > 0);
        let k = choose|k: int| 0 <= k < other.len() && other[k] == last;
        let rest = other.remove(k);
        assert(one.remove(one.len() - 1) =~= one.drop_last());
        assert(one.drop_last().to_multiset() =~= rest.to_multiset());
        gather_in_any_order(one.drop_last(), rest, each);
        let before = other.take(k);
        let after = other.skip(k + 1);
        assert(rest =~= before + after);
        assert(other =~= before + seq![last] + after);
        gather_of_both(before, after, each);
        gather_of_both(before + seq![last], after, each);
        gather_of_both(before, seq![last], each);
        gather_of_one(last, each);
        assert(gather(one, each) =~= gather(other, each));
    }
}

/// Leaving out items leaves out what they stand for.
pub(crate) proof fn gather_of_filtered<T, U>(
    items: Seq<T>,
    keep: spec_fn(T) -> bool,
    each: spec_fn(T) -> Multiset<U>,
)
    ensures
        gather(items.filter(keep), each).subset_of(gather(items, each)),
    decreases items.len(),
{
    reveal(Seq::filter);
    if items.len() > 0 {
        gather_of_filtered(items.drop_last(), keep, each);
        let before = items.drop_last().filter(keep);
        if keep(items.last()) {
            assert(before.push(items.last()).drop_last() =~= before);
        }
    }
}

/// Items that stand for less, one by one, stand for less together.
pub(crate) proof fn gather_of_less<S, T, U>(
    less: Seq<S>,
    more: Seq<T>,
    each_less: spec_fn(S) -> Multiset<U>,
    each_more: spec_fn(T) -> Multiset<U>,
)
    requires
        less.len() == more.len(),
        forall|i: int|
            0 <= i < less.len() ==> each_less(#[trigger] less[i]).subset_of(each_more(more[i])),
    ensures
        gather(less, each_less).subset_of(gather(more, each_more)),
    decreases less.len(),
{
    if less.len() > 0 {
        let n = less.len() - 1;
        assert forall|i: int| 0 <= i < n implies each_less(
            #[trigger] less.drop_last()[i],
        ).subset_of(each_more(more.drop_last()[i])) by {
            assert(less.drop_last()[i] == less[i]);
        }
        gather_of_less(less.drop_last(), more.drop_last(), each_less, each_more);
        assert(each_less(less[n]).subset_of(each_more(more[n])));
    }
}

/// If only one item stands for `what`, and it does so once, `what` is there once.
pub(crate) proof fn gather_counts_once<T, U>(
    items: Seq<T>,
    each: spec_fn(T) -> Multiset<U>,
    what: U,
)
    requires
        forall|i: int| 0 <= i < items.len() ==> each(#[trigger] items[i]).count(what) <= 1,
        forall|i: int, j: int|
            0 <= i < j < items.len() ==> each(#[trigger] items[i]).count(what) == 0 || each(
                #[trigger] items[j],
            ).count(what) == 0,
    ensures
        gather(items, each).count(what) <= 1,
        gather(items, each).count(what) > 0 ==> exists|i: int|
            0 <= i < items.len() && each(#[trigger] items[i]).count(what) > 0,
    decreases items.len(),
{
    if items.len() > 0 {
        let init = items.drop_last();
        let n = items.len() - 1;
        assert forall|i: int| 0 <= i < n implies each(#[trigger] init[i]).count(what) <= 1 by {
            assert(init[i] == items[i]);
        }
        assert forall|i: int, j: int| 0 <= i < j < n implies each(#[trigger] init[i]).count(what) == 0
            || each(#[trigger] init[j]).count(what) == 0 by {
            assert(init[i] == items[i] && init[j] == items[j]);
        }
        gather_counts_once(init, each, what);
        assert(each(items[n]).count(what) <= 1);
        if gather(init, each).count(what) > 0 {
            let i = choose|i: int| 0 <= i < n && each(#[trigger] init[i]).count(what) > 0;
            assert(each(items[i]).count(what) > 0);
            assert(each(items[n]).count(what) == 0);
        }
    }
}

/// Keeping the first item of each key leaves out the others.
pub(crate) proof fn gather_of_first<K, T, U>(
    keys: Seq<K>,
    items: Seq<T>,
    each: spec_fn(T) -> Multiset<U>,
)
    requires
        keys.len() == items.len(),
    ensures
        gather(first_by_key(keys, items), each).subset_of(gather(items, each)),
    decreases items.len(),
{
    let kept = first_by_key(keys, items);
    first_positions_are_first(keys);
    if items.len() > 0 {
        let init = items.drop_last();
        let before = first_by_key(keys.drop_last(), init);
        first_positions_are_first(keys.drop_last());
        gather_of_first(keys.drop_last(), init, each);
        if keys.drop_last().contains(keys.last()) {
            assert(kept =~= before);
        } else {
            assert(kept =~= before.push(items.last()));
            assert(kept.drop_last() =~= before);
        }
    }
}

} // verus!
