//! Groups of files that have something in common, and how they are counted.

use std::collections::HashMap;
use std::hash::Hash;
use vstd::prelude::*;
use vstd::std_specs::hash::obeys_key_model;

use crate::files::{FileHash, FileLen};
use crate::unique::{first_positions, first_positions_are_first, pick};

verus! {

broadcast use vstd::std_specs::hash::group_hash_axioms;

/// Files of one length. Where `hash` is given, the files also share it.
#[derive(Clone, Debug, PartialEq, Eq)]
pub struct FileGroup<F> {
    pub len: FileLen,
    pub hash: Option<FileHash>,
    pub files: Vec<F>,
}

/// What a `FileGroup` stands for.
#[verifier::ext_equal]
pub struct GroupView<F> {
    pub len: FileLen,
    pub hash: Option<FileHash>,
    pub files: Seq<F>,
}

impl<F> View for FileGroup<F> {
    type V = GroupView<F>;

    open spec fn view(&self) -> GroupView<F> {
        GroupView { len: self.len, hash: self.hash, files: self.files@ }
    }
}

/// What a list of `FileGroup`s stands for.
pub open spec fn group_views<F>(groups: Seq<FileGroup<F>>) -> Seq<GroupView<F>> {
    Seq::new(groups.len(), |i: int| groups[i]@)
}

/// The values that were paired with `key`, in the order of the pairs.
pub open spec fn values_of<K, V>(pairs: Seq<(K, V)>, key: K) -> Seq<V>
    decreases pairs.len(),
{
    if pairs.len() == 0 {
        Seq::empty()
    } else if pairs.last().0 == key {
        values_of(pairs.drop_last(), key).push(pairs.last().1)
    } else {
        values_of(pairs.drop_last(), key)
    }
}

/// The keys of a list of pairs.
pub open spec fn pair_keys<K, V>(pairs: Seq<(K, V)>) -> Seq<K> {
    Seq::new(pairs.len(), |i: int| pairs[i].0)
}

/// The different keys of a list of pairs, in the order in which they first occur.
pub open spec fn distinct_keys<K, V>(pairs: Seq<(K, V)>) -> Seq<K> {
    pick(pair_keys(pairs), first_positions(pair_keys(pairs)))
}

/// The pairs grouped by their keys: one group for each key, with all of its values.
pub open spec fn grouped<K, V>(pairs: Seq<(K, V)>) -> Seq<(K, Seq<V>)> {
    Seq::new(
        distinct_keys(pairs).len(),
        |i: int| (distinct_keys(pairs)[i], values_of(pairs, distinct_keys(pairs)[i])),
    )
}

/// Each key that occurs is listed once among the different keys, and no other key is.
pub proof fn distinct_keys_are_distinct<K, V>(pairs: Seq<(K, V)>)
    ensures
        distinct_keys(pairs).no_duplicates(),
        forall|k: K| #[trigger]
            distinct_keys(pairs).contains(k) <==> pair_keys(pairs).contains(k),
    decreases pairs.len(),
{
    let keys = pair_keys(pairs);
    let positions = first_positions(keys);
    let distinct = distinct_keys(pairs);
    first_positions_are_first(keys);
    assert forall|a: int, b: int| 0 <= a < b < distinct.len() implies distinct[a] != distinct[b] by {
        assert(positions[a] < positions[b]);
        assert(positions.contains(positions[b]));
    }
    assert forall|k: K| #[trigger] distinct.contains(k) <==> keys.contains(k) by {
        if distinct.contains(k) {
            let a = choose|a: int| 0 <= a < distinct.len() && distinct[a] == k;
            assert(0 <= positions[a] < keys.len());
            assert(keys[positions[a]] == k);
        }
        if keys.contains(k) {
            let i = choose|i: int| 0 <= i < keys.len() && keys[i] == k;
            let first = first_index(keys, k, i);
            assert(positions.contains(first));
            let a = choose|a: int| 0 <= a < positions.len() && positions[a] == first;
            assert(distinct[a] == k);
        }
    }
}

/// The first index of `k` in `keys`, found downwards from an index `i` of `k`.
pub(crate) proof fn first_index<K>(keys: Seq<K>, k: K, i: int) -> (first: int)
    requires
        0 <= i < keys.len(),
        keys[i] == k,
    ensures
        0 <= first <= i,
        keys[first] == k,
        forall|j: int| 0 <= j < first ==> keys[j] != k,
    decreases i,
{
    if exists|j: int| 0 <= j < i && keys[j] == k {
        let j = choose|j: int| 0 <= j < i && keys[j] == k;
        first_index(keys, k, j)
    } else {
        i
    }
}

/// Values collected into groups by their keys.
#[verifier::reject_recursive_types(K)]
#[verifier::reject_recursive_types(V)]
pub struct GroupMap<K, V> {
    index: HashMap<K, usize>,
    groups: Vec<(K, Vec<V>)>,
    added: Ghost<Seq<(K, V)>>,
}

impl<K, V> View for GroupMap<K, V> {
    type V = Seq<(K, V)>;

    /// The pairs that were added.
    closed spec fn view(&self) -> Seq<(K, V)> {
        self.added@
    }
}

/// What a list of keyed vectors stands for.
pub open spec fn keyed_views<K, V>(groups: Seq<(K, Vec<V>)>) -> Seq<(K, Seq<V>)> {
    Seq::new(groups.len(), |i: int| (groups[i].0, groups[i].1@))
}

impl<K: Copy + Eq + Hash, V> GroupMap<K, V> {
    /// The groups hold what was added, and the index finds each group by its key.
    pub closed spec fn wf(&self) -> bool {
        &&& obeys_key_model::<K>()
        &&& keyed_views(self.groups@) =~= grouped(self.added@)
        &&& forall|i: int|
            0 <= i < self.groups@.len() ==> self.index@.contains_key(#[trigger] self.groups@[i].0)
                && self.index@[self.groups@[i].0] == i
        &&& forall|k: K| #[trigger]
            self.index@.contains_key(k) ==> self.index@[k] < self.groups@.len()
                && self.groups@[self.index@[k] as int].0 == k
    }

    /// No groups yet.
    pub fn new() -> (map: GroupMap<K, V>)
        requires
            obeys_key_model::<K>(),
        ensures
            map.wf(),
            map@ == Seq::<(K, V)>::empty(),
    {
        GroupMap { index: HashMap::new(), groups: Vec::new(), added: Ghost(Seq::empty()) }
    }

    /// Adds a value to the group of its key.
    pub fn add(&mut self, key: K, value: V)
        requires
            old(self).wf(),
        ensures
            final(self).wf(),
            final(self)@ == old(self)@.push((key, value)),
    {
        let ghost before = self.added@;
        let ghost after = before.push((key, value));
        let ghost groups = self.groups@;
        proof {
            grouped_after_push(before, key, value);
        }
        match self.index.get(&key) {
            Some(found) => {
                let i: usize = *found;
                self.groups[i].1.push(value);
                proof {
                    assert(grouped(before)[i as int] == keyed_views(groups)[i as int]);
                    assert(keyed_views(self.groups@) =~= grouped(after));
                    assert(forall|j: int|
                        0 <= j < groups.len() ==> #[trigger] self.groups@[j].0 == groups[j].0);
                }
            },
            None => {
                self.index.insert(key, self.groups.len());
                let mut values = Vec::new();
                values.push(value);
                self.groups.push((key, values));
                proof {
                    assert forall|j: int| 0 <= j < grouped(before).len() implies #[trigger] grouped(
                        before,
                    )[j].0 != key by {
                        assert(grouped(before)[j] == keyed_views(groups)[j]);
                        assert(groups[j].0 == keyed_views(groups)[j].0);
                    }
                    assert(values@ =~= seq![value]);
                    assert(keyed_views(self.groups@) =~= grouped(after));
                }
            },
        }
        self.added = Ghost(after);
    }

    /// The groups, in the order in which their keys were first added.
    pub fn into_groups(self) -> (groups: Vec<(K, Vec<V>)>)
        requires
            self.wf(),
        ensures
            keyed_views(groups@) == grouped(self@),
    {
        self.groups
    }
}

/// What one more pair does to the groups.
pub(crate) proof fn grouped_after_push<K, V>(pairs: Seq<(K, V)>, key: K, value: V)
    ensures
        ({
            let before = grouped(pairs);
            let after = grouped(pairs.push((key, value)));
            &&& (forall|i: int|
                #![trigger before[i]]
                0 <= i < before.len() && before[i].0 == key ==> after == before.update(
                    i,
                    (key, before[i].1.push(value)),
                ))
            &&& ((forall|i: int| 0 <= i < before.len() ==> #[trigger] before[i].0 != key)
                ==> after == before.push((key, seq![value])))
        }),
{
    let more = pairs.push((key, value));
    let before = grouped(pairs);
    let after = grouped(more);
    assert(more.drop_last() =~= pairs);
    assert(pair_keys(more) =~= pair_keys(pairs).push(key));
    assert(pair_keys(more).drop_last() =~= pair_keys(pairs));
    distinct_keys_are_distinct(pairs);
    first_positions_are_first(pair_keys(pairs));
    let keys = distinct_keys(pairs);
    assert forall|i: int| 0 <= i < before.len() && (#[trigger] before[i]).0 == key implies after
        == before.update(i, (key, before[i].1.push(value))) by {
        assert(keys[i] == key);
        assert(keys.contains(key));
        assert(distinct_keys(more) =~= keys);
        assert(after =~= before.update(i, (key, before[i].1.push(value))));
    }
    if forall|i: int| 0 <= i < before.len() ==> #[trigger] before[i].0 != key {
        assert(!keys.contains(key)) by {
            if keys.contains(key) {
                let i = choose|i: int| 0 <= i < keys.len() && keys[i] == key;
                assert(before[i].0 == key);
            }
        }
        assert(!pair_keys(pairs).contains(key));
        assert(distinct_keys(more) =~= keys.push(key));
        no_values_of_other_keys(pairs, key);
        assert(values_of(more, key) =~= seq![value]);
        assert(after =~= before.push((key, seq![value])));
    }
}

/// A key that does not occur has no values.
proof fn no_values_of_other_keys<K, V>(pairs: Seq<(K, V)>, key: K)
    requires
        !pair_keys(pairs).contains(key),
    ensures
        values_of(pairs, key).len() == 0,
    decreases pairs.len(),
{
    if pairs.len() > 0 {
        let init = pairs.drop_last();
        assert(pair_keys(pairs)[pairs.len() - 1] == pairs.last().0);
        assert(!pair_keys(init).contains(key)) by {
            if pair_keys(init).contains(key) {
                let i = choose|i: int| 0 <= i < init.len() && pair_keys(init)[i] == key;
                assert(pair_keys(pairs)[i] == key);
            }
        }
        no_values_of_other_keys(init, key);
    }
}

/// A key has no more values than there are pairs.
pub(crate) proof fn values_are_fewer<K, V>(pairs: Seq<(K, V)>, key: K)
    ensures
        values_of(pairs, key).len() <= pairs.len(),
    decreases pairs.len(),
{
    if pairs.len() > 0 {
        values_are_fewer(pairs.drop_last(), key);
    }
}

/// Values are grouped one by one: a value goes to the end of the group of its key, or becomes the
/// first value of a new group behind the others.
pub proof fn one_more_value<K, V>(pairs: Seq<(K, V)>, key: K, value: V)
    ensures
        grouped(Seq::<(K, V)>::empty()).len() == 0,
        forall|i: int|
            0 <= i < grouped(pairs).len() && (#[trigger] grouped(pairs)[i]).0 == key ==> grouped(
                pairs.push((key, value)),
            ) == grouped(pairs).update(i, (key, grouped(pairs)[i].1.push(value))),
        (forall|i: int| 0 <= i < grouped(pairs).len() ==> (#[trigger] grouped(pairs)[i]).0 != key)
            ==> grouped(pairs.push((key, value))) == grouped(pairs).push((key, seq![value])),
{
    grouped_after_push(pairs, key, value);
}

/// What groups stand for are their lengths, hashes and files, in the same order.
pub proof fn views_are_the_groups<F>(groups: Seq<FileGroup<F>>)
    ensures
        group_views(groups).len() == groups.len(),
        forall|i: int|
            0 <= i < groups.len() ==> (#[trigger] group_views(groups)[i]).len == groups[i].len
                && group_views(groups)[i].hash == groups[i].hash && group_views(groups)[i].files
                == groups[i].files@,
{
}

/// What keyed lists stand for are their keys and values, in the same order.
pub proof fn views_are_the_lists<K, V>(lists: Seq<(K, Vec<V>)>)
    ensures
        keyed_views(lists).len() == lists.len(),
        forall|i: int|
            0 <= i < lists.len() ==> (#[trigger] keyed_views(lists)[i]).0 == lists[i].0
                && keyed_views(lists)[i].1 == lists[i].1@,
{
}

} // verus!
