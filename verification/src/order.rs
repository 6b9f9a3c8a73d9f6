//! The order of paths, and sorting by it.

use vstd::prelude::*;

use crate::files::Path;

verus! {

/// Whether the text `a` does not come after the text `b`: byte by byte, and a text before the
/// texts that it is a first part of.
pub open spec fn text_le(a: Seq<u8>, b: Seq<u8>) -> bool
    decreases a.len(),
{
    if a.len() == 0 {
        true
    } else if b.len() == 0 {
        false
    } else if a[0] != b[0] {
        a[0] < b[0]
    } else {
        text_le(a.drop_first(), b.drop_first())
    }
}

/// Whether the paths are in ascending order of their texts.
pub open spec fn is_sorted(paths: Seq<Path>) -> bool {
    forall|i: int, j: int|
        0 <= i < j < paths.len() ==> text_le(#[trigger] paths[i]@, #[trigger] paths[j]@)
}

/// Of two texts, one does not come after the other.
pub proof fn text_le_is_total(a: Seq<u8>, b: Seq<u8>)
    ensures
        text_le(a, b) || text_le(b, a),
    decreases a.len(),
{
    if a.len() > 0 && b.len() > 0 && a[0] == b[0] {
        text_le_is_total(a.drop_first(), b.drop_first());
    }
}

/// The order of texts is transitive.
pub proof fn text_le_is_transitive(a: Seq<u8>, b: Seq<u8>, c: Seq<u8>)
    requires
        text_le(a, b),
        text_le(b, c),
    ensures
        text_le(a, c),
    decreases a.len(),
{
    if a.len() > 0 && a[0] == b[0] && b[0] == c[0] {
        text_le_is_transitive(a.drop_first(), b.drop_first(), c.drop_first());
    }
}

/// Two texts neither of which comes after the other are equal.
pub proof fn text_le_is_antisymmetric(a: Seq<u8>, b: Seq<u8>)
    requires
        text_le(a, b),
        text_le(b, a),
    ensures
        a == b,
    decreases a.len(),
{
    if a.len() > 0 && b.len() > 0 {
        text_le_is_antisymmetric(a.drop_first(), b.drop_first());
        assert(a =~= seq![a[0]] + a.drop_first());
        assert(b =~= seq![b[0]] + b.drop_first());
    } else {
        assert(a =~= b);
    }
}

impl Path {
    /// Whether this path does not come after the other one.
    pub fn le(&self, other: &Path) -> (le: bool)
        ensures
            le == text_le(self@, other@),
    {
        let mut i: usize = 0;
        assert(self@.skip(0) =~= self@);
        assert(other@.skip(0) =~= other@);
        while i < self.text.len() && i < other.text.len() && self.text[i] == other.text[i]
            invariant
                i <= self@.len(),
                i <= other@.len(),
                text_le(self@, other@) == text_le(self@.skip(i as int), other@.skip(i as int)),
            decreases self@.len() - i,
        {
            proof {
                assert(self@.skip(i as int).drop_first() =~= self@.skip(i + 1));
                assert(other@.skip(i as int).drop_first() =~= other@.skip(i + 1));
            }
            i = i + 1;
        }
        if i >= self.text.len() {
            true
        } else if i >= other.text.len() {
            false
        } else {
            self.text[i] < other.text[i]
        }
    }
}

/// Whether `a` may stand before `b` in an ascending or descending list.
spec fn in_order(a: Path, b: Path, ascending: bool) -> bool {
    if ascending {
        text_le(a@, b@)
    } else {
        text_le(b@, a@)
    }
}

/// Whether the paths are in ascending or descending order.
spec fn is_ordered(paths: Seq<Path>, ascending: bool) -> bool {
    forall|i: int, j: int|
        0 <= i < j < paths.len() ==> in_order(
            #[trigger] paths[i],
            #[trigger] paths[j],
            ascending,
        )
}

/// Whether all paths of one list may stand before all paths of another one.
spec fn all_in_order(before: Seq<Path>, after: Seq<Path>, ascending: bool) -> bool {
    forall|i: int, j: int|
        0 <= i < before.len() && 0 <= j < after.len() ==> in_order(
            #[trigger] before[i],
            #[trigger] after[j],
            ascending,
        )
}

/// What comes next in a merge keeps the lists in order.
proof fn merge_step(out: Seq<Path>, from: Seq<Path>, other: Seq<Path>, ascending: bool)
    requires
        from.len() > 0,
        is_ordered(out, ascending),
        is_ordered(from, !ascending),
        is_ordered(other, !ascending),
        all_in_order(out, from, ascending),
        all_in_order(out, other, ascending),
        other.len() > 0 ==> in_order(from.last(), other.last(), ascending),
    ensures
        is_ordered(out.push(from.last()), ascending),
        is_ordered(from.drop_last(), !ascending),
        all_in_order(out.push(from.last()), from.drop_last(), ascending),
        all_in_order(out.push(from.last()), other, ascending),
        from.to_multiset() == from.drop_last().to_multiset().insert(from.last()),
        out.push(from.last()).to_multiset() == out.to_multiset().insert(from.last()),
{
    let next = from.last();
    let more = out.push(next);
    let rest = from.drop_last();
    assert(from =~= rest.push(next));
    broadcast use vstd::seq_lib::group_to_multiset_ensures;

    assert forall|i: int, j: int| 0 <= i < more.len() && 0 <= j < rest.len() implies in_order(
        #[trigger] more[i],
        #[trigger] rest[j],
        ascending,
    ) by {
        assert(rest[j] == from[j]);
        if i == out.len() {
            assert(in_order(from[j], from[from.len() - 1], !ascending));
        } else {
            assert(in_order(out[i], from[j], ascending));
        }
    }
    assert forall|i: int, j: int| 0 <= i < more.len() && 0 <= j < other.len() implies in_order(
        #[trigger] more[i],
        #[trigger] other[j],
        ascending,
    ) by {
        if i == out.len() {
            if j < other.len() - 1 {
                assert(in_order(other[j], other[other.len() - 1], !ascending));
                if ascending {
                    text_le_is_transitive(next@, other.last()@, other[j]@);
                } else {
                    text_le_is_transitive(other[j]@, other.last()@, next@);
                }
            }
        } else {
            assert(in_order(out[i], other[j], ascending));
        }
    }
    assert forall|i: int, j: int| 0 <= i < j < more.len() implies in_order(
        #[trigger] more[i],
        #[trigger] more[j],
        ascending,
    ) by {
        if j == out.len() {
            assert(in_order(out[i], from[from.len() - 1], ascending));
        }
    }
}

/// Merges two lists, each in the opposite order, into one.
fn merge(left: Vec<Path>, right: Vec<Path>, ascending: bool) -> (out: Vec<Path>)
    requires
        is_ordered(left@, !ascending),
        is_ordered(right@, !ascending),
    ensures
        is_ordered(out@, ascending),
        out@.to_multiset() == left@.to_multiset().add(right@.to_multiset()),
{
    let ghost all = left@.to_multiset().add(right@.to_multiset());
    let mut left = left;
    let mut right = right;
    let mut out: Vec<Path> = Vec::new();
    proof {
        broadcast use vstd::seq_lib::group_to_multiset_ensures;

        assert(all =~= out@.to_multiset().add(left@.to_multiset()).add(right@.to_multiset()));
    }
    while left.len() > 0 || right.len() > 0
        invariant
            is_ordered(left@, !ascending),
            is_ordered(right@, !ascending),
            is_ordered(out@, ascending),
            all_in_order(out@, left@, ascending),
            all_in_order(out@, right@, ascending),
            all == out@.to_multiset().add(left@.to_multiset()).add(right@.to_multiset()),
        decreases left@.len() + right@.len(),
    {
        let ghost before_left = left@;
        let ghost before_right = right@;
        let ghost before_out = out@;
        let from_left = if right.len() == 0 {
            true
        } else if left.len() == 0 {
            false
        } else {
            let l = &left[left.len() - 1];
            let r = &right[right.len() - 1];
            proof {
                text_le_is_total(l@, r@);
            }
            if ascending {
                l.le(r)
            } else {
                r.le(l)
            }
        };
        let next = if from_left {
            left.pop()
        } else {
            right.pop()
        };
        if let Some(path) = next {
            out.push(path);
        }
        proof {
            if from_left {
                merge_step(before_out, before_left, before_right, ascending);
                assert(left@ =~= before_left.drop_last());
            } else {
                merge_step(before_out, before_right, before_left, ascending);
                assert(right@ =~= before_right.drop_last());
            }
            assert(all =~= out@.to_multiset().add(left@.to_multiset()).add(right@.to_multiset()));
        }
    }
    proof {
        broadcast use vstd::seq_lib::group_to_multiset_ensures;

        assert(left@ =~= Seq::empty());
        assert(right@ =~= Seq::empty());
        assert(all =~= out@.to_multiset());
    }
    out
}

/// Sorts paths in ascending or descending order.
fn sort_in_order(paths: Vec<Path>, ascending: bool) -> (sorted: Vec<Path>)
    ensures
        is_ordered(sorted@, ascending),
        sorted@.to_multiset() == paths@.to_multiset(),
    decreases paths@.len(),
{
    let mut left = paths;
    let n: usize = left.len();
    if n <= 1 {
        return left;
    }
    let ghost all = left@;
    let right = left.split_off(n / 2);
    proof {
        assert(all =~= left@ + right@);
        vstd::seq_lib::lemma_multiset_commutative(left@, right@);
    }
    let left = sort_in_order(left, !ascending);
    let right = sort_in_order(right, !ascending);
    merge(left, right, ascending)
}

/// Sorts paths in ascending order of their texts.
pub fn sort_paths(paths: Vec<Path>) -> (sorted: Vec<Path>)
    ensures
        is_sorted(sorted@),
        sorted@.to_multiset() == paths@.to_multiset(),
{
    let sorted = sort_in_order(paths, true);
    assert forall|i: int, j: int| 0 <= i < j < sorted@.len() implies text_le(
        #[trigger] sorted@[i]@,
        #[trigger] sorted@[j]@,
    ) by {
        assert(in_order(sorted@[i], sorted@[j], true));
    }
    sorted
}

/// The first byte in which two texts differ decides which of them comes first.
pub proof fn first_difference_decides(a: Seq<u8>, b: Seq<u8>, i: int)
    requires
        0 <= i < a.len(),
        i < b.len(),
        forall|k: int| 0 <= k < i ==> #[trigger] a[k] == b[k],
        a[i] < b[i],
    ensures
        text_le(a, b),
        !text_le(b, a),
    decreases i,
{
    if i > 0 {
        assert(a[0] == b[0]);
        assert forall|k: int| 0 <= k < i - 1 implies #[trigger] a.drop_first()[k]
            == b.drop_first()[k] by {
            assert(a[k + 1] == b[k + 1]);
        }
        first_difference_decides(a.drop_first(), b.drop_first(), i - 1);
    }
}

/// A text comes before each longer text that it is a first part of, and not after itself.
pub proof fn first_part_comes_first(a: Seq<u8>, b: Seq<u8>)
    requires
        a.len() <= b.len(),
        forall|k: int| 0 <= k < a.len() ==> #[trigger] a[k] == b[k],
    ensures
        text_le(a, b),
        text_le(b, a) <==> a.len() == b.len(),
    decreases a.len(),
{
    if a.len() > 0 {
        assert(a[0] == b[0]);
        assert forall|k: int| 0 <= k < a.drop_first().len() implies #[trigger] a.drop_first()[k]
            == b.drop_first()[k] by {
            assert(a[k + 1] == b[k + 1]);
        }
        first_part_comes_first(a.drop_first(), b.drop_first());
    }
}

/// In a sorted list, of two paths whose texts agree up to some byte, the one with the smaller byte
/// comes first, and so does the one whose text ends there.
pub proof fn sorted_paths_ascend(paths: Seq<Path>, i: int, j: int, d: int)
    requires
        is_sorted(paths),
        0 <= i < j < paths.len(),
        0 <= d <= paths[i].text@.len(),
        d <= paths[j].text@.len(),
        forall|k: int| 0 <= k < d ==> #[trigger] paths[i].text@[k] == paths[j].text@[k],
    ensures
        d < paths[i].text@.len() ==> d < paths[j].text@.len() && paths[i].text@[d]
            <= paths[j].text@[d],
{
    let a = paths[i]@;
    let b = paths[j]@;
    assert(text_le(a, b));
    if d < a.len() {
        if d == b.len() {
            first_part_comes_first(b, a);
        } else if b[d] < a[d] {
            first_difference_decides(b, a, d);
        }
    }
}

} // verus!
