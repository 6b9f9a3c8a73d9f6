//! What splitting a group does to its files.

use vstd::prelude::*;

use crate::dedup::reply;
use crate::files::{FileHash, FileLen, FilePos, Path};
use crate::group::{
    distinct_keys, distinct_keys_are_distinct, grouped, pair_keys, values_of, GroupView,
};
use crate::limits::small_group_has_no_parts;
use crate::sizes::{has_at_least, replies_at};
use crate::stages::{
    file_hashes, group_range, hash_groups, keyed_by_hash, split_group, split_groups, stage_range,
    Stage,
};

verus! {

/// What hashing a part of the file at a path gives, if it can be read.
pub type Reading = spec_fn(Seq<u8>, FilePos, FileLen) -> Option<FileHash>;

/// Whether the replies are what was read of the files of a group.
pub open spec fn is_read(
    stage: Stage,
    group: GroupView<Path>,
    replies: Seq<Option<FileHash>>,
    read: Reading,
) -> bool {
    stage_range(stage, group.len) matches Some(range) ==> forall|j: int|
        0 <= j < group.files.len() ==> reply(replies, j) == read(
            (#[trigger] group.files[j])@,
            range.pos,
            range.len,
        )
}

/// Whether the replies are what was read of the files of all groups that have to be hashed.
pub open spec fn are_read(
    stage: Stage,
    groups: Seq<GroupView<Path>>,
    replies: Seq<Vec<Option<FileHash>>>,
    read: Reading,
) -> bool {
    forall|i: int|
        0 <= i < groups.len() && (#[trigger] groups[i]).files.len() > 1 ==> is_read(
            stage,
            groups[i],
            replies_at(replies, i),
            read,
        )
}

/// The hash by which a stage tells a file of a group from the others.
pub open spec fn stage_hash(stage: Stage, group: GroupView<Path>, read: Reading) -> spec_fn(
    Path,
) -> Option<FileHash> {
    |path: Path|
        match stage_range(stage, group.len) {
            Some(range) => read(path@, range.pos, range.len),
            None => group.hash,
        }
}

/// Whether a path has the given hash.
pub open spec fn has_hash(hashes: spec_fn(Path) -> Option<FileHash>, hash: FileHash) -> spec_fn(
    Path,
) -> bool {
    |path: Path| hashes(path) == Some(hash)
}

/// The files with the given hash are the values of that hash.
proof fn values_are_filtered(
    files: Seq<Path>,
    replies: Seq<Option<FileHash>>,
    hashes: spec_fn(Path) -> Option<FileHash>,
    hash: FileHash,
)
    requires
        files.len() <= replies.len(),
        forall|j: int| 0 <= j < files.len() ==> replies[j] == hashes(#[trigger] files[j]),
    ensures
        values_of(keyed_by_hash(files, replies), hash.0) == files.filter(has_hash(hashes, hash)),
    decreases files.len(),
{
    reveal(Seq::filter);
    if files.len() > 0 {
        let init = files.drop_last();
        assert forall|j: int| 0 <= j < init.len() implies replies[j] == hashes(#[trigger] init[j]) by {
            assert(init[j] == files[j]);
        }
        values_are_filtered(init, replies, hashes, hash);
        let last = files[files.len() - 1];
        let pairs = keyed_by_hash(files, replies);
        match replies[files.len() - 1] {
            Some(h) => {
                assert(pairs.drop_last() =~= keyed_by_hash(init, replies));
                assert((h.0 == hash.0) == (h == hash));
            },
            None => {},
        }
    }
}

/// The hashes that are keys are the hashes of the files.
proof fn hash_keys(
    files: Seq<Path>,
    replies: Seq<Option<FileHash>>,
    hashes: spec_fn(Path) -> Option<FileHash>,
)
    requires
        files.len() <= replies.len(),
        forall|j: int| 0 <= j < files.len() ==> replies[j] == hashes(#[trigger] files[j]),
    ensures
        forall|key: u128| #[trigger]
            pair_keys(keyed_by_hash(files, replies)).contains(key) <==> exists|j: int|
                0 <= j < files.len() && hashes(#[trigger] files[j]) == Some(FileHash(key)),
    decreases files.len(),
{
    let keys = pair_keys(keyed_by_hash(files, replies));
    if files.len() > 0 {
        let init = files.drop_last();
        let n = files.len() - 1;
        assert forall|j: int| 0 <= j < init.len() implies replies[j] == hashes(#[trigger] init[j]) by {
            assert(init[j] == files[j]);
        }
        hash_keys(init, replies, hashes);
        let before = pair_keys(keyed_by_hash(init, replies));
        assert(hashes(files[n]) == replies[n]);
        match replies[n] {
            Some(h) => {
                assert(keys =~= before.push(h.0));
            },
            None => {
                assert(keys =~= before);
            },
        }
        assert forall|key: u128| #[trigger] keys.contains(key) <==> exists|j: int|
            0 <= j < files.len() && hashes(#[trigger] files[j]) == Some(FileHash(key)) by {
            if keys.contains(key) {
                let a = choose|a: int| 0 <= a < keys.len() && keys[a] == key;
                if a < before.len() {
                    assert(before[a] == key);
                    assert(before.contains(key));
                    let j = choose|j: int|
                        0 <= j < init.len() && hashes(#[trigger] init[j]) == Some(FileHash(key));
                    assert(hashes(files[j]) == Some(FileHash(key)));
                } else {
                    assert(hashes(files[n]) == Some(FileHash(key)));
                }
            }
            if exists|j: int|
                0 <= j < files.len() && hashes(#[trigger] files[j]) == Some(FileHash(key)) {
                let j = choose|j: int|
                    0 <= j < files.len() && hashes(#[trigger] files[j]) == Some(FileHash(key));
                if j < n {
                    assert(hashes(init[j]) == Some(FileHash(key)));
                    assert(before.contains(key));
                    let a = choose|a: int| 0 <= a < before.len() && before[a] == key;
                    assert(keys[a] == key);
                } else {
                    assert(keys[before.len() as int] == key);
                }
            }
        }
    } else {
        assert(keys.len() == 0);
    }
}

/// The replies for a group that was read are the hashes of its files.
proof fn file_hashes_are_stage_hashes(
    stage: Stage,
    group: GroupView<Path>,
    replies: Seq<Option<FileHash>>,
    read: Reading,
)
    requires
        is_read(stage, group, replies, read),
    ensures
        file_hashes(stage, group, replies).len() == group.files.len(),
        forall|j: int|
            0 <= j < group.files.len() ==> file_hashes(stage, group, replies)[j] == stage_hash(
                stage,
                group,
                read,
            )(#[trigger] group.files[j]),
{
}

/// A part of a group of several files is made of all its files that share a hash. A group of one
/// file has no part but itself. Parts have more than `over` files.
pub proof fn parts_share_a_hash(
    stage: Stage,
    group: GroupView<Path>,
    replies: Seq<Option<FileHash>>,
    over: nat,
    read: Reading,
    part: GroupView<Path>,
)
    requires
        group.files.len() > 1 ==> is_read(stage, group, replies, read),
        split_group(stage, group, replies, over).contains(part),
    ensures
        part.len == group.len,
        part.files.len() > over,
        group.files.len() <= 1 ==> part == group,
        group.files.len() > 1 ==> (part.hash matches Some(hash) && part.files
            == group.files.filter(has_hash(stage_hash(stage, group, read), hash))),
{
    if group.files.len() > 1 {
        let hashes = stage_hash(stage, group, read);
        let pairs = keyed_by_hash(group.files, file_hashes(stage, group, replies));
        let all = hash_groups(group.len, grouped(pairs));
        all.lemma_filter_contains_rev(has_at_least(over + 1), part);
        let kept = all.filter(has_at_least(over + 1));
        let m = choose|m: int| 0 <= m < kept.len() && kept[m] == part;
        all.lemma_filter_pred(has_at_least(over + 1), m);
        let a = choose|a: int| 0 <= a < all.len() && all[a] == part;
        let hash = FileHash(grouped(pairs)[a].0);
        file_hashes_are_stage_hashes(stage, group, replies, read);
        values_are_filtered(group.files, file_hashes(stage, group, replies), hashes, hash);
    } else {
        let all = seq![group];
        all.lemma_filter_contains_rev(has_at_least(over + 1), part);
        let kept = all.filter(has_at_least(over + 1));
        let m = choose|m: int| 0 <= m < kept.len() && kept[m] == part;
        all.lemma_filter_pred(has_at_least(over + 1), m);
        let a = choose|a: int| 0 <= a < all.len() && all[a] == part;
    }
}

/// All files of a group of several files that share a hash are a part, if there are more than
/// `over` of them.
pub proof fn files_of_a_hash_are_a_part(
    stage: Stage,
    group: GroupView<Path>,
    replies: Seq<Option<FileHash>>,
    over: nat,
    read: Reading,
    hash: FileHash,
)
    requires
        group.files.len() > 1,
        is_read(stage, group, replies, read),
        group.files.filter(has_hash(stage_hash(stage, group, read), hash)).len() > over,
    ensures
        split_group(stage, group, replies, over).contains(
            GroupView {
                len: group.len,
                hash: Some(hash),
                files: group.files.filter(has_hash(stage_hash(stage, group, read), hash)),
            },
        ),
{
    let hashes = stage_hash(stage, group, read);
    let files = group.files.filter(has_hash(hashes, hash));
    let part = GroupView { len: group.len, hash: Some(hash), files };
    let pairs = keyed_by_hash(group.files, file_hashes(stage, group, replies));
    let all = hash_groups(group.len, grouped(pairs));
    file_hashes_are_stage_hashes(stage, group, replies, read);
    values_are_filtered(group.files, file_hashes(stage, group, replies), hashes, hash);
    hash_keys(group.files, file_hashes(stage, group, replies), hashes);
    distinct_keys_are_distinct(pairs);
    group.files.lemma_filter_pred(has_hash(hashes, hash), 0);
    group.files.lemma_filter_contains_rev(has_hash(hashes, hash), files[0]);
    let j = choose|j: int| 0 <= j < group.files.len() && group.files[j] == files[0];
    assert(hashes(group.files[j]) == Some(hash));
    assert(pair_keys(pairs).contains(hash.0));
    assert(distinct_keys(pairs).contains(hash.0));
    let a = choose|a: int| 0 <= a < distinct_keys(pairs).len() && distinct_keys(pairs)[a] == hash.0;
    assert(grouped(pairs)[a] == (hash.0, files));
    assert(all[a] == part);
    all.lemma_filter_contains(has_at_least(over + 1), a);
}

/// A group of one file is its own part, if one file is more than `over`.
pub proof fn single_file_is_a_part(
    stage: Stage,
    group: GroupView<Path>,
    replies: Seq<Option<FileHash>>,
    over: nat,
)
    requires
        over < group.files.len() <= 1,
    ensures
        split_group(stage, group, replies, over).contains(group),
{
    let all = seq![group];
    assert(all[0] == group);
    all.lemma_filter_contains(has_at_least(over + 1), 0);
}

/// The parts of all groups are the parts of each of them.
pub proof fn parts_of_groups(
    stage: Stage,
    groups: Seq<GroupView<Path>>,
    replies: Seq<Vec<Option<FileHash>>>,
    over: nat,
)
    ensures
        forall|part: GroupView<Path>| #[trigger]
            split_groups(stage, groups, replies, over).contains(part) <==> exists|i: int|
                0 <= i < groups.len() && #[trigger] split_group(
                    stage,
                    groups[i],
                    replies_at(replies, i),
                    over,
                ).contains(part),
    decreases groups.len(),
{
    let parts = split_groups(stage, groups, replies, over);
    if groups.len() > 0 {
        let init = groups.drop_last();
        let n = groups.len() - 1;
        parts_of_groups(stage, init, replies, over);
        let before = split_groups(stage, init, replies, over);
        let last = split_group(stage, groups[n], replies_at(replies, n), over);
        assert forall|part: GroupView<Path>| #[trigger] parts.contains(part) <==> exists|i: int|
            0 <= i < groups.len() && #[trigger] split_group(
                stage,
                groups[i],
                replies_at(replies, i),
                over,
            ).contains(part) by {
            if parts.contains(part) {
                let a = choose|a: int| 0 <= a < parts.len() && parts[a] == part;
                if a < before.len() {
                    assert(before[a] == part);
                    assert(before.contains(part));
                    let i = choose|i: int|
                        0 <= i < init.len() && #[trigger] split_group(
                            stage,
                            init[i],
                            replies_at(replies, i),
                            over,
                        ).contains(part);
                    assert(init[i] == groups[i]);
                    assert(split_group(stage, groups[i], replies_at(replies, i), over).contains(
                        part,
                    ));
                } else {
                    assert(last[a - before.len()] == part);
                    assert(last.contains(part));
                }
            }
            if exists|i: int|
                0 <= i < groups.len() && #[trigger] split_group(
                    stage,
                    groups[i],
                    replies_at(replies, i),
                    over,
                ).contains(part) {
                let i = choose|i: int|
                    0 <= i < groups.len() && #[trigger] split_group(
                        stage,
                        groups[i],
                        replies_at(replies, i),
                        over,
                    ).contains(part);
                if i < n {
                    assert(init[i] == groups[i]);
                    assert(split_group(stage, init[i], replies_at(replies, i), over).contains(part));
                    assert(before.contains(part));
                    let a = choose|a: int| 0 <= a < before.len() && before[a] == part;
                    assert(parts[a] == part);
                } else {
                    let a = choose|a: int| 0 <= a < last.len() && last[a] == part;
                    assert(parts[before.len() + a] == part);
                }
            }
        }
    }
}

/// The hash by which a stage tells the file at position `j` of a group from the others: what was
/// read of it, if the stage looks at files of its length, and else the hash of the group.
pub open spec fn hash_at(
    stage: Stage,
    group: GroupView<Path>,
    replies: Seq<Option<FileHash>>,
    j: int,
) -> Option<FileHash> {
    if stage_range(stage, group.len) is None {
        group.hash
    } else if j < replies.len() {
        replies[j]
    } else {
        None
    }
}

/// The positions of the values of a hash.
proof fn positions_of_a_hash(files: Seq<Path>, hashes: Seq<Option<FileHash>>, hash: FileHash) -> (
    positions: Seq<int>)
    requires
        files.len() <= hashes.len(),
    ensures
        values_of(keyed_by_hash(files, hashes), hash.0) == Seq::new(
            positions.len(),
            |a: int| files[positions[a]],
        ),
        forall|a: int, b: int|
            0 <= a < b < positions.len() ==> #[trigger] positions[a] < #[trigger] positions[b],
        forall|j: int| #[trigger]
            positions.contains(j) <==> 0 <= j < files.len() && hashes[j] == Some(hash),
        pair_keys(keyed_by_hash(files, hashes)).contains(hash.0) <==> positions.len() > 0,
    decreases files.len(),
{
    let pairs = keyed_by_hash(files, hashes);
    if files.len() == 0 {
        let positions = Seq::<int>::empty();
        assert(values_of(pairs, hash.0) =~= Seq::new(
            positions.len(),
            |a: int| files[positions[a]],
        ));
        assert(pair_keys(pairs).len() == 0);
        positions
    } else {
        let init = files.drop_last();
        let n = files.len() - 1;
        let before = positions_of_a_hash(init, hashes, hash);
        let early = keyed_by_hash(init, hashes);
        assert forall|a: int| 0 <= a < before.len() implies 0 <= #[trigger] before[a] < n by {
            assert(before.contains(before[a]));
        }
        if hashes[n] is Some {
            assert(pairs.drop_last() =~= early);
            assert(pair_keys(pairs) =~= pair_keys(early).push(hashes[n].unwrap().0));
        }
        if hashes[n] == Some(hash) {
            let positions = before.push(n);
            assert forall|j: int| #[trigger] positions.contains(j) <==> 0 <= j < files.len()
                && hashes[j] == Some(hash) by {
                if before.contains(j) {
                    let a = choose|a: int| 0 <= a < before.len() && before[a] == j;
                    assert(positions[a] == j);
                }
                if j == n {
                    assert(positions[before.len() as int] == n);
                }
                if positions.contains(j) && j != n {
                    let a = choose|a: int| 0 <= a < positions.len() && positions[a] == j;
                    assert(before[a] == j);
                }
            }
            assert(values_of(pairs, hash.0) =~= Seq::new(
                positions.len(),
                |a: int| files[positions[a]],
            ));
            assert(pair_keys(pairs)[early.len() as int] == hash.0);
            positions
        } else {
            assert(values_of(pairs, hash.0) =~= Seq::new(
                before.len(),
                |a: int| files[before[a]],
            ));
            assert(pair_keys(pairs).contains(hash.0) <==> pair_keys(early).contains(hash.0)) by {
                if pair_keys(early).contains(hash.0) {
                    let a = choose|a: int|
                        0 <= a < early.len() && pair_keys(early)[a] == hash.0;
                    assert(pair_keys(pairs)[a] == hash.0);
                }
                if pair_keys(pairs).contains(hash.0) {
                    let a = choose|a: int|
                        0 <= a < pairs.len() && pair_keys(pairs)[a] == hash.0;
                    if hashes[n] is Some && a == early.len() {
                        assert(hashes[n]->0 == hash);
                    } else {
                        assert(pair_keys(early)[a] == hash.0);
                    }
                }
            }
            before
        }
    }
}

/// What becomes of a group. A file that is alone stays, if one file is more than `over`, and with
/// it the hash of the group. Of several files, those at the positions with one hash are a part, in
/// their order, if there are more than `over` of them; and there are no other parts.
pub proof fn parts_go_by_the_replies(
    stage: Stage,
    group: GroupView<Path>,
    replies: Seq<Option<FileHash>>,
    over: nat,
    hash: FileHash,
) -> (positions: Seq<int>)
    ensures
        forall|a: int, b: int|
            0 <= a < b < positions.len() ==> #[trigger] positions[a] < #[trigger] positions[b],
        forall|j: int| #[trigger]
            positions.contains(j) <==> 0 <= j < group.files.len() && hash_at(
                stage,
                group,
                replies,
                j,
            ) == Some(hash),
        ({
            let parts = split_group(stage, group, replies, over);
            let part = GroupView {
                len: group.len,
                hash: Some(hash),
                files: Seq::new(positions.len(), |a: int| group.files[positions[a]]),
            };
            &&& group.files.len() <= 1 && group.files.len() > over ==> parts == seq![group]
            &&& group.files.len() <= over ==> parts.len() == 0
            &&& group.files.len() > 1 ==> {
                &&& parts.contains(part) <==> positions.len() > over
                &&& forall|other: GroupView<Path>| #[trigger]
                    parts.contains(other) ==> other.hash is Some && (other.hash == Some(hash)
                        ==> other == part)
                &&& forall|a: int, b: int|
                    0 <= a < b < parts.len() ==> (#[trigger] parts[a]).hash != (
                    #[trigger] parts[b]).hash
            }
        }),
{
    let keep = has_at_least::<Path>(over + 1);
    let hashes = file_hashes(stage, group, replies);
    let pairs = keyed_by_hash(group.files, hashes);
    let positions = positions_of_a_hash(group.files, hashes, hash);
    let parts = split_group(stage, group, replies, over);
    let part = GroupView {
        len: group.len,
        hash: Some(hash),
        files: Seq::new(positions.len(), |a: int| group.files[positions[a]]),
    };
    if group.files.len() <= over {
        small_group_has_no_parts(stage, group, replies, over);
    }
    if group.files.len() <= 1 {
        reveal_with_fuel(Seq::filter, 2);
        assert(seq![group].drop_last() =~= Seq::empty());
        if group.files.len() > over {
            assert(parts =~= seq![group]);
        }
    } else {
        let all = hash_groups(group.len, grouped(pairs));
        let keys = distinct_keys(pairs);
        distinct_keys_are_distinct(pairs);
        assert forall|other: GroupView<Path>| #[trigger] parts.contains(
            other,
        ) implies other.hash is Some && (other.hash == Some(hash) ==> other == part)
            && other.files.len() > over by {
            all.lemma_filter_contains_rev(keep, other);
            let a = choose|a: int| 0 <= a < all.len() && all[a] == other;
            let b = choose|b: int| 0 <= b < parts.len() && parts[b] == other;
            all.lemma_filter_pred(keep, b);
            assert(grouped(pairs)[a] == (keys[a], values_of(pairs, keys[a])));
        }
        if positions.len() > over {
            assert(keys.contains(hash.0));
            let a = choose|a: int| 0 <= a < keys.len() && keys[a] == hash.0;
            assert(grouped(pairs)[a] == (keys[a], values_of(pairs, keys[a])));
            assert(all[a] == part);
            all.lemma_filter_contains(keep, a);
        }
        assert forall|a: int, b: int| 0 <= a < b < all.len() implies (#[trigger] all[a]).hash != (
        #[trigger] all[b]).hash by {
            assert(keys[a] != keys[b]);
        }
        hashes_stay_different(all, keep);
    }
    positions
}

/// Leaving out groups leaves groups of different hashes.
proof fn hashes_stay_different(
    groups: Seq<GroupView<Path>>,
    keep: spec_fn(GroupView<Path>) -> bool,
)
    requires
        forall|a: int, b: int|
            0 <= a < b < groups.len() ==> (#[trigger] groups[a]).hash != (#[trigger] groups[b]).hash,
    ensures
        forall|a: int, b: int|
            0 <= a < b < groups.filter(keep).len() ==> (#[trigger] groups.filter(keep)[a]).hash != (
            #[trigger] groups.filter(keep)[b]).hash,
    decreases groups.len(),
{
    reveal(Seq::filter);
    if groups.len() > 0 {
        let init = groups.drop_last();
        let n = groups.len() - 1;
        assert forall|a: int, b: int| 0 <= a < b < init.len() implies (#[trigger] init[a]).hash != (
        #[trigger] init[b]).hash by {
            assert(init[a] == groups[a] && init[b] == groups[b]);
        }
        hashes_stay_different(init, keep);
        let before = init.filter(keep);
        if keep(groups[n]) {
            assert forall|a: int| 0 <= a < before.len() implies (#[trigger] before[a]).hash
                != groups[n].hash by {
                assert(before.contains(before[a]));
                init.lemma_filter_contains_rev(keep, before[a]);
                let i = choose|i: int| 0 <= i < init.len() && init[i] == before[a];
                assert(groups[i].hash != groups[n].hash);
            }
        }
    }
}

/// Groups are split one by one, each by the replies at its position, and the parts of one group
/// stand behind those of the groups before it.
pub proof fn one_more_group_to_split(
    stage: Stage,
    groups: Seq<GroupView<Path>>,
    group: GroupView<Path>,
    replies: Seq<Vec<Option<FileHash>>>,
    over: nat,
)
    ensures
        split_groups(stage, Seq::empty(), replies, over).len() == 0,
        split_groups(stage, groups.push(group), replies, over) == split_groups(
            stage,
            groups,
            replies,
            over,
        ) + split_group(stage, group, replies_at(replies, groups.len() as int), over),
{
    assert(groups.push(group).drop_last() =~= groups);
}

/// Whether the replies hold, for each group of which a part has to be hashed, what was read of
/// that part of each of its files.
pub open spec fn are_answered(
    stage: Stage,
    groups: Seq<GroupView<Path>>,
    replies: Seq<Vec<Option<FileHash>>>,
    read: Reading,
) -> bool {
    forall|i: int, j: int|
        0 <= i < groups.len() && 0 <= j < groups[i].files.len() ==> (group_range(stage, groups[i])
            matches Some(range) ==> i < replies.len() && j < replies[i]@.len() && replies[i]@[j]
            == read((#[trigger] groups[i].files[j])@, range.pos, range.len))
}

/// Who hashes of each file what has to be hashed has read what the stage looks at.
pub proof fn answers_are_what_was_read(
    stage: Stage,
    groups: Seq<GroupView<Path>>,
    replies: Seq<Vec<Option<FileHash>>>,
    read: Reading,
)
    requires
        are_answered(stage, groups, replies, read),
    ensures
        are_read(stage, groups, replies, read),
{
    assert forall|i: int| 0 <= i < groups.len() && (#[trigger] groups[i]).files.len()
        > 1 implies is_read(stage, groups[i], replies_at(replies, i), read) by {
        if let Some(range) = stage_range(stage, groups[i].len) {
            assert forall|j: int| 0 <= j < groups[i].files.len() implies reply(
                replies_at(replies, i),
                j,
            ) == read((#[trigger] groups[i].files[j])@, range.pos, range.len) by {}
        }
    }
}

} // verus!
