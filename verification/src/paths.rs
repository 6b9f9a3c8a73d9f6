//! Which files a search reports: only files of the scan, each at most once.

use vstd::multiset::Multiset;
use vstd::prelude::*;

use crate::config::Config;
use crate::dedup::{
    id_hashes, link_keys, path_texts, pruned_links, reply, unique_paths,
};
use crate::files::{FileHash, FileId, FileInfo, FileInfoNoLen, FileLen, Path};
use crate::gather::{
    gather, gather_counts_once, gather_in_any_order, gather_of_both, gather_of_filtered,
    gather_of_first, gather_of_less, gather_of_one,
};
use crate::group::{
    distinct_keys, distinct_keys_are_distinct, grouped, grouped_after_push, pair_keys, values_of,
    GroupView,
};
use crate::laws::{
    contents_groups, is_one_of, is_result, prefix_groups, report_has_the_groups, same_files,
    start_groups, suffix_groups, Replies,
};
use crate::process::{
    are_sorted_groups, has_fewer_than, has_len, is_report, is_sorted_by_len, is_sorted_group,
};
use crate::sizes::{
    groups_of_one_len, has_at_least, keyed_by_len, path_group, path_groups, paths_of,
    pruned_groups, replies_at, size_groups,
};
use crate::splitting::parts_of_groups;
use crate::stages::{file_hashes, hash_groups, keyed_by_hash, split_group, split_groups, Stage};
use crate::unique::{first_by_key, first_positions, first_positions_are_first, pick};

verus! {

broadcast use vstd::multiset::group_multiset_axioms;

/// The text of a path, as a collection.
pub open spec fn text_of_path() -> spec_fn(Path) -> Multiset<Seq<u8>> {
    |path: Path| Multiset::singleton(path@)
}

/// The texts of the paths of a group, as a collection.
pub open spec fn texts_of_group() -> spec_fn(GroupView<Path>) -> Multiset<Seq<u8>> {
    |group: GroupView<Path>| gather(group.files, text_of_path())
}

/// The texts of the paths of all groups, each as often as it occurs.
pub open spec fn texts_of_groups(groups: Seq<GroupView<Path>>) -> Multiset<Seq<u8>> {
    gather(groups, texts_of_group())
}

/// The text of the path of a file, as a collection.
spec fn text_of_file() -> spec_fn(FileInfoNoLen) -> Multiset<Seq<u8>> {
    |file: FileInfoNoLen| Multiset::singleton(file.path@)
}

/// The texts of the paths of a group of files, as a collection.
spec fn texts_of_file_group() -> spec_fn(GroupView<FileInfoNoLen>) -> Multiset<Seq<u8>> {
    |group: GroupView<FileInfoNoLen>| gather(group.files, text_of_file())
}

/// The texts of the second parts of pairs, as a collection.
spec fn text_of_pair() -> spec_fn((u128, Path)) -> Multiset<Seq<u8>> {
    |pair: (u128, Path)| Multiset::singleton(pair.1@)
}

/// Replacing one item of a list.
proof fn gather_of_update<T, U>(
    items: Seq<T>,
    i: int,
    item: T,
    each: spec_fn(T) -> Multiset<U>,
    more: Multiset<U>,
)
    requires
        0 <= i < items.len(),
        each(item) == each(items[i]).add(more),
    ensures
        gather(items.update(i, item), each) == gather(items, each).add(more),
{
    let before = items.take(i);
    let after = items.skip(i + 1);
    assert(items =~= before + seq![items[i]] + after);
    assert(items.update(i, item) =~= before + seq![item] + after);
    gather_of_both(before + seq![items[i]], after, each);
    gather_of_both(before, seq![items[i]], each);
    gather_of_one(items[i], each);
    gather_of_both(before + seq![item], after, each);
    gather_of_both(before, seq![item], each);
    gather_of_one(item, each);
    assert(gather(items.update(i, item), each) =~= gather(items, each).add(more));
}

/// Grouping pairs by their keys keeps all of their values.
proof fn grouping_keeps_all(len: FileLen, pairs: Seq<(u128, Path)>)
    ensures
        texts_of_groups(hash_groups(len, grouped(pairs))) == gather(pairs, text_of_pair()),
    decreases pairs.len(),
{
    let groups = hash_groups(len, grouped(pairs));
    if pairs.len() == 0 {
        assert(groups =~= Seq::empty());
    } else {
        let init = pairs.drop_last();
        let (key, path) = pairs.last();
        grouping_keeps_all(len, init);
        grouped_after_push(init, key, path);
        assert(pairs =~= init.push((key, path)));
        let before = hash_groups(len, grouped(init));
        let each = texts_of_group();
        let new = Multiset::singleton(path@);
        if exists|i: int| 0 <= i < grouped(init).len() && #[trigger] grouped(init)[i].0 == key {
            let i = choose|i: int|
                0 <= i < grouped(init).len() && #[trigger] grouped(init)[i].0 == key;
            let files = grouped(init)[i].1.push(path);
            let group = GroupView { len, hash: Some(FileHash(key)), files };
            assert(groups =~= before.update(i, group));
            assert(files.drop_last() =~= grouped(init)[i].1);
            assert(each(group) =~= each(before[i]).add(new));
            gather_of_update(before, i, group, each, new);
        } else {
            let group = GroupView { len, hash: Some(FileHash(key)), files: seq![path] };
            assert(groups =~= before.push(group));
            assert(groups.drop_last() =~= before);
            gather_of_one(path, text_of_path());
            assert(each(group) =~= new);
        }
        assert(texts_of_groups(groups) =~= gather(pairs, text_of_pair()));
    }
}

/// Leaving out the files without a hash.
proof fn keyed_files_are_less(files: Seq<Path>, hashes: Seq<Option<FileHash>>)
    ensures
        gather(keyed_by_hash(files, hashes), text_of_pair()).subset_of(
            gather(files, text_of_path()),
        ),
    decreases files.len(),
{
    if files.len() > 0 {
        keyed_files_are_less(files.drop_last(), hashes);
        let before = keyed_by_hash(files.drop_last(), hashes);
        if let Some(hash) = hashes[files.len() - 1] {
            assert(before.push((hash.0, files.last())).drop_last() =~= before);
        }
    }
}

/// Splitting a group leaves no path more often in its parts than it was in the group.
proof fn splitting_one_only_drops(
    stage: Stage,
    group: GroupView<Path>,
    replies: Seq<Option<FileHash>>,
    over: nat,
)
    ensures
        texts_of_groups(split_group(stage, group, replies, over)).subset_of(
            texts_of_group()(group),
        ),
{
    let keep = has_at_least::<Path>(over + 1);
    if group.files.len() > 1 {
        let hashes = file_hashes(stage, group, replies);
        let pairs = keyed_by_hash(group.files, hashes);
        grouping_keeps_all(group.len, pairs);
        keyed_files_are_less(group.files, hashes);
        gather_of_filtered(hash_groups(group.len, grouped(pairs)), keep, texts_of_group());
    } else {
        gather_of_one(group, texts_of_group());
        gather_of_filtered(seq![group], keep, texts_of_group());
    }
}

/// Splitting groups leaves no path more often in the parts than it was in the groups.
pub proof fn splitting_only_drops(
    stage: Stage,
    groups: Seq<GroupView<Path>>,
    replies: Seq<Vec<Option<FileHash>>>,
    over: nat,
)
    ensures
        texts_of_groups(split_groups(stage, groups, replies, over)).subset_of(
            texts_of_groups(groups),
        ),
    decreases groups.len(),
{
    if groups.len() > 0 {
        let n = groups.len() - 1;
        splitting_only_drops(stage, groups.drop_last(), replies, over);
        splitting_one_only_drops(stage, groups[n], replies_at(replies, n), over);
        gather_of_both(
            split_groups(stage, groups.drop_last(), replies, over),
            split_group(stage, groups[n], replies_at(replies, n), over),
            texts_of_group(),
        );
    }
}

/// An item is as often in a list as it is among the items that meet a condition which it meets.
pub(crate) proof fn count_of_filtered<T>(items: Seq<T>, keep: spec_fn(T) -> bool, item: T)
    requires
        keep(item),
    ensures
        items.filter(keep).to_multiset().count(item) == items.to_multiset().count(item),
    decreases items.len(),
{
    reveal(Seq::filter);
    broadcast use vstd::seq_lib::group_to_multiset_ensures;

    if items.len() > 0 {
        let init = items.drop_last();
        count_of_filtered(init, keep, item);
        assert(items =~= init.push(items.last()));
    }
}

/// A report has no path more often than the groups that are reported.
proof fn reporting_only_drops(
    groups: Seq<GroupView<Path>>,
    under: usize,
    report: Seq<GroupView<Path>>,
)
    requires
        is_report(groups, under, report),
    ensures
        texts_of_groups(report).subset_of(texts_of_groups(groups)),
{
    let few = has_fewer_than::<Path>(under as nat);
    let kept = groups.filter(few);
    let sorted = choose|sorted: Seq<GroupView<Path>>| #[trigger]
        is_sorted_by_len(kept, sorted) && are_sorted_groups(sorted, report);
    gather_of_filtered(groups, few, texts_of_group());
    assert forall|group: GroupView<Path>| #[trigger] sorted.to_multiset().count(group)
        == kept.to_multiset().count(group) by {
        let of_len = has_len::<Path>(group.len);
        count_of_filtered(sorted, of_len, group);
        count_of_filtered(kept, of_len, group);
    }
    assert(sorted.to_multiset() =~= kept.to_multiset());
    gather_in_any_order(sorted, kept, texts_of_group());
    assert forall|i: int| 0 <= i < report.len() implies texts_of_group()(
        #[trigger] report[i],
    ).subset_of(texts_of_group()(sorted[i])) by {
        assert(is_sorted_group(sorted[i], report[i]));
        gather_in_any_order(report[i].files, sorted[i].files, text_of_path());
    }
    gather_of_less(report, sorted, texts_of_group(), texts_of_group());
}

/// A value of a key comes from a pair with that key.
proof fn value_has_a_pair<K, V>(pairs: Seq<(K, V)>, key: K, i: int)
    requires
        0 <= i < values_of(pairs, key).len(),
    ensures
        exists|p: int| 0 <= p < pairs.len() && #[trigger] pairs[p] == (key, values_of(pairs, key)[i]),
    decreases pairs.len(),
{
    let init = pairs.drop_last();
    let n = pairs.len() - 1;
    if i < values_of(init, key).len() {
        value_has_a_pair(init, key, i);
        let p = choose|p: int|
            0 <= p < init.len() && #[trigger] init[p] == (key, values_of(init, key)[i]);
        assert(pairs[p] == (key, values_of(pairs, key)[i]));
    } else {
        assert(pairs[n] == (key, values_of(pairs, key)[i]));
    }
}

/// The value of a pair is a value of its key.
proof fn pair_has_a_value<K, V>(pairs: Seq<(K, V)>, p: int)
    requires
        0 <= p < pairs.len(),
    ensures
        values_of(pairs, pairs[p].0).contains(pairs[p].1),
    decreases pairs.len(),
{
    let init = pairs.drop_last();
    let key = pairs[p].0;
    let values = values_of(pairs, key);
    if p < init.len() {
        pair_has_a_value(init, p);
        assert(init[p] == pairs[p]);
        let i = choose|i: int|
            0 <= i < values_of(init, key).len() && values_of(init, key)[i] == pairs[p].1;
        assert(values[i] == pairs[p].1);
    } else {
        assert(values[values.len() - 1] == pairs[p].1);
    }
}

/// Whether the key at `i` is the key at one of the positions.
pub open spec fn is_kept<K>(keys: Seq<K>, positions: Seq<int>, i: int) -> bool {
    exists|a: int| 0 <= a < positions.len() && keys[#[trigger] positions[a]] == keys[i]
}

/// What is first of each key is in the list, and the key of each item is the key of one that is
/// first.
pub(crate) proof fn first_items<K, T>(keys: Seq<K>, items: Seq<T>)
    requires
        keys.len() == items.len(),
    ensures
        forall|a: int|
            0 <= a < first_by_key(keys, items).len() ==> items.contains(
                #[trigger] first_by_key(keys, items)[a],
            ),
        forall|i: int| 0 <= i < keys.len() ==> #[trigger] is_kept(keys, first_positions(keys), i),
{
    let positions = first_positions(keys);
    first_positions_are_first(keys);
    assert forall|a: int| 0 <= a < first_by_key(keys, items).len() implies items.contains(
        #[trigger] first_by_key(keys, items)[a],
    ) by {
        assert(0 <= positions[a] < keys.len());
    }
    assert forall|i: int| 0 <= i < keys.len() implies #[trigger] is_kept(keys, positions, i) by {
        let first = crate::group::first_index(keys, keys[i], i);
        assert(positions.contains(first));
        let a = choose|a: int| 0 <= a < positions.len() && positions[a] == first;
        assert(keys[positions[a]] == keys[i]);
    }
}

/// Files of one length are in one group, and the files of a group are files of the scan that have
/// the length of the group.
pub proof fn groups_are_of_one_len(files: Seq<FileInfo>)
    ensures
        forall|a: int, b: int|
            0 <= a < b < groups_of_one_len(files).len() ==> (#[trigger] groups_of_one_len(
                files,
            )[a]).len != (#[trigger] groups_of_one_len(files)[b]).len,
        forall|a: int, j: int|
            0 <= a < groups_of_one_len(files).len() && 0 <= j < groups_of_one_len(
                files,
            )[a].files.len() ==> is_scanned(
                files,
                #[trigger] groups_of_one_len(files)[a].files[j],
                groups_of_one_len(files)[a].len,
            ),
        forall|k: int|
            0 <= k < files.len() ==> is_grouped(groups_of_one_len(files), #[trigger] files[k]),
{
    let pairs = keyed_by_len(files);
    let lists = grouped(pairs);
    let groups = groups_of_one_len(files);
    distinct_keys_are_distinct(pairs);
    assert forall|a: int, b: int| 0 <= a < b < groups.len() implies (#[trigger] groups[a]).len != (
    #[trigger] groups[b]).len by {
        assert(distinct_keys(pairs)[a] != distinct_keys(pairs)[b]);
    }
    assert forall|a: int, j: int|
        0 <= a < groups.len() && 0 <= j < groups[a].files.len() implies is_scanned(
        files,
        #[trigger] groups[a].files[j],
        groups[a].len,
    ) by {
        let values = lists[a].1;
        first_items(path_texts(values), values);
        assert(values.contains(groups[a].files[j]));
        let i = choose|i: int| 0 <= i < values.len() && values[i] == groups[a].files[j];
        value_has_a_pair(pairs, lists[a].0, i);
        let k = choose|k: int| 0 <= k < pairs.len() && #[trigger] pairs[k] == (lists[a].0, values[i]);
        assert(files[k].without_len() == groups[a].files[j]);
    }
    assert forall|k: int| 0 <= k < files.len() implies is_grouped(groups, #[trigger] files[k]) by {
        let key = files[k].len.0;
        assert(pairs[k] == (key, files[k].without_len()));
        assert(pair_keys(pairs)[k] == key);
        assert(pair_keys(pairs).contains(key));
        assert(distinct_keys(pairs).contains(key));
        let a = choose|a: int|
            0 <= a < distinct_keys(pairs).len() && distinct_keys(pairs)[a] == key;
        assert(lists[a] == (key, values_of(pairs, key)));
        let values = lists[a].1;
        pair_has_a_value(pairs, k);
        let i = choose|i: int| 0 <= i < values.len() && values[i] == files[k].without_len();
        let texts = path_texts(values);
        first_items(texts, values);
        first_positions_are_first(texts);
        assert(texts[i] == files[k].path@);
        assert(is_kept(texts, first_positions(texts), i));
        let j = choose|j: int|
            0 <= j < first_positions(texts).len() && texts[#[trigger] first_positions(texts)[j]]
                == texts[i];
        assert(groups[a].len == files[k].len);
        assert(groups[a].files[j].path@ == files[k].path@);
    }
}

/// Whether the scan found a file, with the given length.
pub open spec fn is_scanned(files: Seq<FileInfo>, file: FileInfoNoLen, len: FileLen) -> bool {
    exists|k: int|
        0 <= k < files.len() && #[trigger] files[k].without_len() == file && files[k].len == len
}

/// Whether a file is in the group of its length, under its path.
pub open spec fn is_grouped(groups: Seq<GroupView<FileInfoNoLen>>, file: FileInfo) -> bool {
    exists|a: int, j: int|
        0 <= a < groups.len() && 0 <= j < groups[a].files.len() && groups[a].len == file.len
            && #[trigger] groups[a].files[j].path@ == file.path@
}

/// Whether each path has one length in a scan. A file that changes while it is scanned twice may
/// have two.
pub open spec fn has_one_len(files: Seq<FileInfo>) -> bool {
    forall|i: int, j: int|
        0 <= i < files.len() && 0 <= j < files.len() && (#[trigger] files[i]).path@ == (
        #[trigger] files[j]).path@ ==> files[i].len == files[j].len
}

/// A path is in a group of files of one length at most once.
proof fn path_is_in_its_group_once(files: Seq<FileInfoNoLen>, text: Seq<u8>)
    ensures
        gather(unique_paths(files), text_of_file()).count(text) <= 1,
        gather(unique_paths(files), text_of_file()).count(text) > 0 ==> exists|j: int|
            0 <= j < unique_paths(files).len() && (#[trigger] unique_paths(files)[j]).path@ == text,
{
    let kept = unique_paths(files);
    let texts = path_texts(files);
    let positions = first_positions(texts);
    first_positions_are_first(texts);
    assert forall|a: int, b: int| 0 <= a < b < kept.len() implies text_of_file()(
        #[trigger] kept[a],
    ).count(text) == 0 || text_of_file()(#[trigger] kept[b]).count(text) == 0 by {
        assert(positions[a] < positions[b]);
        assert(positions.contains(positions[b]));
        assert(texts[positions[a]] != texts[positions[b]]);
        assert(kept[a].path@ == texts[positions[a]]);
        assert(kept[b].path@ == texts[positions[b]]);
    }
    gather_counts_once(kept, text_of_file(), text);
    if gather(kept, text_of_file()).count(text) > 0 {
        let j = choose|j: int|
            0 <= j < kept.len() && text_of_file()(#[trigger] kept[j]).count(text) > 0;
        assert(kept[j].path@ == text);
    }
}

/// A path is in the groups of files of one length at most once.
proof fn path_is_grouped_once(files: Seq<FileInfo>, text: Seq<u8>)
    requires
        has_one_len(files),
    ensures
        gather(groups_of_one_len(files), texts_of_file_group()).count(text) <= 1,
{
    let groups = groups_of_one_len(files);
    let lists = grouped(keyed_by_len(files));
    let each = texts_of_file_group();
    groups_are_of_one_len(files);
    assert forall|a: int| 0 <= a < groups.len() implies each(#[trigger] groups[a]).count(text) <= 1 by {
        path_is_in_its_group_once(lists[a].1, text);
    }
    assert forall|a: int, b: int| 0 <= a < b < groups.len() implies each(#[trigger] groups[a]).count(
        text,
    ) == 0 || each(#[trigger] groups[b]).count(text) == 0 by {
        if each(groups[a]).count(text) > 0 && each(groups[b]).count(text) > 0 {
            path_is_in_its_group_once(lists[a].1, text);
            path_is_in_its_group_once(lists[b].1, text);
            let i = choose|i: int|
                0 <= i < groups[a].files.len() && (#[trigger] groups[a].files[i]).path@ == text;
            let j = choose|j: int|
                0 <= j < groups[b].files.len() && (#[trigger] groups[b].files[j]).path@ == text;
            assert(is_scanned(files, groups[a].files[i], groups[a].len));
            assert(is_scanned(files, groups[b].files[j], groups[b].len));
            let k = choose|k: int|
                0 <= k < files.len() && #[trigger] files[k].without_len() == groups[a].files[i]
                    && files[k].len == groups[a].len;
            let l = choose|l: int|
                0 <= l < files.len() && #[trigger] files[l].without_len() == groups[b].files[j]
                    && files[l].len == groups[b].len;
            assert(files[k].path@ == files[l].path@);
        }
    }
    gather_counts_once(groups, each, text);
}

/// Keeping only the paths keeps their texts.
proof fn paths_have_the_texts(groups: Seq<GroupView<FileInfoNoLen>>)
    ensures
        texts_of_groups(path_groups(groups)).subset_of(gather(groups, texts_of_file_group())),
{
    let paths = path_groups(groups);
    assert forall|i: int| 0 <= i < paths.len() implies texts_of_group()(
        #[trigger] paths[i],
    ).subset_of(texts_of_file_group()(groups[i])) by {
        gather_of_less(
            paths_of(groups[i].files),
            groups[i].files,
            text_of_path(),
            text_of_file(),
        );
    }
    gather_of_less(paths, groups, texts_of_group(), texts_of_file_group());
}

/// A path is in the groups that a search starts to hash at most once.
proof fn path_is_started_once(
    config: Config,
    files: Seq<FileInfo>,
    replies: Replies,
    text: Seq<u8>,
)
    requires
        has_one_len(files),
    ensures
        texts_of_groups(start_groups(config, files, replies)).count(text) <= 1,
{
    let all = groups_of_one_len(files);
    let keep = has_at_least::<FileInfoNoLen>(config.over() as nat);
    let groups = size_groups(config, files);
    let each = texts_of_file_group();
    path_is_grouped_once(files, text);
    gather_of_filtered(all, keep, each);
    if config.hard_links {
        paths_have_the_texts(groups);
    } else {
        let pruned = pruned_groups(config, groups, replies.ids@);
        assert forall|i: int| 0 <= i < pruned.len() implies each(#[trigger] pruned[i]).subset_of(
            each(groups[i]),
        ) by {
            let members = groups[i].files;
            let ids = replies_at(replies.ids@, i);
            gather_of_first(link_keys(ids, members.len()), members, text_of_file());
        }
        gather_of_less(pruned, groups, each, each);
        gather_of_filtered(pruned, keep, each);
        paths_have_the_texts(pruned.filter(keep));
    }
}

/// No path is reported twice, neither in one group nor in two, if each path has one length in the
/// scan.
pub proof fn no_path_is_reported_twice(
    config: Config,
    files: Seq<FileInfo>,
    replies: Replies,
    report: Seq<GroupView<Path>>,
    text: Seq<u8>,
)
    requires
        has_one_len(files),
        is_result(config, files, replies, report),
    ensures
        texts_of_groups(report).count(text) <= 1,
{
    let start = start_groups(config, files, replies);
    let by_prefix = prefix_groups(config, start, replies);
    let by_suffix = suffix_groups(config, start, replies);
    let parts = contents_groups(config, start, replies);
    let over = config.over() as nat;
    path_is_started_once(config, files, replies, text);
    splitting_only_drops(Stage::Prefix, start, replies.prefixes@, over);
    splitting_only_drops(Stage::Suffix, by_prefix, replies.suffixes@, over);
    splitting_only_drops(Stage::Contents, by_suffix, replies.contents@, over);
    reporting_only_drops(parts, config.under(), report);
}

/// The files that are keyed by hashes are files of the group.
proof fn keyed_file_is_a_file(files: Seq<Path>, hashes: Seq<Option<FileHash>>, p: int)
    requires
        0 <= p < keyed_by_hash(files, hashes).len(),
    ensures
        files.contains(keyed_by_hash(files, hashes)[p].1),
    decreases files.len(),
{
    let init = files.drop_last();
    let before = keyed_by_hash(init, hashes);
    let path = keyed_by_hash(files, hashes)[p].1;
    if p < before.len() {
        keyed_file_is_a_file(init, hashes, p);
        let i = choose|i: int| 0 <= i < init.len() && init[i] == path;
        assert(files[i] == path);
    } else {
        assert(files[files.len() - 1] == path);
    }
}

/// Whether all groups have the length and files of one of the groups `before`.
spec fn come_from(groups: Seq<GroupView<Path>>, before: Seq<GroupView<Path>>) -> bool {
    forall|part: GroupView<Path>| #[trigger]
        groups.contains(part) ==> exists|group: GroupView<Path>| #[trigger]
            before.contains(group) && group.len == part.len && (forall|j: int|
                0 <= j < part.files.len() ==> group.files.contains(#[trigger] part.files[j]))
}

/// Parts come from the groups that were split.
proof fn parts_come_from_groups(
    stage: Stage,
    groups: Seq<GroupView<Path>>,
    replies: Seq<Vec<Option<FileHash>>>,
    over: nat,
)
    ensures
        come_from(split_groups(stage, groups, replies, over), groups),
{
    let parts = split_groups(stage, groups, replies, over);
    parts_of_groups(stage, groups, replies, over);
    assert forall|part: GroupView<Path>| #[trigger] parts.contains(part) implies exists|
        group: GroupView<Path>,
    | #[trigger]
        groups.contains(group) && group.len == part.len && (forall|j: int|
            0 <= j < part.files.len() ==> group.files.contains(#[trigger] part.files[j])) by {
        let i = choose|i: int|
            0 <= i < groups.len() && #[trigger] split_group(
                stage,
                groups[i],
                replies_at(replies, i),
                over,
            ).contains(part);
        let group = groups[i];
        let keep = has_at_least::<Path>(over + 1);
        if group.files.len() > 1 {
            let hashes = file_hashes(stage, group, replies_at(replies, i));
            let pairs = keyed_by_hash(group.files, hashes);
            let all = hash_groups(group.len, grouped(pairs));
            all.lemma_filter_contains_rev(keep, part);
            let a = choose|a: int| 0 <= a < all.len() && all[a] == part;
            let key = grouped(pairs)[a].0;
            assert forall|j: int| 0 <= j < part.files.len() implies group.files.contains(
                #[trigger] part.files[j],
            ) by {
                value_has_a_pair(pairs, key, j);
                let p = choose|p: int|
                    0 <= p < pairs.len() && #[trigger] pairs[p] == (
                        key,
                        values_of(pairs, key)[j],
                    );
                keyed_file_is_a_file(group.files, hashes, p);
            }
        } else {
            seq![group].lemma_filter_contains_rev(keep, part);
            let a = choose|a: int| 0 <= a < seq![group].len() && seq![group][a] == part;
            assert(part == group);
        }
        assert(groups.contains(group));
    }
}

/// Whether the scan found a file at a path, with the given length.
pub open spec fn is_found(files: Seq<FileInfo>, path: Path, len: FileLen) -> bool {
    exists|k: int|
        0 <= k < files.len() && (#[trigger] files[k]).path == path && files[k].len == len
}

/// The files that a search starts to hash were found by the scan, with the length of their group.
pub(crate) proof fn started_files_are_found(
    config: Config,
    files: Seq<FileInfo>,
    replies: Replies,
    group: GroupView<Path>,
    path: Path,
)
    requires
        start_groups(config, files, replies).contains(group),
        group.files.contains(path),
    ensures
        is_found(files, path, group.len),
{
    let all = groups_of_one_len(files);
    let keep = has_at_least::<FileInfoNoLen>(config.over() as nat);
    let groups = size_groups(config, files);
    groups_are_of_one_len(files);
    let start = start_groups(config, files, replies);
    let i = choose|i: int| 0 <= i < start.len() && start[i] == group;
    let j = choose|j: int| 0 <= j < group.files.len() && group.files[j] == path;
    let (source, file) = if config.hard_links {
        assert(group == path_group(groups[i]));
        (groups[i], groups[i].files[j])
    } else {
        let pruned = pruned_groups(config, groups, replies.ids@);
        let kept = pruned.filter(keep);
        assert(group == path_group(kept[i]));
        assert(kept.contains(kept[i]));
        pruned.lemma_filter_contains_rev(keep, kept[i]);
        let a = choose|a: int| 0 <= a < pruned.len() && pruned[a] == kept[i];
        let members = groups[a].files;
        let keys = link_keys(replies_at(replies.ids@, a), members.len());
        first_items(keys, members);
        (groups[a], kept[i].files[j])
    };
    assert(groups.contains(source));
    assert(source.files.contains(file)) by {
        if config.hard_links {
            assert(source.files[j] == file);
        } else {
            let pruned = pruned_groups(config, groups, replies.ids@);
            let kept = pruned.filter(keep);
            let a = choose|a: int| 0 <= a < pruned.len() && pruned[a] == kept[i];
            assert(pruned[a].files[j] == file);
            if pruned[a].files == source.files {
                assert(source.files[j] == file);
            }
        }
    }
    assert(file.path == path);
    all.lemma_filter_contains_rev(keep, source);
    let b = choose|b: int| 0 <= b < all.len() && all[b] == source;
    let c = choose|c: int| 0 <= c < source.files.len() && source.files[c] == file;
    assert(is_scanned(files, all[b].files[c], all[b].len));
    let k = choose|k: int|
        0 <= k < files.len() && #[trigger] files[k].without_len() == file && files[k].len
            == source.len;
    assert(files[k].path == path);
}

/// The group of a reported file when the search started to hash.
proof fn start_of_reported_file(
    config: Config,
    files: Seq<FileInfo>,
    replies: Replies,
    report: Seq<GroupView<Path>>,
    m: int,
    j: int,
) -> (group: GroupView<Path>)
    requires
        is_result(config, files, replies, report),
        0 <= m < report.len(),
        0 <= j < report[m].files.len(),
    ensures
        start_groups(config, files, replies).contains(group),
        group.len == report[m].len,
        group.files.contains(report[m].files[j]),
{
    let start = start_groups(config, files, replies);
    let by_prefix = prefix_groups(config, start, replies);
    let by_suffix = suffix_groups(config, start, replies);
    let parts = contents_groups(config, start, replies);
    let over = config.over() as nat;
    let path = report[m].files[j];
    report_has_the_groups(parts, config.under(), report);
    assert(is_one_of(parts, config.under(), report[m]));
    let i = choose|i: int|
        0 <= i < parts.len() && parts[i].files.len() < config.under() && is_sorted_group(
            #[trigger] parts[i],
            report[m],
        );
    same_files(parts[i].files, report[m].files);
    assert(parts.contains(parts[i]));
    parts_come_from_groups(Stage::Contents, by_suffix, replies.contents@, over);
    let third = source_of(parts, by_suffix, parts[i], path);
    parts_come_from_groups(Stage::Suffix, by_prefix, replies.suffixes@, over);
    let second = source_of(by_suffix, by_prefix, third, path);
    parts_come_from_groups(Stage::Prefix, start, replies.prefixes@, over);
    source_of(by_prefix, start, second, path)
}

/// Each reported file was found by the scan, with the length of its group.
pub proof fn reported_files_are_found(
    config: Config,
    files: Seq<FileInfo>,
    replies: Replies,
    report: Seq<GroupView<Path>>,
    m: int,
    j: int,
)
    requires
        is_result(config, files, replies, report),
        0 <= m < report.len(),
        0 <= j < report[m].files.len(),
    ensures
        is_found(files, report[m].files[j], report[m].len),
{
    let group = start_of_reported_file(config, files, replies, report, m, j);
    started_files_are_found(config, files, replies, group, report[m].files[j]);
}

/// The group that a part with a file comes from.
proof fn source_of(
    parts: Seq<GroupView<Path>>,
    groups: Seq<GroupView<Path>>,
    part: GroupView<Path>,
    path: Path,
) -> (group: GroupView<Path>)
    requires
        come_from(parts, groups),
        parts.contains(part),
        part.files.contains(path),
    ensures
        groups.contains(group),
        group.len == part.len,
        group.files.contains(path),
{
    let group = choose|group: GroupView<Path>| #[trigger]
        groups.contains(group) && group.len == part.len && (forall|j: int|
            0 <= j < part.files.len() ==> group.files.contains(#[trigger] part.files[j]));
    let j = choose|j: int| 0 <= j < part.files.len() && part.files[j] == path;
    assert(group.files.contains(part.files[j]));
    group
}

/// Whether the file at `i` is no other name of a file before it, as far as identifiers were read.
pub open spec fn is_first_name(ids: Seq<Option<FileId>>, i: int) -> bool {
    reply(ids, i) is None || forall|j: int| 0 <= j < i ==> #[trigger] reply(ids, j) != reply(ids, i)
}

/// If names of one file do not count as copies, and equal identifiers have equal hashes, then the
/// first name of each file stays, and no other name of it. A file whose identifier could not be
/// read stays.
pub proof fn one_name_of_each_file_stays(
    config: Config,
    files: Seq<FileInfoNoLen>,
    ids: Seq<Option<FileId>>,
) -> (positions: Seq<int>)
    requires
        !config.hard_links,
        forall|i: int, j: int|
            0 <= i < files.len() && 0 <= j < files.len() && #[trigger] reply(ids, i) is Some
                && reply(ids, i) == #[trigger] reply(ids, j) ==> files[i].id_hash
                == files[j].id_hash,
    ensures
        pruned_links(config, files, ids) == pick(files, positions),
        forall|a: int, b: int|
            0 <= a < b < positions.len() ==> #[trigger] positions[a] < #[trigger] positions[b],
        forall|i: int| #[trigger]
            positions.contains(i) <==> 0 <= i < files.len() && is_first_name(ids, i),
{
    let keys = link_keys(ids, files.len());
    let positions = first_positions(keys);
    first_positions_are_first(keys);
    assert forall|i: int| #[trigger] positions.contains(i) <==> 0 <= i < files.len()
        && is_first_name(ids, i) by {
        if 0 <= i < files.len() {
            if is_first_name(ids, i) {
                assert forall|j: int| 0 <= j < i implies keys[j] != keys[i] by {
                    assert(reply(ids, i) is None || reply(ids, j) != reply(ids, i));
                }
            } else {
                let j = choose|j: int| 0 <= j < i && #[trigger] reply(ids, j) == reply(ids, i);
                assert(keys[j] == keys[i]);
            }
        }
    }
    if id_hashes(files).no_duplicates() {
        assert forall|i: int| 0 <= i < files.len() implies positions.contains(i) by {
            assert forall|j: int| 0 <= j < i && reply(ids, i) is Some implies #[trigger] reply(
                ids,
                j,
            ) != reply(ids, i) by {
                assert(id_hashes(files)[j] != id_hashes(files)[i]);
            }
        }
        all_positions(positions, files.len() as int);
        assert(pick(files, positions) =~= files);
    }
    positions
}

/// Ascending positions that hold all numbers below `n`, and no other, are these numbers.
proof fn all_positions(positions: Seq<int>, n: int)
    requires
        n >= 0,
        forall|a: int| 0 <= a < positions.len() ==> 0 <= #[trigger] positions[a] < n,
        forall|a: int, b: int|
            0 <= a < b < positions.len() ==> #[trigger] positions[a] < #[trigger] positions[b],
        forall|i: int| 0 <= i < n ==> #[trigger] positions.contains(i),
    ensures
        positions.len() == n,
        forall|a: int| 0 <= a < n ==> #[trigger] positions[a] == a,
    decreases n,
{
    if n > 0 {
        assert(positions.contains(n - 1));
        let a = choose|a: int| 0 <= a < positions.len() && positions[a] == n - 1;
        assert(a == positions.len() - 1) by {
            if a < positions.len() - 1 {
                assert(positions[a] < positions[positions.len() - 1]);
            }
        }
        let init = positions.drop_last();
        assert forall|b: int| 0 <= b < init.len() implies 0 <= #[trigger] init[b] < n - 1 by {
            assert(positions[b] < positions[a]);
        }
        assert forall|i: int| 0 <= i < n - 1 implies #[trigger] init.contains(i) by {
            assert(positions.contains(i));
            let b = choose|b: int| 0 <= b < positions.len() && positions[b] == i;
            assert(init[b] == i);
        }
        assert forall|b: int, c: int| 0 <= b < c < init.len() implies #[trigger] init[b]
            < #[trigger] init[c] by {
            assert(positions[b] < positions[c]);
        }
        all_positions(init, n - 1);
        assert forall|b: int| 0 <= b < n implies #[trigger] positions[b] == b by {
            if b < n - 1 {
                assert(init[b] == b);
            }
        }
    } else {
        if positions.len() > 0 {
            assert(0 <= positions[0] < n);
        }
    }
}

/// Whether the identifiers that a search got, where they could be read, are those of the files.
pub open spec fn are_ids(
    groups: Seq<GroupView<FileInfoNoLen>>,
    ids: Seq<Vec<Option<FileId>>>,
    id: spec_fn(Seq<u8>) -> FileId,
) -> bool {
    forall|i: int, j: int|
        0 <= i < groups.len() && 0 <= j < groups[i].files.len() && !id_hashes(
            groups[i].files,
        ).no_duplicates() && reply(replies_at(ids, i), j) is Some ==> reply(replies_at(ids, i), j)
            == Some(id((#[trigger] groups[i].files[j]).path@))
}

/// Whether the identifier of the file at a path was read, wherever the search asked for it.
pub open spec fn has_id(
    groups: Seq<GroupView<FileInfoNoLen>>,
    ids: Seq<Vec<Option<FileId>>>,
    text: Seq<u8>,
) -> bool {
    forall|i: int, j: int|
        0 <= i < groups.len() && 0 <= j < groups[i].files.len() && !id_hashes(
            groups[i].files,
        ).no_duplicates() && (#[trigger] groups[i].files[j]).path@ == text ==> reply(
            replies_at(ids, i),
            j,
        ) is Some
}

/// Whether the files of a scan have the hashes of their identifiers, and names of one file have
/// one length.
pub open spec fn agrees_with_ids(
    files: Seq<FileInfo>,
    id: spec_fn(Seq<u8>) -> FileId,
    id_hash: spec_fn(FileId) -> u64,
) -> bool {
    &&& forall|k: int|
        0 <= k < files.len() ==> (#[trigger] files[k]).id_hash == id_hash(id(files[k].path@))
    &&& forall|k: int, l: int|
        0 <= k < files.len() && 0 <= l < files.len() && id((#[trigger] files[k]).path@) == id(
            (#[trigger] files[l]).path@,
        ) ==> files[k].len == files[l].len
}

/// Leaving out groups leaves groups of different lengths.
pub(crate) proof fn lens_stay_different<F>(groups: Seq<GroupView<F>>, keep: spec_fn(GroupView<F>) -> bool)
    requires
        forall|a: int, b: int|
            0 <= a < b < groups.len() ==> (#[trigger] groups[a]).len != (#[trigger] groups[b]).len,
    ensures
        forall|a: int, b: int|
            0 <= a < b < groups.filter(keep).len() ==> (#[trigger] groups.filter(keep)[a]).len != (
            #[trigger] groups.filter(keep)[b]).len,
    decreases groups.len(),
{
    reveal(Seq::filter);
    if groups.len() > 0 {
        let init = groups.drop_last();
        let n = groups.len() - 1;
        assert forall|a: int, b: int| 0 <= a < b < init.len() implies (#[trigger] init[a]).len != (
        #[trigger] init[b]).len by {
            assert(init[a] == groups[a] && init[b] == groups[b]);
        }
        lens_stay_different(init, keep);
        let before = init.filter(keep);
        if keep(groups[n]) {
            assert forall|a: int| 0 <= a < before.len() implies (#[trigger] before[a]).len
                != groups[n].len by {
                assert(before.contains(before[a]));
                init.lemma_filter_contains_rev(keep, before[a]);
                let i = choose|i: int| 0 <= i < init.len() && init[i] == before[a];
                assert(groups[i].len != groups[n].len);
            }
        }
    }
}

/// The groups that a search starts to hash, if names of one file do not count as copies, have
/// different lengths, and in each group the files whose identifiers were read have different ones.
pub(crate) proof fn started_files_are_different(
    config: Config,
    files: Seq<FileInfo>,
    replies: Replies,
    id: spec_fn(Seq<u8>) -> FileId,
    id_hash: spec_fn(FileId) -> u64,
)
    requires
        !config.hard_links,
        agrees_with_ids(files, id, id_hash),
        are_ids(size_groups(config, files), replies.ids@, id),
    ensures
        ({
            let start = start_groups(config, files, replies);
            &&& forall|a: int, b: int|
                0 <= a < b < start.len() ==> (#[trigger] start[a]).len != (#[trigger] start[b]).len
            &&& forall|a: int, x: int, y: int|
                0 <= a < start.len() && 0 <= x < y < start[a].files.len() && has_id(
                    size_groups(config, files),
                    replies.ids@,
                    start[a].files[x]@,
                ) && has_id(size_groups(config, files), replies.ids@, start[a].files[y]@) ==> id(
                    (#[trigger] start[a].files[x])@,
                ) != id((#[trigger] start[a].files[y])@)
        }),
{
    let all = groups_of_one_len(files);
    let keep = has_at_least::<FileInfoNoLen>(config.over() as nat);
    let groups = size_groups(config, files);
    let pruned = pruned_groups(config, groups, replies.ids@);
    let kept = pruned.filter(keep);
    let start = start_groups(config, files, replies);
    groups_are_of_one_len(files);
    lens_stay_different(all, keep);
    assert forall|a: int, b: int| 0 <= a < b < pruned.len() implies (#[trigger] pruned[a]).len != (
    #[trigger] pruned[b]).len by {
        assert(groups[a].len != groups[b].len);
    }
    lens_stay_different(pruned, keep);
    assert forall|a: int, b: int| 0 <= a < b < start.len() implies (#[trigger] start[a]).len != (
    #[trigger] start[b]).len by {
        assert(kept[a].len != kept[b].len);
    }
    assert forall|a: int, x: int, y: int|
        0 <= a < start.len() && 0 <= x < y < start[a].files.len() && has_id(
            groups,
            replies.ids@,
            start[a].files[x]@,
        ) && has_id(groups, replies.ids@, start[a].files[y]@) implies id(
        (#[trigger] start[a].files[x])@,
    ) != id((#[trigger] start[a].files[y])@) by {
        assert(start[a] == path_group(kept[a]));
        assert(kept.contains(kept[a]));
        pruned.lemma_filter_contains_rev(keep, kept[a]);
        let i = choose|i: int| 0 <= i < pruned.len() && pruned[i] == kept[a];
        let members = groups[i].files;
        let left = pruned[i].files;
        assert(start[a].files[x] == left[x].path);
        assert(start[a].files[y] == left[y].path);
        if id_hashes(members).no_duplicates() {
            assert(groups.contains(groups[i]));
            all.lemma_filter_contains_rev(keep, groups[i]);
            let b = choose|b: int| 0 <= b < all.len() && all[b] == groups[i];
            assert(is_scanned(files, all[b].files[x], all[b].len));
            assert(is_scanned(files, all[b].files[y], all[b].len));
            let k = choose|k: int|
                0 <= k < files.len() && #[trigger] files[k].without_len() == members[x]
                    && files[k].len == all[b].len;
            let l = choose|l: int|
                0 <= l < files.len() && #[trigger] files[l].without_len() == members[y]
                    && files[l].len == all[b].len;
            assert(id_hashes(members)[x] != id_hashes(members)[y]);
            assert(files[k].id_hash != files[l].id_hash);
        } else {
            let keys = link_keys(replies_at(replies.ids@, i), members.len());
            let positions = first_positions(keys);
            first_positions_are_first(keys);
            assert(positions[x] < positions[y]);
            assert(positions.contains(positions[y]));
            assert(keys[positions[x]] != keys[positions[y]]);
            assert(left[x] == members[positions[x]]);
            assert(left[y] == members[positions[y]]);
            assert(keys[positions[x]] == Ok::<FileId, int>(id(members[positions[x]].path@)));
            assert(keys[positions[y]] == Ok::<FileId, int>(id(members[positions[y]].path@)));
        }
    }
}

/// If names of one file do not count as copies, no file is reported by two names, neither in one
/// group nor in two: reported files with the same identifier, if it was read for both, have the
/// same path.
pub proof fn no_file_is_reported_by_two_names(
    config: Config,
    files: Seq<FileInfo>,
    replies: Replies,
    id: spec_fn(Seq<u8>) -> FileId,
    id_hash: spec_fn(FileId) -> u64,
    report: Seq<GroupView<Path>>,
    m: int,
    i: int,
    n: int,
    j: int,
)
    requires
        !config.hard_links,
        agrees_with_ids(files, id, id_hash),
        are_ids(size_groups(config, files), replies.ids@, id),
        is_result(config, files, replies, report),
        0 <= m < report.len(),
        0 <= i < report[m].files.len(),
        0 <= n < report.len(),
        0 <= j < report[n].files.len(),
        id(report[m].files[i]@) == id(report[n].files[j]@),
        has_id(size_groups(config, files), replies.ids@, report[m].files[i]@),
        has_id(size_groups(config, files), replies.ids@, report[n].files[j]@),
    ensures
        report[m].files[i] == report[n].files[j],
{
    let start = start_groups(config, files, replies);
    let one = report[m].files[i];
    let other = report[n].files[j];
    let first = start_of_reported_file(config, files, replies, report, m, i);
    let second = start_of_reported_file(config, files, replies, report, n, j);
    started_files_are_found(config, files, replies, first, one);
    started_files_are_found(config, files, replies, second, other);
    let k = choose|k: int|
        0 <= k < files.len() && (#[trigger] files[k]).path == one && files[k].len == first.len;
    let l = choose|l: int|
        0 <= l < files.len() && (#[trigger] files[l]).path == other && files[l].len == second.len;
    assert(files[k].len == files[l].len);
    started_files_are_different(config, files, replies, id, id_hash);
    let a = choose|a: int| 0 <= a < start.len() && start[a] == first;
    let b = choose|b: int| 0 <= b < start.len() && start[b] == second;
    assert(a == b);
    let x = choose|x: int| 0 <= x < start[a].files.len() && start[a].files[x] == one;
    let y = choose|y: int| 0 <= y < start[a].files.len() && start[a].files[y] == other;
    if x < y {
        assert(id(start[a].files[x]@) != id(start[a].files[y]@));
    } else if y < x {
        assert(id(start[a].files[y]@) != id(start[a].files[x]@));
    }
}

} // verus!
