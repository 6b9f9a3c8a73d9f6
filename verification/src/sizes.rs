//! From the files of a scan to groups of files of one length.

use vstd::prelude::*;

use crate::config::Config;
use crate::dedup::{
    one_more_path, path_texts, prune_links_if_needed, pruned_links, remove_duplicate_paths,
    unique_paths,
};
use crate::files::{FileId, FileInfo, FileInfoNoLen, FileLen, Path};
use crate::group::{
    group_views, grouped, keyed_views, one_more_value, FileGroup, GroupMap, GroupView,
};
use crate::paths::{first_items, is_kept};
use crate::unique::{first_positions, first_positions_are_first};

verus! {

broadcast use vstd::std_specs::hash::group_hash_axioms;

/// The files of all lists, one list after the other.
pub open spec fn all_files(lists: Seq<Vec<FileInfo>>) -> Seq<FileInfo>
    decreases lists.len(),
{
    if lists.len() == 0 {
        Seq::empty()
    } else {
        all_files(lists.drop_last()) + lists.last()@
    }
}

/// Whether a file is searched.
pub open spec fn is_selected(config: Config) -> spec_fn(FileInfo) -> bool {
    |file: FileInfo| config.selects(file.len)
}

/// The lists as lists of files.
pub open spec fn list_views(lists: Seq<Vec<FileInfo>>) -> Seq<Seq<FileInfo>> {
    Seq::new(lists.len(), |i: int| lists[i]@)
}

/// Each list without the files that are not searched.
pub open spec fn selected_lists(config: Config, lists: Seq<Vec<FileInfo>>) -> Seq<Seq<FileInfo>> {
    Seq::new(lists.len(), |i: int| lists[i]@.filter(is_selected(config)))
}

/// Whether a list has a file.
pub open spec fn is_not_empty() -> spec_fn(Seq<FileInfo>) -> bool {
    |list: Seq<FileInfo>| list.len() > 0
}

/// Whether a group has `n` files or more.
pub open spec fn has_at_least<F>(n: nat) -> spec_fn(GroupView<F>) -> bool {
    |group: GroupView<F>| group.files.len() >= n
}

/// The files, each with its length as its key.
pub open spec fn keyed_by_len(files: Seq<FileInfo>) -> Seq<(u64, FileInfoNoLen)> {
    Seq::new(files.len(), |i: int| (files[i].len.0, files[i].without_len()))
}

/// The files grouped by their lengths, each path once in its group.
pub open spec fn groups_of_one_len(files: Seq<FileInfo>) -> Seq<GroupView<FileInfoNoLen>> {
    let groups = grouped(keyed_by_len(files));
    Seq::new(
        groups.len(),
        |i: int|
            GroupView { len: FileLen(groups[i].0), hash: None, files: unique_paths(groups[i].1) },
    )
}

/// The groups that the search goes on with after grouping by length.
pub open spec fn size_groups(config: Config, files: Seq<FileInfo>) -> Seq<
    GroupView<FileInfoNoLen>,
> {
    groups_of_one_len(files).filter(has_at_least(config.over() as nat))
}

/// The paths of a list of files.
pub open spec fn paths_of(files: Seq<FileInfoNoLen>) -> Seq<Path> {
    Seq::new(files.len(), |i: int| files[i].path)
}

/// A group of files as a group of paths.
pub open spec fn path_group(group: GroupView<FileInfoNoLen>) -> GroupView<Path> {
    GroupView { len: group.len, hash: None, files: paths_of(group.files) }
}

/// Groups of files as groups of paths.
pub open spec fn path_groups(groups: Seq<GroupView<FileInfoNoLen>>) -> Seq<GroupView<Path>> {
    Seq::new(groups.len(), |i: int| path_group(groups[i]))
}

/// The `i`-th list of replies, where there is one.
pub open spec fn replies_at<T>(replies: Seq<Vec<Option<T>>>, i: int) -> Seq<Option<T>> {
    if 0 <= i < replies.len() {
        replies[i]@
    } else {
        Seq::empty()
    }
}

/// Each group without the files that are other names of files before them.
pub open spec fn pruned_groups(
    config: Config,
    groups: Seq<GroupView<FileInfoNoLen>>,
    ids: Seq<Vec<Option<FileId>>>,
) -> Seq<GroupView<FileInfoNoLen>> {
    Seq::new(
        groups.len(),
        |i: int|
            GroupView {
                len: groups[i].len,
                hash: groups[i].hash,
                files: pruned_links(config, groups[i].files, replies_at(ids, i)),
            },
    )
}

/// The groups that the search goes on with after leaving out other names of the same file.
pub open spec fn link_groups(
    config: Config,
    groups: Seq<GroupView<FileInfoNoLen>>,
    ids: Seq<Vec<Option<FileId>>>,
) -> Seq<GroupView<Path>> {
    path_groups(pruned_groups(config, groups, ids).filter(has_at_least(config.over() as nat)))
}

/// Of the files that were found, keeps those whose length is searched, and of their lists those
/// that are left with a file.
pub fn scan_files(config: &Config, found: Vec<Vec<FileInfo>>) -> (files: Vec<Vec<FileInfo>>)
    ensures
        list_views(files@) == selected_lists(*config, found@).filter(is_not_empty()),
        forall|i: int| 0 <= i < files@.len() ==> (#[trigger] files@[i])@.len() > 0,
        all_files(files@) == all_files(found@).filter(is_selected(*config)),
{
    let ghost all = found@;
    let ghost lists = selected_lists(*config, all);
    let mut files: Vec<Vec<FileInfo>> = Vec::new();
    proof {
        reveal(Seq::filter);
    }
    for list in it: found
        invariant
            it.seq() == all,
            lists == selected_lists(*config, all),
            list_views(files@) =~= lists.take(it.index() as int).filter(is_not_empty()),
            forall|i: int| 0 <= i < files@.len() ==> (#[trigger] files@[i])@.len() > 0,
            all_files(files@) =~= all_files(all.take(it.index() as int)).filter(
                is_selected(*config),
            ),
    {
        let ghost n = it.index() as int;
        let ghost before = files@;
        let selected = select_files(config, list);
        proof {
            assert(all.take(n + 1).drop_last() =~= all.take(n));
            Seq::filter_distributes_over_add(
                all_files(all.take(n)),
                all[n]@,
                is_selected(*config),
            );
            reveal(Seq::filter);
            assert(lists.take(n + 1).drop_last() =~= lists.take(n));
            assert(lists[n] == selected@);
        }
        if selected.len() > 0 {
            files.push(selected);
            proof {
                assert(list_views(files@) =~= list_views(before).push(lists[n]));
                assert(files@.drop_last() =~= before);
            }
        }
    }
    assert(all.take(all.len() as int) =~= all);
    assert(lists.take(lists.len() as int) =~= lists);
    files
}

/// Of the files of one list, keeps those whose length is searched.
fn select_files(config: &Config, found: Vec<FileInfo>) -> (files: Vec<FileInfo>)
    ensures
        files@ == found@.filter(is_selected(*config)),
{
    let ghost all = found@;
    let mut files: Vec<FileInfo> = Vec::new();
    proof {
        reveal(Seq::filter);
    }
    for file in it: found
        invariant
            it.seq() == all,
            files@ =~= all.take(it.index() as int).filter(is_selected(*config)),
    {
        proof {
            reveal(Seq::filter);
            assert(all.take(it.index() + 1).drop_last() =~= all.take(it.index() as int));
        }
        if config.selects_len(file.len) {
            files.push(file);
        }
    }
    assert(all.take(all.len() as int) =~= all);
    files
}

/// Collects the files of all lists by their lengths.
fn collect_by_len(lists: Vec<Vec<FileInfo>>) -> (map: GroupMap<u64, FileInfoNoLen>)
    ensures
        map.wf(),
        map@ == keyed_by_len(all_files(lists@)),
{
    let ghost all = lists@;
    let mut map: GroupMap<u64, FileInfoNoLen> = GroupMap::new();
    assert(map@ =~= keyed_by_len(all_files(all.take(0))));
    for list in it: lists
        invariant
            it.seq() == all,
            map.wf(),
            map@ == keyed_by_len(all_files(all.take(it.index() as int))),
    {
        let ghost n = it.index() as int;
        let ghost files = list@;
        let ghost before = all_files(all.take(n));
        assert(all.take(n + 1).drop_last() =~= all.take(n));
        assert(before + files.take(0) =~= before);
        for file in inner: list
            invariant
                inner.seq() == files,
                map.wf(),
                map@ == keyed_by_len(before + files.take(inner.index() as int)),
        {
            let ghost m = inner.index() as int;
            map.add(file.len.0, file.drop_len());
            assert(map@ =~= keyed_by_len(before + files.take(m + 1)));
        }
        assert(files.take(files.len() as int) =~= files);
    }
    assert(all.take(all.len() as int) =~= all);
    map
}

/// Groups files by their lengths and leaves out paths that are in a group twice. Groups of fewer
/// than `rf_over` files are dropped.
pub fn group_by_size(config: &Config, files: Vec<Vec<FileInfo>>) -> (groups: Vec<
    FileGroup<FileInfoNoLen>,
>)
    ensures
        group_views(groups@) == size_groups(*config, all_files(files@)),
{
    let rf_over: usize = config.rf_over();
    let ghost flat = all_files(files@);
    let by_len = collect_by_len(files).into_groups();
    let ghost lists = by_len@;
    let ghost expected = groups_of_one_len(flat);
    let mut groups: Vec<FileGroup<FileInfoNoLen>> = Vec::new();
    proof {
        reveal(Seq::filter);
    }
    for group in it: by_len
        invariant
            it.seq() == lists,
            rf_over == config.over(),
            keyed_views(lists) == grouped(keyed_by_len(flat)),
            expected == groups_of_one_len(flat),
            group_views(groups@) =~= expected.take(it.index() as int).filter(
                has_at_least(rf_over as nat),
            ),
    {
        let ghost n = it.index() as int;
        let ghost before = groups@;
        let (len, members) = group;
        proof {
            assert(keyed_views(lists)[n] == (len, members@));
        }
        let files = remove_duplicate_paths(members);
        proof {
            reveal(Seq::filter);
            assert(expected.take(n + 1).drop_last() =~= expected.take(n));
            assert(expected[n] =~= GroupView { len: FileLen(len), hash: None, files: files@ });
        }
        if files.len() >= rf_over {
            groups.push(FileGroup { len: FileLen(len), hash: None, files });
            assert(group_views(groups@) =~= group_views(before).push(expected[n]));
        }
    }
    assert(expected.take(expected.len() as int) =~= expected);
    groups
}

/// Keeps only the paths of the files of a group.
pub fn to_group_of_paths(group: FileGroup<FileInfoNoLen>) -> (paths: FileGroup<Path>)
    ensures
        paths@ == path_group(group@),
{
    let ghost all = group.files@;
    let len = group.len;
    let mut files: Vec<Path> = Vec::new();
    for file in it: group.files
        invariant
            it.seq() == all,
            files@ =~= paths_of(all).take(it.index() as int),
    {
        files.push(file.path);
    }
    assert(files@ =~= paths_of(all));
    FileGroup { len, hash: None, files }
}

/// Keeps only the paths of the files of all groups.
pub fn drop_hard_link_info(groups: Vec<FileGroup<FileInfoNoLen>>) -> (paths: Vec<FileGroup<Path>>)
    ensures
        group_views(paths@) == path_groups(group_views(groups@)),
{
    let ghost all = groups@;
    let mut paths: Vec<FileGroup<Path>> = Vec::new();
    for group in it: groups
        invariant
            it.seq() == all,
            group_views(paths@) =~= path_groups(group_views(all)).take(it.index() as int),
    {
        let ghost before = paths@;
        paths.push(to_group_of_paths(group));
        assert(group_views(paths@) =~= group_views(before).push(path_group(group@)));
    }
    assert(group_views(paths@) =~= path_groups(group_views(all)));
    paths
}

/// Leaves out of each group the files that are other names of files before them, by the
/// identifiers that were read for the files of the group, and keeps only the paths. Groups that
/// are left with fewer than `rf_over` files are dropped.
pub fn prune_hard_links(
    config: &Config,
    groups: Vec<FileGroup<FileInfoNoLen>>,
    ids: &Vec<Vec<Option<FileId>>>,
) -> (paths: Vec<FileGroup<Path>>)
    ensures
        group_views(paths@) == link_groups(*config, group_views(groups@), ids@),
{
    let rf_over: usize = config.rf_over();
    let no_ids: Vec<Option<FileId>> = Vec::new();
    let ghost all = groups@;
    let ghost pruned = pruned_groups(*config, group_views(all), ids@);
    let ghost kept: Seq<GroupView<FileInfoNoLen>> = Seq::empty();
    let count: usize = groups.len();
    let mut i: usize = 0;
    let mut paths: Vec<FileGroup<Path>> = Vec::new();
    proof {
        reveal(Seq::filter);
        assert(group_views(paths@) =~= path_groups(kept));
    }
    for group in it: groups
        invariant
            it.seq() == all,
            i == it.index(),
            i <= all.len() == count,
            rf_over == config.over(),
            no_ids@.len() == 0,
            pruned == pruned_groups(*config, group_views(all), ids@),
            kept == pruned.take(i as int).filter(has_at_least(rf_over as nat)),
            group_views(paths@) == path_groups(kept),
    {
        let ghost before = paths@;
        let ghost kept_before = kept;
        let len = group.len;
        let hash = group.hash;
        let group_ids = if i < ids.len() {
            &ids[i]
        } else {
            &no_ids
        };
        let files = prune_links_if_needed(config, group.files, group_ids);
        let left = FileGroup { len, hash, files };
        proof {
            reveal(Seq::filter);
            assert(group_ids@ =~= replies_at(ids@, i as int));
            assert(pruned.take(i + 1).drop_last() =~= pruned.take(i as int));
            assert(pruned[i as int] =~= left@);
            kept = pruned.take(i + 1).filter(has_at_least(rf_over as nat));
        }
        if left.files.len() >= rf_over {
            paths.push(to_group_of_paths(left));
            proof {
                assert(kept =~= kept_before.push(left@));
                assert(group_views(paths@) =~= group_views(before).push(path_group(left@)));
                assert(path_groups(kept) =~= path_groups(kept_before).push(path_group(left@)));
            }
        }
        i = i + 1;
    }
    assert(pruned.take(pruned.len() as int) =~= pruned);
    paths
}

/// Joining lists: no lists have no files, one list has its own files, and two lots of lists have
/// the files of the first and then those of the second.
pub proof fn lists_are_joined(
    list: Vec<FileInfo>,
    one: Seq<Vec<FileInfo>>,
    other: Seq<Vec<FileInfo>>,
)
    ensures
        all_files(Seq::empty()) == Seq::<FileInfo>::empty(),
        all_files(seq![list]) == list@,
        all_files(one + other) == all_files(one) + all_files(other),
    decreases other.len(),
{
    reveal_with_fuel(all_files, 2);
    assert(seq![list].drop_last() =~= Seq::empty());
    assert(all_files(seq![list]) =~= list@);
    if other.len() == 0 {
        assert(one + other =~= one);
        assert(all_files(one + other) =~= all_files(one) + all_files(other));
    } else {
        lists_are_joined(list, one, other.drop_last());
        assert((one + other).drop_last() =~= one + other.drop_last());
        assert(all_files(one + other) =~= all_files(one) + all_files(other));
    }
}

/// Whether a file is in one of the lists.
pub open spec fn is_listed(lists: Seq<Vec<FileInfo>>, file: FileInfo) -> bool {
    exists|i: int, j: int|
        0 <= i < lists.len() && 0 <= j < lists[i]@.len() && #[trigger] lists[i]@[j] == file
}

/// The files of all lists are the files of each of them.
pub proof fn every_listed_file_is_there(lists: Seq<Vec<FileInfo>>)
    ensures
        forall|i: int, j: int|
            0 <= i < lists.len() && 0 <= j < lists[i]@.len() ==> all_files(lists).contains(
                #[trigger] lists[i]@[j],
            ),
        forall|file: FileInfo| #[trigger]
            all_files(lists).contains(file) ==> is_listed(lists, file),
    decreases lists.len(),
{
    let all = all_files(lists);
    if lists.len() > 0 {
        let init = lists.drop_last();
        let n = lists.len() - 1;
        let before = all_files(init);
        every_listed_file_is_there(init);
        assert forall|i: int, j: int|
            0 <= i < lists.len() && 0 <= j < lists[i]@.len() implies all.contains(
            #[trigger] lists[i]@[j],
        ) by {
            if i < n {
                assert(init[i]@[j] == lists[i]@[j]);
                assert(before.contains(init[i]@[j]));
                let k = choose|k: int| 0 <= k < before.len() && before[k] == init[i]@[j];
                assert(all[k] == lists[i]@[j]);
            } else {
                assert(all[before.len() + j] == lists[i]@[j]);
            }
        }
        assert forall|file: FileInfo| #[trigger] all.contains(file) implies is_listed(
            lists,
            file,
        ) by {
            let k = choose|k: int| 0 <= k < all.len() && all[k] == file;
            if k < before.len() {
                assert(before[k] == file);
                assert(before.contains(file));
                let (i, j) = choose|i: int, j: int|
                    0 <= i < init.len() && 0 <= j < init[i]@.len() && #[trigger] init[i]@[j]
                        == file;
                assert(lists[i]@[j] == file);
            } else {
                assert(lists[n]@[k - before.len()] == file);
            }
        }
    } else {
        assert(all.len() == 0);
    }
}

/// Of the files found, those are kept that are neither shorter than the least nor longer than the
/// greatest length that is set, in their order.
pub proof fn selection_goes_by_length(config: Config, files: Seq<FileInfo>)
    ensures
        files.filter(is_selected(config)) == files.filter(
            |file: FileInfo|
                config.min_size.0 <= file.len.0 && (config.max_size matches Some(max)
                    ==> file.len.0 <= max.0),
        ),
{
    assert(is_selected(config) =~= |file: FileInfo|
        config.min_size.0 <= file.len.0 && (config.max_size matches Some(max) ==> file.len.0
            <= max.0));
}

/// What a scan keeps: each file that it keeps was found, and has a length between the least and the
/// greatest that are set; and each file that was found with such a length is kept.
pub proof fn scan_keeps_files_of_wanted_lengths(
    config: Config,
    found: Seq<Vec<FileInfo>>,
    files: Seq<Vec<FileInfo>>,
    file: FileInfo,
)
    requires
        all_files(files) == all_files(found).filter(is_selected(config)),
    ensures
        is_listed(files, file) <==> is_listed(found, file) && config.min_size.0 <= file.len.0 && (
        config.max_size matches Some(max) ==> file.len.0 <= max.0),
{
    let select = is_selected(config);
    let all = all_files(found);
    let kept = all_files(files);
    every_listed_file_is_there(found);
    every_listed_file_is_there(files);
    if is_listed(files, file) {
        assert(kept.contains(file)) by {
            let (i, j) = choose|i: int, j: int|
                0 <= i < files.len() && 0 <= j < files[i]@.len() && #[trigger] files[i]@[j] == file;
            assert(kept.contains(files[i]@[j]));
        }
        all.lemma_filter_contains_rev(select, file);
        let k = choose|k: int| 0 <= k < kept.len() && kept[k] == file;
        all.lemma_filter_pred(select, k);
    }
    if is_listed(found, file) && select(file) {
        assert(all.contains(file)) by {
            let (i, j) = choose|i: int, j: int|
                0 <= i < found.len() && 0 <= j < found[i]@.len() && #[trigger] found[i]@[j] == file;
            assert(all.contains(found[i]@[j]));
        }
        let k = choose|k: int| 0 <= k < all.len() && all[k] == file;
        all.lemma_filter_contains(select, k);
        assert(kept.contains(file));
    }
}

/// Whether a list has a file with the text of the path of `file`.
pub open spec fn has_path_of(files: Seq<FileInfoNoLen>, file: FileInfo) -> bool {
    exists|j: int| 0 <= j < files.len() && (#[trigger] files[j]).path.text@ == file.path.text@
}

/// Files are grouped by length one by one. A file goes to the end of the group of its length,
/// unless its path is there already, or it is the first file of a new group behind the others.
pub proof fn one_more_file(files: Seq<FileInfo>, file: FileInfo)
    ensures
        groups_of_one_len(Seq::empty()).len() == 0,
        ({
            let before = groups_of_one_len(files);
            let after = groups_of_one_len(files.push(file));
            let entry = FileInfoNoLen { path: file.path, id_hash: file.id_hash };
            &&& forall|a: int|
                0 <= a < before.len() && (#[trigger] before[a]).len == file.len ==> after
                    == before.update(
                    a,
                    GroupView {
                        len: file.len,
                        hash: None,
                        files: if has_path_of(before[a].files, file) {
                            before[a].files
                        } else {
                            before[a].files.push(entry)
                        },
                    },
                )
            &&& (forall|a: int| 0 <= a < before.len() ==> (#[trigger] before[a]).len != file.len)
                ==> after == before.push(
                GroupView { len: file.len, hash: None, files: seq![entry] },
            )
        }),
{
    let pairs = keyed_by_len(files);
    let lists = grouped(pairs);
    let before = groups_of_one_len(files);
    let after = groups_of_one_len(files.push(file));
    let entry = FileInfoNoLen { path: file.path, id_hash: file.id_hash };
    let key = file.len.0;
    assert(keyed_by_len(Seq::empty()) =~= Seq::empty());
    one_more_value(pairs, key, entry);
    assert(keyed_by_len(files.push(file)) =~= pairs.push((key, entry)));
    assert forall|a: int| 0 <= a < before.len() && (#[trigger] before[a]).len == file.len implies after
        == before.update(
        a,
        GroupView {
            len: file.len,
            hash: None,
            files: if has_path_of(before[a].files, file) {
                before[a].files
            } else {
                before[a].files.push(entry)
            },
        },
    ) by {
        assert(lists[a].0 == key);
        path_is_there(lists[a].1, file);
        one_more_path(lists[a].1, entry);
        assert(after =~= before.update(a, after[a]));
    }
    if forall|a: int| 0 <= a < before.len() ==> (#[trigger] before[a]).len != file.len {
        assert forall|a: int| 0 <= a < lists.len() implies (#[trigger] lists[a]).0 != key by {
            assert(before[a].len != file.len);
        }
        one_more_path(Seq::empty(), entry);
        assert(unique_paths(Seq::empty()) =~= Seq::empty());
        assert(Seq::<FileInfoNoLen>::empty().push(entry) =~= seq![entry]);
        assert(after =~= before.push(
            GroupView { len: file.len, hash: None, files: seq![entry] },
        ));
    }
}

/// Leaving out repeated paths leaves each path.
proof fn path_is_there(files: Seq<FileInfoNoLen>, file: FileInfo)
    ensures
        has_path_of(unique_paths(files), file) <==> has_path_of(files, file),
{
    let texts = path_texts(files);
    let kept = unique_paths(files);
    let positions = first_positions(texts);
    first_items(texts, files);
    first_positions_are_first(texts);
    if has_path_of(kept, file) {
        let a = choose|a: int|
            0 <= a < kept.len() && (#[trigger] kept[a]).path.text@ == file.path.text@;
        assert(files[positions[a]].path.text@ == file.path.text@);
    }
    if has_path_of(files, file) {
        let i = choose|i: int|
            0 <= i < files.len() && (#[trigger] files[i]).path.text@ == file.path.text@;
        assert(is_kept(texts, positions, i));
        let a = choose|a: int| 0 <= a < positions.len() && texts[#[trigger] positions[a]] == texts[i];
        assert(kept[a].path.text@ == file.path.text@);
    }
}

/// A search goes on with the groups of one length that have as many paths as its lower limit.
pub proof fn large_groups_are_kept(config: Config, files: Seq<FileInfo>)
    ensures
        size_groups(config, files) == groups_of_one_len(files).filter(
            |group: GroupView<FileInfoNoLen>| group.files.len() >= config.over(),
        ),
{
    assert(has_at_least::<FileInfoNoLen>(config.over() as nat)
        =~= |group: GroupView<FileInfoNoLen>| group.files.len() >= config.over());
}

/// Groups of paths have the lengths and the paths of the groups of files, and no hashes yet.
pub proof fn paths_are_those_of_the_files(groups: Seq<GroupView<FileInfoNoLen>>)
    ensures
        path_groups(groups).len() == groups.len(),
        forall|i: int|
            0 <= i < groups.len() ==> (#[trigger] path_groups(groups)[i]).len == groups[i].len
                && path_groups(groups)[i].hash is None && path_groups(groups)[i].files.len()
                == groups[i].files.len(),
        forall|i: int, j: int|
            0 <= i < groups.len() && 0 <= j < groups[i].files.len() ==> #[trigger] path_groups(
                groups,
            )[i].files[j] == groups[i].files[j].path,
{
}

/// The replies for a group are those at its position, and missing replies are none.
pub proof fn replies_go_by_position<T>(replies: Seq<Vec<Option<T>>>, i: int)
    ensures
        0 <= i < replies.len() ==> replies_at(replies, i) == replies[i]@,
        !(0 <= i < replies.len()) ==> replies_at(replies, i).len() == 0,
{
}

/// A group of paths has the length and the paths of the group of files, and no hash yet.
pub proof fn group_of_paths_has_the_paths(group: GroupView<FileInfoNoLen>)
    ensures
        path_group(group).len == group.len,
        path_group(group).hash is None,
        path_group(group).files.len() == group.files.len(),
        forall|j: int|
            0 <= j < group.files.len() ==> #[trigger] path_group(group).files[j]
                == group.files[j].path,
{
}

/// What is left of the group at `i`, as a group of paths.
pub open spec fn left_of(
    config: Config,
    groups: Seq<GroupView<FileInfoNoLen>>,
    ids: Seq<Vec<Option<FileId>>>,
    i: int,
) -> GroupView<Path> {
    let left = pruned_links(config, groups[i].files, replies_at(ids, i));
    GroupView {
        len: groups[i].len,
        hash: None,
        files: Seq::new(left.len(), |j: int| left[j].path),
    }
}

/// A group stays if, without the files that are other names of files before them, it has as many
/// files as the lower limit, and then what is left of it stays. Nothing else does.
pub proof fn pruned_groups_stay_if_large(
    config: Config,
    groups: Seq<GroupView<FileInfoNoLen>>,
    ids: Seq<Vec<Option<FileId>>>,
)
    ensures
        forall|i: int|
            0 <= i < groups.len() && (#[trigger] left_of(config, groups, ids, i)).files.len()
                >= config.over() ==> link_groups(config, groups, ids).contains(
                left_of(config, groups, ids, i),
            ),
        forall|group: GroupView<Path>| #[trigger]
            link_groups(config, groups, ids).contains(group) ==> group.files.len() >= config.over()
                && exists|i: int|
                0 <= i < groups.len() && #[trigger] left_of(config, groups, ids, i) == group,
        link_groups(config, groups, ids).len() <= groups.len(),
{
    let keep = has_at_least::<FileInfoNoLen>(config.over() as nat);
    let pruned = pruned_groups(config, groups, ids);
    let kept = pruned.filter(keep);
    let paths = link_groups(config, groups, ids);
    pruned.lemma_filter_len(keep);
    assert forall|i: int|
        0 <= i < groups.len() && (#[trigger] left_of(config, groups, ids, i)).files.len()
            >= config.over() implies paths.contains(left_of(config, groups, ids, i)) by {
        pruned.lemma_filter_contains(keep, i);
        let a = choose|a: int| 0 <= a < kept.len() && kept[a] == pruned[i];
        assert(paths[a] =~= left_of(config, groups, ids, i));
    }
    assert forall|group: GroupView<Path>| #[trigger] paths.contains(
        group,
    ) implies group.files.len() >= config.over() && exists|i: int|
        0 <= i < groups.len() && #[trigger] left_of(config, groups, ids, i) == group by {
        let a = choose|a: int| 0 <= a < paths.len() && paths[a] == group;
        pruned.lemma_filter_pred(keep, a);
        assert(kept.contains(kept[a]));
        pruned.lemma_filter_contains_rev(keep, kept[a]);
        let i = choose|i: int| 0 <= i < pruned.len() && pruned[i] == kept[a];
        assert(left_of(config, groups, ids, i) =~= group);
    }
}

/// What lists stand for are their files, in the same order. Selecting goes list by list, by the
/// least and the greatest length that are set, and lists without a file are left out.
pub proof fn lists_are_selected_one_by_one(config: Config, lists: Seq<Vec<FileInfo>>)
    ensures
        list_views(lists).len() == lists.len(),
        selected_lists(config, lists).len() == lists.len(),
        forall|i: int| 0 <= i < lists.len() ==> #[trigger] list_views(lists)[i] == lists[i]@,
        forall|i: int|
            0 <= i < lists.len() ==> #[trigger] selected_lists(config, lists)[i]
                == lists[i]@.filter(
                |file: FileInfo|
                    config.min_size.0 <= file.len.0 && (config.max_size matches Some(max)
                        ==> file.len.0 <= max.0),
            ),
        forall|list: Seq<FileInfo>| #[trigger] is_not_empty()(list) <==> list.len() > 0,
{
    assert forall|i: int| 0 <= i < lists.len() implies #[trigger] selected_lists(config, lists)[i]
        == lists[i]@.filter(
        |file: FileInfo|
            config.min_size.0 <= file.len.0 && (config.max_size matches Some(max) ==> file.len.0
                <= max.0),
    ) by {
        selection_goes_by_length(config, lists[i]@);
    }
}

} // verus!
