//! What the scan means for a search: which of its files are searched and reported.

use vstd::prelude::*;

use crate::config::{lengths_follow_the_settings, Config};
use crate::copies::{
    copies_are_reported, filter_twice, group_is_started, has_no_links, is_copy_of, is_told_apart,
    name_is_left, reading_of,
};
use crate::dedup::path_texts;
use crate::files::{FileHash, FileId, FileInfo, FileInfoNoLen, FileLen, Path};
use crate::group::{
    distinct_keys, distinct_keys_are_distinct, grouped, pair_keys, GroupView,
};
use crate::laws::{
    has_read, is_result, reported_groups_have_the_right_size, same_files, start_groups, Replies,
};
use crate::paths::{
    agrees_with_ids, are_ids, groups_are_of_one_len, has_id, is_found, is_grouped, is_scanned,
    lens_stay_different, reported_files_are_found, started_files_are_different,
    started_files_are_found,
};
use crate::sizes::{
    all_files, every_listed_file_is_there, groups_of_one_len, has_at_least, is_listed, is_selected,
    keyed_by_len, path_group, pruned_groups, size_groups,
};
use crate::unique::{first_positions, first_positions_are_first};

verus! {

/// What is known of each file: the text of its path and the hash of its identifier.
pub open spec fn facts_of(files: Seq<FileInfoNoLen>) -> Seq<(Seq<u8>, u64)> {
    Seq::new(files.len(), |j: int| (files[j].path@, files[j].id_hash))
}

/// Whether two groups have the same length, hash and files, in whatever order.
pub open spec fn is_same_group(
    one: GroupView<FileInfoNoLen>,
    other: GroupView<FileInfoNoLen>,
) -> bool {
    &&& one.len == other.len
    &&& one.hash == other.hash
    &&& one.files.len() == other.files.len()
    &&& facts_of(one.files).to_set() == facts_of(other.files).to_set()
}

/// Whether a group is one of a list of groups, its files in whatever order.
pub open spec fn is_among(
    group: GroupView<FileInfoNoLen>,
    groups: Seq<GroupView<FileInfoNoLen>>,
) -> bool {
    exists|b: int| 0 <= b < groups.len() && is_same_group(group, #[trigger] groups[b])
}

/// Whether entries of a scan with the same path and length have the same hash of the identifier.
pub open spec fn has_one_id_hash(files: Seq<FileInfo>) -> bool {
    forall|k: int, l: int|
        0 <= k < files.len() && 0 <= l < files.len() && (#[trigger] files[k]).path@ == (
        #[trigger] files[l]).path@ && files[k].len == files[l].len ==> files[k].id_hash
            == files[l].id_hash
}

/// No path is twice in a group of files of one length.
pub(crate) proof fn texts_are_different(files: Seq<FileInfo>, a: int)
    requires
        0 <= a < groups_of_one_len(files).len(),
    ensures
        forall|x: int, y: int|
            0 <= x < y < groups_of_one_len(files)[a].files.len() ==> (#[trigger] groups_of_one_len(
                files,
            )[a].files[x]).path@ != (#[trigger] groups_of_one_len(files)[a].files[y]).path@,
{
    let group = groups_of_one_len(files)[a];
    let texts = path_texts(grouped(keyed_by_len(files))[a].1);
    let positions = first_positions(texts);
    first_positions_are_first(texts);
    assert forall|x: int, y: int| 0 <= x < y < group.files.len() implies (
    #[trigger] group.files[x]).path@ != (#[trigger] group.files[y]).path@ by {
        assert(positions[x] < positions[y]);
        assert(positions.contains(positions[y]));
        assert(texts[positions[x]] != texts[positions[y]]);
        assert(group.files[x].path@ == texts[positions[x]]);
        assert(group.files[y].path@ == texts[positions[y]]);
    }
}

/// A file in a group of files of one length is a file of the scan.
pub(crate) proof fn grouped_file_is_scanned(files: Seq<FileInfo>, a: int, x: int) -> (k: int)
    requires
        0 <= a < groups_of_one_len(files).len(),
        0 <= x < groups_of_one_len(files)[a].files.len(),
    ensures
        0 <= k < files.len(),
        files[k].without_len() == groups_of_one_len(files)[a].files[x],
        files[k].len == groups_of_one_len(files)[a].len,
{
    let groups = groups_of_one_len(files);
    groups_are_of_one_len(files);
    assert(is_scanned(files, groups[a].files[x], groups[a].len));
    choose|k: int|
        0 <= k < files.len() && #[trigger] files[k].without_len() == groups[a].files[x]
            && files[k].len == groups[a].len
}

/// What is known of a file of the scan is known in the group of its length.
proof fn scanned_file_is_known(files: Seq<FileInfo>, k: int, a: int)
    requires
        has_one_id_hash(files),
        0 <= k < files.len(),
        0 <= a < groups_of_one_len(files).len(),
        groups_of_one_len(files)[a].len == files[k].len,
    ensures
        facts_of(groups_of_one_len(files)[a].files).contains((files[k].path@, files[k].id_hash)),
{
    let groups = groups_of_one_len(files);
    let x = grouped_by_path(files, k, a);
    let l = grouped_file_is_scanned(files, a, x);
    assert(files[l].path@ == files[k].path@);
    assert(facts_of(groups[a].files)[x] == (files[k].path@, files[k].id_hash));
}

/// There is a group for the length of each file of the scan.
pub(crate) proof fn group_of_file(files: Seq<FileInfo>, k: int) -> (a: int)
    requires
        0 <= k < files.len(),
    ensures
        0 <= a < groups_of_one_len(files).len(),
        groups_of_one_len(files)[a].len == files[k].len,
{
    let groups = groups_of_one_len(files);
    groups_are_of_one_len(files);
    assert(is_grouped(groups, files[k]));
    let (a, x) = choose|a: int, x: int|
        0 <= a < groups.len() && 0 <= x < groups[a].files.len() && groups[a].len == files[k].len
            && #[trigger] groups[a].files[x].path@ == files[k].path@;
    a
}

/// A file of the scan is in the group of its length, under its path.
pub(crate) proof fn grouped_by_path(files: Seq<FileInfo>, k: int, a: int) -> (x: int)
    requires
        0 <= k < files.len(),
        0 <= a < groups_of_one_len(files).len(),
        groups_of_one_len(files)[a].len == files[k].len,
    ensures
        0 <= x < groups_of_one_len(files)[a].files.len(),
        groups_of_one_len(files)[a].files[x].path@ == files[k].path@,
{
    let groups = groups_of_one_len(files);
    groups_are_of_one_len(files);
    assert(is_grouped(groups, files[k]));
    let (c, x) = choose|c: int, x: int|
        0 <= c < groups.len() && 0 <= x < groups[c].files.len() && groups[c].len == files[k].len
            && #[trigger] groups[c].files[x].path@ == files[k].path@;
    assert(c == a);
    x
}

/// A file in a group of one scan is, in another scan that has all of its files, in the group of
/// the same length.
proof fn file_is_in_other_group(
    one: Seq<FileInfo>,
    other: Seq<FileInfo>,
    a: int,
    b: int,
    x: int,
)
    requires
        forall|k: int| 0 <= k < one.len() ==> other.contains(#[trigger] one[k]),
        has_one_id_hash(other),
        0 <= a < groups_of_one_len(one).len(),
        0 <= b < groups_of_one_len(other).len(),
        groups_of_one_len(one)[a].len == groups_of_one_len(other)[b].len,
        0 <= x < groups_of_one_len(one)[a].files.len(),
    ensures
        facts_of(groups_of_one_len(other)[b].files).contains(
            facts_of(groups_of_one_len(one)[a].files)[x],
        ),
{
    let k = grouped_file_is_scanned(one, a, x);
    assert(other.contains(one[k]));
    let l = choose|l: int| 0 <= l < other.len() && other[l] == one[k];
    scanned_file_is_known(other, l, b);
}

/// A scan that has all files of another has a group for each length of the other.
proof fn len_has_a_group(one: Seq<FileInfo>, other: Seq<FileInfo>, a: int) -> (b: int)
    requires
        forall|k: int| 0 <= k < one.len() ==> other.contains(#[trigger] one[k]),
        0 <= a < groups_of_one_len(one).len(),
    ensures
        0 <= b < groups_of_one_len(other).len(),
        groups_of_one_len(one)[a].len == groups_of_one_len(other)[b].len,
{
    let pairs = keyed_by_len(one);
    let others = groups_of_one_len(other);
    distinct_keys_are_distinct(pairs);
    let keys = distinct_keys(pairs);
    assert(keys.contains(keys[a]));
    let k = choose|k: int|
        0 <= k < pair_keys(pairs).len() && pair_keys(pairs)[k]
            == keys[a];
    assert(one[k].len.0 == keys[a]);
    assert(other.contains(one[k]));
    let l = choose|l: int| 0 <= l < other.len() && other[l] == one[k];
    groups_are_of_one_len(other);
    assert(is_grouped(others, other[l]));
    let (b, y) = choose|b: int, y: int|
        0 <= b < others.len() && 0 <= y < others[b].files.len() && others[b].len == other[l].len
            && #[trigger] others[b].files[y].path@ == other[l].path@;
    b
}

/// Scans with the same files have the same groups of files of one length.
proof fn groups_are_the_same(one: Seq<FileInfo>, other: Seq<FileInfo>, a: int) -> (b: int)
    requires
        forall|k: int| 0 <= k < one.len() ==> other.contains(#[trigger] one[k]),
        forall|l: int| 0 <= l < other.len() ==> one.contains(#[trigger] other[l]),
        has_one_id_hash(one),
        has_one_id_hash(other),
        0 <= a < groups_of_one_len(one).len(),
    ensures
        0 <= b < groups_of_one_len(other).len(),
        is_same_group(groups_of_one_len(one)[a], groups_of_one_len(other)[b]),
{
    let b = len_has_a_group(one, other, a);
    let first = facts_of(groups_of_one_len(one)[a].files);
    let second = facts_of(groups_of_one_len(other)[b].files);
    assert forall|x: int| 0 <= x < first.len() implies second.contains(#[trigger] first[x]) by {
        file_is_in_other_group(one, other, a, b, x);
    }
    assert forall|y: int| 0 <= y < second.len() implies first.contains(#[trigger] second[y]) by {
        file_is_in_other_group(other, one, b, a, y);
    }
    assert(first.to_set() =~= second.to_set());
    texts_are_different(one, a);
    texts_are_different(other, b);
    assert forall|x: int, y: int| 0 <= x < y < first.len() implies first[x] != first[y] by {
        assert(groups_of_one_len(one)[a].files[x].path@ != groups_of_one_len(
            one,
        )[a].files[y].path@);
    }
    assert forall|x: int, y: int| 0 <= x < y < second.len() implies second[x] != second[y] by {
        assert(groups_of_one_len(other)[b].files[x].path@ != groups_of_one_len(
            other,
        )[b].files[y].path@);
    }
    first.unique_seq_to_set();
    second.unique_seq_to_set();
    b
}

/// Each group that a search goes on with is, its files in whatever order, one that it goes on with
/// after another scan of the same files.
proof fn size_groups_are_among(config: Config, one: Seq<FileInfo>, other: Seq<FileInfo>)
    requires
        one.to_multiset() == other.to_multiset(),
        has_one_id_hash(one),
        has_one_id_hash(other),
    ensures
        forall|a: int|
            0 <= a < size_groups(config, one).len() ==> is_among(
                #[trigger] size_groups(config, one)[a],
                size_groups(config, other),
            ),
{
    let keep = has_at_least::<FileInfoNoLen>(config.over() as nat);
    let groups = size_groups(config, one);
    let others = size_groups(config, other);
    let all = groups_of_one_len(one);
    let other_all = groups_of_one_len(other);
    same_files(one, other);
    assert forall|a: int| 0 <= a < groups.len() implies is_among(#[trigger] groups[a], others) by {
        assert(groups.contains(groups[a]));
        all.lemma_filter_pred(keep, a);
        all.lemma_filter_contains_rev(keep, groups[a]);
        let c = choose|c: int| 0 <= c < all.len() && all[c] == groups[a];
        let d = groups_are_the_same(one, other, c);
        other_all.lemma_filter_contains(keep, d);
        let b = choose|b: int| 0 <= b < others.len() && others[b] == other_all[d];
        assert(is_same_group(groups[a], others[b]));
    }
}

/// Neither the order of the files of a scan nor their lists matter: scans with the same files give
/// the same groups, each with the same files, if entries with the same path and length have the
/// same hash of the identifier. (Otherwise the first such entry counts.) As the groups of a scan
/// have different lengths, they correspond one to one.
pub proof fn order_of_the_scan_does_not_matter(
    config: Config,
    one: Seq<FileInfo>,
    other: Seq<FileInfo>,
)
    requires
        one.to_multiset() == other.to_multiset(),
        has_one_id_hash(one),
    ensures
        forall|a: int|
            0 <= a < size_groups(config, one).len() ==> is_among(
                #[trigger] size_groups(config, one)[a],
                size_groups(config, other),
            ),
        forall|b: int|
            0 <= b < size_groups(config, other).len() ==> is_among(
                #[trigger] size_groups(config, other)[b],
                size_groups(config, one),
            ),
{
    same_files(one, other);
    assert forall|k: int, l: int|
        0 <= k < other.len() && 0 <= l < other.len() && (#[trigger] other[k]).path@ == (
        #[trigger] other[l]).path@ && other[k].len == other[l].len implies other[k].id_hash
        == other[l].id_hash by {
        assert(one.contains(other[k]));
        assert(one.contains(other[l]));
        let x = choose|x: int| 0 <= x < one.len() && one[x] == other[k];
        let y = choose|y: int| 0 <= y < one.len() && one[y] == other[l];
        assert(one[x].id_hash == one[y].id_hash);
    }
    size_groups_are_among(config, one, other);
    size_groups_are_among(config, other, one);
}

/// Files that were selected by their lengths stay when they are selected again.
pub proof fn selecting_again_keeps_all(config: Config, found: Seq<FileInfo>)
    ensures
        found.filter(is_selected(config)).filter(is_selected(config)) == found.filter(
            is_selected(config),
        ),
{
    filter_twice(found, is_selected(config), is_selected(config), is_selected(config));
}

/// A search among the files that were found reports only files whose length is searched, each with
/// the length that it was found with.
pub proof fn reported_files_are_selected(
    config: Config,
    found: Seq<FileInfo>,
    replies: Replies,
    report: Seq<GroupView<Path>>,
    m: int,
    j: int,
)
    requires
        is_result(config, found.filter(is_selected(config)), replies, report),
        0 <= m < report.len(),
        0 <= j < report[m].files.len(),
    ensures
        config.selects(report[m].len),
        is_found(found, report[m].files[j], report[m].len),
{
    let select = is_selected(config);
    let files = found.filter(select);
    reported_files_are_found(config, files, replies, report, m, j);
    let k = choose|k: int|
        0 <= k < files.len() && (#[trigger] files[k]).path == report[m].files[j] && files[k].len
            == report[m].len;
    found.lemma_filter_pred(select, k);
    assert(files.contains(files[k]));
    found.lemma_filter_contains_rev(select, files[k]);
    let l = choose|l: int| 0 <= l < found.len() && found[l] == files[k];
    assert(found[l].path == report[m].files[j]);
}

/// A condition that holds of no item filters none.
proof fn filter_none<T>(items: Seq<T>, condition: spec_fn(T) -> bool)
    requires
        forall|j: int| 0 <= j < items.len() ==> !condition(#[trigger] items[j]),
    ensures
        items.filter(condition).len() == 0,
{
    if items.filter(condition).len() > 0 {
        let item = items.filter(condition)[0];
        items.lemma_filter_pred(condition, 0);
        assert(items.filter(condition).contains(item));
        items.lemma_filter_contains_rev(condition, item);
    }
}

/// A condition that holds at one position filters the item at that position.
proof fn filter_one<T>(items: Seq<T>, condition: spec_fn(T) -> bool, i: int)
    requires
        0 <= i < items.len(),
        forall|j: int| 0 <= j < items.len() ==> (condition(#[trigger] items[j]) <==> j == i),
    ensures
        items.filter(condition) == seq![items[i]],
    decreases items.len(),
{
    reveal(Seq::filter);
    let init = items.drop_last();
    let n = items.len() - 1;
    assert(condition(items[n]) <==> n == i);
    if i == n {
        assert forall|j: int| 0 <= j < init.len() implies !condition(#[trigger] init[j]) by {
            assert(init[j] == items[j]);
        }
        filter_none(init, condition);
        assert(items.filter(condition) =~= seq![items[i]]);
    } else {
        assert forall|j: int| 0 <= j < init.len() implies (condition(#[trigger] init[j]) <==> j
            == i) by {
            assert(init[j] == items[j]);
        }
        filter_one(init, condition, i);
    }
}

/// Whether a group is one file, at a path with the given text.
pub open spec fn is_file_at(group: GroupView<Path>, text: Seq<u8>) -> bool {
    group.files.len() == 1 && group.files[0]@ == text
}

/// If a file that a search looks at has no copy, it is reported alone, in a search that reports
/// single files.
proof fn lone_file_is_reported(
    config: Config,
    files: Seq<FileInfo>,
    replies: Replies,
    contents: spec_fn(Seq<u8>) -> Seq<u8>,
    hash: spec_fn(Seq<u8>) -> FileHash,
    report: Seq<GroupView<Path>>,
    group: GroupView<Path>,
    i: int,
)
    requires
        config.over() == 0,
        config.under() > 1,
        has_read(
            config,
            start_groups(config, files, replies),
            replies,
            reading_of(contents, hash),
        ),
        is_result(config, files, replies, report),
        start_groups(config, files, replies).contains(group),
        is_told_apart(group, contents, hash),
        0 <= i < group.files.len(),
        forall|j: int|
            0 <= j < group.files.len() && j != i ==> contents((#[trigger] group.files[j])@)
                != contents(group.files[i]@),
    ensures
        exists|m: int|
            0 <= m < report.len() && (#[trigger] report[m]).len == group.len && is_file_at(
                report[m],
                group.files[i]@,
            ),
{
    let path = group.files[i];
    let copy = is_copy_of(contents, path);
    filter_one(group.files, copy, i);
    assert(group.files.contains(path));
    copies_are_reported(config, files, replies, contents, hash, report, group, path);
    let m = choose|m: int|
        0 <= m < report.len() && (#[trigger] report[m]).len == group.len
            && report[m].files.to_multiset() == group.files.filter(copy).to_multiset();
    same_files(seq![path], report[m].files);
    assert(seq![path].contains(report[m].files[0]));
    assert(is_file_at(report[m], path@));
}

/// A file of the scan that has no copy is reported alone: in a search that reports single files,
/// in which no names of files have to be left out, all files can be read, and no two different
/// files of one length have the same hash.
pub proof fn file_without_copy_is_reported(
    config: Config,
    files: Seq<FileInfo>,
    replies: Replies,
    contents: spec_fn(Seq<u8>) -> Seq<u8>,
    hash: spec_fn(Seq<u8>) -> FileHash,
    report: Seq<GroupView<Path>>,
    k: int,
)
    requires
        config.hard_links || has_no_links(files),
        config.over() == 0,
        config.under() > 1,
        has_read(
            config,
            start_groups(config, files, replies),
            replies,
            reading_of(contents, hash),
        ),
        is_result(config, files, replies, report),
        forall|group: GroupView<Path>| #[trigger]
            start_groups(config, files, replies).contains(group) ==> is_told_apart(
                group,
                contents,
                hash,
            ),
        0 <= k < files.len(),
        forall|l: int|
            0 <= l < files.len() && (#[trigger] files[l]).path@ != files[k].path@ && files[l].len
                == files[k].len ==> contents(files[l].path@) != contents(files[k].path@),
    ensures
        exists|m: int|
            0 <= m < report.len() && (#[trigger] report[m]).len == files[k].len && is_file_at(
                report[m],
                files[k].path@,
            ),
{
    let all = groups_of_one_len(files);
    groups_are_of_one_len(files);
    assert(is_grouped(all, files[k]));
    let (a, i) = choose|a: int, i: int|
        0 <= a < all.len() && 0 <= i < all[a].files.len() && all[a].len == files[k].len
            && #[trigger] all[a].files[i].path@ == files[k].path@;
    group_is_started(config, files, replies, a);
    texts_are_different(files, a);
    let group = path_group(all[a]);
    assert forall|j: int| 0 <= j < group.files.len() && j != i implies contents(
        (#[trigger] group.files[j])@,
    ) != contents(group.files[i]@) by {
        let l = grouped_file_is_scanned(files, a, j);
        assert(all[a].files[j].path@ != all[a].files[i].path@);
        assert(files[l].path@ == group.files[j]@);
    }
    lone_file_is_reported(config, files, replies, contents, hash, report, group, i);
}

/// A file of the scan that has no copy is reported alone, by one of its names: in a search that
/// reports single files, in which names of one file do not count as copies, the identifiers of all
/// names of the file and the contents of all files can be read, and no two different files of one
/// length have the same hash.
pub proof fn file_without_copy_is_reported_by_one_name(
    config: Config,
    files: Seq<FileInfo>,
    replies: Replies,
    id: spec_fn(Seq<u8>) -> FileId,
    id_hash: spec_fn(FileId) -> u64,
    contents: spec_fn(Seq<u8>) -> Seq<u8>,
    hash: spec_fn(Seq<u8>) -> FileHash,
    report: Seq<GroupView<Path>>,
    k: int,
)
    requires
        !config.hard_links,
        config.over() == 0,
        config.under() > 1,
        agrees_with_ids(files, id, id_hash),
        are_ids(size_groups(config, files), replies.ids@, id),
        forall|x: Seq<u8>, y: Seq<u8>|
            id(x) == id(y) ==> #[trigger] contents(x) == #[trigger] contents(y),
        has_read(
            config,
            start_groups(config, files, replies),
            replies,
            reading_of(contents, hash),
        ),
        is_result(config, files, replies, report),
        forall|group: GroupView<Path>| #[trigger]
            start_groups(config, files, replies).contains(group) ==> is_told_apart(
                group,
                contents,
                hash,
            ),
        0 <= k < files.len(),
        forall|l: int|
            0 <= l < files.len() && id((#[trigger] files[l]).path@) == id(files[k].path@)
                ==> has_id(size_groups(config, files), replies.ids@, files[l].path@),
        forall|l: int|
            0 <= l < files.len() && id((#[trigger] files[l]).path@) != id(files[k].path@)
                && files[l].len == files[k].len ==> contents(files[l].path@) != contents(
                files[k].path@,
            ),
    ensures
        exists|m: int|
            0 <= m < report.len() && (#[trigger] report[m]).len == files[k].len
                && report[m].files.len() == 1 && id(report[m].files[0]@) == id(files[k].path@),
{
    let start = start_groups(config, files, replies);
    let (group, x) = name_is_started(config, files, replies, id, k);
    let d = choose|d: int| 0 <= d < start.len() && start[d] == group;
    started_files_are_different(config, files, replies, id, id_hash);
    let kept = group.files[x];
    assert(group.files.contains(kept));
    started_files_are_found(config, files, replies, group, kept);
    let p = choose|p: int|
        0 <= p < files.len() && (#[trigger] files[p]).path == kept && files[p].len == group.len;
    assert(has_id(size_groups(config, files), replies.ids@, files[p].path@));
    assert(contents(kept@) == contents(files[k].path@));
    assert forall|y: int| 0 <= y < group.files.len() && y != x implies contents(
        (#[trigger] group.files[y])@,
    ) != contents(group.files[x]@) by {
        let other = group.files[y];
        assert(group.files.contains(other));
        started_files_are_found(config, files, replies, group, other);
        let l = choose|l: int|
            0 <= l < files.len() && (#[trigger] files[l]).path == other && files[l].len
                == group.len;
        if id(files[l].path@) == id(files[k].path@) {
            assert(has_id(size_groups(config, files), replies.ids@, files[l].path@));
            assert(x < y ==> id(start[d].files[x]@) != id(start[d].files[y]@));
            assert(y < x ==> id(start[d].files[y]@) != id(start[d].files[x]@));
        }
    }
    lone_file_is_reported(config, files, replies, contents, hash, report, group, x);
    let m = choose|m: int|
        0 <= m < report.len() && (#[trigger] report[m]).len == group.len && is_file_at(
            report[m],
            group.files[x]@,
        );
    assert(id(report[m].files[0]@) == id(files[k].path@));
}

/// A search that reports single files starts to hash a group that has a name of a given file of
/// the scan.
proof fn name_is_started(
    config: Config,
    files: Seq<FileInfo>,
    replies: Replies,
    id: spec_fn(Seq<u8>) -> FileId,
    k: int,
) -> (name: (GroupView<Path>, int))
    requires
        !config.hard_links,
        config.over() == 0,
        are_ids(size_groups(config, files), replies.ids@, id),
        0 <= k < files.len(),
    ensures
        start_groups(config, files, replies).contains(name.0),
        name.0.len == files[k].len,
        0 <= name.1 < name.0.files.len(),
        id(name.0.files[name.1]@) == id(files[k].path@),
{
    let all = groups_of_one_len(files);
    let keep = has_at_least::<FileInfoNoLen>(0);
    let groups = size_groups(config, files);
    let pruned = pruned_groups(config, groups, replies.ids@);
    let kept = pruned.filter(keep);
    let start = start_groups(config, files, replies);
    groups_are_of_one_len(files);
    assert(is_grouped(all, files[k]));
    let (a, i) = choose|a: int, i: int|
        0 <= a < all.len() && 0 <= i < all[a].files.len() && all[a].len == files[k].len
            && #[trigger] all[a].files[i].path@ == files[k].path@;
    all.lemma_filter_contains(keep, a);
    let c = choose|c: int| 0 <= c < groups.len() && groups[c] == all[a];
    let x = name_is_left(config, groups, replies.ids@, id, c, i);
    pruned.lemma_filter_contains(keep, c);
    let d = choose|d: int| 0 <= d < kept.len() && kept[d] == pruned[c];
    let group = path_group(pruned[c]);
    assert(start[d] == group);
    assert(start.contains(group));
    assert(group.files[x]@ == pruned[c].files[x].path@);
    (group, x)
}

/// The lengths of reported groups obey the settings: they are neither shorter than the least nor
/// longer than the greatest length that is set.
pub proof fn reported_lengths_obey_the_settings(
    config: Config,
    found: Seq<FileInfo>,
    replies: Replies,
    report: Seq<GroupView<Path>>,
    m: int,
)
    requires
        is_result(config, found.filter(is_selected(config)), replies, report),
        0 <= m < report.len(),
    ensures
        config.min_size.0 <= report[m].len.0,
        config.max_size matches Some(max) ==> report[m].len.0 <= max.0,
{
    reported_groups_have_the_right_size(
        config,
        found.filter(is_selected(config)),
        replies,
        report,
        m,
    );
    reported_files_are_selected(config, found, replies, report, m, 0);
    lengths_follow_the_settings(config, report[m].len);
}

/// The texts of the paths of the files of a length that are in the lists.
pub open spec fn listed_paths(lists: Seq<Vec<FileInfo>>, len: FileLen) -> Set<Seq<u8>> {
    Set::new(
        |text: Seq<u8>|
            exists|file: FileInfo| #[trigger]
                is_listed(lists, file) && file.len == len && file.path.text@ == text,
    )
}

/// Whether groups have one of a length, without a hash, that has each of the given paths once.
pub open spec fn has_group_with(
    groups: Seq<GroupView<FileInfoNoLen>>,
    len: FileLen,
    paths: Set<Seq<u8>>,
) -> bool {
    exists|a: int|
        0 <= a < groups.len() && (#[trigger] groups[a]).len == len && groups[a].hash is None
            && groups[a].files.len() == paths.len() && Seq::new(
            groups[a].files.len(),
            |j: int| groups[a].files[j].path.text@,
        ).to_set() == paths
}

/// Grouping by size keeps every file of every list. For each length of a file, the paths of all
/// files of that length are one group, if there are as many of them as the lower limit asks for;
/// and there are no other groups.
pub proof fn every_path_is_in_its_group(config: Config, lists: Seq<Vec<FileInfo>>)
    ensures
        forall|file: FileInfo| #[trigger]
            is_listed(lists, file) && listed_paths(lists, file.len).len() >= config.over()
                ==> has_group_with(
                size_groups(config, all_files(lists)),
                file.len,
                listed_paths(lists, file.len),
            ),
        forall|a: int|
            0 <= a < size_groups(config, all_files(lists)).len() ==> {
                let group = #[trigger] size_groups(config, all_files(lists))[a];
                &&& group.files.len() >= config.over()
                &&& group.files.len() > 0
                &&& has_group_with(seq![group], group.len, listed_paths(lists, group.len))
            },
        forall|a: int, b: int|
            0 <= a < b < size_groups(config, all_files(lists)).len() ==> (#[trigger] size_groups(
                config,
                all_files(lists),
            )[a]).len != (#[trigger] size_groups(config, all_files(lists))[b]).len,
{
    let files = all_files(lists);
    let all = groups_of_one_len(files);
    let groups = size_groups(config, files);
    let keep = has_at_least::<FileInfoNoLen>(config.over() as nat);
    every_listed_file_is_there(lists);
    groups_are_of_one_len(files);
    lens_stay_different(all, keep);
    assert forall|file: FileInfo| #[trigger]
        is_listed(lists, file) && listed_paths(lists, file.len).len()
            >= config.over() implies has_group_with(
        groups,
        file.len,
        listed_paths(lists, file.len),
    ) by {
        assert(files.contains(file)) by {
            let (i, j) = choose|i: int, j: int|
                0 <= i < lists.len() && 0 <= j < lists[i]@.len() && #[trigger] lists[i]@[j] == file;
            assert(files.contains(lists[i]@[j]));
        }
        let k = choose|k: int| 0 <= k < files.len() && files[k] == file;
        let c = group_of_file(files, k);
        group_has_the_listed_paths(lists, c);
        all.lemma_filter_contains(keep, c);
        let a = choose|a: int| 0 <= a < groups.len() && groups[a] == all[c];
        assert(groups[a].len == file.len);
    }
    assert forall|a: int| 0 <= a < groups.len() implies {
        let group = #[trigger] groups[a];
        &&& group.files.len() >= config.over()
        &&& group.files.len() > 0
        &&& has_group_with(seq![group], group.len, listed_paths(lists, group.len))
    } by {
        all.lemma_filter_pred(keep, a);
        assert(groups.contains(groups[a]));
        all.lemma_filter_contains_rev(keep, groups[a]);
        let c = choose|c: int| 0 <= c < all.len() && all[c] == groups[a];
        group_has_the_listed_paths(lists, c);
        assert(seq![groups[a]][0].len == groups[a].len);
    }
}

/// A group of files of one length has the listed paths of that length, each of them once.
proof fn group_has_the_listed_paths(lists: Seq<Vec<FileInfo>>, c: int)
    requires
        0 <= c < groups_of_one_len(all_files(lists)).len(),
    ensures
        ({
            let group = groups_of_one_len(all_files(lists))[c];
            let paths = listed_paths(lists, group.len);
            let texts = Seq::new(group.files.len(), |j: int| group.files[j].path.text@);
            &&& group.hash is None
            &&& group.files.len() > 0
            &&& texts.to_set() == paths
            &&& texts.len() == paths.len()
        }),
{
    let files = all_files(lists);
    let group = groups_of_one_len(files)[c];
    let paths = listed_paths(lists, group.len);
    let texts = Seq::new(group.files.len(), |j: int| group.files[j].path.text@);
    every_listed_file_is_there(lists);
    assert forall|text: Seq<u8>| #[trigger] texts.to_set().contains(text) <==> paths.contains(
        text,
    ) by {
        if texts.contains(text) {
            let j = choose|j: int| 0 <= j < texts.len() && texts[j] == text;
            let k = grouped_file_is_scanned(files, c, j);
            assert(files.contains(files[k]));
            assert(is_listed(lists, files[k]));
        }
        if paths.contains(text) {
            let file = choose|file: FileInfo| #[trigger]
                is_listed(lists, file) && file.len == group.len && file.path.text@ == text;
            let (i, j) = choose|i: int, j: int|
                0 <= i < lists.len() && 0 <= j < lists[i]@.len() && #[trigger] lists[i]@[j] == file;
            assert(files.contains(lists[i]@[j]));
            let k = choose|k: int| 0 <= k < files.len() && files[k] == file;
            let x = grouped_by_path(files, k, c);
            assert(texts[x] == text);
        }
    }
    assert(texts.to_set() =~= paths);
    texts_are_different(files, c);
    assert forall|x: int, y: int|
        0 <= x < texts.len() && 0 <= y < texts.len() && x != y implies texts[x] != texts[y] by {
        if x < y {
            assert(group.files[x].path@ != group.files[y].path@);
        } else {
            assert(group.files[y].path@ != group.files[x].path@);
        }
    }
    texts.unique_seq_to_set();
    let k = len_is_of_a_file(files, c);
    let x = grouped_by_path(files, k, c);
}

/// A group of files of one length has the length of a file.
proof fn len_is_of_a_file(files: Seq<FileInfo>, c: int) -> (k: int)
    requires
        0 <= c < groups_of_one_len(files).len(),
    ensures
        0 <= k < files.len(),
        files[k].len == groups_of_one_len(files)[c].len,
{
    let pairs = keyed_by_len(files);
    distinct_keys_are_distinct(pairs);
    let keys = distinct_keys(pairs);
    assert(keys.contains(keys[c]));
    let k = choose|k: int| 0 <= k < pair_keys(pairs).len() && pair_keys(pairs)[k] == keys[c];
    assert(files[k].len.0 == keys[c]);
    k
}

} // verus!
