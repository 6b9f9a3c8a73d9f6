//! What a search reports, in terms of what is in the files.

use vstd::prelude::*;

use crate::config::Config;
use crate::dedup::{id_hashes, link_keys, path_texts};
use crate::files::{FileHash, FileId, FileInfo, FileInfoNoLen, FileLen, FilePos, Path};
use crate::group::{grouped, values_are_fewer, GroupView};
use crate::laws::{
    contents_groups, has_read, is_one_of, is_reported, is_result, prefix_groups,
    report_has_the_groups, same_files, start_groups, suffix_groups, Replies,
};
use crate::paths::{
    agrees_with_ids, are_ids, first_items, groups_are_of_one_len, is_grouped, is_kept, is_scanned,
};
use crate::process::is_sorted_group;
use crate::sizes::{
    groups_of_one_len, has_at_least, keyed_by_len, path_group, pruned_groups, replies_at,
    size_groups,
};
use crate::splitting::{
    are_read, files_of_a_hash_are_a_part, has_hash, parts_of_groups, parts_share_a_hash,
    single_file_is_a_part, stage_hash, Reading,
};
use crate::stages::{split_group, split_groups, stage_range, Stage};
use crate::unique::{first_positions, first_positions_are_first, first_positions_of_distinct_keys};

verus! {

/// What hashing gives if all files can be read: the hash of the bytes of the part.
pub open spec fn reading_of(
    contents: spec_fn(Seq<u8>) -> Seq<u8>,
    hash: spec_fn(Seq<u8>) -> FileHash,
) -> Reading {
    |path: Seq<u8>, pos: FilePos, len: FileLen|
        Some(hash(contents(path).subrange(pos.0 as int, pos.0 + len.0)))
}

/// Whether a file has the same contents as the file at `path`.
pub open spec fn is_copy_of(contents: spec_fn(Seq<u8>) -> Seq<u8>, path: Path) -> spec_fn(
    Path,
) -> bool {
    |other: Path| contents(other@) == contents(path@)
}

/// Whether the files of a group have the length of the group, and files of different contents have
/// different hashes.
pub open spec fn is_told_apart(
    group: GroupView<Path>,
    contents: spec_fn(Seq<u8>) -> Seq<u8>,
    hash: spec_fn(Seq<u8>) -> FileHash,
) -> bool {
    &&& forall|i: int|
        0 <= i < group.files.len() ==> contents((#[trigger] group.files[i])@).len() == group.len.0
    &&& forall|i: int, j: int|
        0 <= i < group.files.len() && 0 <= j < group.files.len() && hash(
            contents((#[trigger] group.files[i])@),
        ) == hash(contents((#[trigger] group.files[j])@)) ==> contents(group.files[i]@) == contents(
            group.files[j]@,
        )
}

/// Whether a stage does not tell a file from the file at `path`.
spec fn is_like(stage: Stage, len: FileLen, read: Reading, path: Path) -> spec_fn(Path) -> bool {
    |other: Path|
        stage_range(stage, len) matches Some(range) ==> read(other@, range.pos, range.len) == read(
            path@,
            range.pos,
            range.len,
        )
}

/// Filtering twice is filtering by both conditions.
pub(crate) proof fn filter_twice<T>(
    items: Seq<T>,
    first: spec_fn(T) -> bool,
    second: spec_fn(T) -> bool,
    both: spec_fn(T) -> bool,
)
    requires
        forall|i: int|
            0 <= i < items.len() ==> (both(#[trigger] items[i]) <==> first(items[i]) && second(
                items[i],
            )),
    ensures
        items.filter(first).filter(second) == items.filter(both),
    decreases items.len(),
{
    reveal(Seq::filter);
    if items.len() > 0 {
        let init = items.drop_last();
        assert forall|i: int| 0 <= i < init.len() implies (both(#[trigger] init[i]) <==> first(
            init[i],
        ) && second(init[i])) by {
            assert(init[i] == items[i]);
        }
        filter_twice(init, first, second, both);
        let last = items[items.len() - 1];
        assert(both(last) <==> first(last) && second(last));
        if first(last) {
            assert(init.filter(first).push(last).drop_last() =~= init.filter(first));
        }
    }
}

/// Conditions that agree on the items filter the same items.
proof fn filter_alike<T>(items: Seq<T>, first: spec_fn(T) -> bool, second: spec_fn(T) -> bool)
    requires
        forall|i: int| 0 <= i < items.len() ==> (first(#[trigger] items[i]) <==> second(items[i])),
    ensures
        items.filter(first) == items.filter(second),
    decreases items.len(),
{
    reveal(Seq::filter);
    if items.len() > 0 {
        let init = items.drop_last();
        assert forall|i: int| 0 <= i < init.len() implies (first(#[trigger] init[i]) <==> second(
            init[i],
        )) by {
            assert(init[i] == items[i]);
        }
        filter_alike(init, first, second);
        let last = items[items.len() - 1];
        assert(first(last) <==> second(last));
    }
}

/// A condition that holds of all items filters all of them.
proof fn filter_all<T>(items: Seq<T>, condition: spec_fn(T) -> bool)
    requires
        forall|i: int| 0 <= i < items.len() ==> condition(#[trigger] items[i]),
    ensures
        items.filter(condition) == items,
    decreases items.len(),
{
    reveal(Seq::filter);
    if items.len() > 0 {
        let init = items.drop_last();
        assert forall|i: int| 0 <= i < init.len() implies condition(#[trigger] init[i]) by {
            assert(init[i] == items[i]);
        }
        filter_all(init, condition);
        assert(condition(items[items.len() - 1]));
        assert(items =~= init.push(items.last()));
    }
}

/// Whether a group has the given length and files, and a hash if it has several files.
spec fn is_group_of(group: GroupView<Path>, len: FileLen, files: Seq<Path>) -> bool {
    &&& group.len == len
    &&& group.files == files
    &&& files.len() > 1 ==> group.hash is Some
}

/// The files that a stage does not tell from a file stay together.
proof fn alike_files_are_a_part(
    stage: Stage,
    groups: Seq<GroupView<Path>>,
    replies: Seq<Vec<Option<FileHash>>>,
    over: nat,
    read: Reading,
    group: GroupView<Path>,
    path: Path,
) -> (part: GroupView<Path>)
    requires
        are_read(stage, groups, replies, read),
        groups.contains(group),
        group.files.contains(path),
        match stage_range(stage, group.len) {
            Some(range) => read(path@, range.pos, range.len) is Some,
            None => group.files.len() > 1 ==> group.hash is Some,
        },
        group.files.filter(is_like(stage, group.len, read, path)).len() > over,
    ensures
        split_groups(stage, groups, replies, over).contains(part),
        is_group_of(
            part,
            group.len,
            group.files.filter(is_like(stage, group.len, read, path)),
        ),
{
    let i = choose|i: int| 0 <= i < groups.len() && groups[i] == group;
    let like = is_like(stage, group.len, read, path);
    parts_of_groups(stage, groups, replies, over);
    if group.files.len() > 1 {
        let hashes = stage_hash(stage, group, read);
        let hash = hashes(path)->0;
        assert forall|j: int| 0 <= j < group.files.len() implies (like(#[trigger] group.files[j])
            <==> has_hash(hashes, hash)(group.files[j])) by {}
        filter_alike(group.files, like, has_hash(hashes, hash));
        files_of_a_hash_are_a_part(stage, group, replies_at(replies, i), over, read, hash);
        let part = GroupView {
            len: group.len,
            hash: Some(hash),
            files: group.files.filter(has_hash(hashes, hash)),
        };
        assert(split_group(stage, groups[i], replies_at(replies, i), over).contains(part));
        part
    } else {
        let a = choose|a: int| 0 <= a < group.files.len() && group.files[a] == path;
        assert forall|j: int| 0 <= j < group.files.len() implies like(#[trigger] group.files[j]) by {
            assert(j == a);
        }
        filter_all(group.files, like);
        single_file_is_a_part(stage, group, replies_at(replies, i), over);
        assert(split_group(stage, groups[i], replies_at(replies, i), over).contains(group));
        group
    }
}

/// A part is made of the files that the stage does not tell from any one of its files.
proof fn part_is_alike_files(
    stage: Stage,
    groups: Seq<GroupView<Path>>,
    replies: Seq<Vec<Option<FileHash>>>,
    over: nat,
    read: Reading,
    part: GroupView<Path>,
    path: Path,
) -> (group: GroupView<Path>)
    requires
        are_read(stage, groups, replies, read),
        split_groups(stage, groups, replies, over).contains(part),
        part.files.contains(path),
    ensures
        groups.contains(group),
        group.files.contains(path),
        group.len == part.len,
        part.files == group.files.filter(is_like(stage, group.len, read, path)),
{
    parts_of_groups(stage, groups, replies, over);
    let i = choose|i: int|
        0 <= i < groups.len() && #[trigger] split_group(
            stage,
            groups[i],
            replies_at(replies, i),
            over,
        ).contains(part);
    let group = groups[i];
    let like = is_like(stage, group.len, read, path);
    parts_share_a_hash(stage, group, replies_at(replies, i), over, read, part);
    let a = choose|a: int| 0 <= a < part.files.len() && part.files[a] == path;
    if group.files.len() > 1 {
        let hashes = stage_hash(stage, group, read);
        let hash = part.hash->0;
        group.files.lemma_filter_pred(has_hash(hashes, hash), a);
        group.files.lemma_filter_contains_rev(has_hash(hashes, hash), path);
        assert(hashes(path) == Some(hash));
        assert forall|j: int| 0 <= j < group.files.len() implies (like(#[trigger] group.files[j])
            <==> has_hash(hashes, hash)(group.files[j])) by {}
        filter_alike(group.files, like, has_hash(hashes, hash));
    } else {
        assert forall|j: int| 0 <= j < group.files.len() implies like(#[trigger] group.files[j]) by {
            assert(j == a);
        }
        filter_all(group.files, like);
    }
    group
}

/// Files that no stage tells apart are copies, and copies are told apart by no stage.
proof fn alike_files_are_copies(
    group: GroupView<Path>,
    contents: spec_fn(Seq<u8>) -> Seq<u8>,
    hash: spec_fn(Seq<u8>) -> FileHash,
    path: Path,
    other: Path,
)
    requires
        is_told_apart(group, contents, hash),
        group.files.contains(path),
        group.files.contains(other),
    ensures
        ({
            let read = reading_of(contents, hash);
            is_copy_of(contents, path)(other) <==> {
                &&& is_like(Stage::Prefix, group.len, read, path)(other)
                &&& is_like(Stage::Suffix, group.len, read, path)(other)
                &&& is_like(Stage::Contents, group.len, read, path)(other)
            }
        }),
{
    let a = choose|a: int| 0 <= a < group.files.len() && group.files[a] == path;
    let b = choose|b: int| 0 <= b < group.files.len() && group.files[b] == other;
    let n = group.len.0 as int;
    assert(contents(group.files[a]@).len() == n);
    assert(contents(group.files[b]@).len() == n);
    assert(contents(path@).subrange(0, n) =~= contents(path@));
    assert(contents(other@).subrange(0, n) =~= contents(other@));
    let read = reading_of(contents, hash);
    assert(read(path@, FilePos(0), group.len) == Some(hash(contents(path@))));
    assert(read(other@, FilePos(0), group.len) == Some(hash(contents(other@))));
    if hash(contents(path@)) == hash(contents(other@)) {
        assert(contents(group.files[a]@) == contents(group.files[b]@));
    }
}

/// The copies of a file among the files of a group are what is left of the group after telling
/// files apart stage by stage.
proof fn copies_are_what_is_left(
    group: GroupView<Path>,
    contents: spec_fn(Seq<u8>) -> Seq<u8>,
    hash: spec_fn(Seq<u8>) -> FileHash,
    path: Path,
)
    requires
        is_told_apart(group, contents, hash),
        group.files.contains(path),
    ensures
        ({
            let read = reading_of(contents, hash);
            let copies = group.files.filter(is_copy_of(contents, path));
            let first = group.files.filter(is_like(Stage::Prefix, group.len, read, path));
            let second = first.filter(is_like(Stage::Suffix, group.len, read, path));
            let third = second.filter(is_like(Stage::Contents, group.len, read, path));
            &&& third == copies
            &&& copies.len() <= second.len() <= first.len()
            &&& first.contains(path)
            &&& second.contains(path)
            &&& third.contains(path)
        }),
{
    let read = reading_of(contents, hash);
    let p1 = is_like(Stage::Prefix, group.len, read, path);
    let p2 = is_like(Stage::Suffix, group.len, read, path);
    let p3 = is_like(Stage::Contents, group.len, read, path);
    let p12 = |other: Path| p1(other) && p2(other);
    let copy = is_copy_of(contents, path);
    let first = group.files.filter(p1);
    let second = first.filter(p2);
    filter_twice(group.files, p1, p2, p12);
    assert forall|i: int| 0 <= i < group.files.len() implies (copy(#[trigger] group.files[i]) <==> p12(
        group.files[i],
    ) && p3(group.files[i])) by {
        assert(group.files.contains(group.files[i]));
        alike_files_are_copies(group, contents, hash, path, group.files[i]);
    }
    filter_twice(group.files, p12, p3, copy);
    second.lemma_filter_len(p3);
    first.lemma_filter_len(p2);
    let a = choose|a: int| 0 <= a < group.files.len() && group.files[a] == path;
    group.files.lemma_filter_contains(p1, a);
    let b = choose|b: int| 0 <= b < first.len() && first[b] == path;
    first.lemma_filter_contains(p2, b);
    let c = choose|c: int| 0 <= c < second.len() && second[c] == path;
    second.lemma_filter_contains(p3, c);
}

/// If all files can be read, and no two different files of one length have the same hash, then the
/// copies of a file that a search looks at are reported as one group, all of them and nothing
/// else, unless there are too few or too many.
pub proof fn copies_are_reported(
    config: Config,
    files: Seq<FileInfo>,
    replies: Replies,
    contents: spec_fn(Seq<u8>) -> Seq<u8>,
    hash: spec_fn(Seq<u8>) -> FileHash,
    report: Seq<GroupView<Path>>,
    group: GroupView<Path>,
    path: Path,
)
    requires
        has_read(
            config,
            start_groups(config, files, replies),
            replies,
            reading_of(contents, hash),
        ),
        is_result(config, files, replies, report),
        start_groups(config, files, replies).contains(group),
        is_told_apart(group, contents, hash),
        group.files.contains(path),
        config.over() < group.files.filter(is_copy_of(contents, path)).len() < config.under(),
    ensures
        exists|m: int|
            0 <= m < report.len() && (#[trigger] report[m]).len == group.len
                && report[m].files.to_multiset() == group.files.filter(
                is_copy_of(contents, path),
            ).to_multiset(),
{
    let read = reading_of(contents, hash);
    let over = config.over() as nat;
    let start = start_groups(config, files, replies);
    let by_prefix = prefix_groups(config, start, replies);
    let by_suffix = suffix_groups(config, start, replies);
    let parts = contents_groups(config, start, replies);
    copies_are_what_is_left(group, contents, hash, path);
    let first = alike_files_are_a_part(
        Stage::Prefix,
        start,
        replies.prefixes@,
        over,
        read,
        group,
        path,
    );
    let second = alike_files_are_a_part(
        Stage::Suffix,
        by_prefix,
        replies.suffixes@,
        over,
        read,
        first,
        path,
    );
    let third = alike_files_are_a_part(
        Stage::Contents,
        by_suffix,
        replies.contents@,
        over,
        read,
        second,
        path,
    );
    let i = choose|i: int| 0 <= i < parts.len() && parts[i] == third;
    report_has_the_groups(parts, config.under(), report);
    assert(is_reported(parts[i], report));
    let m = choose|m: int| 0 <= m < report.len() && is_sorted_group(parts[i], #[trigger] report[m]);
    assert(report[m].len == group.len);
}

/// If all files can be read, and no two different files of one length have the same hash, then a
/// reported group is made of all copies of a file that the search looks at, and of nothing else.
pub proof fn reported_groups_are_copies(
    config: Config,
    files: Seq<FileInfo>,
    replies: Replies,
    contents: spec_fn(Seq<u8>) -> Seq<u8>,
    hash: spec_fn(Seq<u8>) -> FileHash,
    report: Seq<GroupView<Path>>,
    m: int,
) -> (source: (GroupView<Path>, Path))
    requires
        has_read(
            config,
            start_groups(config, files, replies),
            replies,
            reading_of(contents, hash),
        ),
        is_result(config, files, replies, report),
        0 <= m < report.len(),
        forall|group: GroupView<Path>| #[trigger]
            start_groups(config, files, replies).contains(group) ==> is_told_apart(
                group,
                contents,
                hash,
            ),
    ensures
        start_groups(config, files, replies).contains(source.0),
        source.0.files.contains(source.1),
        report[m].len == source.0.len,
        report[m].files.to_multiset() == source.0.files.filter(
            is_copy_of(contents, source.1),
        ).to_multiset(),
{
    let read = reading_of(contents, hash);
    let over = config.over() as nat;
    let start = start_groups(config, files, replies);
    let by_prefix = prefix_groups(config, start, replies);
    let by_suffix = suffix_groups(config, start, replies);
    let parts = contents_groups(config, start, replies);
    report_has_the_groups(parts, config.under(), report);
    assert(is_one_of(parts, config.under(), report[m]));
    let i = choose|i: int|
        0 <= i < parts.len() && parts[i].files.len() < config.under() && is_sorted_group(
            #[trigger] parts[i],
            report[m],
        );
    let third = parts[i];
    assert(parts.contains(third));
    parts_of_groups(Stage::Contents, by_suffix, replies.contents@, over);
    let n = choose|n: int|
        0 <= n < by_suffix.len() && #[trigger] split_group(
            Stage::Contents,
            by_suffix[n],
            replies_at(replies.contents@, n),
            over,
        ).contains(third);
    parts_share_a_hash(
        Stage::Contents,
        by_suffix[n],
        replies_at(replies.contents@, n),
        over,
        read,
        third,
    );
    let path = third.files[0];
    assert(third.files.contains(path));
    let second = part_is_alike_files(
        Stage::Contents,
        by_suffix,
        replies.contents@,
        over,
        read,
        third,
        path,
    );
    let first = part_is_alike_files(
        Stage::Suffix,
        by_prefix,
        replies.suffixes@,
        over,
        read,
        second,
        path,
    );
    let group = part_is_alike_files(
        Stage::Prefix,
        start,
        replies.prefixes@,
        over,
        read,
        first,
        path,
    );
    copies_are_what_is_left(group, contents, hash, path);
    (group, path)
}

/// Whether no file of a scan has two paths, going by the hashes of identifiers.
pub open spec fn has_no_links(files: Seq<FileInfo>) -> bool {
    forall|i: int, j: int|
        0 <= i < files.len() && 0 <= j < files.len() && (#[trigger] files[i]).path@ != (
        #[trigger] files[j]).path@ ==> files[i].id_hash != files[j].id_hash
}

/// If no names of files have to be left out, a search starts to hash all groups of files of one
/// length that are large enough.
pub proof fn group_is_started(config: Config, files: Seq<FileInfo>, replies: Replies, a: int)
    requires
        config.hard_links || has_no_links(files),
        0 <= a < groups_of_one_len(files).len(),
        groups_of_one_len(files)[a].files.len() >= config.over(),
    ensures
        start_groups(config, files, replies).contains(path_group(groups_of_one_len(files)[a])),
{
    let all = groups_of_one_len(files);
    let group = all[a];
    let keep = has_at_least::<FileInfoNoLen>(config.over() as nat);
    let groups = size_groups(config, files);
    let start = start_groups(config, files, replies);
    all.lemma_filter_contains(keep, a);
    let i = choose|i: int| 0 <= i < groups.len() && groups[i] == group;
    if config.hard_links {
        assert(start[i] == path_group(group));
    } else {
        let values = grouped(keyed_by_len(files))[a].1;
        let texts = path_texts(values);
        let positions = first_positions(texts);
        first_positions_are_first(texts);
        groups_are_of_one_len(files);
        let hashes = id_hashes(group.files);
        assert forall|x: int, y: int|
            0 <= x < hashes.len() && 0 <= y < hashes.len() && x != y implies hashes[x]
            != hashes[y] by {
            assert(is_scanned(files, group.files[x], group.len));
            assert(is_scanned(files, group.files[y], group.len));
            let k = choose|k: int|
                0 <= k < files.len() && #[trigger] files[k].without_len() == group.files[x]
                    && files[k].len == group.len;
            let l = choose|l: int|
                0 <= l < files.len() && #[trigger] files[l].without_len() == group.files[y]
                    && files[l].len == group.len;
            assert(positions.contains(positions[x]));
            assert(positions.contains(positions[y]));
            assert(x < y ==> positions[x] < positions[y]);
            assert(y < x ==> positions[y] < positions[x]);
            assert(texts[positions[x]] != texts[positions[y]]);
            assert(files[k].path@ == texts[positions[x]]);
            assert(files[l].path@ == texts[positions[y]]);
        }
        let pruned = pruned_groups(config, groups, replies.ids@);
        assert(pruned[i] =~= group);
        pruned.lemma_filter_contains(keep, i);
        let kept = pruned.filter(keep);
        let j = choose|j: int| 0 <= j < kept.len() && kept[j] == group;
        assert(start[j] == path_group(group));
    }
}

/// Whether a group holds a file at a path with the given text.
pub open spec fn holds(group: GroupView<Path>, text: Seq<u8>) -> bool {
    exists|j: int| 0 <= j < group.files.len() && (#[trigger] group.files[j])@ == text
}

/// Files of the scan that have the same contents are reported in one group: in a search for
/// duplicates (or for single files as well) without an upper bound, in which no names of files
/// have to be left out, all files can be read, and no two different files of one length have the
/// same hash.
pub proof fn copies_are_reported_together(
    config: Config,
    files: Seq<FileInfo>,
    replies: Replies,
    contents: spec_fn(Seq<u8>) -> Seq<u8>,
    hash: spec_fn(Seq<u8>) -> FileHash,
    report: Seq<GroupView<Path>>,
    k: int,
    l: int,
)
    requires
        config.hard_links || has_no_links(files),
        config.over() <= 1,
        files.len() < config.under(),
        has_read(
            config,
            start_groups(config, files, replies),
            replies,
            reading_of(contents, hash),
        ),
        is_result(config, files, replies, report),
        forall|group: GroupView<Path>| #[trigger]
            start_groups(config, files, replies).contains(group) ==> is_told_apart(
                group,
                contents,
                hash,
            ),
        0 <= k < files.len(),
        0 <= l < files.len(),
        files[k].path@ != files[l].path@,
        files[k].len == files[l].len,
        contents(files[k].path@) == contents(files[l].path@),
    ensures
        exists|m: int|
            0 <= m < report.len() && holds(#[trigger] report[m], files[k].path@) && holds(
                report[m],
                files[l].path@,
            ),
{
    let all = groups_of_one_len(files);
    groups_are_of_one_len(files);
    assert(is_grouped(all, files[k]));
    assert(is_grouped(all, files[l]));
    let (a, i) = choose|a: int, i: int|
        0 <= a < all.len() && 0 <= i < all[a].files.len() && all[a].len == files[k].len
            && #[trigger] all[a].files[i].path@ == files[k].path@;
    let (b, j) = choose|b: int, j: int|
        0 <= b < all.len() && 0 <= j < all[b].files.len() && all[b].len == files[l].len
            && #[trigger] all[b].files[j].path@ == files[l].path@;
    assert(a == b);
    assert(i != j);
    group_is_started(config, files, replies, a);
    let group = path_group(all[a]);
    let path = group.files[i];
    let other = group.files[j];
    let copy = is_copy_of(contents, path);
    let copies = group.files.filter(copy);
    assert(group.files.contains(path));
    group.files.lemma_filter_contains(copy, i);
    group.files.lemma_filter_contains(copy, j);
    let x = choose|x: int| 0 <= x < copies.len() && copies[x] == path;
    let y = choose|y: int| 0 <= y < copies.len() && copies[y] == other;
    assert(x != y);
    group.files.lemma_filter_len(copy);
    let pairs = keyed_by_len(files);
    let values = grouped(pairs)[a].1;
    values_are_fewer(pairs, grouped(pairs)[a].0);
    first_positions_of_distinct_keys(path_texts(values));
    copies_are_reported(config, files, replies, contents, hash, report, group, path);
    let m = choose|m: int|
        0 <= m < report.len() && (#[trigger] report[m]).len == group.len
            && report[m].files.to_multiset() == copies.to_multiset();
    same_files(copies, report[m].files);
    assert(report[m].files.contains(copies[x]));
    assert(report[m].files.contains(copies[y]));
    assert(holds(report[m], files[k].path@));
    assert(holds(report[m], files[l].path@));
}

/// Whether a group holds a file with the given identifier, by whatever name.
pub open spec fn holds_id(
    group: GroupView<Path>,
    id: spec_fn(Seq<u8>) -> FileId,
    file: FileId,
) -> bool {
    exists|j: int| 0 <= j < group.files.len() && id((#[trigger] group.files[j])@) == file
}

/// A name of each file of a group is left when other names are left out.
pub(crate) proof fn name_is_left(
    config: Config,
    groups: Seq<GroupView<FileInfoNoLen>>,
    ids: Seq<Vec<Option<FileId>>>,
    id: spec_fn(Seq<u8>) -> FileId,
    a: int,
    i: int,
) -> (left: int)
    requires
        !config.hard_links,
        are_ids(groups, ids, id),
        0 <= a < groups.len(),
        0 <= i < groups[a].files.len(),
    ensures
        0 <= left < pruned_groups(config, groups, ids)[a].files.len(),
        id(pruned_groups(config, groups, ids)[a].files[left].path@) == id(
            groups[a].files[i].path@,
        ),
{
    let members = groups[a].files;
    if id_hashes(members).no_duplicates() {
        i
    } else {
        let keys = link_keys(replies_at(ids, a), members.len());
        let positions = first_positions(keys);
        first_positions_are_first(keys);
        first_items(keys, members);
        assert(is_kept(keys, positions, i));
        let left = choose|left: int|
            0 <= left < positions.len() && keys[#[trigger] positions[left]] == keys[i];
        if let Ok(file) = keys[i] {
            assert(file == id(members[i].path@));
            assert(file == id(members[positions[left]].path@));
        }
        left
    }
}

/// A group has no more files than the scan, before and after other names are left out.
proof fn pruned_group_is_smaller(
    config: Config,
    files: Seq<FileInfo>,
    ids: Seq<Vec<Option<FileId>>>,
    c: int,
)
    requires
        0 <= c < size_groups(config, files).len(),
    ensures
        pruned_groups(config, size_groups(config, files), ids)[c].files.len() <= files.len(),
{
    let all = groups_of_one_len(files);
    let keep = has_at_least::<FileInfoNoLen>(config.over() as nat);
    let groups = size_groups(config, files);
    assert(groups.contains(groups[c]));
    all.lemma_filter_contains_rev(keep, groups[c]);
    let a = choose|a: int| 0 <= a < all.len() && all[a] == groups[c];
    let pairs = keyed_by_len(files);
    values_are_fewer(pairs, grouped(pairs)[a].0);
    first_positions_of_distinct_keys(path_texts(grouped(pairs)[a].1));
    first_positions_of_distinct_keys(link_keys(replies_at(ids, c), groups[c].files.len()));
}

/// Different files of the scan that have the same contents are reported in one group, each by one
/// of its names: in a search for duplicates (or for single files as well) without an upper bound,
/// in which names of one file do not count as copies, the contents of all files can be read, and no
/// two different files of one length have the same hash.
pub proof fn different_copies_are_reported_together(
    config: Config,
    files: Seq<FileInfo>,
    replies: Replies,
    id: spec_fn(Seq<u8>) -> FileId,
    id_hash: spec_fn(FileId) -> u64,
    contents: spec_fn(Seq<u8>) -> Seq<u8>,
    hash: spec_fn(Seq<u8>) -> FileHash,
    report: Seq<GroupView<Path>>,
    k: int,
    l: int,
)
    requires
        !config.hard_links,
        config.over() <= 1,
        files.len() < config.under(),
        agrees_with_ids(files, id, id_hash),
        are_ids(size_groups(config, files), replies.ids@, id),
        forall|x: Seq<u8>, y: Seq<u8>|
            id(x) == id(y) ==> #[trigger] contents(x) == #[trigger] contents(y),
        has_read(
            config,
            start_groups(config, files, replies),
            replies,
            reading_of(contents, hash),
        ),
        is_result(config, files, replies, report),
        forall|group: GroupView<Path>| #[trigger]
            start_groups(config, files, replies).contains(group) ==> is_told_apart(
                group,
                contents,
                hash,
            ),
        0 <= k < files.len(),
        0 <= l < files.len(),
        id(files[k].path@) != id(files[l].path@),
        files[k].len == files[l].len,
        contents(files[k].path@) == contents(files[l].path@),
    ensures
        exists|m: int|
            0 <= m < report.len() && holds_id(#[trigger] report[m], id, id(files[k].path@))
                && holds_id(report[m], id, id(files[l].path@)),
{
    let all = groups_of_one_len(files);
    let keep = has_at_least::<FileInfoNoLen>(config.over() as nat);
    let groups = size_groups(config, files);
    let pruned = pruned_groups(config, groups, replies.ids@);
    let kept = pruned.filter(keep);
    let start = start_groups(config, files, replies);
    groups_are_of_one_len(files);
    assert(is_grouped(all, files[k]));
    assert(is_grouped(all, files[l]));
    let (a, i) = choose|a: int, i: int|
        0 <= a < all.len() && 0 <= i < all[a].files.len() && all[a].len == files[k].len
            && #[trigger] all[a].files[i].path@ == files[k].path@;
    let (b, j) = choose|b: int, j: int|
        0 <= b < all.len() && 0 <= j < all[b].files.len() && all[b].len == files[l].len
            && #[trigger] all[b].files[j].path@ == files[l].path@;
    assert(a == b);
    assert(i != j);
    all.lemma_filter_contains(keep, a);
    let c = choose|c: int| 0 <= c < groups.len() && groups[c] == all[a];
    let x = name_is_left(config, groups, replies.ids@, id, c, i);
    let y = name_is_left(config, groups, replies.ids@, id, c, j);
    assert(x != y);
    pruned.lemma_filter_contains(keep, c);
    let d = choose|d: int| 0 <= d < kept.len() && kept[d] == pruned[c];
    let group = path_group(pruned[c]);
    assert(start[d] == group);
    assert(start.contains(group));
    let path = group.files[x];
    let other = group.files[y];
    assert(path@ == pruned[c].files[x].path@);
    assert(other@ == pruned[c].files[y].path@);
    let copy = is_copy_of(contents, path);
    let copies = group.files.filter(copy);
    assert(contents(path@) == contents(files[k].path@));
    assert(contents(other@) == contents(files[l].path@));
    assert(group.files.contains(path));
    group.files.lemma_filter_contains(copy, x);
    group.files.lemma_filter_contains(copy, y);
    let e = choose|e: int| 0 <= e < copies.len() && copies[e] == path;
    let f = choose|f: int| 0 <= f < copies.len() && copies[f] == other;
    assert(e != f);
    group.files.lemma_filter_len(copy);
    pruned_group_is_smaller(config, files, replies.ids@, c);
    copies_are_reported(config, files, replies, contents, hash, report, group, path);
    let m = choose|m: int|
        0 <= m < report.len() && (#[trigger] report[m]).len == group.len
            && report[m].files.to_multiset() == copies.to_multiset();
    same_files(copies, report[m].files);
    assert(report[m].files.contains(copies[e]));
    assert(report[m].files.contains(copies[f]));
    assert(holds_id(report[m], id, id(files[k].path@)));
    assert(holds_id(report[m], id, id(files[l].path@)));
}

} // verus!
