//! What a search is for: it reports each set of copies among the files that were found as one
//! group, if the settings ask for it, and nothing else.

use vstd::prelude::*;

use crate::config::{lengths_follow_the_settings, limits_follow_the_settings, Config};
use crate::copies::{
    copies_are_reported, is_copy_of, is_told_apart, reading_of, reported_groups_are_copies,
};
use crate::dedup::{has_new_id, id_hashes, pruned_links, pruning_goes_by_identifiers, reply};
use crate::files::{FileHash, FileId, FileInfo, FileInfoNoLen, FileLen, Path};
use crate::group::{first_index, GroupView};
use crate::laws::{
    answered_search_has_read, has_read, is_result, reported_groups_have_the_right_size, same_files,
    search_reports_a_result, start_groups, Replies,
};
use crate::limits::{are_read_ids, ids_of, pruned_alike, pruned_group, start_is_filtered};
use crate::paths::{groups_are_of_one_len, is_found};
use crate::process::{first_state, is_next_state, Reply, SearchView};
use crate::scans::{
    group_of_file, grouped_by_path, grouped_file_is_scanned, texts_are_different,
};
use crate::sizes::{
    all_files, every_listed_file_is_there, groups_of_one_len, has_at_least, is_listed, is_selected,
    path_groups, replies_at, size_groups,
};
use crate::splitting::are_answered;
use crate::stages::Stage;

verus! {

/// Whether the settings ask for groups of `n` files.
pub open spec fn wants_number(config: Config, n: nat) -> bool {
    &&& 0 < n < usize::MAX
    &&& config.rf_over matches Some(over) ==> n > over
    &&& config.rf_over is None && config.rf_under is None && !config.unique ==> n > 1
    &&& config.unique ==> n < 2
    &&& !config.unique ==> (config.rf_under matches Some(under) ==> n < under)
}

/// Whether the settings ask for files of a length.
pub open spec fn wants_len(config: Config, len: FileLen) -> bool {
    &&& config.min_size.0 <= len.0
    &&& config.max_size matches Some(max) ==> len.0 <= max.0
}

/// What the files that were found at the paths of a group are known by.
pub open spec fn known_in<X>(group: GroupView<Path>, known: spec_fn(Seq<u8>) -> X) -> Seq<X> {
    Seq::new(group.files.len(), |j: int| known(group.files[j].text@))
}

/// What the files are known by that were found, have a length that is asked for, and have the same
/// contents as the file at `text`.
pub open spec fn copies_in<X>(
    config: Config,
    lists: Seq<Vec<FileInfo>>,
    contents: spec_fn(Seq<u8>) -> Seq<u8>,
    known: spec_fn(Seq<u8>) -> X,
    text: Seq<u8>,
) -> Set<X> {
    Set::new(
        |x: X|
            exists|file: FileInfo|
                #![trigger is_listed(lists, file)]
                is_listed(lists, file) && wants_len(config, file.len) && contents(
                    file.path.text@,
                ) == contents(text) && known(file.path.text@) == x,
    )
}

/// Whether a group is made of the given files, each of them once.
pub open spec fn is_made_of<X>(
    group: GroupView<Path>,
    known: spec_fn(Seq<u8>) -> X,
    files: Set<X>,
) -> bool {
    known_in(group, known).to_set() == files && group.files.len() == files.len()
}

/// Whether the files that were found have the lengths that they were found with, and no two
/// different files of one length have the same hash.
pub open spec fn is_disk(
    lists: Seq<Vec<FileInfo>>,
    contents: spec_fn(Seq<u8>) -> Seq<u8>,
    hash: spec_fn(Seq<u8>) -> FileHash,
) -> bool {
    &&& forall|file: FileInfo| #[trigger]
        is_listed(lists, file) ==> contents(file.path.text@).len() == file.len.0
    &&& forall|one: FileInfo, other: FileInfo| #[trigger]
        is_listed(lists, one) && #[trigger] is_listed(lists, other) && one.len == other.len && hash(
            contents(one.path.text@),
        ) == hash(contents(other.path.text@)) ==> contents(one.path.text@) == contents(
            other.path.text@,
        )
}

/// Whether a search goes through these states, given replies that hold what was asked for.
pub open spec fn is_answered_search(
    config: Config,
    replies: Replies,
    contents: spec_fn(Seq<u8>) -> Seq<u8>,
    hash: spec_fn(Seq<u8>) -> FileHash,
    start: Seq<GroupView<Path>>,
    by_prefix: Seq<GroupView<Path>>,
    by_suffix: Seq<GroupView<Path>>,
    report: Seq<GroupView<Path>>,
) -> bool {
    let read = reading_of(contents, hash);
    let first = SearchView::Splitting(Stage::Prefix, start);
    let second = SearchView::Splitting(Stage::Suffix, by_prefix);
    let third = SearchView::Splitting(Stage::Contents, by_suffix);
    &&& are_answered(Stage::Prefix, start, replies.prefixes@, read)
    &&& are_answered(Stage::Suffix, by_prefix, replies.suffixes@, read)
    &&& are_answered(Stage::Contents, by_suffix, replies.contents@, read)
    &&& is_next_state(config, first, Reply::FileHashes(replies.prefixes), second)
    &&& is_next_state(config, second, Reply::FileHashes(replies.suffixes), third)
    &&& is_next_state(
        config,
        third,
        Reply::FileHashes(replies.contents),
        SearchView::Finished(report),
    )
}

/// Whether a report is right: each group is made of the copies of a file that was found, of a
/// length and in a number that are asked for, and all such copies are a group.
pub open spec fn is_right<X>(
    config: Config,
    lists: Seq<Vec<FileInfo>>,
    contents: spec_fn(Seq<u8>) -> Seq<u8>,
    known: spec_fn(Seq<u8>) -> X,
    report: Seq<GroupView<Path>>,
) -> bool {
    &&& forall|m: int|
        0 <= m < report.len() ==> is_right_group(
            config,
            lists,
            contents,
            known,
            #[trigger] report[m],
        )
    &&& forall|file: FileInfo| #[trigger]
        is_listed(lists, file) && wants_len(config, file.len) && wants_number(
            config,
            copies_in(config, lists, contents, known, file.path.text@).len(),
        ) ==> has_group_of(
            report,
            file.len,
            known,
            copies_in(config, lists, contents, known, file.path.text@),
        )
}

/// Whether a group is made of the copies of a file that was found, of a length and in a number that
/// are asked for.
pub open spec fn is_right_group<X>(
    config: Config,
    lists: Seq<Vec<FileInfo>>,
    contents: spec_fn(Seq<u8>) -> Seq<u8>,
    known: spec_fn(Seq<u8>) -> X,
    group: GroupView<Path>,
) -> bool {
    &&& wants_number(config, group.files.len())
    &&& exists|file: FileInfo| #[trigger]
        is_listed(lists, file) && wants_len(config, file.len) && group.len == file.len
            && is_made_of(
            group,
            known,
            copies_in(config, lists, contents, known, file.path.text@),
        )
}

/// Whether a report has a group of the given length and files.
pub open spec fn has_group_of<X>(
    report: Seq<GroupView<Path>>,
    len: FileLen,
    known: spec_fn(Seq<u8>) -> X,
    files: Set<X>,
) -> bool {
    exists|m: int|
        0 <= m < report.len() && (#[trigger] report[m]).len == len && is_made_of(
            report[m],
            known,
            files,
        )
}

/// A file is known by its path.
pub open spec fn by_path() -> spec_fn(Seq<u8>) -> Seq<u8> {
    |text: Seq<u8>| text
}

/// What the files of a list are known by that have the same contents as the file at `text`.
spec fn flat_copies<X>(
    files: Seq<FileInfo>,
    contents: spec_fn(Seq<u8>) -> Seq<u8>,
    known: spec_fn(Seq<u8>) -> X,
    text: Seq<u8>,
) -> Set<X> {
    Set::new(
        |x: X|
            exists|k: int|
                0 <= k < files.len() && contents((#[trigger] files[k]).path@) == contents(text)
                    && known(files[k].path@) == x,
    )
}

/// The files that are searched are those found whose length is asked for.
proof fn searched_files(config: Config, lists: Seq<Vec<FileInfo>>, file: FileInfo)
    ensures
        all_files(lists).filter(is_selected(config)).contains(file) <==> is_listed(lists, file)
            && wants_len(config, file.len),
{
    let all = all_files(lists);
    let select = is_selected(config);
    every_listed_file_is_there(lists);
    lengths_follow_the_settings(config, file.len);
    if all.filter(select).contains(file) {
        all.lemma_filter_contains_rev(select, file);
        let k = choose|k: int| 0 <= k < all.filter(select).len() && all.filter(select)[k] == file;
        all.lemma_filter_pred(select, k);
    }
    if is_listed(lists, file) && wants_len(config, file.len) {
        let (i, j) = choose|i: int, j: int|
            0 <= i < lists.len() && 0 <= j < lists[i]@.len() && #[trigger] lists[i]@[j] == file;
        assert(all.contains(lists[i]@[j]));
        let k = choose|k: int| 0 <= k < all.len() && all[k] == file;
        all.lemma_filter_contains(select, k);
    }
}

/// The copies are the same, whether they are looked for in the lists or among the files that are
/// searched.
proof fn copies_are_flat<X>(
    config: Config,
    lists: Seq<Vec<FileInfo>>,
    contents: spec_fn(Seq<u8>) -> Seq<u8>,
    known: spec_fn(Seq<u8>) -> X,
    text: Seq<u8>,
)
    ensures
        copies_in(config, lists, contents, known, text) == flat_copies(
            all_files(lists).filter(is_selected(config)),
            contents,
            known,
            text,
        ),
{
    let files = all_files(lists).filter(is_selected(config));
    let one = copies_in(config, lists, contents, known, text);
    let other = flat_copies(files, contents, known, text);
    assert forall|x: X| #[trigger] one.contains(x) <==> other.contains(x) by {
        if one.contains(x) {
            let file = choose|file: FileInfo|
                #![trigger is_listed(lists, file)]
                is_listed(lists, file) && wants_len(config, file.len) && contents(
                    file.path.text@,
                ) == contents(text) && known(file.path.text@) == x;
            searched_files(config, lists, file);
            let k = choose|k: int| 0 <= k < files.len() && files[k] == file;
            assert(contents(files[k].path@) == contents(text));
        }
        if other.contains(x) {
            let k = choose|k: int|
                0 <= k < files.len() && contents((#[trigger] files[k]).path@) == contents(text)
                    && known(files[k].path@) == x;
            assert(files.contains(files[k]));
            searched_files(config, lists, files[k]);
            assert(is_listed(lists, files[k]));
        }
    }
    assert(one =~= other);
}

/// Whether one of the groups has a file under what it is known by.
spec fn has_candidate<X>(
    groups: Seq<GroupView<Path>>,
    file: FileInfo,
    known: spec_fn(Seq<u8>) -> X,
) -> bool {
    exists|a: int, i: int|
        0 <= a < groups.len() && 0 <= i < groups[a].files.len() && groups[a].len == file.len
            && known((#[trigger] groups[a].files[i])@) == known(file.path@)
}

/// Whether groups have the files that are searched, by length, and each of them once.
spec fn are_candidates<X>(
    groups: Seq<GroupView<Path>>,
    files: Seq<FileInfo>,
    known: spec_fn(Seq<u8>) -> X,
) -> bool {
    &&& forall|k: int|
        0 <= k < files.len() ==> has_candidate(groups, #[trigger] files[k], known)
    &&& forall|a: int, i: int|
        0 <= a < groups.len() && 0 <= i < groups[a].files.len() ==> is_found(
            files,
            #[trigger] groups[a].files[i],
            groups[a].len,
        )
    &&& forall|a: int, x: int, y: int|
        0 <= a < groups.len() && 0 <= x < y < groups[a].files.len() ==> known(
            (#[trigger] groups[a].files[x])@,
        ) != known((#[trigger] groups[a].files[y])@)
    &&& forall|a: int, b: int|
        0 <= a < b < groups.len() ==> (#[trigger] groups[a]).len != (#[trigger] groups[b]).len
}

/// Leaving out files leaves files that are known by different things.
proof fn known_stay_different<X>(
    files: Seq<Path>,
    known: spec_fn(Seq<u8>) -> X,
    keep: spec_fn(Path) -> bool,
)
    requires
        forall|x: int, y: int|
            0 <= x < y < files.len() ==> known((#[trigger] files[x])@) != known(
                (#[trigger] files[y])@,
            ),
    ensures
        forall|x: int, y: int|
            0 <= x < y < files.filter(keep).len() ==> known((#[trigger] files.filter(keep)[x])@)
                != known((#[trigger] files.filter(keep)[y])@),
    decreases files.len(),
{
    reveal(Seq::filter);
    if files.len() > 0 {
        let init = files.drop_last();
        let n = files.len() - 1;
        assert forall|x: int, y: int| 0 <= x < y < init.len() implies known(
            (#[trigger] init[x])@,
        ) != known((#[trigger] init[y])@) by {
            assert(init[x] == files[x] && init[y] == files[y]);
        }
        known_stay_different(init, known, keep);
        let before = init.filter(keep);
        if keep(files[n]) {
            assert forall|x: int| 0 <= x < before.len() implies known((#[trigger] before[x])@)
                != known(files[n]@) by {
                assert(before.contains(before[x]));
                init.lemma_filter_contains_rev(keep, before[x]);
                let i = choose|i: int| 0 <= i < init.len() && init[i] == before[x];
                assert(known(files[i]@) != known(files[n]@));
            }
        }
    }
}

/// Whether the files that are searched have the lengths that they were found with, and what a file
/// is known by fixes its contents.
spec fn fits<X>(
    files: Seq<FileInfo>,
    contents: spec_fn(Seq<u8>) -> Seq<u8>,
    known: spec_fn(Seq<u8>) -> X,
) -> bool {
    &&& forall|k: int|
        0 <= k < files.len() ==> contents((#[trigger] files[k]).path@).len() == files[k].len.0
    &&& forall|x: Seq<u8>, y: Seq<u8>| #[trigger]
        known(x) == #[trigger] known(y) ==> contents(x) == contents(y)
}

/// A copy of a file in its group is a copy among the files that are searched.
proof fn copy_is_searched<X>(
    groups: Seq<GroupView<Path>>,
    files: Seq<FileInfo>,
    contents: spec_fn(Seq<u8>) -> Seq<u8>,
    known: spec_fn(Seq<u8>) -> X,
    a: int,
    path: Path,
    other: Path,
)
    requires
        are_candidates(groups, files, known),
        0 <= a < groups.len(),
        groups[a].files.filter(is_copy_of(contents, path)).contains(other),
    ensures
        flat_copies(files, contents, known, path@).contains(known(other@)),
{
    let copy = is_copy_of(contents, path);
    let copies = groups[a].files.filter(copy);
    let j = choose|j: int| 0 <= j < copies.len() && copies[j] == other;
    groups[a].files.lemma_filter_pred(copy, j);
    groups[a].files.lemma_filter_contains_rev(copy, other);
    let l = choose|l: int| 0 <= l < groups[a].files.len() && groups[a].files[l] == other;
    let k = found_at(groups, files, known, a, l);
    assert(contents(files[k].path@) == contents(path@));
}

/// A copy among the files that are searched is, by what it is known by, a copy in the group.
proof fn searched_copy_is_there<X>(
    groups: Seq<GroupView<Path>>,
    files: Seq<FileInfo>,
    contents: spec_fn(Seq<u8>) -> Seq<u8>,
    known: spec_fn(Seq<u8>) -> X,
    a: int,
    i: int,
    k: int,
) -> (other: Path)
    requires
        are_candidates(groups, files, known),
        fits(files, contents, known),
        0 <= a < groups.len(),
        0 <= i < groups[a].files.len(),
        0 <= k < files.len(),
        contents(files[k].path@) == contents(groups[a].files[i]@),
    ensures
        groups[a].files.filter(is_copy_of(contents, groups[a].files[i])).contains(other),
        known(other@) == known(files[k].path@),
{
    let path = groups[a].files[i];
    let copy = is_copy_of(contents, path);
    let p = found_at(groups, files, known, a, i);
    assert(contents(files[p].path@).len() == files[p].len.0);
    assert(contents(files[k].path@).len() == files[k].len.0);
    assert(has_candidate(groups, files[k], known));
    let (b, l) = choose|b: int, l: int|
        0 <= b < groups.len() && 0 <= l < groups[b].files.len() && groups[b].len == files[k].len
            && known((#[trigger] groups[b].files[l])@) == known(files[k].path@);
    assert(groups[b].len == groups[a].len);
    assert(a == b);
    assert(copy(groups[a].files[l]));
    groups[a].files.lemma_filter_contains(copy, l);
    groups[a].files[l]
}

/// Groups with the same files have files that are known by the same things.
proof fn same_files_are_known_alike<X>(
    one: Seq<Path>,
    other: GroupView<Path>,
    known: spec_fn(Seq<u8>) -> X,
)
    requires
        one.to_multiset() == other.files.to_multiset(),
    ensures
        Seq::new(one.len(), |j: int| known(one[j]@)).to_set() == known_in(other, known).to_set(),
        one.len() == other.files.len(),
{
    let keys = Seq::new(one.len(), |j: int| known(one[j]@));
    let seen = known_in(other, known);
    same_files(one, other.files);
    assert forall|x: X| #[trigger] seen.to_set().contains(x) <==> keys.to_set().contains(x) by {
        if seen.contains(x) {
            let j = choose|j: int| 0 <= j < seen.len() && seen[j] == x;
            assert(one.contains(other.files[j]));
            let l = choose|l: int| 0 <= l < one.len() && one[l] == other.files[j];
            assert(keys[l] == x);
        }
        if keys.contains(x) {
            let j = choose|j: int| 0 <= j < keys.len() && keys[j] == x;
            assert(other.files.contains(one[j]));
            let l = choose|l: int| 0 <= l < other.files.len() && other.files[l] == one[j];
            assert(seen[l] == x);
        }
    }
    assert(seen.to_set() =~= keys.to_set());
}

/// The copies of a file in its group are all the copies among the files that are searched.
proof fn copies_are_in_the_group<X>(
    groups: Seq<GroupView<Path>>,
    files: Seq<FileInfo>,
    contents: spec_fn(Seq<u8>) -> Seq<u8>,
    known: spec_fn(Seq<u8>) -> X,
    a: int,
    i: int,
    reported: GroupView<Path>,
)
    requires
        are_candidates(groups, files, known),
        fits(files, contents, known),
        0 <= a < groups.len(),
        0 <= i < groups[a].files.len(),
        reported.files.to_multiset() == groups[a].files.filter(
            is_copy_of(contents, groups[a].files[i]),
        ).to_multiset(),
    ensures
        is_made_of(reported, known, flat_copies(files, contents, known, groups[a].files[i]@)),
{
    let path = groups[a].files[i];
    let copy = is_copy_of(contents, path);
    let copies = groups[a].files.filter(copy);
    let set = flat_copies(files, contents, known, path@);
    let keys = Seq::new(copies.len(), |j: int| known(copies[j]@));
    assert forall|x: X| #[trigger] keys.to_set().contains(x) <==> set.contains(x) by {
        if keys.contains(x) {
            let j = choose|j: int| 0 <= j < keys.len() && keys[j] == x;
            assert(copies.contains(copies[j]));
            copy_is_searched(groups, files, contents, known, a, path, copies[j]);
        }
        if set.contains(x) {
            let k = choose|k: int|
                0 <= k < files.len() && contents((#[trigger] files[k]).path@) == contents(path@)
                    && known(files[k].path@) == x;
            let other = searched_copy_is_there(groups, files, contents, known, a, i, k);
            let j = choose|j: int| 0 <= j < copies.len() && copies[j] == other;
            assert(keys[j] == x);
        }
    }
    assert(keys.to_set() =~= set);
    assert(keys.no_duplicates()) by {
        known_stay_different(groups[a].files, known, copy);
        assert forall|x: int, y: int|
            0 <= x < keys.len() && 0 <= y < keys.len() && x != y implies keys[x] != keys[y] by {
            if x < y {
                assert(known(copies[x]@) != known(copies[y]@));
            } else {
                assert(known(copies[y]@) != known(copies[x]@));
            }
        }
    }
    keys.unique_seq_to_set();
    same_files_are_known_alike(copies, reported, known);
}

/// The settings ask for the numbers between the limits.
proof fn wanted_numbers(config: Config, n: nat)
    ensures
        wants_number(config, n) <==> config.over() < n < config.under(),
{
    limits_follow_the_settings(config);
}

/// Files in candidates are told apart.
proof fn candidates_are_told_apart<X>(
    groups: Seq<GroupView<Path>>,
    config: Config,
    lists: Seq<Vec<FileInfo>>,
    contents: spec_fn(Seq<u8>) -> Seq<u8>,
    hash: spec_fn(Seq<u8>) -> FileHash,
    known: spec_fn(Seq<u8>) -> X,
    a: int,
)
    requires
        are_candidates(groups, all_files(lists).filter(is_selected(config)), known),
        is_disk(lists, contents, hash),
        0 <= a < groups.len(),
    ensures
        is_told_apart(groups[a], contents, hash),
{
    let files = all_files(lists).filter(is_selected(config));
    let group = groups[a];
    assert forall|i: int| 0 <= i < group.files.len() implies contents(
        (#[trigger] group.files[i])@,
    ).len() == group.len.0 by {
        let k = found_at(groups, files, known, a, i);
        searched_files(config, lists, files[k]);
    }
    assert forall|i: int, j: int|
        0 <= i < group.files.len() && 0 <= j < group.files.len() && hash(
            contents((#[trigger] group.files[i])@),
        ) == hash(contents((#[trigger] group.files[j])@)) implies contents(group.files[i]@)
        == contents(group.files[j]@) by {
        let k = found_at(groups, files, known, a, i);
        let l = found_at(groups, files, known, a, j);
        searched_files(config, lists, files[k]);
        searched_files(config, lists, files[l]);
        assert(is_listed(lists, files[k]) && is_listed(lists, files[l]));
    }
}

/// Where a file of a candidate was found.
proof fn found_at<X>(
    groups: Seq<GroupView<Path>>,
    files: Seq<FileInfo>,
    known: spec_fn(Seq<u8>) -> X,
    a: int,
    i: int,
) -> (k: int)
    requires
        are_candidates(groups, files, known),
        0 <= a < groups.len(),
        0 <= i < groups[a].files.len(),
    ensures
        0 <= k < files.len(),
        files.contains(files[k]),
        files[k].path == groups[a].files[i],
        files[k].len == groups[a].len,
{
    assert(is_found(files, groups[a].files[i], groups[a].len));
    choose|k: int|
        0 <= k < files.len() && (#[trigger] files[k]).path == groups[a].files[i] && files[k].len
            == groups[a].len
}

/// A search that starts with candidates reports what it should.
proof fn candidates_are_reported<X>(
    config: Config,
    lists: Seq<Vec<FileInfo>>,
    replies: Replies,
    contents: spec_fn(Seq<u8>) -> Seq<u8>,
    hash: spec_fn(Seq<u8>) -> FileHash,
    known: spec_fn(Seq<u8>) -> X,
    groups: Seq<GroupView<Path>>,
    report: Seq<GroupView<Path>>,
)
    requires
        is_disk(lists, contents, hash),
        forall|x: Seq<u8>, y: Seq<u8>| #[trigger]
            known(x) == #[trigger] known(y) ==> contents(x) == contents(y),
        are_candidates(groups, all_files(lists).filter(is_selected(config)), known),
        start_groups(config, all_files(lists).filter(is_selected(config)), replies)
            == groups.filter(has_at_least(config.over() as nat)),
        has_read(
            config,
            start_groups(config, all_files(lists).filter(is_selected(config)), replies),
            replies,
            reading_of(contents, hash),
        ),
        is_result(config, all_files(lists).filter(is_selected(config)), replies, report),
    ensures
        is_right(config, lists, contents, known, report),
{
    let files = all_files(lists).filter(is_selected(config));
    let start = start_groups(config, files, replies);
    let keep = has_at_least::<Path>(config.over() as nat);
    assert forall|k: int| 0 <= k < files.len() implies contents((#[trigger] files[k]).path@).len()
        == files[k].len.0 by {
        assert(files.contains(files[k]));
        searched_files(config, lists, files[k]);
        assert(is_listed(lists, files[k]));
    }
    assert(fits(files, contents, known));
    assert forall|group: GroupView<Path>| #[trigger] start.contains(group) implies is_told_apart(
        group,
        contents,
        hash,
    ) by {
        groups.lemma_filter_contains_rev(keep, group);
        let a = choose|a: int| 0 <= a < groups.len() && groups[a] == group;
        candidates_are_told_apart(groups, config, lists, contents, hash, known, a);
    }
    assert forall|m: int| 0 <= m < report.len() implies is_right_group(
        config,
        lists,
        contents,
        known,
        #[trigger] report[m],
    ) by {
        let (group, path) = reported_groups_are_copies(
            config,
            files,
            replies,
            contents,
            hash,
            report,
            m,
        );
        groups.lemma_filter_contains_rev(keep, group);
        let a = choose|a: int| 0 <= a < groups.len() && groups[a] == group;
        let i = choose|i: int| 0 <= i < group.files.len() && group.files[i] == path;
        copies_are_in_the_group(groups, files, contents, known, a, i, report[m]);
        let k = found_at(groups, files, known, a, i);
        searched_files(config, lists, files[k]);
        copies_are_flat(config, lists, contents, known, path@);
        reported_groups_have_the_right_size(config, files, replies, report, m);
        wanted_numbers(config, report[m].files.len());
        assert(is_listed(lists, files[k]));
    }
    assert forall|file: FileInfo| #[trigger]
        is_listed(lists, file) && wants_len(config, file.len) && wants_number(
            config,
            copies_in(config, lists, contents, known, file.path.text@).len(),
        ) implies has_group_of(
        report,
        file.len,
        known,
        copies_in(config, lists, contents, known, file.path.text@),
    ) by {
        searched_files(config, lists, file);
        let k = choose|k: int| 0 <= k < files.len() && files[k] == file;
        assert(has_candidate(groups, files[k], known));
        let (a, i) = choose|a: int, i: int|
            0 <= a < groups.len() && 0 <= i < groups[a].files.len() && groups[a].len == file.len
                && known((#[trigger] groups[a].files[i])@) == known(file.path@);
        let path = groups[a].files[i];
        let copy = is_copy_of(contents, path);
        let copies = groups[a].files.filter(copy);
        let set = copies_in(config, lists, contents, known, file.path.text@);
        copies_are_flat(config, lists, contents, known, file.path.text@);
        assert(flat_copies(files, contents, known, file.path@) =~= flat_copies(
            files,
            contents,
            known,
            path@,
        ));
        copies_are_in_the_group(
            groups,
            files,
            contents,
            known,
            a,
            i,
            GroupView { len: file.len, hash: None, files: copies },
        );
        wanted_numbers(config, set.len());
        groups[a].files.lemma_filter_len(copy);
        groups.lemma_filter_contains(keep, a);
        assert(start.contains(groups[a]));
        assert(groups[a].files.contains(path));
        copies_are_reported(config, files, replies, contents, hash, report, groups[a], path);
        let m = choose|m: int|
            0 <= m < report.len() && (#[trigger] report[m]).len == groups[a].len
                && report[m].files.to_multiset() == copies.to_multiset();
        copies_are_in_the_group(groups, files, contents, known, a, i, report[m]);
        assert(is_made_of(report[m], known, set));
    }
}

/// What a search is for, if the names of one file count as copies. Given what it asks for, a search
/// among the files that were found reports the paths of each set of copies as one group, if the
/// settings ask for files of that length and for so many of them, and it reports nothing else.
pub proof fn search_reports_the_copies(
    config: Config,
    lists: Seq<Vec<FileInfo>>,
    replies: Replies,
    contents: spec_fn(Seq<u8>) -> Seq<u8>,
    hash: spec_fn(Seq<u8>) -> FileHash,
    start: Seq<GroupView<Path>>,
    by_prefix: Seq<GroupView<Path>>,
    by_suffix: Seq<GroupView<Path>>,
    report: Seq<GroupView<Path>>,
)
    requires
        config.hard_links,
        is_disk(lists, contents, hash),
        first_state(config, all_files(lists).filter(is_selected(config))) == SearchView::Splitting(
            Stage::Prefix,
            start,
        ),
        is_answered_search(
            config,
            replies,
            contents,
            hash,
            start,
            by_prefix,
            by_suffix,
            report,
        ),
    ensures
        is_right(config, lists, contents, by_path(), report),
{
    let files = all_files(lists).filter(is_selected(config));
    let all = groups_of_one_len(files);
    let groups = path_groups(all);
    let known = by_path();
    search_reports_a_result(
        config,
        files,
        replies,
        SearchView::Splitting(Stage::Prefix, start),
        SearchView::Splitting(Stage::Suffix, by_prefix),
        SearchView::Splitting(Stage::Contents, by_suffix),
        SearchView::Finished(report),
    );
    answered_search_has_read(config, start, replies, reading_of(contents, hash));
    let same = start_is_filtered(config, files, replies, |text: Seq<u8>| None);
    groups_are_of_one_len(files);
    assert forall|k: int| 0 <= k < files.len() implies has_candidate(
        groups,
        #[trigger] files[k],
        known,
    ) by {
        let a = group_of_file(files, k);
        let i = grouped_by_path(files, k, a);
        assert(known(groups[a].files[i]@) == known(files[k].path@));
    }
    assert forall|a: int, i: int|
        0 <= a < groups.len() && 0 <= i < groups[a].files.len() implies is_found(
        files,
        #[trigger] groups[a].files[i],
        groups[a].len,
    ) by {
        let k = grouped_file_is_scanned(files, a, i);
        assert(files[k].path == groups[a].files[i]);
    }
    assert forall|a: int, x: int, y: int|
        0 <= a < groups.len() && 0 <= x < y < groups[a].files.len() implies known(
        (#[trigger] groups[a].files[x])@,
    ) != known((#[trigger] groups[a].files[y])@) by {
        texts_are_different(files, a);
        assert(all[a].files[x].path@ != all[a].files[y].path@);
    }
    assert forall|a: int, b: int| 0 <= a < b < groups.len() implies (#[trigger] groups[a]).len != (
    #[trigger] groups[b]).len by {
        assert(all[a].len != all[b].len);
    }
    candidates_are_reported(config, lists, replies, contents, hash, known, groups, report);
}

/// Whether the identifiers are what was asked for: for each group with equal hashes of identifiers,
/// the identifier of each of its files.
pub open spec fn are_answered_ids(
    groups: Seq<GroupView<FileInfoNoLen>>,
    ids: Seq<Vec<Option<FileId>>>,
    id: spec_fn(Seq<u8>) -> FileId,
) -> bool {
    forall|i: int, j: int, x: int, y: int|
        0 <= i < groups.len() && 0 <= j < groups[i].files.len() && 0 <= x < y
            < groups[i].files.len() && (#[trigger] groups[i].files[x]).id_hash == (
        #[trigger] groups[i].files[y]).id_hash ==> i < ids.len() && j < ids[i]@.len() && ids[i]@[j]
            == Some(id((#[trigger] groups[i].files[j]).path.text@))
}

/// Identifiers that are what was asked for were read.
proof fn answered_ids_are_read(
    groups: Seq<GroupView<FileInfoNoLen>>,
    ids: Seq<Vec<Option<FileId>>>,
    id: spec_fn(Seq<u8>) -> FileId,
    read: spec_fn(Seq<u8>) -> Option<FileId>,
)
    requires
        are_answered_ids(groups, ids, id),
        forall|text: Seq<u8>| #[trigger] read(text) == Some(id(text)),
    ensures
        are_read_ids(groups, ids, read),
{
    assert forall|i: int, j: int|
        0 <= i < groups.len() && 0 <= j < groups[i].files.len() && !id_hashes(
            groups[i].files,
        ).no_duplicates() implies reply(replies_at(ids, i), j) == read(
        (#[trigger] groups[i].files[j]).path@,
    ) by {
        let files = groups[i].files;
        let hashes = id_hashes(files);
        let (x, y) = choose|x: int, y: int|
            0 <= x < hashes.len() && 0 <= y < hashes.len() && x != y && hashes[x] == hashes[y];
        let (x, y) = if x < y {
            (x, y)
        } else {
            (y, x)
        };
        assert(groups[i].files[x].id_hash == groups[i].files[y].id_hash);
        assert(ids[i]@[j] == Some(id(groups[i].files[j].path.text@)));
    }
}

/// What is left of a group when other names of files are left out: a name of each file, and no
/// second one.
proof fn one_name_is_left(
    config: Config,
    group: GroupView<FileInfoNoLen>,
    id: spec_fn(Seq<u8>) -> FileId,
    id_hash: spec_fn(FileId) -> u64,
    read: spec_fn(Seq<u8>) -> Option<FileId>,
)
    requires
        !config.hard_links,
        forall|text: Seq<u8>| #[trigger] read(text) == Some(id(text)),
        forall|i: int|
            0 <= i < group.files.len() ==> (#[trigger] group.files[i]).id_hash == id_hash(
                id(group.files[i].path@),
            ),
    ensures
        ({
            let left = pruned_group(config, group, read).files;
            &&& forall|i: int|
                0 <= i < group.files.len() ==> is_left(left, id, #[trigger] group.files[i])
            &&& forall|a: int|
                0 <= a < left.len() ==> group.files.contains(#[trigger] left[a])
            &&& forall|a: int, b: int|
                0 <= a < b < left.len() ==> id((#[trigger] left[a]).path@) != id(
                    (#[trigger] left[b]).path@,
                )
        }),
{
    let files = group.files;
    let ids = ids_of(files, read);
    let left = pruned_links(config, files, ids);
    let positions = pruning_goes_by_identifiers(config, files, ids);
    let alike = exists|i: int, j: int|
        0 <= i < j < files.len() && (#[trigger] files[i]).id_hash == (#[trigger] files[j]).id_hash;
    assert forall|i: int| 0 <= i < files.len() implies is_left(left, id, #[trigger] files[i]) by {
        if alike {
            let first = first_index(ids, ids[i], i);
            assert(has_new_id(ids, first));
            assert(positions.contains(first));
            let a = choose|a: int| 0 <= a < positions.len() && positions[a] == first;
            assert(left[a] == files[positions[a]]);
            assert(id(left[a].path@) == id(files[i].path@));
        } else {
            assert(left[i] == files[i]);
        }
    }
    assert forall|a: int, b: int| 0 <= a < b < left.len() implies id((#[trigger] left[a]).path@)
        != id((#[trigger] left[b]).path@) by {
        assert(positions[a] < positions[b]);
        assert(left[a] == files[positions[a]] && left[b] == files[positions[b]]);
        if alike {
            assert(positions.contains(positions[b]));
            assert(has_new_id(ids, positions[b]));
            assert(ids[positions[a]] != ids[positions[b]]);
        } else {
            assert(files[positions[a]].id_hash != files[positions[b]].id_hash);
        }
    }
}

/// Whether a name of a file is left.
spec fn is_left(
    left: Seq<FileInfoNoLen>,
    id: spec_fn(Seq<u8>) -> FileId,
    file: FileInfoNoLen,
) -> bool {
    exists|a: int| 0 <= a < left.len() && id((#[trigger] left[a]).path@) == id(file.path@)
}

/// What a search is for, if the names of one file do not count as copies. Given what it asks for, a
/// search among the files that were found reports each set of files with the same contents as one
/// group, each file by one of its names, if the settings ask for files of that length and for so
/// many of them, and it reports nothing else.
pub proof fn search_reports_the_copies_by_one_name(
    config: Config,
    lists: Seq<Vec<FileInfo>>,
    replies: Replies,
    contents: spec_fn(Seq<u8>) -> Seq<u8>,
    hash: spec_fn(Seq<u8>) -> FileHash,
    id: spec_fn(Seq<u8>) -> FileId,
    id_hash: spec_fn(FileId) -> u64,
    found: Seq<GroupView<FileInfoNoLen>>,
    start: Seq<GroupView<Path>>,
    by_prefix: Seq<GroupView<Path>>,
    by_suffix: Seq<GroupView<Path>>,
    report: Seq<GroupView<Path>>,
)
    requires
        !config.hard_links,
        is_disk(lists, contents, hash),
        forall|x: Seq<u8>, y: Seq<u8>| #[trigger]
            id(x) == #[trigger] id(y) ==> contents(x) == contents(y),
        forall|file: FileInfo| #[trigger]
            is_listed(lists, file) ==> file.id_hash == id_hash(id(file.path.text@)),
        first_state(config, all_files(lists).filter(is_selected(config)))
            == SearchView::PruningLinks(found),
        are_answered_ids(found, replies.ids@, id),
        is_next_state(
            config,
            SearchView::PruningLinks(found),
            Reply::FileIds(replies.ids),
            SearchView::Splitting(Stage::Prefix, start),
        ),
        is_answered_search(
            config,
            replies,
            contents,
            hash,
            start,
            by_prefix,
            by_suffix,
            report,
        ),
    ensures
        is_right(config, lists, contents, id, report),
{
    let files = all_files(lists).filter(is_selected(config));
    let read = |text: Seq<u8>| Some(id(text));
    let all = groups_of_one_len(files);
    search_reports_a_result(
        config,
        files,
        replies,
        SearchView::Splitting(Stage::Prefix, start),
        SearchView::Splitting(Stage::Suffix, by_prefix),
        SearchView::Splitting(Stage::Contents, by_suffix),
        SearchView::Finished(report),
    );
    answered_search_has_read(config, start, replies, reading_of(contents, hash));
    answered_ids_are_read(size_groups(config, files), replies.ids@, id, read);
    let pruned = start_is_filtered(config, files, replies, read);
    pruned_groups_are_candidates(config, lists, id, id_hash, read);
    candidates_are_reported(
        config,
        lists,
        replies,
        contents,
        hash,
        id,
        path_groups(pruned),
        report,
    );
}

/// The groups without other names of files have each file that is searched once.
proof fn pruned_groups_are_candidates(
    config: Config,
    lists: Seq<Vec<FileInfo>>,
    id: spec_fn(Seq<u8>) -> FileId,
    id_hash: spec_fn(FileId) -> u64,
    read: spec_fn(Seq<u8>) -> Option<FileId>,
)
    requires
        !config.hard_links,
        forall|text: Seq<u8>| #[trigger] read(text) == Some(id(text)),
        forall|file: FileInfo| #[trigger]
            is_listed(lists, file) ==> file.id_hash == id_hash(id(file.path.text@)),
    ensures
        ({
            let files = all_files(lists).filter(is_selected(config));
            are_candidates(
                path_groups(pruned_alike(config, groups_of_one_len(files), read)),
                files,
                id,
            )
        }),
{
    let files = all_files(lists).filter(is_selected(config));
    let all = groups_of_one_len(files);
    let pruned = pruned_alike(config, all, read);
    let groups = path_groups(pruned);
    groups_are_of_one_len(files);
    assert forall|a: int, i: int|
        0 <= a < all.len() && 0 <= i < all[a].files.len() implies (
    #[trigger] all[a].files[i]).id_hash == id_hash(id(all[a].files[i].path@)) by {
        let k = grouped_file_is_scanned(files, a, i);
        assert(files.contains(files[k]));
        searched_files(config, lists, files[k]);
        assert(is_listed(lists, files[k]));
    }
    assert forall|k: int| 0 <= k < files.len() implies has_candidate(
        groups,
        #[trigger] files[k],
        id,
    ) by {
        let a = group_of_file(files, k);
        let i = grouped_by_path(files, k, a);
        one_name_is_left(config, all[a], id, id_hash, read);
        assert(is_left(pruned[a].files, id, all[a].files[i]));
        let x = choose|x: int|
            0 <= x < pruned[a].files.len() && id((#[trigger] pruned[a].files[x]).path@) == id(
                all[a].files[i].path@,
            );
        assert(id(groups[a].files[x]@) == id(files[k].path@));
    }
    assert forall|a: int, i: int|
        0 <= a < groups.len() && 0 <= i < groups[a].files.len() implies is_found(
        files,
        #[trigger] groups[a].files[i],
        groups[a].len,
    ) by {
        one_name_is_left(config, all[a], id, id_hash, read);
        assert(all[a].files.contains(pruned[a].files[i]));
        let j = choose|j: int|
            0 <= j < all[a].files.len() && all[a].files[j] == pruned[a].files[i];
        let k = grouped_file_is_scanned(files, a, j);
        assert(files[k].path == groups[a].files[i]);
    }
    assert forall|a: int, x: int, y: int|
        0 <= a < groups.len() && 0 <= x < y < groups[a].files.len() implies id(
        (#[trigger] groups[a].files[x])@,
    ) != id((#[trigger] groups[a].files[y])@) by {
        one_name_is_left(config, all[a], id, id_hash, read);
        assert(id(pruned[a].files[x].path@) != id(pruned[a].files[y].path@));
    }
    assert forall|a: int, b: int| 0 <= a < b < groups.len() implies (#[trigger] groups[a]).len != (
    #[trigger] groups[b]).len by {
        assert(all[a].len != all[b].len);
    }
}

} // verus!
