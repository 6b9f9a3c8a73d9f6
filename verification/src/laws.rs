//! What holds of a search as a whole.

use vstd::prelude::*;

use crate::config::{limits_follow_the_settings, Config};
use crate::files::{FileHash, FileId, FileInfo, FileLen, FilePos, Path};
use crate::group::{grouped, GroupView};
use crate::order::{is_sorted, sorted_paths_ascend};
use crate::paths::count_of_filtered;
use crate::process::{
    are_sorted_groups, first_state, has_fewer_than, has_len, is_descending, is_next_state,
    is_report, is_sorted_by_len, is_sorted_group, Reply, SearchView,
};
use crate::sizes::{has_at_least, link_groups, path_groups, replies_at, size_groups};
use crate::splitting::{
    answers_are_what_was_read, are_answered, are_read, has_hash, parts_of_groups,
    parts_share_a_hash, stage_hash, Reading,
};
use crate::stages::{
    file_hashes, hash_groups, keyed_by_hash, split_group, split_groups, stage_range, Stage,
    MAX_PREFIX_LEN,
};

verus! {

/// What was read in the course of a search.
pub struct Replies {
    pub ids: Vec<Vec<Option<FileId>>>,
    pub prefixes: Vec<Vec<Option<FileHash>>>,
    pub suffixes: Vec<Vec<Option<FileHash>>>,
    pub contents: Vec<Vec<Option<FileHash>>>,
}

/// The groups that a search starts to hash.
pub open spec fn start_groups(config: Config, files: Seq<FileInfo>, replies: Replies) -> Seq<
    GroupView<Path>,
> {
    let groups = size_groups(config, files);
    if config.hard_links {
        path_groups(groups)
    } else {
        link_groups(config, groups, replies.ids@)
    }
}

/// The groups after hashing prefixes.
pub open spec fn prefix_groups(
    config: Config,
    start: Seq<GroupView<Path>>,
    replies: Replies,
) -> Seq<GroupView<Path>> {
    split_groups(Stage::Prefix, start, replies.prefixes@, config.over() as nat)
}

/// The groups after hashing suffixes.
pub open spec fn suffix_groups(
    config: Config,
    start: Seq<GroupView<Path>>,
    replies: Replies,
) -> Seq<GroupView<Path>> {
    split_groups(
        Stage::Suffix,
        prefix_groups(config, start, replies),
        replies.suffixes@,
        config.over() as nat,
    )
}

/// The groups after hashing contents.
pub open spec fn contents_groups(
    config: Config,
    start: Seq<GroupView<Path>>,
    replies: Replies,
) -> Seq<GroupView<Path>> {
    split_groups(
        Stage::Contents,
        suffix_groups(config, start, replies),
        replies.contents@,
        config.over() as nat,
    )
}

/// Whether a search among `files` may report `report`.
pub open spec fn is_result(
    config: Config,
    files: Seq<FileInfo>,
    replies: Replies,
    report: Seq<GroupView<Path>>,
) -> bool {
    is_report(
        contents_groups(config, start_groups(config, files, replies), replies),
        config.under(),
        report,
    )
}

/// A search that gets the replies that it waits for comes to an end, and reports a result. If the
/// names of one file count as copies, the first reply is left out.
pub proof fn search_reports_a_result(
    config: Config,
    files: Seq<FileInfo>,
    replies: Replies,
    pruned: SearchView,
    by_prefix: SearchView,
    by_suffix: SearchView,
    end: SearchView,
)
    requires
        if config.hard_links {
            pruned == first_state(config, files)
        } else {
            is_next_state(config, first_state(config, files), Reply::FileIds(replies.ids), pruned)
        },
        is_next_state(config, pruned, Reply::FileHashes(replies.prefixes), by_prefix),
        is_next_state(config, by_prefix, Reply::FileHashes(replies.suffixes), by_suffix),
        is_next_state(config, by_suffix, Reply::FileHashes(replies.contents), end),
    ensures
        end matches SearchView::Finished(report) && is_result(config, files, replies, report),
{
}

/// Whether a reported group is one of `groups`, of less than `under` files, with its files sorted.
pub open spec fn is_one_of(
    groups: Seq<GroupView<Path>>,
    under: usize,
    reported: GroupView<Path>,
) -> bool {
    exists|i: int|
        0 <= i < groups.len() && groups[i].files.len() < under && is_sorted_group(
            #[trigger] groups[i],
            reported,
        )
}

/// Whether a group is in the report, with its files sorted.
pub open spec fn is_reported(group: GroupView<Path>, report: Seq<GroupView<Path>>) -> bool {
    exists|m: int| 0 <= m < report.len() && is_sorted_group(group, #[trigger] report[m])
}

/// Each reported group is one of the groups that were found, of less than `under` files; and each
/// such group is reported.
pub proof fn report_has_the_groups(
    groups: Seq<GroupView<Path>>,
    under: usize,
    report: Seq<GroupView<Path>>,
)
    requires
        is_report(groups, under, report),
    ensures
        forall|m: int| 0 <= m < report.len() ==> is_one_of(groups, under, #[trigger] report[m]),
        forall|i: int|
            0 <= i < groups.len() && groups[i].files.len() < under ==> is_reported(
                #[trigger] groups[i],
                report,
            ),
{
    let kept = groups.filter(has_fewer_than(under as nat));
    let sorted = choose|sorted: Seq<GroupView<Path>>| #[trigger]
        is_sorted_by_len(kept, sorted) && are_sorted_groups(sorted, report);
    assert forall|m: int| 0 <= m < report.len() implies is_one_of(
        groups,
        under,
        #[trigger] report[m],
    ) by {
        let group = sorted[m];
        let of_len = has_len::<Path>(group.len);
        assert(is_sorted_group(group, report[m]));
        sorted.lemma_filter_contains(of_len, m);
        assert(kept.filter(of_len).contains(group));
        kept.lemma_filter_contains_rev(of_len, group);
        let a = choose|a: int| 0 <= a < kept.len() && kept[a] == group;
        groups.lemma_filter_pred(has_fewer_than(under as nat), a);
        groups.lemma_filter_contains_rev(has_fewer_than(under as nat), group);
        let i = choose|i: int| 0 <= i < groups.len() && groups[i] == group;
        assert(is_sorted_group(groups[i], report[m]));
    }
    assert forall|i: int|
        0 <= i < groups.len() && groups[i].files.len() < under implies is_reported(
        #[trigger] groups[i],
        report,
    ) by {
        let group = groups[i];
        let of_len = has_len::<Path>(group.len);
        groups.lemma_filter_contains(has_fewer_than(under as nat), i);
        let a = choose|a: int| 0 <= a < kept.len() && kept[a] == group;
        kept.lemma_filter_contains(of_len, a);
        assert(sorted.filter(of_len).contains(group));
        sorted.lemma_filter_contains_rev(of_len, group);
        let m = choose|m: int| 0 <= m < sorted.len() && sorted[m] == group;
        assert(is_sorted_group(groups[i], report[m]));
    }
}

/// Reported groups have more than `rf_over` and less than `rf_under` files. In a search for unique
/// files they have one.
pub proof fn reported_groups_have_the_right_size(
    config: Config,
    files: Seq<FileInfo>,
    replies: Replies,
    report: Seq<GroupView<Path>>,
    m: int,
)
    requires
        is_result(config, files, replies, report),
        0 <= m < report.len(),
    ensures
        config.over() < report[m].files.len() < config.under(),
        config.unique ==> report[m].files.len() == 1,
{
    let start = start_groups(config, files, replies);
    let parts = contents_groups(config, start, replies);
    let before = suffix_groups(config, start, replies);
    report_has_the_groups(parts, config.under(), report);
    assert(is_one_of(parts, config.under(), report[m]));
    let i = choose|i: int|
        0 <= i < parts.len() && parts[i].files.len() < config.under() && is_sorted_group(
            #[trigger] parts[i],
            report[m],
        );
    assert(parts.contains(parts[i]));
    parts_have_more_files(
        Stage::Contents,
        before,
        replies.contents@,
        config.over() as nat,
        parts[i],
    );
    broadcast use vstd::seq_lib::group_to_multiset_ensures;

    assert(report[m].files.to_multiset().len() == parts[i].files.to_multiset().len());
}

/// Parts have more than `over` files.
proof fn parts_have_more_files(
    stage: Stage,
    groups: Seq<GroupView<Path>>,
    replies: Seq<Vec<Option<FileHash>>>,
    over: nat,
    part: GroupView<Path>,
)
    requires
        split_groups(stage, groups, replies, over).contains(part),
    ensures
        part.files.len() > over,
{
    parts_of_groups(stage, groups, replies, over);
    let i = choose|i: int|
        0 <= i < groups.len() && #[trigger] split_group(
            stage,
            groups[i],
            replies_at(replies, i),
            over,
        ).contains(part);
    let group = groups[i];
    let all = if group.files.len() > 1 {
        hash_groups(
            group.len,
            grouped(keyed_by_hash(group.files, file_hashes(stage, group, replies_at(replies, i)))),
        )
    } else {
        seq![group]
    };
    let kept = all.filter(has_at_least(over + 1));
    let a = choose|a: int| 0 <= a < kept.len() && kept[a] == part;
    all.lemma_filter_pred(has_at_least(over + 1), a);
}

/// The report goes from the longest files to the shortest, and in each group the paths ascend.
pub proof fn report_is_in_order(
    config: Config,
    files: Seq<FileInfo>,
    replies: Replies,
    report: Seq<GroupView<Path>>,
)
    requires
        is_result(config, files, replies, report),
    ensures
        is_descending(report),
        forall|m: int| 0 <= m < report.len() ==> is_sorted((#[trigger] report[m]).files),
{
    let parts = contents_groups(config, start_groups(config, files, replies), replies);
    let kept = parts.filter(has_fewer_than(config.under() as nat));
    let sorted = choose|sorted: Seq<GroupView<Path>>| #[trigger]
        is_sorted_by_len(kept, sorted) && are_sorted_groups(sorted, report);
    assert forall|i: int, j: int| 0 <= i < j < report.len() implies (#[trigger] report[i]).len.0 >= (
    #[trigger] report[j]).len.0 by {
        assert(is_sorted_group(sorted[i], report[i]));
        assert(is_sorted_group(sorted[j], report[j]));
        assert(sorted[i].len.0 >= sorted[j].len.0);
    }
    assert forall|m: int| 0 <= m < report.len() implies is_sorted((#[trigger] report[m]).files) by {
        assert(is_sorted_group(sorted[m], report[m]));
    }
}

/// The parts that are hashed lie in the file; the suffix does not overlap the prefix; and each
/// file is hashed as a whole, in the first stage or in the last.
pub proof fn ranges_cover_the_file(len: FileLen)
    ensures
        forall|stage: Stage|
            (#[trigger] stage_range(stage, len)) matches Some(range) ==> range.pos.0 + range.len.0
                <= len.0,
        (stage_range(Stage::Prefix, len), stage_range(Stage::Suffix, len)) matches (
            Some(prefix),
            Some(suffix),
        ) ==> prefix.pos.0 + prefix.len.0 <= suffix.pos.0,
        stage_range(Stage::Prefix, len) is Some,
        ({
            let first = stage_range(Stage::Prefix, len)->0;
            ||| first.pos == FilePos(0) && first.len == len
            ||| stage_range(Stage::Contents, len) matches Some(all) && all.pos == FilePos(0)
                && all.len == len
        }),
{
}

/// Whether the hashes that a search got are what was read of the files.
pub open spec fn has_read(
    config: Config,
    start: Seq<GroupView<Path>>,
    replies: Replies,
    read: Reading,
) -> bool {
    &&& are_read(Stage::Prefix, start, replies.prefixes@, read)
    &&& are_read(
        Stage::Suffix,
        prefix_groups(config, start, replies),
        replies.suffixes@,
        read,
    )
    &&& are_read(
        Stage::Contents,
        suffix_groups(config, start, replies),
        replies.contents@,
        read,
    )
}

/// Whether the hash of a group of several files is the hash of each of its files as a whole.
pub open spec fn is_hashed_whole(group: GroupView<Path>, read: Reading) -> bool {
    group.files.len() > 1 ==> {
        &&& group.hash is Some
        &&& forall|i: int|
            0 <= i < group.files.len() ==> read(
                (#[trigger] group.files[i])@,
                FilePos(0),
                group.len,
            ) == group.hash
    }
}

/// A stage that hashes whole files leaves groups with that hash, and a stage that does not look at
/// the files of a group keeps its hash.
proof fn stage_hashes_whole(
    stage: Stage,
    groups: Seq<GroupView<Path>>,
    replies: Seq<Vec<Option<FileHash>>>,
    over: nat,
    read: Reading,
    part: GroupView<Path>,
)
    requires
        are_read(stage, groups, replies, read),
        split_groups(stage, groups, replies, over).contains(part),
        match stage_range(stage, part.len) {
            Some(range) => range.pos == FilePos(0) && range.len == part.len,
            None => forall|i: int|
                0 <= i < groups.len() && groups[i].len == part.len ==> is_hashed_whole(
                    #[trigger] groups[i],
                    read,
                ),
        },
    ensures
        is_hashed_whole(part, read),
{
    parts_of_groups(stage, groups, replies, over);
    let i = choose|i: int|
        0 <= i < groups.len() && #[trigger] split_group(
            stage,
            groups[i],
            replies_at(replies, i),
            over,
        ).contains(part);
    let group = groups[i];
    parts_share_a_hash(stage, group, replies_at(replies, i), over, read, part);
    if part.files.len() > 1 {
        let hashes = stage_hash(stage, group, read);
        let hash = part.hash->0;
        assert forall|j: int| 0 <= j < part.files.len() implies read(
            (#[trigger] part.files[j])@,
            FilePos(0),
            part.len,
        ) == part.hash by {
            group.files.lemma_filter_pred(has_hash(hashes, hash), j);
            assert(hashes(part.files[j]) == Some(hash));
            if stage_range(stage, part.len) is None {
                assert(is_hashed_whole(group, read));
                assert(part.files.contains(part.files[j]));
                group.files.lemma_filter_contains_rev(has_hash(hashes, hash), part.files[j]);
                let a = choose|a: int|
                    0 <= a < group.files.len() && group.files[a] == part.files[j];
                assert(read(group.files[a]@, FilePos(0), group.len) == group.hash);
            }
        }
    }
}

/// Files that are reported in one group have the length of the group, and hashing them as a whole
/// gives one and the same hash. In particular each of them could be read.
pub proof fn reported_copies_have_one_hash(
    config: Config,
    files: Seq<FileInfo>,
    replies: Replies,
    read: Reading,
    report: Seq<GroupView<Path>>,
    m: int,
)
    requires
        has_read(config, start_groups(config, files, replies), replies, read),
        is_result(config, files, replies, report),
        0 <= m < report.len(),
    ensures
        is_hashed_whole(report[m], read),
{
    let start = start_groups(config, files, replies);
    let by_prefix = prefix_groups(config, start, replies);
    let by_suffix = suffix_groups(config, start, replies);
    let parts = contents_groups(config, start, replies);
    let over = config.over() as nat;
    assert forall|i: int|
        0 <= i < by_prefix.len() && by_prefix[i].len.0 <= MAX_PREFIX_LEN implies is_hashed_whole(
        #[trigger] by_prefix[i],
        read,
    ) by {
        assert(by_prefix.contains(by_prefix[i]));
        stage_hashes_whole(
            Stage::Prefix,
            start,
            replies.prefixes@,
            over,
            read,
            by_prefix[i],
        );
    }
    assert forall|i: int|
        0 <= i < by_suffix.len() && by_suffix[i].len.0 <= MAX_PREFIX_LEN implies is_hashed_whole(
        #[trigger] by_suffix[i],
        read,
    ) by {
        assert(by_suffix.contains(by_suffix[i]));
        stage_hashes_whole(
            Stage::Suffix,
            by_prefix,
            replies.suffixes@,
            over,
            read,
            by_suffix[i],
        );
    }
    report_has_the_groups(parts, config.under(), report);
    assert(is_one_of(parts, config.under(), report[m]));
    let i = choose|i: int|
        0 <= i < parts.len() && parts[i].files.len() < config.under() && is_sorted_group(
            #[trigger] parts[i],
            report[m],
        );
    assert(parts.contains(parts[i]));
    stage_hashes_whole(
        Stage::Contents,
        by_suffix,
        replies.contents@,
        over,
        read,
        parts[i],
    );
    same_files(parts[i].files, report[m].files);
    assert forall|j: int| 0 <= j < report[m].files.len() && report[m].files.len() > 1 implies read(
        (#[trigger] report[m].files[j])@,
        FilePos(0),
        report[m].len,
    ) == report[m].hash by {
        let a = choose|a: int|
            0 <= a < parts[i].files.len() && parts[i].files[a] == report[m].files[j];
        assert(read(parts[i].files[a]@, FilePos(0), parts[i].len) == parts[i].hash);
    }
}

/// Lists with the same files in another order have the same length and members.
pub(crate) proof fn same_files<T>(one: Seq<T>, other: Seq<T>)
    requires
        one.to_multiset() == other.to_multiset(),
    ensures
        one.len() == other.len(),
        forall|j: int| 0 <= j < other.len() ==> one.contains(#[trigger] other[j]),
        forall|j: int| 0 <= j < one.len() ==> other.contains(#[trigger] one[j]),
{
    one.to_multiset_ensures();
    other.to_multiset_ensures();
    assert forall|j: int| 0 <= j < other.len() implies one.contains(#[trigger] other[j]) by {
        assert(other.contains(other[j]));
        assert(other.to_multiset().count(other[j]) > 0);
    }
    assert forall|j: int| 0 <= j < one.len() implies other.contains(#[trigger] one[j]) by {
        assert(one.contains(one[j]));
        assert(one.to_multiset().count(one[j]) > 0);
    }
}

/// A reply that the search does not wait for changes nothing, and neither does any reply at the
/// end.
pub proof fn other_replies_change_nothing(
    config: Config,
    state: SearchView,
    reply: Reply,
    next: SearchView,
)
    requires
        is_next_state(config, state, reply, next),
        state is Finished || (state is PruningLinks && reply is FileHashes) || (state is Splitting
            && reply is FileIds),
    ensures
        next == state,
{
}

/// A search whose replies hold, for each group of which a part has to be hashed, what was read of
/// that part, has read what its stages look at.
pub proof fn answered_search_has_read(
    config: Config,
    start: Seq<GroupView<Path>>,
    replies: Replies,
    read: Reading,
)
    requires
        are_answered(Stage::Prefix, start, replies.prefixes@, read),
        are_answered(
            Stage::Suffix,
            prefix_groups(config, start, replies),
            replies.suffixes@,
            read,
        ),
        are_answered(
            Stage::Contents,
            suffix_groups(config, start, replies),
            replies.contents@,
            read,
        ),
    ensures
        has_read(config, start, replies, read),
{
    answers_are_what_was_read(Stage::Prefix, start, replies.prefixes@, read);
    answers_are_what_was_read(
        Stage::Suffix,
        prefix_groups(config, start, replies),
        replies.suffixes@,
        read,
    );
    answers_are_what_was_read(
        Stage::Contents,
        suffix_groups(config, start, replies),
        replies.contents@,
        read,
    );
}

/// Reported groups obey the settings. They have more files than a lower limit that is set; without
/// one they have a file, and in a search for duplicates two. They have fewer files than an upper
/// limit that is set, and in a search for unique files they have one.
pub proof fn reported_groups_obey_the_settings(
    config: Config,
    files: Seq<FileInfo>,
    replies: Replies,
    report: Seq<GroupView<Path>>,
    m: int,
)
    requires
        is_result(config, files, replies, report),
        0 <= m < report.len(),
    ensures
        report[m].files.len() > 0,
        config.rf_over matches Some(n) ==> report[m].files.len() > n,
        config.rf_over is None && config.rf_under is None && !config.unique
            ==> report[m].files.len() > 1,
        config.unique ==> report[m].files.len() < 2,
        config.rf_under matches Some(n) ==> report[m].files.len() < n || (config.unique
            && report[m].files.len() < 2),
{
    reported_groups_have_the_right_size(config, files, replies, report, m);
    limits_follow_the_settings(config);
}

/// Whether a group is in the report with the same length, hash and files.
pub open spec fn is_listed_in(group: GroupView<Path>, report: Seq<GroupView<Path>>) -> bool {
    exists|m: int|
        0 <= m < report.len() && (#[trigger] report[m]).len == group.len && report[m].hash
            == group.hash && report[m].files.to_multiset() == group.files.to_multiset()
}

/// A report has as many groups as were found that are small enough, each of them with the length,
/// the hash and the files that it was found with; and it goes from the longest files to the
/// shortest.
pub proof fn report_lists_the_groups(
    groups: Seq<GroupView<Path>>,
    under: usize,
    report: Seq<GroupView<Path>>,
)
    requires
        is_report(groups, under, report),
    ensures
        report.len() == groups.filter(|group: GroupView<Path>| group.files.len() < under).len(),
        forall|i: int|
            0 <= i < groups.len() && (#[trigger] groups[i]).files.len() < under ==> is_listed_in(
                groups[i],
                report,
            ),
        forall|m: int|
            0 <= m < report.len() ==> (#[trigger] report[m]).files.len() < under && is_listed_in(
                report[m],
                groups,
            ),
        forall|i: int, j: int|
            0 <= i < j < report.len() ==> (#[trigger] report[i]).len.0 >= (
            #[trigger] report[j]).len.0,
{
    let few = has_fewer_than::<Path>(under as nat);
    let kept = groups.filter(few);
    let sorted = choose|sorted: Seq<GroupView<Path>>| #[trigger]
        is_sorted_by_len(kept, sorted) && are_sorted_groups(sorted, report);
    assert(few =~= |group: GroupView<Path>| group.files.len() < under);
    same_groups_of_each_len(kept, sorted);
    report_has_the_groups(groups, under, report);
    assert forall|i: int| 0 <= i < groups.len() && (#[trigger] groups[i]).files.len()
        < under implies is_listed_in(groups[i], report) by {
        assert(is_reported(groups[i], report));
    }
    assert forall|m: int| 0 <= m < report.len() implies (#[trigger] report[m]).files.len() < under
        && is_listed_in(report[m], groups) by {
        assert(is_one_of(groups, under, report[m]));
        let i = choose|i: int|
            0 <= i < groups.len() && groups[i].files.len() < under && is_sorted_group(
                #[trigger] groups[i],
                report[m],
            );
        same_files(groups[i].files, report[m].files);
    }
    assert forall|i: int, j: int| 0 <= i < j < report.len() implies (#[trigger] report[i]).len.0 >= (
    #[trigger] report[j]).len.0 by {
        assert(is_sorted_group(sorted[i], report[i]));
        assert(is_sorted_group(sorted[j], report[j]));
        assert(sorted[i].len.0 >= sorted[j].len.0);
    }
}

/// Lists that have the same groups of each length have as many groups.
proof fn same_groups_of_each_len(one: Seq<GroupView<Path>>, other: Seq<GroupView<Path>>)
    requires
        forall|len: FileLen| #[trigger] other.filter(has_len(len)) == one.filter(has_len(len)),
    ensures
        one.len() == other.len(),
{
    assert forall|group: GroupView<Path>| #[trigger] one.to_multiset().count(group)
        == other.to_multiset().count(group) by {
        let of_len = has_len::<Path>(group.len);
        assert(other.filter(of_len) == one.filter(of_len));
        count_of_filtered(one, of_len, group);
        count_of_filtered(other, of_len, group);
    }
    assert(one.to_multiset() =~= other.to_multiset());
    same_files(one, other);
}

/// Groups that were found are reported if they obey the settings: with no upper limit all of them,
/// with an upper limit those that have fewer files, and in a search for unique files those of one.
pub proof fn groups_that_obey_the_settings_are_reported(
    config: Config,
    files: Seq<FileInfo>,
    replies: Replies,
    report: Seq<GroupView<Path>>,
    group: GroupView<Path>,
)
    requires
        is_result(config, files, replies, report),
        contents_groups(config, start_groups(config, files, replies), replies).contains(group),
        group.files.len() < usize::MAX,
        config.unique ==> group.files.len() < 2,
        !config.unique ==> (config.rf_under matches Some(n) ==> group.files.len() < n),
    ensures
        is_listed_in(group, report),
{
    let groups = contents_groups(config, start_groups(config, files, replies), replies);
    limits_follow_the_settings(config);
    let i = choose|i: int| 0 <= i < groups.len() && groups[i] == group;
    report_lists_the_groups(groups, config.under(), report);
}

/// In a reported group, of two paths whose texts agree up to some byte, the one with the smaller
/// byte comes first, and so does the one whose text ends there.
pub proof fn reported_paths_ascend(
    config: Config,
    files: Seq<FileInfo>,
    replies: Replies,
    report: Seq<GroupView<Path>>,
    m: int,
    i: int,
    j: int,
    d: int,
)
    requires
        is_result(config, files, replies, report),
        0 <= m < report.len(),
        0 <= i < j < report[m].files.len(),
        0 <= d <= report[m].files[i].text@.len(),
        d <= report[m].files[j].text@.len(),
        forall|k: int|
            0 <= k < d ==> #[trigger] report[m].files[i].text@[k] == report[m].files[j].text@[k],
    ensures
        d < report[m].files[i].text@.len() ==> d < report[m].files[j].text@.len()
            && report[m].files[i].text@[d] <= report[m].files[j].text@[d],
{
    report_is_in_order(config, files, replies, report);
    sorted_paths_ascend(report[m].files, i, j, d);
}

/// A search goes through its stages in turn, whatever the settings: it first leaves out other names
/// of files, unless these count as copies, then splits by prefixes, by suffixes and by contents,
/// each time after the reply that it waits for, and then it has finished.
pub proof fn search_goes_through_its_stages(
    config: Config,
    files: Seq<FileInfo>,
    state: SearchView,
    reply: Reply,
    next: SearchView,
)
    requires
        is_next_state(config, state, reply, next),
    ensures
        config.hard_links ==> (first_state(config, files) matches SearchView::Splitting(stage, _)
            && stage == Stage::Prefix),
        !config.hard_links ==> first_state(config, files) is PruningLinks,
        state is PruningLinks && reply is FileIds ==> (next matches SearchView::Splitting(stage, _)
            && stage == Stage::Prefix),
        reply is FileHashes ==> (state matches SearchView::Splitting(stage, _) ==> match stage {
            Stage::Prefix => next matches SearchView::Splitting(then, _) && then == Stage::Suffix,
            Stage::Suffix => next matches SearchView::Splitting(then, _) && then
                == Stage::Contents,
            Stage::Contents => next is Finished,
        }),
{
}

} // verus!
