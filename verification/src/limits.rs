//! What the limits of a search do: they choose among the groups, and never change one.

use vstd::prelude::*;

use crate::config::Config;
use crate::copies::filter_twice;
use crate::dedup::{id_hashes, link_keys, pruned_links, reply};
use crate::files::{FileHash, FileId, FileInfo, FileInfoNoLen, FileLen, Path};
use crate::group::{grouped, values_are_fewer, GroupView};
use crate::laws::{
    contents_groups, has_read, is_result, prefix_groups, same_files, start_groups, suffix_groups,
    Replies,
};
use crate::process::{
    are_sorted_groups, has_fewer_than, has_len, is_descending, is_sorted_by_len, is_sorted_group,
};
use crate::sizes::{
    groups_of_one_len, has_at_least, path_group, path_groups, pruned_groups, replies_at,
    size_groups,
};
use crate::splitting::{are_read, is_read, Reading};
use crate::stages::{
    file_hashes, hash_groups, keyed_by_hash, split_group, split_groups, stage_range, Stage,
};
use crate::unique::first_positions_of_distinct_keys;

verus! {

/// Whether a group has more than `over` and fewer than `under` files.
pub open spec fn is_within<F>(over: nat, under: nat) -> spec_fn(GroupView<F>) -> bool {
    |group: GroupView<F>| over < group.files.len() < under
}

/// What reading the identifier of the file at a path gives, if it can be read.
pub type IdReading = spec_fn(Seq<u8>) -> Option<FileId>;

/// Whether the identifiers that a search got are what was read of the files.
pub open spec fn are_read_ids(
    groups: Seq<GroupView<FileInfoNoLen>>,
    ids: Seq<Vec<Option<FileId>>>,
    read: IdReading,
) -> bool {
    forall|i: int, j: int|
        0 <= i < groups.len() && 0 <= j < groups[i].files.len() && !id_hashes(
            groups[i].files,
        ).no_duplicates() ==> reply(replies_at(ids, i), j) == read(
            (#[trigger] groups[i].files[j]).path@,
        )
}

/// What was read of the files of a group.
pub open spec fn ids_of(files: Seq<FileInfoNoLen>, read: IdReading) -> Seq<Option<FileId>> {
    Seq::new(files.len(), |j: int| read(files[j].path@))
}

/// A group without the files that are other names of files before them.
pub open spec fn pruned_group(
    config: Config,
    group: GroupView<FileInfoNoLen>,
    read: IdReading,
) -> GroupView<FileInfoNoLen> {
    GroupView {
        len: group.len,
        hash: group.hash,
        files: pruned_links(config, group.files, ids_of(group.files, read)),
    }
}

/// Each group without the files that are other names of files before them.
pub open spec fn pruned_alike(
    config: Config,
    groups: Seq<GroupView<FileInfoNoLen>>,
    read: IdReading,
) -> Seq<GroupView<FileInfoNoLen>> {
    Seq::new(groups.len(), |i: int| pruned_group(config, groups[i], read))
}

/// What is left of a group depends on nothing but the group and what was read.
proof fn pruning_goes_by_what_was_read(
    config: Config,
    groups: Seq<GroupView<FileInfoNoLen>>,
    ids: Seq<Vec<Option<FileId>>>,
    read: IdReading,
)
    requires
        are_read_ids(groups, ids, read),
    ensures
        pruned_groups(config, groups, ids) == pruned_alike(config, groups, read),
{
    assert forall|i: int| 0 <= i < groups.len() implies #[trigger] pruned_groups(
        config,
        groups,
        ids,
    )[i] == pruned_alike(config, groups, read)[i] by {
        let files = groups[i].files;
        if !id_hashes(files).no_duplicates() {
            assert forall|j: int| 0 <= j < files.len() implies #[trigger] link_keys(
                replies_at(ids, i),
                files.len(),
            )[j] == link_keys(ids_of(files, read), files.len())[j] by {
                assert(reply(replies_at(ids, i), j) == read(groups[i].files[j].path@));
            }
            assert(link_keys(replies_at(ids, i), files.len()) =~= link_keys(
                ids_of(files, read),
                files.len(),
            ));
        }
    }
    assert(pruned_groups(config, groups, ids) =~= pruned_alike(config, groups, read));
}

/// Groups that are too small before pruning are too small after it.
proof fn small_groups_stay_small(
    config: Config,
    groups: Seq<GroupView<FileInfoNoLen>>,
    read: IdReading,
    n: nat,
)
    ensures
        pruned_alike(config, groups.filter(has_at_least(n)), read).filter(has_at_least(n))
            == pruned_alike(config, groups, read).filter(has_at_least(n)),
    decreases groups.len(),
{
    reveal(Seq::filter);
    let keep = has_at_least::<FileInfoNoLen>(n);
    if groups.len() == 0 {
        assert(pruned_alike(config, groups.filter(keep), read) =~= pruned_alike(
            config,
            groups,
            read,
        ));
    } else {
        let init = groups.drop_last();
        let last = groups.last();
        let left = pruned_group(config, last, read);
        small_groups_stay_small(config, init, read, n);
        assert(pruned_alike(config, groups, read).drop_last() =~= pruned_alike(config, init, read));
        first_positions_of_distinct_keys(
            link_keys(ids_of(last.files, read), last.files.len()),
        );
        assert(left.files.len() <= last.files.len());
        if keep(last) {
            let kept = pruned_alike(config, groups.filter(keep), read);
            assert(kept.drop_last() =~= pruned_alike(config, init.filter(keep), read));
            assert(kept.last() == left);
        }
    }
}

/// Keeping only the paths of files keeps their number.
proof fn paths_of_filtered(groups: Seq<GroupView<FileInfoNoLen>>, n: nat)
    ensures
        path_groups(groups.filter(has_at_least(n))) == path_groups(groups).filter(has_at_least(n)),
    decreases groups.len(),
{
    reveal(Seq::filter);
    let keep = has_at_least::<FileInfoNoLen>(n);
    if groups.len() == 0 {
        assert(path_groups(groups.filter(keep)) =~= path_groups(groups));
    } else {
        let init = groups.drop_last();
        paths_of_filtered(init, n);
        assert(path_groups(groups).drop_last() =~= path_groups(init));
        if keep(groups.last()) {
            assert(path_groups(groups.filter(keep)) =~= path_groups(init.filter(keep)).push(
                path_group(groups.last()),
            ));
        }
    }
}

/// Keeping groups of at least `m` files, and then of at least `n`, is keeping those of `n` or
/// more, if `n` is not smaller.
proof fn filter_by_more<F>(groups: Seq<GroupView<F>>, m: nat, n: nat)
    requires
        m <= n,
    ensures
        groups.filter(has_at_least(m)).filter(has_at_least(n)) == groups.filter(has_at_least(n)),
{
    filter_twice(groups, has_at_least(m), has_at_least(n), has_at_least(n));
}

/// The groups that a search starts to hash are, of the groups that it could start with, those that
/// are large enough.
pub(crate) proof fn start_is_filtered(
    config: Config,
    files: Seq<FileInfo>,
    replies: Replies,
    read: IdReading,
) -> (all: Seq<GroupView<FileInfoNoLen>>)
    requires
        !config.hard_links ==> are_read_ids(size_groups(config, files), replies.ids@, read),
    ensures
        all == if config.hard_links {
            groups_of_one_len(files)
        } else {
            pruned_alike(config, groups_of_one_len(files), read)
        },
        start_groups(config, files, replies) == path_groups(all).filter(
            has_at_least(config.over() as nat),
        ),
{
    let n = config.over() as nat;
    if config.hard_links {
        let all = groups_of_one_len(files);
        paths_of_filtered(all, n);
        all
    } else {
        let all = pruned_alike(config, groups_of_one_len(files), read);
        pruning_goes_by_what_was_read(config, size_groups(config, files), replies.ids@, read);
        small_groups_stay_small(config, groups_of_one_len(files), read, n);
        paths_of_filtered(all, n);
        all
    }
}

/// A narrower search starts to hash those of the groups of a wider one that are large enough.
proof fn narrow_start(
    wide: Config,
    narrow: Config,
    files: Seq<FileInfo>,
    wide_replies: Replies,
    narrow_replies: Replies,
    read: IdReading,
)
    requires
        wide.hard_links == narrow.hard_links,
        wide.over() <= narrow.over(),
        !wide.hard_links ==> are_read_ids(size_groups(wide, files), wide_replies.ids@, read),
        !narrow.hard_links ==> are_read_ids(size_groups(narrow, files), narrow_replies.ids@, read),
    ensures
        start_groups(narrow, files, narrow_replies) == start_groups(
            wide,
            files,
            wide_replies,
        ).filter(has_at_least(narrow.over() as nat)),
{
    let all = start_is_filtered(wide, files, wide_replies, read);
    let same = start_is_filtered(narrow, files, narrow_replies, read);
    assert(all =~= same);
    filter_by_more(path_groups(all), wide.over() as nat, narrow.over() as nat);
}

/// The files that have a hash are no more than the files.
proof fn keyed_files_are_fewer(files: Seq<Path>, hashes: Seq<Option<FileHash>>)
    ensures
        keyed_by_hash(files, hashes).len() <= files.len(),
    decreases files.len(),
{
    if files.len() > 0 {
        keyed_files_are_fewer(files.drop_last(), hashes);
    }
}

/// The parts of a group have no more files than the group, so too small a group has no parts.
pub(crate) proof fn small_group_has_no_parts(
    stage: Stage,
    group: GroupView<Path>,
    replies: Seq<Option<FileHash>>,
    over: nat,
)
    requires
        group.files.len() <= over,
    ensures
        split_group(stage, group, replies, over).len() == 0,
{
    let keep = has_at_least::<Path>(over + 1);
    let pairs = keyed_by_hash(group.files, file_hashes(stage, group, replies));
    let all = if group.files.len() > 1 {
        hash_groups(group.len, grouped(pairs))
    } else {
        seq![group]
    };
    if all.filter(keep).len() > 0 {
        let part = all.filter(keep)[0];
        all.lemma_filter_pred(keep, 0);
        assert(all.filter(keep).contains(part));
        all.lemma_filter_contains_rev(keep, part);
        let a = choose|a: int| 0 <= a < all.len() && all[a] == part;
        if group.files.len() > 1 {
            values_are_fewer(pairs, grouped(pairs)[a].0);
            keyed_files_are_fewer(group.files, file_hashes(stage, group, replies));
        }
    }
}

/// With a higher limit, those parts of a group stay that have more files than the limit.
proof fn parts_are_filtered(
    stage: Stage,
    group: GroupView<Path>,
    wide_replies: Seq<Option<FileHash>>,
    narrow_replies: Seq<Option<FileHash>>,
    wide_over: nat,
    over: nat,
    read: Reading,
)
    requires
        wide_over <= over,
        group.files.len() > 1 ==> is_read(stage, group, wide_replies, read),
        group.files.len() > 1 ==> is_read(stage, group, narrow_replies, read),
    ensures
        split_group(stage, group, narrow_replies, over) == split_group(
            stage,
            group,
            wide_replies,
            wide_over,
        ).filter(has_at_least(over + 1)),
{
    if group.files.len() > 1 {
        if let Some(range) = stage_range(stage, group.len) {
            assert forall|j: int| 0 <= j < group.files.len() implies reply(wide_replies, j)
                == reply(narrow_replies, j) by {
                assert(reply(wide_replies, j) == read(group.files[j]@, range.pos, range.len));
                assert(reply(narrow_replies, j) == read(group.files[j]@, range.pos, range.len));
            }
        }
        let hashes = file_hashes(stage, group, wide_replies);
        assert(hashes =~= file_hashes(stage, group, narrow_replies));
        filter_by_more(
            hash_groups(group.len, grouped(keyed_by_hash(group.files, hashes))),
            wide_over + 1,
            over + 1,
        );
    } else {
        filter_by_more(seq![group], wide_over + 1, over + 1);
    }
}

/// With a higher limit, and without groups that are too small for it, those parts stay that have
/// more files than the limit.
proof fn narrow_split(
    stage: Stage,
    wide: Seq<GroupView<Path>>,
    narrow: Seq<GroupView<Path>>,
    wide_replies: Seq<Vec<Option<FileHash>>>,
    narrow_replies: Seq<Vec<Option<FileHash>>>,
    read: Reading,
    least: nat,
    wide_over: nat,
    over: nat,
)
    requires
        narrow == wide.filter(has_at_least(least)),
        least <= over + 1,
        wide_over <= over,
        are_read(stage, wide, wide_replies, read),
        are_read(stage, narrow, narrow_replies, read),
    ensures
        split_groups(stage, narrow, narrow_replies, over) == split_groups(
            stage,
            wide,
            wide_replies,
            wide_over,
        ).filter(has_at_least(over + 1)),
    decreases wide.len(),
{
    let keep = has_at_least::<Path>(over + 1);
    reveal(Seq::filter);
    if wide.len() > 0 {
        let n = wide.len() - 1;
        let init = wide.drop_last();
        let last = wide[n];
        let kept = init.filter(has_at_least(least));
        assert(are_read(stage, init, wide_replies, read)) by {
            assert forall|i: int| 0 <= i < init.len() && (#[trigger] init[i]).files.len()
                > 1 implies is_read(
                stage,
                init[i],
                replies_at(wide_replies, i),
                read,
            ) by {
                assert(init[i] == wide[i]);
            }
        }
        assert(are_read(stage, kept, narrow_replies, read)) by {
            assert forall|i: int| 0 <= i < kept.len() && (#[trigger] kept[i]).files.len()
                > 1 implies is_read(
                stage,
                kept[i],
                replies_at(narrow_replies, i),
                read,
            ) by {
                assert(kept[i] == narrow[i]);
            }
        }
        narrow_split(
            stage,
            init,
            kept,
            wide_replies,
            narrow_replies,
            read,
            least,
            wide_over,
            over,
        );
        let before = split_groups(stage, init, wide_replies, wide_over);
        let parts = split_group(stage, last, replies_at(wide_replies, n), wide_over);
        Seq::filter_distributes_over_add(before, parts, keep);
        if last.files.len() >= least {
            let m = narrow.len() - 1;
            assert(narrow.drop_last() =~= kept);
            assert(narrow[m] == last);
            parts_are_filtered(
                stage,
                last,
                replies_at(wide_replies, n),
                replies_at(narrow_replies, m),
                wide_over,
                over,
                read,
            );
        } else {
            parts_are_filtered(
                stage,
                last,
                replies_at(wide_replies, n),
                replies_at(wide_replies, n),
                wide_over,
                over,
                read,
            );
            small_group_has_no_parts(stage, last, replies_at(wide_replies, n), over);
            assert(before.filter(keep) + parts.filter(keep) =~= before.filter(keep));
        }
    }
}

/// Lists in descending order of length that have the same groups of each length, in the same order,
/// are equal.
proof fn sorted_lists_are_equal<F>(one: Seq<GroupView<F>>, other: Seq<GroupView<F>>)
    requires
        is_descending(one),
        is_descending(other),
        forall|len: FileLen| #[trigger] one.filter(has_len(len)) == other.filter(has_len(len)),
    ensures
        one == other,
    decreases one.len(),
{
    if one.len() > 0 || other.len() > 0 {
        last_is_in_both(one, other);
        last_is_in_both(other, one);
        let x = one.last();
        let y = other.last();
        assert(x.len == y.len);
        reveal(Seq::filter);
        assert(one.filter(has_len(x.len)) == other.filter(has_len(x.len)));
        assert(one.filter(has_len(x.len)).last() == x);
        assert(other.filter(has_len(x.len)).last() == y);
        assert forall|len: FileLen| #[trigger] one.drop_last().filter(has_len(len))
            == other.drop_last().filter(has_len(len)) by {
            assert(one.filter(has_len(len)) == other.filter(has_len(len)));
            if len == x.len {
                assert(one.drop_last().filter(has_len(len)) =~= one.filter(
                    has_len(len),
                ).drop_last());
                assert(other.drop_last().filter(has_len(len)) =~= other.filter(
                    has_len(len),
                ).drop_last());
            }
        }
        sorted_lists_are_equal(one.drop_last(), other.drop_last());
        assert(one =~= one.drop_last().push(x));
        assert(other =~= other.drop_last().push(y));
    }
}

/// Of two such lists, the last group of one is a group of the other.
proof fn last_is_in_both<F>(one: Seq<GroupView<F>>, other: Seq<GroupView<F>>)
    requires
        is_descending(other),
        forall|len: FileLen| #[trigger] one.filter(has_len(len)) == other.filter(has_len(len)),
    ensures
        one.len() > 0 ==> other.len() > 0 && one.last().len.0 >= other.last().len.0,
{
    if one.len() > 0 {
        let x = one.last();
        let of_len = has_len::<F>(x.len);
        one.lemma_filter_contains(of_len, one.len() - 1);
        assert(one.filter(of_len) == other.filter(of_len));
        other.lemma_filter_contains_rev(of_len, x);
        let j = choose|j: int| 0 <= j < other.len() && other[j] == x;
        assert(j < other.len() - 1 ==> other[j].len.0 >= other[other.len() - 1].len.0);
    }
}

/// Leaving out groups keeps a list in descending order.
proof fn filtered_list_is_descending<F>(
    groups: Seq<GroupView<F>>,
    keep: spec_fn(GroupView<F>) -> bool,
)
    requires
        is_descending(groups),
    ensures
        is_descending(groups.filter(keep)),
    decreases groups.len(),
{
    reveal(Seq::filter);
    if groups.len() > 0 {
        let init = groups.drop_last();
        let n = groups.len() - 1;
        assert forall|i: int, j: int| 0 <= i < j < init.len() implies (#[trigger] init[i]).len.0 >= (
        #[trigger] init[j]).len.0 by {
            assert(init[i] == groups[i] && init[j] == groups[j]);
        }
        filtered_list_is_descending(init, keep);
        let before = init.filter(keep);
        if keep(groups[n]) {
            assert forall|i: int| 0 <= i < before.len() implies (#[trigger] before[i]).len.0
                >= groups[n].len.0 by {
                assert(before.contains(before[i]));
                init.lemma_filter_contains_rev(keep, before[i]);
                let j = choose|j: int| 0 <= j < init.len() && init[j] == before[i];
                assert(groups[j].len.0 >= groups[n].len.0);
            }
        }
    }
}

/// Sorting the files of each group keeps which groups are within limits.
proof fn sorted_groups_are_filtered(
    before: Seq<GroupView<Path>>,
    after: Seq<GroupView<Path>>,
    over: nat,
    under: nat,
)
    requires
        are_sorted_groups(before, after),
    ensures
        are_sorted_groups(
            before.filter(is_within(over, under)),
            after.filter(is_within(over, under)),
        ),
    decreases before.len(),
{
    reveal(Seq::filter);
    if before.len() > 0 {
        let n = before.len() - 1;
        assert forall|i: int| 0 <= i < n implies is_sorted_group(
            before.drop_last()[i],
            #[trigger] after.drop_last()[i],
        ) by {
            assert(is_sorted_group(before[i], after[i]));
        }
        sorted_groups_are_filtered(before.drop_last(), after.drop_last(), over, under);
        assert(is_sorted_group(before[n], after[n]));
        same_files(before[n].files, after[n].files);
    }
}

/// The limits of a search only choose among the groups. With the same files, and the same read of
/// them, a search with narrower limits reports those groups of the wider search that are within
/// its limits, and no others, in the same order. A group is the same group in both reports, with
/// the same length, hash and files.
///
/// A search without limits is the widest: it reports all groups, of one file or more.
pub proof fn limits_only_filter(
    wide: Config,
    narrow: Config,
    files: Seq<FileInfo>,
    wide_replies: Replies,
    narrow_replies: Replies,
    read_id: IdReading,
    read: Reading,
    wide_report: Seq<GroupView<Path>>,
    narrow_report: Seq<GroupView<Path>>,
)
    requires
        wide.hard_links == narrow.hard_links,
        wide.over() <= narrow.over(),
        narrow.under() <= wide.under(),
        !wide.hard_links ==> are_read_ids(size_groups(wide, files), wide_replies.ids@, read_id),
        !narrow.hard_links ==> are_read_ids(
            size_groups(narrow, files),
            narrow_replies.ids@,
            read_id,
        ),
        has_read(wide, start_groups(wide, files, wide_replies), wide_replies, read),
        has_read(narrow, start_groups(narrow, files, narrow_replies), narrow_replies, read),
        is_result(wide, files, wide_replies, wide_report),
        is_result(narrow, files, narrow_replies, narrow_report),
    ensures
        are_sorted_groups(
            wide_report.filter(is_within(narrow.over() as nat, narrow.under() as nat)),
            narrow_report,
        ),
{
    let over = narrow.over() as nat;
    let under = narrow.under() as nat;
    let within = is_within::<Path>(over, under);
    let few = has_fewer_than::<Path>(under);
    let wide_few = has_fewer_than::<Path>(wide.under() as nat);
    let keep = has_at_least::<Path>(over + 1);
    narrow_parts(
        wide,
        narrow,
        files,
        wide_replies,
        narrow_replies,
        read_id,
        read,
    );
    let wide_parts = contents_groups(
        wide,
        start_groups(wide, files, wide_replies),
        wide_replies,
    );
    let parts = contents_groups(
        narrow,
        start_groups(narrow, files, narrow_replies),
        narrow_replies,
    );
    let wide_kept = wide_parts.filter(wide_few);
    let kept = parts.filter(few);
    filter_twice(wide_parts, keep, few, within);
    filter_twice(wide_parts, wide_few, within, within);
    assert(kept == wide_kept.filter(within));
    let wide_sorted = choose|sorted: Seq<GroupView<Path>>| #[trigger]
        is_sorted_by_len(wide_kept, sorted) && are_sorted_groups(sorted, wide_report);
    let sorted = choose|sorted: Seq<GroupView<Path>>| #[trigger]
        is_sorted_by_len(kept, sorted) && are_sorted_groups(sorted, narrow_report);
    filtered_list_is_descending(wide_sorted, within);
    assert forall|len: FileLen| #[trigger] sorted.filter(has_len(len)) == wide_sorted.filter(
        within,
    ).filter(has_len(len)) by {
        let of_len = has_len::<Path>(len);
        let both = |group: GroupView<Path>| within(group) && of_len(group);
        filter_twice(wide_sorted, within, of_len, both);
        filter_twice(wide_sorted, of_len, within, both);
        filter_twice(wide_kept, within, of_len, both);
        filter_twice(wide_kept, of_len, within, both);
        assert(sorted.filter(of_len) == kept.filter(of_len));
        assert(wide_sorted.filter(of_len) == wide_kept.filter(of_len));
    }
    sorted_lists_are_equal(sorted, wide_sorted.filter(within));
    sorted_groups_are_filtered(wide_sorted, wide_report, over, under);
    let filtered = wide_report.filter(within);
    assert forall|i: int| 0 <= i < narrow_report.len() implies is_sorted_group(
        filtered[i],
        #[trigger] narrow_report[i],
    ) by {
        assert(is_sorted_group(sorted[i], narrow_report[i]));
        assert(is_sorted_group(wide_sorted.filter(within)[i], filtered[i]));
    }
}

/// The groups that a narrower search finds are those of a wider one that have enough files.
proof fn narrow_parts(
    wide: Config,
    narrow: Config,
    files: Seq<FileInfo>,
    wide_replies: Replies,
    narrow_replies: Replies,
    read_id: IdReading,
    read: Reading,
)
    requires
        wide.hard_links == narrow.hard_links,
        wide.over() <= narrow.over(),
        !wide.hard_links ==> are_read_ids(size_groups(wide, files), wide_replies.ids@, read_id),
        !narrow.hard_links ==> are_read_ids(
            size_groups(narrow, files),
            narrow_replies.ids@,
            read_id,
        ),
        has_read(wide, start_groups(wide, files, wide_replies), wide_replies, read),
        has_read(narrow, start_groups(narrow, files, narrow_replies), narrow_replies, read),
    ensures
        contents_groups(narrow, start_groups(narrow, files, narrow_replies), narrow_replies)
            == contents_groups(
            wide,
            start_groups(wide, files, wide_replies),
            wide_replies,
        ).filter(has_at_least(narrow.over() as nat + 1)),
{
    let wide_over = wide.over() as nat;
    let over = narrow.over() as nat;
    let wide_start = start_groups(wide, files, wide_replies);
    let start = start_groups(narrow, files, narrow_replies);
    narrow_start(wide, narrow, files, wide_replies, narrow_replies, read_id);
    narrow_split(
        Stage::Prefix,
        wide_start,
        start,
        wide_replies.prefixes@,
        narrow_replies.prefixes@,
        read,
        over,
        wide_over,
        over,
    );
    narrow_split(
        Stage::Suffix,
        prefix_groups(wide, wide_start, wide_replies),
        prefix_groups(narrow, start, narrow_replies),
        wide_replies.suffixes@,
        narrow_replies.suffixes@,
        read,
        over + 1,
        wide_over,
        over,
    );
    narrow_split(
        Stage::Contents,
        suffix_groups(wide, wide_start, wide_replies),
        suffix_groups(narrow, start, narrow_replies),
        wide_replies.contents@,
        narrow_replies.contents@,
        read,
        over + 1,
        wide_over,
        over,
    );
}

} // verus!
