//! A search from the files of a scan to the groups that are reported.
//!
//! The search itself reads nothing. It stops whenever something has to be read, says what, and goes
//! on with what was read.

use rayon::slice::ParallelSliceMut;
use std::cmp::Reverse;
use vstd::prelude::*;

use crate::config::Config;
use crate::files::{FileHash, FileId, FileInfo, FileInfoNoLen, FileLen, Path};
use crate::group::{group_views, FileGroup, GroupView};
use crate::order::{is_sorted, sort_paths};
use crate::sizes::{
    all_files, drop_hard_link_info, group_by_size, is_selected, link_groups, path_groups,
    prune_hard_links, scan_files, size_groups,
};
use crate::stages::{group_by_contents, group_by_prefix, group_by_suffix, split_groups, Stage};

verus! {

/// Where a search is. Each state but the last one waits for a reply.
#[derive(Debug)]
pub enum Search {
    /// Waits for the identifiers of the files of those groups for which they are needed.
    PruningLinks(Vec<FileGroup<FileInfoNoLen>>),
    /// Waits for the hashes of the files of those groups that the stage hashes.
    Splitting(Stage, Vec<FileGroup<Path>>),
    /// Has found what is to be reported.
    Finished(Vec<FileGroup<Path>>),
}

/// What was read.
#[derive(Debug)]
pub enum Reply {
    /// For each group the identifiers of its files, where they could be read.
    FileIds(Vec<Vec<Option<FileId>>>),
    /// For each group the hashes of its files, where they could be read.
    FileHashes(Vec<Vec<Option<FileHash>>>),
}

/// What a state of a search stands for.
#[verifier::ext_equal]
pub enum SearchView {
    PruningLinks(Seq<GroupView<FileInfoNoLen>>),
    Splitting(Stage, Seq<GroupView<Path>>),
    Finished(Seq<GroupView<Path>>),
}

impl View for Search {
    type V = SearchView;

    open spec fn view(&self) -> SearchView {
        match self {
            Search::PruningLinks(groups) => SearchView::PruningLinks(group_views(groups@)),
            Search::Splitting(stage, groups) => SearchView::Splitting(*stage, group_views(groups@)),
            Search::Finished(groups) => SearchView::Finished(group_views(groups@)),
        }
    }
}

/// Whether a group has fewer than `n` files.
pub open spec fn has_fewer_than<F>(n: nat) -> spec_fn(GroupView<F>) -> bool {
    |group: GroupView<F>| group.files.len() < n
}

/// Whether the files of a group have the given length.
pub open spec fn has_len<F>(len: FileLen) -> spec_fn(GroupView<F>) -> bool {
    |group: GroupView<F>| group.len == len
}

/// Whether the groups are in descending order of their lengths.
pub open spec fn is_descending<F>(groups: Seq<GroupView<F>>) -> bool {
    forall|i: int, j: int|
        0 <= i < j < groups.len() ==> (#[trigger] groups[i]).len.0 >= (#[trigger] groups[j]).len.0
}

/// Whether `after` has the groups of `before` in descending order of their lengths, with the
/// groups of each length in the order in which they were.
pub open spec fn is_sorted_by_len<F>(before: Seq<GroupView<F>>, after: Seq<GroupView<F>>) -> bool {
    &&& is_descending(after)
    &&& forall|len: FileLen| #[trigger]
        after.filter(has_len(len)) == before.filter(has_len(len))
}

/// Whether `after` is the group `before` with its files sorted by path.
pub open spec fn is_sorted_group(before: GroupView<Path>, after: GroupView<Path>) -> bool {
    &&& after.len == before.len
    &&& after.hash == before.hash
    &&& after.files.to_multiset() == before.files.to_multiset()
    &&& is_sorted(after.files)
}

/// Whether each group of `after` is the one of `before` with its files sorted by path.
pub open spec fn are_sorted_groups(
    before: Seq<GroupView<Path>>,
    after: Seq<GroupView<Path>>,
) -> bool {
    &&& after.len() == before.len()
    &&& forall|i: int|
        0 <= i < after.len() ==> is_sorted_group(before[i], #[trigger] after[i])
}

/// Whether `report` has the groups of less than `under` files, the longest files first, and in
/// each group the files sorted by path.
pub open spec fn is_report(
    groups: Seq<GroupView<Path>>,
    under: usize,
    report: Seq<GroupView<Path>>,
) -> bool {
    exists|sorted: Seq<GroupView<Path>>| #[trigger]
        is_sorted_by_len(groups.filter(has_fewer_than(under as nat)), sorted) && are_sorted_groups(
            sorted,
            report,
        )
}

/// Calls `ParallelSliceMut::par_sort_by_key` with the reversed length of a group as its key. What
/// is believed: the call sorts the groups so that lengths descend, and it does not reorder groups
/// of equal lengths.
#[verifier::external_body]
fn par_sort_by_len(groups: &mut Vec<FileGroup<Path>>)
    ensures
        is_sorted_by_len(group_views(old(groups)@), group_views(final(groups)@)),
{
    groups.par_sort_by_key(|group| Reverse(group.len.0));
}

/// Drops the groups that are too large to be reported and puts the others in the order in which
/// they are reported.
pub fn finish(config: &Config, groups: Vec<FileGroup<Path>>) -> (report: Vec<FileGroup<Path>>)
    ensures
        is_report(group_views(groups@), config.under(), group_views(report@)),
{
    let rf_under: usize = config.rf_under();
    let ghost all = group_views(groups@);
    let ghost groups_before = groups@;
    let mut kept: Vec<FileGroup<Path>> = Vec::new();
    proof {
        reveal(Seq::filter);
    }
    for group in it: groups
        invariant
            it.seq() == groups_before,
            all == group_views(groups_before),
            group_views(kept@) =~= all.take(it.index() as int).filter(
                has_fewer_than(rf_under as nat),
            ),
    {
        let ghost n = it.index() as int;
        let ghost before = kept@;
        proof {
            reveal(Seq::filter);
            assert(all.take(n + 1).drop_last() =~= all.take(n));
        }
        if group.files.len() < rf_under {
            kept.push(group);
            assert(group_views(kept@) =~= group_views(before).push(group@));
        }
    }
    assert(all.take(all.len() as int) =~= all);
    par_sort_by_len(&mut kept);
    let ghost sorted = group_views(kept@);
    let ghost sorted_groups = kept@;
    let mut report: Vec<FileGroup<Path>> = Vec::new();
    for group in it: kept
        invariant
            it.seq() == sorted_groups,
            sorted == group_views(sorted_groups),
            report@.len() == it.index(),
            forall|i: int|
                0 <= i < report@.len() ==> is_sorted_group(sorted[i], #[trigger] report@[i]@),
    {
        let len = group.len;
        let hash = group.hash;
        report.push(FileGroup { len, hash, files: sort_paths(group.files) });
    }
    assert(are_sorted_groups(sorted, group_views(report@)));
    report
}

/// The state of a search after grouping the files by length.
pub open spec fn first_state(config: Config, files: Seq<FileInfo>) -> SearchView {
    let groups = size_groups(config, files);
    if config.hard_links {
        SearchView::Splitting(Stage::Prefix, path_groups(groups))
    } else {
        SearchView::PruningLinks(groups)
    }
}

/// Whether a reply takes a search from one state to another.
pub open spec fn is_next_state(
    config: Config,
    state: SearchView,
    reply: Reply,
    next: SearchView,
) -> bool {
    match (state, reply) {
        (SearchView::PruningLinks(groups), Reply::FileIds(ids)) => next == SearchView::Splitting(
            Stage::Prefix,
            link_groups(config, groups, ids@),
        ),
        (SearchView::Splitting(stage, groups), Reply::FileHashes(hashes)) => {
            let parts = split_groups(stage, groups, hashes@, config.over() as nat);
            match stage {
                Stage::Prefix => next == SearchView::Splitting(Stage::Suffix, parts),
                Stage::Suffix => next == SearchView::Splitting(Stage::Contents, parts),
                Stage::Contents => next matches SearchView::Finished(report) && is_report(
                    parts,
                    config.under(),
                    report,
                ),
            }
        },
        _ => next == state,
    }
}

/// Starts a search among those of the files found whose length is searched.
pub fn process(config: &Config, found: Vec<Vec<FileInfo>>) -> (search: Search)
    ensures
        search@ == first_state(*config, all_files(found@).filter(is_selected(*config))),
{
    let groups = group_by_size(config, scan_files(config, found));
    if config.hard_links {
        Search::Splitting(Stage::Prefix, drop_hard_link_info(groups))
    } else {
        Search::PruningLinks(groups)
    }
}

impl Search {
    /// Goes on with what was read. A reply that the search does not wait for changes nothing.
    pub fn advance(self, config: &Config, reply: Reply) -> (next: Search)
        ensures
            is_next_state(*config, self@, reply, next@),
    {
        match (self, reply) {
            (Search::PruningLinks(groups), Reply::FileIds(ids)) => Search::Splitting(
                Stage::Prefix,
                prune_hard_links(config, groups, &ids),
            ),
            (Search::Splitting(stage, groups), Reply::FileHashes(hashes)) => match stage {
                Stage::Prefix => Search::Splitting(
                    Stage::Suffix,
                    group_by_prefix(config, groups, &hashes),
                ),
                Stage::Suffix => Search::Splitting(
                    Stage::Contents,
                    group_by_suffix(config, groups, &hashes),
                ),
                Stage::Contents => Search::Finished(
                    finish(config, group_by_contents(config, groups, &hashes)),
                ),
            },
            (search, _) => search,
        }
    }
}

/// What a search stands for says where it is, and has the lengths, hashes and files of its groups.
pub proof fn views_are_the_states(
    stage: Stage,
    files: Vec<FileGroup<FileInfoNoLen>>,
    paths: Vec<FileGroup<Path>>,
)
    ensures
        Search::PruningLinks(files)@ matches SearchView::PruningLinks(views) && views.len()
            == files@.len() && forall|i: int|
            0 <= i < files@.len() ==> (#[trigger] views[i]).len == files@[i].len && views[i].hash
                == files@[i].hash && views[i].files == files@[i].files@,
        Search::Splitting(stage, paths)@ matches SearchView::Splitting(at, views) && at == stage
            && views.len() == paths@.len() && forall|i: int|
            0 <= i < paths@.len() ==> (#[trigger] views[i]).len == paths@[i].len && views[i].hash
                == paths@[i].hash && views[i].files == paths@[i].files@,
        Search::Finished(paths)@ matches SearchView::Finished(views) && views.len() == paths@.len()
            && forall|i: int|
            0 <= i < paths@.len() ==> (#[trigger] views[i]).len == paths@[i].len && views[i].hash
                == paths@[i].hash && views[i].files == paths@[i].files@,
{
}

} // verus!
