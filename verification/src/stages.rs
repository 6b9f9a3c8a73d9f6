//! Splitting groups of files by hashes of their parts: a prefix first, then a suffix, then all.

use vstd::prelude::*;

use crate::config::Config;
use crate::dedup::reply;
use crate::files::{Caching, FileHash, FileLen, FilePos, Path};
use crate::group::{group_views, grouped, keyed_views, FileGroup, GroupMap, GroupView};
use crate::metrics::{
    byte_count, bytes_of, checked_sum, file_count, is_sum, plus, sum, sum_of_next_prefix,
    total_of_one_more,
};
use crate::sizes::{has_at_least, replies_at};

verus! {

broadcast use vstd::std_specs::hash::group_hash_axioms;

/// The length of the prefix that is hashed of a long file.
pub const MIN_PREFIX_LEN: u64 = 4096;

/// Files up to this length are hashed as a whole right away.
pub const MAX_PREFIX_LEN: u64 = 16384;

/// The length of the suffix that is hashed.
pub const SUFFIX_LEN: u64 = 4096;

/// The stages of splitting groups by hashes.
#[derive(Clone, Copy, Debug, PartialEq, Eq, Structural)]
pub enum Stage {
    Prefix,
    Suffix,
    Contents,
}

/// A part of a file that has to be hashed, and how it should be cached.
#[derive(Clone, Copy, Debug, PartialEq, Eq, Structural)]
pub struct HashRange {
    pub pos: FilePos,
    pub len: FileLen,
    pub caching: Caching,
}

/// The part of a file of length `len` that a stage looks at, if it looks at such a file.
pub open spec fn stage_range(stage: Stage, len: FileLen) -> Option<HashRange> {
    match stage {
        Stage::Prefix => Some(
            if len.0 <= MAX_PREFIX_LEN {
                HashRange { pos: FilePos(0), len, caching: Caching::Default }
            } else {
                HashRange {
                    pos: FilePos(0),
                    len: FileLen(MIN_PREFIX_LEN),
                    caching: Caching::Random,
                }
            },
        ),
        Stage::Suffix => if len.0 >= MAX_PREFIX_LEN + 2 * SUFFIX_LEN {
            Some(
                HashRange {
                    pos: FilePos((len.0 - SUFFIX_LEN) as u64),
                    len: FileLen(SUFFIX_LEN),
                    caching: Caching::Default,
                },
            )
        } else {
            None
        },
        Stage::Contents => if len.0 >= MAX_PREFIX_LEN {
            Some(HashRange { pos: FilePos(0), len, caching: Caching::Sequential })
        } else {
            None
        },
    }
}

/// The part that has to be hashed of each file of a group. A file that is alone in its group is
/// not hashed.
pub open spec fn group_range(stage: Stage, group: GroupView<Path>) -> Option<HashRange> {
    if group.files.len() > 1 {
        stage_range(stage, group.len)
    } else {
        None
    }
}

/// The hash by which each file of a group is told from the others: the one that was computed, or
/// else the hash of the group.
pub open spec fn file_hashes(
    stage: Stage,
    group: GroupView<Path>,
    replies: Seq<Option<FileHash>>,
) -> Seq<Option<FileHash>> {
    Seq::new(
        group.files.len(),
        |j: int|
            if stage_range(stage, group.len) is Some {
                reply(replies, j)
            } else {
                group.hash
            },
    )
}

/// The files that have a hash, each with its hash as its key.
pub open spec fn keyed_by_hash(files: Seq<Path>, hashes: Seq<Option<FileHash>>) -> Seq<
    (u128, Path),
>
    decreases files.len(),
{
    if files.len() == 0 {
        Seq::empty()
    } else {
        let before = keyed_by_hash(files.drop_last(), hashes);
        match hashes[files.len() - 1] {
            Some(hash) => before.push((hash.0, files.last())),
            None => before,
        }
    }
}

/// Groups of files of one length that share a hash.
pub open spec fn hash_groups(len: FileLen, groups: Seq<(u128, Seq<Path>)>) -> Seq<GroupView<Path>> {
    Seq::new(
        groups.len(),
        |i: int| GroupView { len, hash: Some(FileHash(groups[i].0)), files: groups[i].1 },
    )
}

/// What becomes of a group: a file that is alone stays alone, other files are grouped by their
/// hashes. Files without a hash are left out, and so are groups of `over` files or less.
pub open spec fn split_group(
    stage: Stage,
    group: GroupView<Path>,
    replies: Seq<Option<FileHash>>,
    over: nat,
) -> Seq<GroupView<Path>> {
    (if group.files.len() > 1 {
        hash_groups(
            group.len,
            grouped(keyed_by_hash(group.files, file_hashes(stage, group, replies))),
        )
    } else {
        seq![group]
    }).filter(has_at_least(over + 1))
}

/// What becomes of all groups.
pub open spec fn split_groups(
    stage: Stage,
    groups: Seq<GroupView<Path>>,
    replies: Seq<Vec<Option<FileHash>>>,
    over: nat,
) -> Seq<GroupView<Path>>
    decreases groups.len(),
{
    if groups.len() == 0 {
        Seq::empty()
    } else {
        let n = groups.len() - 1;
        split_groups(stage, groups.drop_last(), replies, over) + split_group(
            stage,
            groups[n],
            replies_at(replies, n),
            over,
        )
    }
}

/// The number of files of each group that have to be hashed.
pub open spec fn hashed_files(stage: Stage, groups: Seq<GroupView<Path>>) -> Seq<nat> {
    Seq::new(
        groups.len(),
        |i: int|
            if group_range(stage, groups[i]) is Some {
                file_count(groups[i])
            } else {
                0
            },
    )
}

/// The number of bytes of the files of each group that have to be hashed.
pub open spec fn hashed_bytes(stage: Stage, groups: Seq<GroupView<Path>>) -> Seq<nat> {
    Seq::new(
        groups.len(),
        |i: int|
            if group_range(stage, groups[i]) is Some {
                byte_count(groups[i])
            } else {
                0
            },
    )
}

/// The part of a file of length `len` that a stage looks at, if it looks at such a file: short
/// files are hashed as a whole in the first stage, long ones by a prefix, then a suffix, and then
/// as a whole.
pub fn range_of_len(stage: Stage, len: FileLen) -> (range: Option<HashRange>)
    ensures
        range == stage_range(stage, len),
{
    match stage {
        Stage::Prefix => {
            if len.0 <= MAX_PREFIX_LEN {
                Some(HashRange { pos: FilePos(0), len, caching: Caching::Default })
            } else {
                Some(
                    HashRange {
                        pos: FilePos(0),
                        len: FileLen(MIN_PREFIX_LEN),
                        caching: Caching::Random,
                    },
                )
            }
        },
        Stage::Suffix => {
            if len.0 >= MAX_PREFIX_LEN + SUFFIX_LEN * 2 {
                Some(
                    HashRange {
                        pos: FileLen(len.0 - SUFFIX_LEN).as_pos(),
                        len: FileLen(SUFFIX_LEN),
                        caching: Caching::Default,
                    },
                )
            } else {
                None
            }
        },
        Stage::Contents => {
            if len.0 >= MAX_PREFIX_LEN {
                Some(HashRange { pos: FilePos(0), len, caching: Caching::Sequential })
            } else {
                None
            }
        },
    }
}

/// The part that has to be hashed of each file of the group, if the stage hashes the group.
pub fn range_of_group(stage: Stage, group: &FileGroup<Path>) -> (range: Option<HashRange>)
    ensures
        range == group_range(stage, group@),
{
    if group.files.len() > 1 {
        range_of_len(stage, group.len)
    } else {
        None
    }
}

/// The number of files that a stage has to hash, unless it is too large to be a number of the
/// machine.
pub fn remaining_files(stage: Stage, groups: &Vec<FileGroup<Path>>) -> (total: Option<u64>)
    ensures
        is_sum(total, hashed_files(stage, group_views(groups@))),
{
    let ghost numbers = hashed_files(stage, group_views(groups@));
    let mut total: u64 = 0;
    for i in 0..groups.len()
        invariant
            numbers == hashed_files(stage, group_views(groups@)),
            total == sum(numbers.take(i as int)),
    {
        proof {
            sum_of_next_prefix(numbers, i as int);
        }
        if range_of_group(stage, &groups[i]).is_some() {
            total = match checked_sum(total, groups[i].files.len() as u128) {
                Some(next) => next,
                None => return None,
            };
        }
    }
    assert(numbers.take(groups@.len() as int) =~= numbers);
    Some(total)
}

/// The number of bytes in the files that a stage has to hash, unless it is too large to be a
/// number of the machine.
pub fn bytes_to_scan(stage: Stage, groups: &Vec<FileGroup<Path>>) -> (total: Option<u64>)
    ensures
        is_sum(total, hashed_bytes(stage, group_views(groups@))),
{
    let ghost numbers = hashed_bytes(stage, group_views(groups@));
    let mut total: u64 = 0;
    for i in 0..groups.len()
        invariant
            numbers == hashed_bytes(stage, group_views(groups@)),
            total == sum(numbers.take(i as int)),
    {
        proof {
            sum_of_next_prefix(numbers, i as int);
        }
        if range_of_group(stage, &groups[i]).is_some() {
            total = match checked_sum(total, bytes_of(groups[i].len, groups[i].files.len())) {
                Some(next) => next,
                None => return None,
            };
        }
    }
    assert(numbers.take(groups@.len() as int) =~= numbers);
    Some(total)
}

/// Splits one group by the hashes of its files.
fn split_one(
    stage: Stage,
    group: FileGroup<Path>,
    replies: &Vec<Option<FileHash>>,
    rf_over: usize,
) -> (parts: Vec<FileGroup<Path>>)
    ensures
        group_views(parts@) == split_group(stage, group@, replies@, rf_over as nat),
{
    let ghost whole = group@;
    proof {
        reveal(Seq::filter);
    }
    let mut parts: Vec<FileGroup<Path>> = Vec::new();
    if group.files.len() <= 1 {
        if group.files.len() > rf_over {
            parts.push(group);
        }
        proof {
            reveal_with_fuel(Seq::filter, 2);
            assert(seq![whole].drop_last() =~= Seq::empty());
            assert(group_views(parts@) =~= seq![whole].filter(has_at_least(rf_over as nat + 1)));
        }
        return parts;
    }
    let len = group.len;
    let hash = group.hash;
    let hashed = range_of_len(stage, len).is_some();
    let ghost files = group.files@;
    let ghost hashes = file_hashes(stage, whole, replies@);
    let count: usize = group.files.len();
    let mut map: GroupMap<u128, Path> = GroupMap::new();
    let mut j: usize = 0;
    assert(map@ =~= keyed_by_hash(files.take(0), hashes));
    for file in it: group.files
        invariant
            it.seq() == files,
            j == it.index(),
            j <= files.len() == count,
            whole.files == files,
            whole.len == len,
            whole.hash == hash,
            hashed == (stage_range(stage, len) is Some),
            hashes == file_hashes(stage, whole, replies@),
            map.wf(),
            map@ == keyed_by_hash(files.take(j as int), hashes),
    {
        let file_hash = if !hashed {
            hash
        } else if j < replies.len() {
            replies[j]
        } else {
            None
        };
        proof {
            assert(files.take(j + 1).drop_last() =~= files.take(j as int));
            assert(file_hash == hashes[j as int]);
        }
        if let Some(file_hash) = file_hash {
            map.add(file_hash.0, file);
        }
        j = j + 1;
    }
    assert(files.take(files.len() as int) =~= files);
    let by_hash = map.into_groups();
    let ghost lists = by_hash@;
    let ghost expected = hash_groups(len, keyed_views(lists));
    for list in it: by_hash
        invariant
            it.seq() == lists,
            expected == hash_groups(len, keyed_views(lists)),
            group_views(parts@) =~= expected.take(it.index() as int).filter(
                has_at_least(rf_over as nat + 1),
            ),
    {
        let ghost n = it.index() as int;
        let ghost before = parts@;
        let (key, files) = list;
        proof {
            reveal(Seq::filter);
            assert(expected.take(n + 1).drop_last() =~= expected.take(n));
            assert(keyed_views(lists)[n] == (key, files@));
            assert(expected[n] =~= GroupView { len, hash: Some(FileHash(key)), files: files@ });
        }
        if files.len() > rf_over {
            parts.push(FileGroup { len, hash: Some(FileHash(key)), files });
            assert(group_views(parts@) =~= group_views(before).push(expected[n]));
        }
    }
    assert(expected.take(expected.len() as int) =~= expected);
    parts
}

/// Splits groups by the hashes of their files. `replies` holds, for each group that has to be
/// hashed, the hash that was computed for each of its files; a file without one is left out.
/// Groups of `rf_over` files or less are dropped.
pub fn split(
    stage: Stage,
    groups: Vec<FileGroup<Path>>,
    replies: &Vec<Vec<Option<FileHash>>>,
    rf_over: usize,
) -> (parts: Vec<FileGroup<Path>>)
    ensures
        group_views(parts@) == split_groups(
            stage,
            group_views(groups@),
            replies@,
            rf_over as nat,
        ),
{
    let no_replies: Vec<Option<FileHash>> = Vec::new();
    let ghost all = group_views(groups@);
    let ghost groups_before = groups@;
    let count: usize = groups.len();
    let mut parts: Vec<FileGroup<Path>> = Vec::new();
    let mut i: usize = 0;
    assert(group_views(parts@) =~= split_groups(stage, all.take(0), replies@, rf_over as nat));
    for group in it: groups
        invariant
            it.seq() == groups_before,
            all == group_views(groups_before),
            i == it.index(),
            i <= groups_before.len() == count,
            no_replies@.len() == 0,
            group_views(parts@) == split_groups(
                stage,
                all.take(i as int),
                replies@,
                rf_over as nat,
            ),
    {
        let group_replies = if i < replies.len() {
            &replies[i]
        } else {
            &no_replies
        };
        let ghost before = parts@;
        let mut more = split_one(stage, group, group_replies, rf_over);
        let ghost added = more@;
        parts.append(&mut more);
        proof {
            assert(group_replies@ =~= replies_at(replies@, i as int));
            assert(all.take(i + 1).drop_last() =~= all.take(i as int));
            assert(group_views(parts@) =~= group_views(before) + group_views(added));
        }
        i = i + 1;
    }
    assert(all.take(all.len() as int) =~= all);
    parts
}

/// Splits groups by hashes of prefixes.
pub fn group_by_prefix(
    config: &Config,
    groups: Vec<FileGroup<Path>>,
    replies: &Vec<Vec<Option<FileHash>>>,
) -> (parts: Vec<FileGroup<Path>>)
    ensures
        group_views(parts@) == split_groups(
            Stage::Prefix,
            group_views(groups@),
            replies@,
            config.over() as nat,
        ),
{
    split(Stage::Prefix, groups, replies, config.rf_over())
}

/// Splits groups of long files by hashes of suffixes.
pub fn group_by_suffix(
    config: &Config,
    groups: Vec<FileGroup<Path>>,
    replies: &Vec<Vec<Option<FileHash>>>,
) -> (parts: Vec<FileGroup<Path>>)
    ensures
        group_views(parts@) == split_groups(
            Stage::Suffix,
            group_views(groups@),
            replies@,
            config.over() as nat,
        ),
{
    split(Stage::Suffix, groups, replies, config.rf_over())
}

/// Splits groups of long files by hashes of all that is in them.
pub fn group_by_contents(
    config: &Config,
    groups: Vec<FileGroup<Path>>,
    replies: &Vec<Vec<Option<FileHash>>>,
) -> (parts: Vec<FileGroup<Path>>)
    ensures
        group_views(parts@) == split_groups(
            Stage::Contents,
            group_views(groups@),
            replies@,
            config.over() as nat,
        ),
{
    split(Stage::Contents, groups, replies, config.rf_over())
}

/// Which part of a file of a given length each stage looks at. The first stage looks at all of a
/// file of up to 16 KiB, and at the first 4 KiB of a longer one. The second stage looks at the last
/// 4 KiB of a file of 24 KiB or more, and the third at all of a file of 16 KiB or more.
pub proof fn parts_of_the_stages(len: FileLen)
    ensures
        stage_range(Stage::Prefix, len) matches Some(range) && range.pos.0 == 0 && (if len.0
            <= 16384 {
            range.len == len && range.caching == Caching::Default
        } else {
            range.len.0 == 4096 && range.caching == Caching::Random
        }),
        stage_range(Stage::Suffix, len) is Some <==> len.0 >= 24576,
        stage_range(Stage::Suffix, len) matches Some(range) ==> range.pos.0 + 4096 == len.0
            && range.len.0 == 4096 && range.caching == Caching::Default,
        stage_range(Stage::Contents, len) is Some <==> len.0 >= 16384,
        stage_range(Stage::Contents, len) matches Some(range) ==> range.pos.0 == 0 && range.len
            == len && range.caching == Caching::Sequential,
{
}

/// Of each file of a group of several files, the part that a stage looks at has to be hashed,
/// however many files there are. Of a file that is alone, nothing has to.
pub proof fn parts_of_the_groups(stage: Stage, group: GroupView<Path>)
    ensures
        group.files.len() > 1 ==> group_range(stage, group) == stage_range(stage, group.len),
        group.files.len() <= 1 ==> group_range(stage, group) is None,
{
}

/// One more group adds its files, and their bytes, to what a stage has to hash, if it has several
/// files and the stage looks at files of their length.
pub proof fn one_more_group_to_hash(
    stage: Stage,
    groups: Seq<GroupView<Path>>,
    group: GroupView<Path>,
    before: (Option<u64>, Option<u64>),
    after: (Option<u64>, Option<u64>),
)
    requires
        is_sum(before.0, hashed_files(stage, groups)),
        is_sum(before.1, hashed_bytes(stage, groups)),
        is_sum(after.0, hashed_files(stage, groups.push(group))),
        is_sum(after.1, hashed_bytes(stage, groups.push(group))),
    ensures
        groups.len() == 0 ==> before == (Some(0u64), Some(0u64)),
        group.files.len() > 1 && stage_range(stage, group.len) is Some ==> after.0 == plus(
            before.0,
            group.files.len(),
        ) && after.1 == plus(before.1, group.len.0 as nat * group.files.len()),
        group.files.len() <= 1 || stage_range(stage, group.len) is None ==> after == before,
{
    let more = groups.push(group);
    let hashed = group_range(stage, group) is Some;
    let files: nat = if hashed {
        group.files.len()
    } else {
        0
    };
    let bytes: nat = if hashed {
        group.len.0 as nat * group.files.len()
    } else {
        0
    };
    assert(hashed_files(stage, more) =~= hashed_files(stage, groups).push(files));
    assert(hashed_bytes(stage, more) =~= hashed_bytes(stage, groups).push(bytes));
    total_of_one_more(hashed_files(stage, groups), files, before.0, after.0);
    total_of_one_more(hashed_bytes(stage, groups), bytes, before.1, after.1);
}

} // verus!
