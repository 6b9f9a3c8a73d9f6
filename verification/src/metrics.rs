//! How many files, and how many bytes, a list of groups amounts to.

use vstd::prelude::*;

use crate::files::{FileInfo, FileLen};
use crate::group::{group_views, FileGroup, GroupView};

verus! {

/// The sum of a list of numbers.
pub open spec fn sum(numbers: Seq<nat>) -> nat
    decreases numbers.len(),
{
    if numbers.len() == 0 {
        0
    } else {
        sum(numbers.drop_last()) + numbers.last()
    }
}

/// A sum is at least the sum of any first part of the list.
pub proof fn sum_of_prefix_is_smaller(numbers: Seq<nat>, n: int)
    requires
        0 <= n <= numbers.len(),
    ensures
        sum(numbers.take(n)) <= sum(numbers),
    decreases numbers.len(),
{
    if n == numbers.len() {
        assert(numbers.take(n) =~= numbers);
    } else {
        sum_of_prefix_is_smaller(numbers.drop_last(), n);
        assert(numbers.drop_last().take(n) =~= numbers.take(n));
    }
}

/// One more number in the sum of the first ones.
pub(crate) proof fn sum_of_next_prefix(numbers: Seq<nat>, n: int)
    requires
        0 <= n < numbers.len(),
    ensures
        sum(numbers.take(n + 1)) == sum(numbers.take(n)) + numbers[n],
        sum(numbers.take(n + 1)) <= sum(numbers),
{
    assert(numbers.take(n + 1).drop_last() =~= numbers.take(n));
    sum_of_prefix_is_smaller(numbers, n + 1);
}

/// The sum as a machine number, if it is one.
pub open spec fn is_sum(total: Option<u64>, numbers: Seq<nat>) -> bool {
    match total {
        Some(t) => t == sum(numbers),
        None => sum(numbers) > u64::MAX,
    }
}

/// `total + number`, if it fits.
pub(crate) fn checked_sum(total: u64, number: u128) -> (next: Option<u64>)
    ensures
        match next {
            Some(t) => t == total + number,
            None => total + number > u64::MAX,
        },
{
    if number > (u64::MAX - total) as u128 {
        None
    } else {
        Some(total + number as u64)
    }
}

/// `len * count`.
pub(crate) fn bytes_of(len: FileLen, count: usize) -> (bytes: u128)
    ensures
        bytes == len.0 * count,
{
    proof {
        assert(len.0 * count <= u64::MAX * u64::MAX) by (nonlinear_arith)
            requires
                0 <= len.0 <= u64::MAX,
                0 <= count <= u64::MAX,
        ;
    }
    len.0 as u128 * count as u128
}

/// The number of files of a group.
pub open spec fn file_count<F>(group: GroupView<F>) -> nat {
    group.files.len()
}

/// The number of bytes of a group.
pub open spec fn byte_count<F>(group: GroupView<F>) -> nat {
    group.len.0 as nat * group.files.len()
}

/// The number of files of a group beyond `rf_over` copies. A group of `rf_under` files or more
/// has none.
pub open spec fn selected_files<F>(group: GroupView<F>, rf_over: usize, rf_under: usize) -> nat {
    if rf_over < group.files.len() < rf_under {
        (group.files.len() - rf_over) as nat
    } else {
        0
    }
}

/// The file count of each group.
pub open spec fn file_counts<F>(groups: Seq<GroupView<F>>) -> Seq<nat> {
    Seq::new(groups.len(), |i: int| file_count(groups[i]))
}

/// The number of selected files of each group.
pub open spec fn selected_counts<F>(
    groups: Seq<GroupView<F>>,
    rf_over: usize,
    rf_under: usize,
) -> Seq<nat> {
    Seq::new(groups.len(), |i: int| selected_files(groups[i], rf_over, rf_under))
}

/// The number of bytes of the selected files of each group.
pub open spec fn selected_sizes<F>(
    groups: Seq<GroupView<F>>,
    rf_over: usize,
    rf_under: usize,
) -> Seq<nat> {
    Seq::new(
        groups.len(),
        |i: int| groups[i].len.0 as nat * selected_files(groups[i], rf_over, rf_under),
    )
}

/// The number of files in all groups, unless it is too large to be a number of the machine.
pub fn total_count<F>(groups: &Vec<FileGroup<F>>) -> (total: Option<u64>)
    ensures
        is_sum(total, file_counts(group_views(groups@))),
{
    let ghost numbers = file_counts(group_views(groups@));
    let mut total: u64 = 0;
    for i in 0..groups.len()
        invariant
            numbers == file_counts(group_views(groups@)),
            total == sum(numbers.take(i as int)),
    {
        proof {
            sum_of_next_prefix(numbers, i as int);
        }
        total = match checked_sum(total, groups[i].files.len() as u128) {
            Some(next) => next,
            None => return None,
        };
    }
    assert(numbers.take(groups@.len() as int) =~= numbers);
    Some(total)
}

/// The number of selected files of a group.
fn selected_in<F>(group: &FileGroup<F>, rf_over: usize, rf_under: usize) -> (count: usize)
    ensures
        count == selected_files(group@, rf_over, rf_under),
{
    let n: usize = group.files.len();
    if rf_over < n && n < rf_under {
        n - rf_over
    } else {
        0
    }
}

/// The number of files in all groups that a search for more than `rf_over` and less than
/// `rf_under` copies selects, unless it is too large to be a number of the machine.
pub fn selected_count<F>(groups: &Vec<FileGroup<F>>, rf_over: usize, rf_under: usize) -> (total:
    Option<u64>)
    ensures
        is_sum(total, selected_counts(group_views(groups@), rf_over, rf_under)),
{
    let ghost numbers = selected_counts(group_views(groups@), rf_over, rf_under);
    let mut total: u64 = 0;
    for i in 0..groups.len()
        invariant
            numbers == selected_counts(group_views(groups@), rf_over, rf_under),
            total == sum(numbers.take(i as int)),
    {
        proof {
            sum_of_next_prefix(numbers, i as int);
        }
        total = match checked_sum(total, selected_in(&groups[i], rf_over, rf_under) as u128) {
            Some(next) => next,
            None => return None,
        };
    }
    assert(numbers.take(groups@.len() as int) =~= numbers);
    Some(total)
}

/// The number of bytes in the files that `selected_count` counts, unless it is too large to be a
/// number of the machine.
pub fn selected_size<F>(groups: &Vec<FileGroup<F>>, rf_over: usize, rf_under: usize) -> (total:
    Option<u64>)
    ensures
        is_sum(total, selected_sizes(group_views(groups@), rf_over, rf_under)),
{
    let ghost numbers = selected_sizes(group_views(groups@), rf_over, rf_under);
    let mut total: u64 = 0;
    for i in 0..groups.len()
        invariant
            numbers == selected_sizes(group_views(groups@), rf_over, rf_under),
            total == sum(numbers.take(i as int)),
    {
        proof {
            sum_of_next_prefix(numbers, i as int);
        }
        let count: usize = selected_in(&groups[i], rf_over, rf_under);
        total = match checked_sum(total, bytes_of(groups[i].len, count)) {
            Some(next) => next,
            None => return None,
        };
    }
    assert(numbers.take(groups@.len() as int) =~= numbers);
    Some(total)
}

/// The number of files in each list.
pub open spec fn list_counts(lists: Seq<Vec<FileInfo>>) -> Seq<nat> {
    Seq::new(lists.len(), |i: int| lists[i]@.len())
}

/// The length of each file.
pub open spec fn file_lens(files: Seq<FileInfo>) -> Seq<nat> {
    Seq::new(files.len(), |i: int| files[i].len.0 as nat)
}

/// The number of bytes in the files of each list.
pub open spec fn list_sizes(lists: Seq<Vec<FileInfo>>) -> Seq<nat> {
    Seq::new(lists.len(), |i: int| sum(file_lens(lists[i]@)))
}

/// The number of files that a scan found, unless it is too large to be a number of the machine.
pub fn scanned_count(lists: &Vec<Vec<FileInfo>>) -> (total: Option<u64>)
    ensures
        is_sum(total, list_counts(lists@)),
{
    let ghost numbers = list_counts(lists@);
    let mut total: u64 = 0;
    for i in 0..lists.len()
        invariant
            numbers == list_counts(lists@),
            total == sum(numbers.take(i as int)),
    {
        proof {
            sum_of_next_prefix(numbers, i as int);
        }
        total = match checked_sum(total, lists[i].len() as u128) {
            Some(next) => next,
            None => return None,
        };
    }
    assert(numbers.take(lists@.len() as int) =~= numbers);
    Some(total)
}

/// The number of bytes in the files that a scan found, unless it is too large to be a number of
/// the machine.
pub fn scanned_size(lists: &Vec<Vec<FileInfo>>) -> (total: Option<u64>)
    ensures
        is_sum(total, list_sizes(lists@)),
{
    let ghost numbers = list_sizes(lists@);
    let mut total: u64 = 0;
    for i in 0..lists.len()
        invariant
            numbers == list_sizes(lists@),
            total == sum(numbers.take(i as int)),
    {
        proof {
            sum_of_next_prefix(numbers, i as int);
        }
        let list = &lists[i];
        let ghost lens = file_lens(list@);
        let ghost before = total;
        for j in 0..list.len()
            invariant
                numbers == list_sizes(lists@),
                lens == file_lens(list@),
                total == before + sum(lens.take(j as int)),
                before + sum(lens) <= sum(numbers),
        {
            proof {
                sum_of_next_prefix(lens, j as int);
            }
            total = match checked_sum(total, list[j].len.0 as u128) {
                Some(next) => next,
                None => return None,
            };
        }
        assert(lens.take(list@.len() as int) =~= lens);
    }
    assert(numbers.take(lists@.len() as int) =~= numbers);
    Some(total)
}

/// A total and one number more, unless it is too large to be a number of the machine.
pub open spec fn plus(total: Option<u64>, number: nat) -> Option<u64> {
    if total is Some && total->0 + number <= u64::MAX {
        Some((total->0 + number) as u64)
    } else {
        None
    }
}

/// The sum of no numbers is zero, and one more number adds to the sum.
pub proof fn one_more_number(numbers: Seq<nat>, number: nat)
    ensures
        sum(Seq::empty()) == 0,
        sum(numbers.push(number)) == sum(numbers) + number,
{
    assert(numbers.push(number).drop_last() =~= numbers);
}

/// A total of one number more.
pub(crate) proof fn total_of_one_more(
    numbers: Seq<nat>,
    number: nat,
    before: Option<u64>,
    after: Option<u64>,
)
    requires
        is_sum(before, numbers),
        is_sum(after, numbers.push(number)),
    ensures
        after == plus(before, number),
{
    one_more_number(numbers, number);
}

/// One more group adds its files to the total count. To what a search selects it adds, if it has
/// more than `rf_over` and less than `rf_under` files, those beyond `rf_over`, and their bytes.
pub proof fn one_more_group<F>(
    groups: Seq<GroupView<F>>,
    group: GroupView<F>,
    rf_over: usize,
    rf_under: usize,
    before: (Option<u64>, Option<u64>, Option<u64>),
    after: (Option<u64>, Option<u64>, Option<u64>),
)
    requires
        is_sum(before.0, file_counts(groups)),
        is_sum(before.1, selected_counts(groups, rf_over, rf_under)),
        is_sum(before.2, selected_sizes(groups, rf_over, rf_under)),
        is_sum(after.0, file_counts(groups.push(group))),
        is_sum(after.1, selected_counts(groups.push(group), rf_over, rf_under)),
        is_sum(after.2, selected_sizes(groups.push(group), rf_over, rf_under)),
    ensures
        groups.len() == 0 ==> before == (Some(0u64), Some(0u64), Some(0u64)),
        after.0 == plus(before.0, group.files.len()),
        rf_over < group.files.len() < rf_under ==> {
            let n = (group.files.len() - rf_over) as nat;
            after.1 == plus(before.1, n) && after.2 == plus(before.2, group.len.0 as nat * n)
        },
        !(rf_over < group.files.len() < rf_under) ==> after.1 == before.1 && after.2 == before.2,
{
    let more = groups.push(group);
    let n = selected_files(group, rf_over, rf_under);
    assert(file_counts(more) =~= file_counts(groups).push(group.files.len()));
    assert(selected_counts(more, rf_over, rf_under) =~= selected_counts(
        groups,
        rf_over,
        rf_under,
    ).push(n));
    assert(selected_sizes(more, rf_over, rf_under) =~= selected_sizes(
        groups,
        rf_over,
        rf_under,
    ).push(group.len.0 as nat * n));
    total_of_one_more(file_counts(groups), group.files.len(), before.0, after.0);
    total_of_one_more(selected_counts(groups, rf_over, rf_under), n, before.1, after.1);
    total_of_one_more(
        selected_sizes(groups, rf_over, rf_under),
        group.len.0 as nat * n,
        before.2,
        after.2,
    );
    if n == 0 {
        assert(group.len.0 as nat * n == 0) by (nonlinear_arith)
            requires
                n == 0,
        ;
    }
}

/// One more file in the last list of a scan adds one to the count and its length to the size. An
/// empty list adds nothing.
pub proof fn one_more_scanned_file(
    lists: Seq<Vec<FileInfo>>,
    list: Vec<FileInfo>,
    longer: Vec<FileInfo>,
    file: FileInfo,
    none: (Option<u64>, Option<u64>),
    before: (Option<u64>, Option<u64>),
    after: (Option<u64>, Option<u64>),
)
    requires
        longer@ == list@.push(file),
        is_sum(none.0, list_counts(lists)),
        is_sum(none.1, list_sizes(lists)),
        is_sum(before.0, list_counts(lists.push(list))),
        is_sum(before.1, list_sizes(lists.push(list))),
        is_sum(after.0, list_counts(lists.push(longer))),
        is_sum(after.1, list_sizes(lists.push(longer))),
    ensures
        lists.len() == 0 ==> none == (Some(0u64), Some(0u64)),
        list@.len() == 0 ==> before == none,
        after.0 == plus(before.0, 1),
        after.1 == plus(before.1, file.len.0 as nat),
{
    let counts = list_counts(lists);
    let sizes = list_sizes(lists);
    let lens = file_lens(list@);
    assert(list_counts(lists.push(list)) =~= counts.push(list@.len()));
    assert(list_counts(lists.push(longer)) =~= counts.push(longer@.len()));
    assert(list_sizes(lists.push(list)) =~= sizes.push(sum(lens)));
    assert(file_lens(longer@) =~= lens.push(file.len.0 as nat));
    assert(list_sizes(lists.push(longer)) =~= sizes.push(sum(file_lens(longer@))));
    one_more_number(lens, file.len.0 as nat);
    one_more_number(counts, list@.len());
    one_more_number(counts, longer@.len());
    one_more_number(sizes, sum(lens));
    one_more_number(sizes, sum(file_lens(longer@)));
}

} // verus!
