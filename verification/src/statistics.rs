//! Duplicate groups and the aggregate numbers of a run.

use vstd::prelude::*;

verus! {

/// A set of files with one content digest.
#[derive(Debug, Clone, PartialEq, Eq)]
pub struct DuplicateGroup {
    /// Lowercase hexadecimal digest shared by the members.
    pub hash: String,
    /// Byte length of a member.
    pub size: u64,
    /// Paths of the members.
    pub files: Vec<String>,
}

/// Mathematical model of a [`DuplicateGroup`].
pub struct DuplicateGroupView {
    pub hash: Seq<char>,
    pub size: u64,
    pub files: Seq<Seq<char>>,
}

impl View for DuplicateGroup {
    type V = DuplicateGroupView;

    open spec fn view(&self) -> DuplicateGroupView {
        DuplicateGroupView { hash: self.hash@, size: self.size, files: self.files.deep_view() }
    }
}

impl DeepView for DuplicateGroup {
    type V = DuplicateGroupView;

    open spec fn deep_view(&self) -> DuplicateGroupView {
        self@
    }
}

/// The aggregate numbers of a run.
#[derive(Debug, Clone, Copy, PartialEq, Eq, Structural)]
pub struct ScanStatistics {
    pub total_files_scanned: usize,
    pub total_size_groups: usize,
    pub total_duplicate_groups: usize,
    pub total_duplicate_files: usize,
    pub total_wasted_space: u64,
}

/// Why the aggregate numbers could not be computed.
#[derive(Debug, Clone, Copy, PartialEq, Eq, Structural)]
pub enum StatsError {
    /// The number of duplicate files does not fit in `usize`.
    FileCountOverflow,
    /// The reclaimable space does not fit in `u64`.
    WastedSpaceOverflow,
}

/// Space reclaimed by keeping one member of `group` and removing the rest.
pub open spec fn wasted_space(group: DuplicateGroupView) -> nat {
    if group.files.len() == 0 {
        0
    } else {
        (group.size * (group.files.len() - 1)) as nat
    }
}

/// Sum of the reclaimable space over `groups`.
pub open spec fn total_wasted_space(groups: Seq<DuplicateGroupView>) -> nat
    decreases groups.len(),
{
    if groups.len() == 0 {
        0
    } else {
        total_wasted_space(groups.drop_last()) + wasted_space(groups.last())
    }
}

/// Number of files over all of `groups`.
pub open spec fn total_duplicate_files(groups: Seq<DuplicateGroupView>) -> nat
    decreases groups.len(),
{
    if groups.len() == 0 {
        0
    } else {
        total_duplicate_files(groups.drop_last()) + groups.last().files.len()
    }
}

/// The sums over a prefix never exceed the sums over the whole sequence.
pub proof fn lemma_totals_monotone(groups: Seq<DuplicateGroupView>, n: int)
    requires
        0 <= n <= groups.len(),
    ensures
        total_wasted_space(groups.take(n)) <= total_wasted_space(groups),
        total_duplicate_files(groups.take(n)) <= total_duplicate_files(groups),
    decreases groups.len() - n,
{
    if n == groups.len() {
        assert(groups.take(n) =~= groups);
    } else {
        lemma_totals_monotone(groups.drop_last(), n);
        assert(groups.drop_last().take(n) =~= groups.take(n));
    }
}

/// The sums over one more group.
proof fn lemma_totals_step(groups: Seq<DuplicateGroupView>, n: int)
    requires
        0 <= n < groups.len(),
    ensures
        total_wasted_space(groups.take(n + 1)) == total_wasted_space(groups.take(n))
            + wasted_space(groups[n]),
        total_duplicate_files(groups.take(n + 1)) == total_duplicate_files(groups.take(n))
            + groups[n].files.len(),
{
    assert(groups.take(n + 1).drop_last() =~= groups.take(n));
}

/// Space reclaimed by deduplicating one group, or `None` when the product
/// does not fit in `u64`.
pub fn group_wasted_space(group: &DuplicateGroup) -> (wasted: Option<u64>)
    ensures
        match wasted {
            Some(w) => w == wasted_space(group@),
            None => wasted_space(group@) > u64::MAX,
        },
{
    let count = group.files.len();
    if count == 0 {
        Some(0)
    } else {
        let extra: u64 = (count - 1) as u64;
        group.size.checked_mul(extra)
    }
}

/// Computes the aggregate numbers of a run from its duplicate groups.
///
/// The two counts of the earlier stages are passed through. The reclaimable
/// space is the sum over the groups of `size * (members - 1)`.
pub fn calculate_statistics(
    hashes: &[DuplicateGroup],
    total_files_scanned: usize,
    total_size_groups: usize,
) -> (result: Result<ScanStatistics, StatsError>)
    ensures
        total_duplicate_files(hashes.deep_view()) > usize::MAX ==> result == Err::<
            ScanStatistics,
            StatsError,
        >(StatsError::FileCountOverflow),
        total_duplicate_files(hashes.deep_view()) <= usize::MAX && total_wasted_space(
            hashes.deep_view(),
        ) > u64::MAX ==> result == Err::<ScanStatistics, StatsError>(
            StatsError::WastedSpaceOverflow,
        ),
        total_duplicate_files(hashes.deep_view()) <= usize::MAX && total_wasted_space(
            hashes.deep_view(),
        ) <= u64::MAX ==> result == Ok::<ScanStatistics, StatsError>(
            ScanStatistics {
                total_files_scanned,
                total_size_groups,
                total_duplicate_groups: hashes.len(),
                total_duplicate_files: total_duplicate_files(hashes.deep_view()) as usize,
                total_wasted_space: total_wasted_space(hashes.deep_view()) as u64,
            },
        ),
{
    let ghost groups = hashes.deep_view();
    let mut files: usize = 0;
    let mut i: usize = 0;
    while i < hashes.len()
        invariant
            i <= hashes.len(),
            groups == hashes.deep_view(),
            files == total_duplicate_files(groups.take(i as int)),
        decreases hashes.len() - i,
    {
        proof {
            lemma_totals_step(groups, i as int);
            lemma_totals_monotone(groups, i + 1);
            assert(groups[i as int] == hashes[i as int]@);
        }
        match files.checked_add(hashes[i].files.len()) {
            Some(sum) => {
                files = sum;
            },
            None => {
                return Err(StatsError::FileCountOverflow);
            },
        }
        i += 1;
    }
    let mut wasted: u64 = 0;
    let mut i: usize = 0;
    proof {
        assert(groups.take(hashes.len() as int) =~= groups);
    }
    while i < hashes.len()
        invariant
            i <= hashes.len(),
            groups == hashes.deep_view(),
            files == total_duplicate_files(groups),
            wasted == total_wasted_space(groups.take(i as int)),
        decreases hashes.len() - i,
    {
        proof {
            lemma_totals_step(groups, i as int);
            lemma_totals_monotone(groups, i + 1);
            assert(groups[i as int] == hashes[i as int]@);
        }
        let sum = match group_wasted_space(&hashes[i]) {
            Some(w) => wasted.checked_add(w),
            None => None,
        };
        match sum {
            Some(sum) => {
                wasted = sum;
            },
            None => {
                return Err(StatsError::WastedSpaceOverflow);
            },
        }
        i += 1;
    }
    proof {
        assert(groups.take(hashes.len() as int) =~= groups);
    }
    Ok(
        ScanStatistics {
            total_files_scanned,
            total_size_groups,
            total_duplicate_groups: hashes.len(),
            total_duplicate_files: files,
            total_wasted_space: wasted,
        },
    )
}

} // verus!
