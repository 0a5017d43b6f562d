//! What a report of the duplicate groups holds: which groups are shown, in
//! which order, and with which figures. Colours and printing are left to
//! the caller.

use crate::statistics::group_wasted_space;
use crate::statistics::wasted_space;
use crate::statistics::DuplicateGroup;
use crate::statistics::DuplicateGroupView;
use crate::statistics::ScanStatistics;
use crate::statistics::StatsError;
use vstd::prelude::*;
use vstd::string::StringExecFns;

verus! {

/// The text that the `humansize` crate gives for a number of bytes with its
/// decimal (SI) options, such as `1 MB`.
pub uninterp spec fn decimal_size_text(bytes: u64) -> Seq<char>;

/// Calls `humansize::format_size` with the options `humansize::DECIMAL`.
/// The contract only names the result: the text is a function of the
/// number alone.
#[verifier::external_body]
fn format_size_decimal(bytes: u64) -> (text: String)
    ensures
        text@ == decimal_size_text(bytes),
{
    humansize::format_size(bytes, humansize::DECIMAL)
}

/// A path as it is shown, given whether the terminal takes hyperlinks: as
/// it stands, or wrapped in the escape sequence that links to the file.
pub open spec fn shown_path(path: Seq<char>, hyperlinks: bool) -> Seq<char> {
    if hyperlinks {
        "\x1b]8;;file://"@ + path + "\x07"@ + path + "\x1b]8;;\x07"@
    } else {
        path
    }
}

/// Renders a path for the terminal.
pub fn format_path(path: &str, hyperlinks: bool) -> (text: String)
    ensures
        text@ == shown_path(path@, hyperlinks),
{
    if hyperlinks {
        String::from_str("\x1b]8;;file://").concat(path).concat("\x07").concat(path).concat(
            "\x1b]8;;\x07",
        )
    } else {
        String::from_str(path)
    }
}

/// The mark in front of a file of a group.
#[derive(Debug, Clone, Copy, PartialEq, Eq, Structural)]
pub enum TreeMark {
    /// The first file of the group.
    First,
    /// A file between the first and the last.
    Middle,
    /// The last file of the group, unless it is also the first.
    Last,
}

/// Picks the mark of the file at place `index` in a group of `count` files.
pub fn tree_mark(index: usize, count: usize) -> (mark: TreeMark)
    ensures
        mark == if index == 0 {
            TreeMark::First
        } else if index + 1 == count {
            TreeMark::Last
        } else {
            TreeMark::Middle
        },
{
    if index == 0 {
        TreeMark::First
    } else if count > 0 && index == count - 1 {
        TreeMark::Last
    } else {
        TreeMark::Middle
    }
}

/// The noun for `count` groups.
pub fn group_noun(count: usize) -> (noun: &'static str)
    ensures
        noun@ == if count == 1 {
            "duplicate group"@
        } else {
            "duplicate groups"@
        },
{
    if count == 1 {
        "duplicate group"
    } else {
        "duplicate groups"
    }
}

/// The headline of a report.
#[derive(Debug, Clone, PartialEq, Eq)]
pub struct ReportSummary {
    pub group_count: usize,
    /// `duplicate group` or `duplicate groups`.
    pub noun: &'static str,
    /// The reclaimable space, for human readers.
    pub wasted_text: String,
}

/// Builds the headline of a report, or `None` where no duplicates were
/// found.
pub fn summarize(stats: &ScanStatistics) -> (summary: Option<ReportSummary>)
    ensures
        stats.total_duplicate_groups == 0 <==> summary is None,
        summary matches Some(s) ==> {
            &&& s.group_count == stats.total_duplicate_groups
            &&& s.noun@ == if stats.total_duplicate_groups == 1 {
                "duplicate group"@
            } else {
                "duplicate groups"@
            }
            &&& s.wasted_text@ == decimal_size_text(stats.total_wasted_space)
        },
{
    if stats.total_duplicate_groups == 0 {
        None
    } else {
        Some(
            ReportSummary {
                group_count: stats.total_duplicate_groups,
                noun: group_noun(stats.total_duplicate_groups),
                wasted_text: format_size_decimal(stats.total_wasted_space),
            },
        )
    }
}

/// The files of a group that are still there: `present` says of each
/// file, by its place, whether it exists. A file without a flag counts as
/// gone.
pub open spec fn kept_files(files: Seq<Seq<char>>, present: Seq<bool>) -> Seq<Seq<char>>
    decreases files.len(),
{
    if files.len() == 0 {
        Seq::empty()
    } else {
        let earlier = kept_files(files.drop_last(), present);
        if files.len() <= present.len() && present[files.len() - 1] {
            earlier.push(files.last())
        } else {
            earlier
        }
    }
}

/// A group as it is reported once its files were looked up again: with the
/// files that are still there, if these are at least two.
pub open spec fn existing_group(group: DuplicateGroupView, present: Seq<bool>) -> Option<
    DuplicateGroupView,
> {
    let kept = kept_files(group.files, present);
    if kept.len() >= 2 {
        Some(DuplicateGroupView { hash: group.hash, size: group.size, files: kept })
    } else {
        None
    }
}

/// Drops the files of a group that no longer exist, and the group itself
/// where fewer than two files are left.
pub fn retain_existing(group: &DuplicateGroup, present: &[bool]) -> (kept: Option<DuplicateGroup>)
    ensures
        match kept {
            Some(g) => existing_group(group@, present@) == Some(g@),
            None => existing_group(group@, present@) is None,
        },
{
    let ghost all = group.files.deep_view();
    let mut files: Vec<String> = Vec::new();
    let mut i: usize = 0;
    proof {
        assert(all.take(0) =~= Seq::<Seq<char>>::empty());
        assert(files.deep_view() =~= kept_files(all.take(0), present@));
    }
    while i < group.files.len()
        invariant
            i <= group.files.len(),
            all == group.files.deep_view(),
            files.deep_view() == kept_files(all.take(i as int), present@),
        decreases group.files.len() - i,
    {
        let ghost before = files.deep_view();
        proof {
            assert(all.take(i + 1).drop_last() =~= all.take(i as int));
            assert(all.take(i + 1).last() == group.files[i as int]@);
        }
        if i < present.len() && present[i] {
            files.push(group.files[i].clone());
            proof {
                assert(files.deep_view() =~= before.push(group.files[i as int]@));
            }
        }
        i += 1;
    }
    proof {
        assert(all.take(group.files.len() as int) =~= all);
    }
    if files.len() >= 2 {
        Some(DuplicateGroup { hash: group.hash.clone(), size: group.size, files })
    } else {
        None
    }
}

/// The number of bytes that the files of a group take up together.
pub open spec fn group_weight(group: DuplicateGroupView) -> nat {
    (group.files.len() * group.size) as nat
}

/// `groups` is in the order of a report: heaviest group first.
pub open spec fn is_ranked(groups: Seq<DuplicateGroupView>) -> bool {
    forall|i: int, j: int|
        0 <= i < j < groups.len() ==> group_weight(#[trigger] groups[i]) >= group_weight(
            #[trigger] groups[j],
        )
}

/// Computes the number of bytes that the files of a group take up together.
fn weight_of(group: &DuplicateGroup) -> (weight: u128)
    ensures
        weight == group_weight(group@),
{
    let count: u128 = group.files.len() as u128;
    let size: u128 = group.size as u128;
    assert(count * size <= 0xffff_ffff_ffff_ffff * 0xffff_ffff_ffff_ffff) by (nonlinear_arith)
        requires
            0 <= count <= 0xffff_ffff_ffff_ffff,
            0 <= size <= 0xffff_ffff_ffff_ffff,
    ;
    count * size
}

/// Predicate selecting the groups that weigh at least `weight`.
pub open spec fn weighs_at_least(weight: nat) -> spec_fn(DuplicateGroupView) -> bool {
    |g: DuplicateGroupView| group_weight(g) >= weight
}

/// `ranked` with one more group, put in behind every group that weighs at
/// least as much.
pub open spec fn ranked_with(
    ranked: Seq<DuplicateGroupView>,
    group: DuplicateGroupView,
) -> Seq<DuplicateGroupView> {
    ranked.insert(ranked.filter(weighs_at_least(group_weight(group))).len() as int, group)
}

/// The groups in the order of a report: heaviest first, and groups of
/// equal weight in the order in which they came.
pub open spec fn ranking(groups: Seq<DuplicateGroupView>) -> Seq<DuplicateGroupView>
    decreases groups.len(),
{
    if groups.len() == 0 {
        Seq::empty()
    } else {
        ranked_with(ranking(groups.drop_last()), groups.last())
    }
}

/// In a ranked sequence, the groups that weigh at least `weight` are the
/// first ones: if they are the first `place`, there are `place` of them.
proof fn lemma_heavy_groups_come_first(ranked: Seq<DuplicateGroupView>, weight: nat, place: int)
    requires
        0 <= place <= ranked.len(),
        forall|k: int| 0 <= k < place ==> group_weight(#[trigger] ranked[k]) >= weight,
        forall|k: int| place <= k < ranked.len() ==> group_weight(#[trigger] ranked[k]) < weight,
    ensures
        ranked.filter(weighs_at_least(weight)).len() == place,
    decreases ranked.len(),
{
    if ranked.len() == 0 {
        reveal(Seq::filter);
    } else {
        let rest = ranked.drop_last();
        assert(ranked =~= rest.push(ranked.last()));
        rest.lemma_filter_push(ranked.last(), weighs_at_least(weight));
        if place == ranked.len() {
            lemma_heavy_groups_come_first(rest, weight, place - 1);
        } else {
            lemma_heavy_groups_come_first(rest, weight, place);
        }
    }
}

/// Puts the groups in the order of a report: by the number of bytes that
/// their files take up together, heaviest first. Groups of equal weight
/// keep the order in which they came.
pub fn rank_groups(groups: Vec<DuplicateGroup>) -> (ranked: Vec<DuplicateGroup>)
    ensures
        ranked.deep_view() == ranking(groups.deep_view()),
        is_ranked(ranked.deep_view()),
        ranked.deep_view().to_multiset() == groups.deep_view().to_multiset(),
{
    let ghost source = groups.deep_view();
    let mut ranked: Vec<DuplicateGroup> = Vec::new();
    proof {
        assert(source.take(0) =~= Seq::<DuplicateGroupView>::empty());
        assert(ranked.deep_view() =~= Seq::<DuplicateGroupView>::empty());
    }
    for group in it: groups.into_iter()
        invariant
            source.len() == it.seq().len(),
            forall|k: int| 0 <= k < source.len() ==> source[k] == (#[trigger] it.seq()[k])@,
            ranked.deep_view() == ranking(source.take(it.index() as int)),
            is_ranked(ranked.deep_view()),
            ranked.deep_view().to_multiset() == source.take(it.index() as int).to_multiset(),
    {
        let ghost at = it.index() as int;
        let ghost before = ranked.deep_view();
        let weight = weight_of(&group);
        let mut place: usize = 0;
        while place < ranked.len() && weight_of(&ranked[place]) >= weight
            invariant
                place <= ranked.len(),
                before == ranked.deep_view(),
                weight == group_weight(group@),
                forall|k: int| 0 <= k < place ==> group_weight(#[trigger] before[k]) >= weight,
            decreases ranked.len() - place,
        {
            proof {
                assert(before[place as int] == ranked[place as int]@);
            }
            place += 1;
        }
        proof {
            if place < ranked.len() {
                assert(before[place as int] == ranked[place as int]@);
            }
        }
        ranked.insert(place, group);
        proof {
            let after = ranked.deep_view();
            assert(after =~= before.insert(place as int, group@));
            assert(source.take(at + 1) =~= source.take(at).push(group@));
            vstd::seq_lib::to_multiset_insert(before, place as int, group@);
            vstd::seq_lib::to_multiset_build(source.take(at), group@);
            assert(source.take(at + 1).drop_last() =~= source.take(at));
            assert forall|k: int| place <= k < before.len() implies group_weight(
                #[trigger] before[k],
            ) < weight by {
                assert(group_weight(before[place as int]) < weight);
            }
            lemma_heavy_groups_come_first(before, weight as nat, place as int);
            assert forall|i: int, j: int| 0 <= i < j < after.len() implies group_weight(
                #[trigger] after[i],
            ) >= group_weight(#[trigger] after[j]) by {
                if j < place {
                    assert(after[i] == before[i] && after[j] == before[j]);
                } else if j == place {
                    assert(after[i] == before[i]);
                } else if i < place {
                    assert(after[i] == before[i] && after[j] == before[j - 1]);
                    if place < before.len() {
                        assert(group_weight(before[place as int]) < weight);
                    }
                } else if i == place {
                    assert(after[j] == before[j - 1]);
                    assert(group_weight(before[place as int]) < weight);
                } else {
                    assert(after[i] == before[i - 1] && after[j] == before[j - 1]);
                }
            }
        }
    }
    proof {
        assert(source.take(source.len() as int) =~= source);
    }
    ranked
}

/// One group as a report shows it.
#[derive(Debug, Clone, PartialEq, Eq)]
pub struct GroupReport {
    /// Place of the group in the report, from 1.
    pub rank: usize,
    /// Byte length of one file, for human readers.
    pub size_text: String,
    pub file_count: usize,
    /// Space reclaimed by keeping one file, for human readers.
    pub wasted_text: String,
    pub files: Vec<String>,
}

/// Mathematical model of a [`GroupReport`].
pub struct GroupReportView {
    pub rank: nat,
    pub size_text: Seq<char>,
    pub file_count: nat,
    pub wasted_text: Seq<char>,
    pub files: Seq<Seq<char>>,
}

impl View for GroupReport {
    type V = GroupReportView;

    open spec fn view(&self) -> GroupReportView {
        GroupReportView {
            rank: self.rank as nat,
            size_text: self.size_text@,
            file_count: self.file_count as nat,
            wasted_text: self.wasted_text@,
            files: self.files.deep_view(),
        }
    }
}

impl DeepView for GroupReport {
    type V = GroupReportView;

    open spec fn deep_view(&self) -> GroupReportView {
        self@
    }
}

/// What a report shows of the group at place `index`.
pub open spec fn report_of(index: int, group: DuplicateGroupView) -> GroupReportView {
    GroupReportView {
        rank: (index + 1) as nat,
        size_text: decimal_size_text(group.size),
        file_count: group.files.len(),
        wasted_text: decimal_size_text(wasted_space(group) as u64),
        files: group.files,
    }
}

/// Copies a list of paths.
fn copy_paths(paths: &Vec<String>) -> (copy: Vec<String>)
    ensures
        copy.deep_view() == paths.deep_view(),
{
    let mut copy: Vec<String> = Vec::new();
    let mut k: usize = 0;
    while k < paths.len()
        invariant
            k <= paths.len(),
            copy.len() == k,
            forall|j: int| 0 <= j < k ==> copy[j]@ == paths[j]@,
        decreases paths.len() - k,
    {
        copy.push(paths[k].clone());
        k += 1;
    }
    assert(copy.deep_view() =~= paths.deep_view());
    copy
}

/// Describes each group for a report, in the order given.
///
/// Fails where the space that a group wastes does not fit in `u64`.
pub fn describe_groups(groups: &[DuplicateGroup]) -> (result: Result<Vec<GroupReport>, StatsError>)
    ensures
        match result {
            Ok(reports) => {
                &&& reports.len() == groups.len()
                &&& forall|i: int|
                    0 <= i < groups.len() ==> wasted_space(#[trigger] groups[i]@) <= u64::MAX
                        && reports[i]@ == report_of(i, groups[i]@)
            },
            Err(e) => e == StatsError::WastedSpaceOverflow && exists|i: int|
                0 <= i < groups.len() && wasted_space(#[trigger] groups[i]@) > u64::MAX,
        },
{
    let mut reports: Vec<GroupReport> = Vec::new();
    let mut i: usize = 0;
    while i < groups.len()
        invariant
            i <= groups.len(),
            reports.len() == i,
            forall|k: int|
                0 <= k < i ==> wasted_space(#[trigger] groups[k]@) <= u64::MAX && reports[k]@
                    == report_of(k, groups[k]@),
        decreases groups.len() - i,
    {
        let group = &groups[i];
        match group_wasted_space(group) {
            Some(wasted) => {
                let files = copy_paths(&group.files);
                reports.push(
                    GroupReport {
                        rank: i + 1,
                        size_text: format_size_decimal(group.size),
                        file_count: group.files.len(),
                        wasted_text: format_size_decimal(wasted),
                        files,
                    },
                );
            },
            None => {
                return Err(StatsError::WastedSpaceOverflow);
            },
        }
        i += 1;
    }
    Ok(reports)
}

} // verus!
