use dupfinder::output::{
    describe_groups, format_path, group_noun, rank_groups, retain_existing, summarize, tree_mark,
    TreeMark,
};
use dupfinder::statistics::{DuplicateGroup, ScanStatistics, StatsError};

fn report_group(hash: &str, size: u64, files: &[&str]) -> DuplicateGroup {
    DuplicateGroup {
        hash: hash.to_string(),
        size,
        files: files.iter().map(|s| s.to_string()).collect(),
    }
}

fn report_stats(groups: usize, wasted: u64) -> ScanStatistics {
    ScanStatistics {
        total_files_scanned: 10,
        total_size_groups: 3,
        total_duplicate_groups: groups,
        total_duplicate_files: 2 * groups,
        total_wasted_space: wasted,
    }
}

#[test]
fn format_path_is_plain_without_hyperlinks() {
    assert_eq!(format_path("/tmp/a b.txt", false), "/tmp/a b.txt");
    assert_eq!(format_path("", false), "");
}

#[test]
fn format_path_wraps_the_path_in_a_link() {
    assert_eq!(
        format_path("/tmp/a.txt", true),
        "\x1b]8;;file:///tmp/a.txt\x07/tmp/a.txt\x1b]8;;\x07"
    );
    assert_eq!(format_path("", true), "\x1b]8;;file://\x07\x1b]8;;\x07");
}

#[test]
fn tree_marks_follow_the_place_in_the_group() {
    assert_eq!(tree_mark(0, 3), TreeMark::First);
    assert_eq!(tree_mark(1, 3), TreeMark::Middle);
    assert_eq!(tree_mark(2, 3), TreeMark::Last);
    assert_eq!(tree_mark(0, 1), TreeMark::First);
    assert_eq!(tree_mark(1, 2), TreeMark::Last);
    assert_eq!(tree_mark(0, 0), TreeMark::First);
    assert_eq!(tree_mark(5, 0), TreeMark::Middle);
    assert_eq!(tree_mark(usize::MAX, 0), TreeMark::Middle);
    assert_eq!(tree_mark(usize::MAX - 1, usize::MAX), TreeMark::Last);
}

#[test]
fn group_noun_has_a_singular() {
    assert_eq!(group_noun(1), "duplicate group");
    assert_eq!(group_noun(0), "duplicate groups");
    assert_eq!(group_noun(2), "duplicate groups");
}

#[test]
fn summarize_gives_nothing_without_duplicates() {
    assert_eq!(summarize(&report_stats(0, 0)), None);
}

#[test]
fn summarize_formats_the_wasted_space() {
    let one = summarize(&report_stats(1, 1_000_000)).unwrap();
    assert_eq!(one.group_count, 1);
    assert_eq!(one.noun, "duplicate group");
    assert_eq!(one.wasted_text, "1 MB");
    let many = summarize(&report_stats(12, 1500)).unwrap();
    assert_eq!(many.group_count, 12);
    assert_eq!(many.noun, "duplicate groups");
    assert_eq!(many.wasted_text, "1.50 kB");
    assert_eq!(summarize(&report_stats(2, 999)).unwrap().wasted_text, "999 B");
    assert_eq!(summarize(&report_stats(2, 0)).unwrap().wasted_text, "0 B");
}

#[test]
fn retain_existing_drops_files_that_are_gone() {
    let g = report_group("h", 10, &["a", "b", "c", "d"]);
    let kept = retain_existing(&g, &[true, false, true, true]).unwrap();
    assert_eq!(kept, report_group("h", 10, &["a", "c", "d"]));
    assert_eq!(retain_existing(&g, &[true, true, true, true]), Some(g.clone()));
}

#[test]
fn retain_existing_drops_groups_with_fewer_than_two_files_left() {
    let g = report_group("h", 10, &["a", "b", "c"]);
    assert_eq!(retain_existing(&g, &[false, false, true]), None);
    assert_eq!(retain_existing(&g, &[false, false, false]), None);
    assert_eq!(retain_existing(&report_group("h", 10, &[]), &[]), None);
}

#[test]
fn retain_existing_counts_a_file_without_a_flag_as_gone() {
    let g = report_group("h", 10, &["a", "b", "c"]);
    assert_eq!(retain_existing(&g, &[true, true]), Some(report_group("h", 10, &["a", "b"])));
    assert_eq!(retain_existing(&g, &[true]), None);
    assert_eq!(
        retain_existing(&g, &[true, false, true, true, true]),
        Some(report_group("h", 10, &["a", "c"]))
    );
}

#[test]
fn rank_groups_puts_the_heaviest_first() {
    let groups = vec![
        report_group("small", 10, &["a", "b"]),
        report_group("large", 1000, &["c", "d"]),
        report_group("many", 100, &["e", "f", "g", "h", "i"]),
        report_group("tie", 5, &["j", "k", "l", "m"]),
    ];
    let ranked = rank_groups(groups);
    let order: Vec<&str> = ranked.iter().map(|g| g.hash.as_str()).collect();
    assert_eq!(order, vec!["large", "many", "small", "tie"]);
    assert_eq!(ranked[1], report_group("many", 100, &["e", "f", "g", "h", "i"]));
}

#[test]
fn rank_groups_keeps_every_group() {
    let groups = vec![
        report_group("a", 1, &["1", "2"]),
        report_group("b", u64::MAX, &["3", "4", "5"]),
        report_group("c", 1, &["1", "2"]),
        report_group("d", 0, &["6", "7"]),
    ];
    let mut expected = groups.clone();
    let mut ranked = rank_groups(groups);
    assert_eq!(ranked[0].hash, "b");
    assert_eq!(ranked[3].hash, "d");
    expected.sort_by(|x, y| x.hash.cmp(&y.hash));
    ranked.sort_by(|x, y| x.hash.cmp(&y.hash));
    assert_eq!(ranked, expected);
    assert!(rank_groups(Vec::new()).is_empty());
}

#[test]
fn describe_groups_numbers_and_formats_each_group() {
    let groups = vec![report_group("h1", 2_000_000, &["a", "b", "c"]), report_group("h2", 512, &["d", "e"])];
    let reports = describe_groups(&groups).unwrap();
    assert_eq!(reports.len(), 2);
    assert_eq!(reports[0].rank, 1);
    assert_eq!(reports[0].size_text, "2 MB");
    assert_eq!(reports[0].file_count, 3);
    assert_eq!(reports[0].wasted_text, "4 MB");
    assert_eq!(reports[0].files, vec!["a", "b", "c"]);
    assert_eq!(reports[1].rank, 2);
    assert_eq!(reports[1].size_text, "512 B");
    assert_eq!(reports[1].file_count, 2);
    assert_eq!(reports[1].wasted_text, "512 B");
    assert_eq!(reports[1].files, vec!["d", "e"]);
    assert!(describe_groups(&[]).unwrap().is_empty());
}

#[test]
fn describe_groups_fails_where_the_wasted_space_does_not_fit() {
    let groups = vec![report_group("ok", 1, &["a", "b"]), report_group("huge", u64::MAX, &["c", "d", "e"])];
    assert_eq!(describe_groups(&groups), Err(StatsError::WastedSpaceOverflow));
}
