use dupfinder::scanner::{
    group_by_size, has_dot_name, keep_entry, names_contain, partition_by_size, root_is_hidden,
    scan_files, EntryInfo, FileRef, SizeBucket,
};
use dupfinder::utils::{CancelToken, ProgressCounter};

fn scan_file(path: &str, size: u64) -> FileRef {
    FileRef { path: path.to_string(), size }
}

fn scan_entry(path: &str, is_symlink: bool, is_file: bool, size: Option<u64>) -> EntryInfo {
    EntryInfo { path: path.to_string(), is_symlink, is_file, size }
}

fn scan_names(list: &[&str]) -> Vec<String> {
    list.iter().map(|s| s.to_string()).collect()
}

#[test]
fn partition_of_nothing_is_empty() {
    assert!(partition_by_size(&[]).is_empty());
}

#[test]
fn partition_buckets_equal_lengths_in_first_seen_order() {
    let files = vec![
        scan_file("a", 100),
        scan_file("b", 7),
        scan_file("c", 200),
        scan_file("d", 100),
        scan_file("e", 200),
        scan_file("f", 100),
        scan_file("g", 9),
    ];
    let buckets = partition_by_size(&files);
    assert_eq!(
        buckets,
        vec![
            SizeBucket { size: 100, files: scan_names(&["a", "d", "f"]) },
            SizeBucket { size: 200, files: scan_names(&["c", "e"]) },
        ]
    );
}

#[test]
fn partition_drops_lengths_that_one_file_has() {
    let files = vec![scan_file("a", 1), scan_file("b", 2), scan_file("c", 3)];
    assert!(partition_by_size(&files).is_empty());
}

#[test]
fn partition_leaves_empty_files_out() {
    let files = vec![scan_file("empty1", 0), scan_file("empty2", 0), scan_file("x", 5), scan_file("y", 5)];
    let buckets = partition_by_size(&files);
    assert_eq!(buckets, vec![SizeBucket { size: 5, files: scan_names(&["x", "y"]) }]);
}

#[test]
fn partition_keeps_a_path_that_comes_twice() {
    let files = vec![scan_file("same", 4), scan_file("same", 4)];
    let buckets = partition_by_size(&files);
    assert_eq!(buckets, vec![SizeBucket { size: 4, files: scan_names(&["same", "same"]) }]);
}

#[test]
fn partition_handles_the_largest_length() {
    let files = vec![scan_file("big1", u64::MAX), scan_file("one", 1), scan_file("big2", u64::MAX)];
    let buckets = partition_by_size(&files);
    assert_eq!(buckets, vec![SizeBucket { size: u64::MAX, files: scan_names(&["big1", "big2"]) }]);
}

#[test]
fn partition_of_a_part_is_covered_by_the_whole() {
    let files = vec![
        scan_file("a", 10),
        scan_file("b", 20),
        scan_file("c", 10),
        scan_file("d", 20),
        scan_file("e", 10),
        scan_file("f", 30),
        scan_file("g", 30),
    ];
    let whole = partition_by_size(&files);
    for cut in 0..=files.len() {
        let part = partition_by_size(&files[..cut]);
        for bucket in &part {
            let cover = whole.iter().find(|b| b.size == bucket.size).expect("covered");
            for path in &bucket.files {
                assert!(cover.files.contains(path));
            }
            assert!(bucket.files.len() <= cover.files.len());
        }
    }
}

#[test]
fn scan_files_keeps_regular_files_of_the_asked_size() {
    let entries = vec![
        scan_entry("/r/dir", false, false, Some(4096)),
        scan_entry("/r/a.txt", false, true, Some(10)),
        scan_entry("/r/small", false, true, Some(3)),
        scan_entry("/r/unreadable", false, true, None),
        scan_entry("/r/link", true, true, Some(10)),
        scan_entry("/r/b.txt", false, true, Some(4)),
    ];
    let files = scan_files(&entries, false, 4);
    assert_eq!(files, vec![scan_file("/r/a.txt", 10), scan_file("/r/b.txt", 4)]);
}

#[test]
fn scan_files_takes_links_where_links_are_followed() {
    let entries = vec![
        scan_entry("/r/link", true, true, Some(10)),
        scan_entry("/r/linked_dir", true, false, Some(10)),
        scan_entry("/r/plain", false, true, Some(0)),
    ];
    let files = scan_files(&entries, true, 0);
    assert_eq!(files, vec![scan_file("/r/link", 10), scan_file("/r/plain", 0)]);
    assert_eq!(scan_files(&entries, false, 0), vec![scan_file("/r/plain", 0)]);
    assert!(scan_files(&[], true, 0).is_empty());
}

#[test]
fn dot_names_are_recognised() {
    assert!(has_dot_name(".git"));
    assert!(has_dot_name("."));
    assert!(has_dot_name(".."));
    assert!(!has_dot_name("git"));
    assert!(!has_dot_name("a.b"));
    assert!(!has_dot_name(""));
    assert!(!has_dot_name("\u{e9}.txt"));
}

#[test]
fn keep_entry_turns_down_dot_names_unless_hidden_is_included() {
    let none: Vec<String> = Vec::new();
    assert!(!keep_entry(Some(".cache"), true, false, false, &none));
    assert!(!keep_entry(Some(".profile"), false, false, false, &none));
    assert!(keep_entry(Some(".cache"), true, false, true, &none));
    assert!(keep_entry(Some("."), true, false, false, &none));
    assert!(!keep_entry(Some(".."), true, false, false, &none));
    assert!(keep_entry(Some("src"), true, false, false, &none));
    assert!(keep_entry(None, false, false, false, &none));
}

#[test]
fn keep_entry_turns_down_ignored_directories_only() {
    let ignored = scan_names(&["node_modules", "target"]);
    assert!(!keep_entry(Some("target"), true, false, false, &ignored));
    assert!(!keep_entry(Some("target"), true, false, true, &ignored));
    assert!(keep_entry(Some("target"), false, false, false, &ignored));
    assert!(keep_entry(Some("targets"), true, false, false, &ignored));
    assert!(keep_entry(None, true, false, false, &ignored));
}

#[test]
fn keep_entry_turns_down_what_the_system_hides() {
    let none: Vec<String> = Vec::new();
    assert!(!keep_entry(Some("Library"), true, true, false, &none));
    assert!(keep_entry(Some("Library"), true, true, true, &none));
    assert!(!keep_entry(None, false, true, false, &none));
}

#[test]
fn names_contain_compares_whole_names() {
    let list = scan_names(&["a", "bc", ""]);
    assert!(names_contain(&list, "a"));
    assert!(names_contain(&list, "bc"));
    assert!(names_contain(&list, ""));
    assert!(!names_contain(&list, "b"));
    assert!(!names_contain(&list, "abc"));
    assert!(!names_contain(&[], "a"));
}

#[test]
fn root_is_hidden_by_name_or_flag() {
    assert!(root_is_hidden(Some(".hidden"), false, false));
    assert!(root_is_hidden(Some("plain"), true, false));
    assert!(root_is_hidden(None, true, false));
    assert!(!root_is_hidden(Some("plain"), false, false));
    assert!(!root_is_hidden(None, false, false));
    assert!(!root_is_hidden(Some(".hidden"), true, true));
}

#[test]
fn group_by_size_takes_all_files_while_not_cancelled() {
    let files = vec![
        scan_file("a", 100),
        scan_file("b", 7),
        scan_file("c", 100),
        scan_file("d", 0),
        scan_file("e", 7),
    ];
    let cancel = CancelToken::new();
    let progress = ProgressCounter::new();
    let buckets = group_by_size(&files, &cancel, &progress);
    assert_eq!(buckets, partition_by_size(&files));
    assert_eq!(
        buckets,
        vec![
            SizeBucket { size: 100, files: scan_names(&["a", "c"]) },
            SizeBucket { size: 7, files: scan_names(&["b", "e"]) },
        ]
    );
    assert_eq!(progress.position(), 5);
}

#[test]
fn group_by_size_takes_nothing_once_cancelled() {
    let files = vec![scan_file("a", 100), scan_file("b", 100)];
    let cancel = CancelToken::new();
    cancel.cancel();
    let progress = ProgressCounter::new();
    assert!(group_by_size(&files, &cancel, &progress).is_empty());
    assert_eq!(progress.position(), 0);
}
