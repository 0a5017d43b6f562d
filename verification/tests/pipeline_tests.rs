use dupfinder::hasher::{
    full_hash_file, hash_buckets, quick_hash_file, select_for_full_hash, ContentStore, HashedFile,
};
use dupfinder::pipeline::find_duplicates;
use dupfinder::scanner::{partition_by_size, FileRef};
use dupfinder::statistics::{calculate_statistics, DuplicateGroup};
use dupfinder::utils::ProgressCounter;

struct Fixture {
    files: Vec<FileRef>,
    store: ContentStore,
}

fn fixture(entries: &[(&str, Vec<u8>)]) -> Fixture {
    let mut files = Vec::new();
    let mut store = ContentStore::new();
    for (path, content) in entries {
        files.push(FileRef { path: path.to_string(), size: content.len() as u64 });
        store.insert(path.to_string(), content.clone());
    }
    Fixture { files, store }
}

fn paths(list: &[&str]) -> Vec<String> {
    list.iter().map(|s| s.to_string()).collect()
}

fn varied_tree() -> Vec<(&'static str, Vec<u8>)> {
    vec![
        ("/t/a", vec![1u8; 300]),
        ("/t/b", vec![2u8; 300]),
        ("/t/c", vec![1u8; 300]),
        ("/t/d", vec![3u8; 40]),
        ("/t/e", vec![1u8; 300]),
        ("/t/f", vec![3u8; 40]),
        ("/t/g", vec![]),
        ("/t/h", vec![4u8; 41]),
        ("/t/i", vec![2u8; 300]),
        ("/t/j", vec![]),
    ]
}

#[test]
fn two_identical_files_and_one_different_give_one_group() {
    let f = fixture(&[("A", vec![b'x'; 100]), ("B", vec![b'x'; 100]), ("C", vec![b'y'; 100])]);
    let buckets = partition_by_size(&f.files);
    assert_eq!(buckets.len(), 1);
    assert_eq!(buckets[0].files, paths(&["A", "B", "C"]));
    let groups = find_duplicates(&f.files, &f.store, 8192);
    assert_eq!(
        groups,
        vec![DuplicateGroup {
            hash: full_hash_file(&vec![b'x'; 100]),
            size: 100,
            files: paths(&["A", "B"]),
        }]
    );
    assert!(groups.iter().all(|g| !g.files.contains(&"C".to_string())));
}

#[test]
fn files_alike_in_the_sample_only_are_told_apart() {
    let mut d = vec![b'd'; 10_000];
    let mut e = vec![b'd'; 10_000];
    d[9000] = 1;
    e[9000] = 2;
    assert_eq!(quick_hash_file(&d, 8192), quick_hash_file(&e, 8192));
    assert_ne!(full_hash_file(&d), full_hash_file(&e));
    let quick = vec![
        HashedFile { hash: quick_hash_file(&d, 8192), path: "D".to_string(), size: 10_000 },
        HashedFile { hash: quick_hash_file(&e, 8192), path: "E".to_string(), size: 10_000 },
    ];
    let survivors = select_for_full_hash(&quick);
    assert_eq!(survivors.len(), 2);
    let f = fixture(&[("D", d), ("E", e)]);
    assert!(find_duplicates(&f.files, &f.store, 8192).is_empty());
}

#[test]
fn short_files_alike_in_the_sample_only_are_told_apart() {
    let mut d = vec![7u8; 5000];
    let mut e = vec![7u8; 5000];
    d[4500] = 1;
    e[4500] = 2;
    let quick = vec![
        HashedFile { hash: quick_hash_file(&d, 4096), path: "D".to_string(), size: 5000 },
        HashedFile { hash: quick_hash_file(&e, 4096), path: "E".to_string(), size: 5000 },
    ];
    assert_eq!(quick[0].hash, quick[1].hash);
    assert_eq!(select_for_full_hash(&quick).len(), 2);
    let f = fixture(&[("D", d), ("E", e)]);
    assert!(find_duplicates(&f.files, &f.store, 4096).is_empty());
    assert!(find_duplicates(&f.files, &f.store, 8192).is_empty());
}

#[test]
fn an_empty_directory_gives_nothing() {
    let f = fixture(&[]);
    assert!(f.files.is_empty());
    let buckets = partition_by_size(&f.files);
    assert!(buckets.is_empty());
    let groups = find_duplicates(&f.files, &f.store, 8192);
    assert!(groups.is_empty());
    let stats = calculate_statistics(&groups, f.files.len(), buckets.len()).unwrap();
    assert_eq!(stats.total_files_scanned, 0);
    assert_eq!(stats.total_size_groups, 0);
    assert_eq!(stats.total_duplicate_groups, 0);
    assert_eq!(stats.total_duplicate_files, 0);
    assert_eq!(stats.total_wasted_space, 0);
}

#[test]
fn two_empty_files_are_no_duplicates() {
    let f = fixture(&[("empty1", vec![]), ("empty2", vec![])]);
    assert_eq!(f.files[0].size, 0);
    assert_eq!(f.files[1].size, 0);
    assert!(partition_by_size(&f.files).is_empty());
    assert!(find_duplicates(&f.files, &f.store, 8192).is_empty());
}

#[test]
fn three_identical_files_give_one_group_of_three() {
    let content = b"three copies of one file".to_vec();
    let size = content.len() as u64;
    let f = fixture(&[("one", content.clone()), ("two", content.clone()), ("three", content.clone())]);
    let buckets = partition_by_size(&f.files);
    let groups = find_duplicates(&f.files, &f.store, 8192);
    assert_eq!(groups.len(), 1);
    assert_eq!(groups[0].files, paths(&["one", "two", "three"]));
    assert_eq!(groups[0].size, size);
    assert_eq!(groups[0].hash, full_hash_file(&content));
    let stats = calculate_statistics(&groups, f.files.len(), buckets.len()).unwrap();
    assert_eq!(stats.total_files_scanned, 3);
    assert_eq!(stats.total_size_groups, 1);
    assert_eq!(stats.total_duplicate_groups, 1);
    assert_eq!(stats.total_duplicate_files, 3);
    assert_eq!(stats.total_wasted_space, size * 2);
}

#[test]
fn groups_hold_files_of_one_size() {
    let f = fixture(&varied_tree());
    let groups = find_duplicates(&f.files, &f.store, 16);
    assert_eq!(groups.len(), 3);
    for group in &groups {
        for path in &group.files {
            let file = f.files.iter().find(|x| &x.path == path).unwrap();
            assert_eq!(file.size, group.size);
        }
    }
}

#[test]
fn groups_hold_files_of_one_content_and_differ_from_each_other() {
    let f = fixture(&varied_tree());
    let groups = find_duplicates(&f.files, &f.store, 16);
    for group in &groups {
        let first = f.store.get(&group.files[0]).unwrap();
        assert_eq!(group.hash, full_hash_file(first));
        for path in &group.files {
            assert_eq!(f.store.get(path).unwrap(), first);
        }
    }
    for (i, g) in groups.iter().enumerate() {
        for h in &groups[i + 1..] {
            assert_ne!(g.hash, h.hash);
            assert_ne!(f.store.get(&g.files[0]), f.store.get(&h.files[0]));
            assert!(g.files.iter().all(|p| !h.files.contains(p)));
        }
    }
}

#[test]
fn groups_have_at_least_two_members() {
    let f = fixture(&varied_tree());
    let groups = find_duplicates(&f.files, &f.store, 16);
    assert_eq!(groups[0].files, paths(&["/t/a", "/t/c", "/t/e"]));
    assert_eq!(groups[1].files, paths(&["/t/b", "/t/i"]));
    assert_eq!(groups[2].files, paths(&["/t/d", "/t/f"]));
    assert!(groups.iter().all(|g| g.files.len() >= 2));
}

#[test]
fn an_interrupted_run_reports_parts_of_the_full_result() {
    let tree = varied_tree();
    let f = fixture(&tree);
    let whole = find_duplicates(&f.files, &f.store, 16);
    for cut in 0..=f.files.len() {
        let part = find_duplicates(&f.files[..cut], &f.store, 16);
        for group in &part {
            let cover = whole.iter().find(|g| g.hash == group.hash).expect("covered");
            assert!(group.files.iter().all(|p| cover.files.contains(p)));
        }
    }
    for skip in 0..f.files.len() {
        let mut seen = f.files.clone();
        seen.remove(skip);
        for group in find_duplicates(&seen, &f.store, 16) {
            let cover = whole.iter().find(|g| g.hash == group.hash).expect("covered");
            assert!(group.files.iter().all(|p| cover.files.contains(p)));
        }
    }
}

#[test]
fn running_twice_gives_the_same_groups() {
    let f = fixture(&varied_tree());
    let first = find_duplicates(&f.files, &f.store, 16);
    let second = find_duplicates(&f.files, &f.store, 16);
    assert_eq!(first, second);
    let again = fixture(&varied_tree());
    assert_eq!(find_duplicates(&again.files, &again.store, 16), first);
}

#[test]
fn stale_sizes_can_put_two_lengths_under_one_digest() {
    let mut store = ContentStore::new();
    for path in ["a", "b", "c", "d"] {
        store.insert(path.to_string(), b"now all alike".to_vec());
    }
    let files = vec![
        FileRef { path: "a".to_string(), size: 3 },
        FileRef { path: "b".to_string(), size: 3 },
        FileRef { path: "c".to_string(), size: 5 },
        FileRef { path: "d".to_string(), size: 5 },
    ];
    let groups = find_duplicates(&files, &store, 8192);
    assert_eq!(groups.len(), 1);
    assert_eq!(groups[0].size, 3);
    assert_eq!(groups[0].files, paths(&["a", "b", "c", "d"]));
}

#[test]
fn a_run_stopped_in_both_stages_reports_parts_of_the_full_result() {
    let f = fixture(&varied_tree());
    let whole = find_duplicates(&f.files, &f.store, 16);
    for taken in 0..=f.files.len() {
        let buckets = partition_by_size(&f.files[..taken]);
        for done in 0..=buckets.len() {
            let part = hash_buckets(&buckets[..done], &f.store, 16, &ProgressCounter::new());
            for group in &part {
                let cover = whole.iter().find(|g| g.hash == group.hash).expect("covered");
                assert!(group.files.iter().all(|p| cover.files.contains(p)));
                assert!(group.files.len() <= cover.files.len());
            }
        }
    }
}

#[test]
fn identical_files_of_one_size_are_grouped() {
    let f = fixture(&varied_tree());
    let groups = find_duplicates(&f.files, &f.store, 16);
    for a in &f.files {
        for b in &f.files {
            let same = a.path != b.path
                && a.size == b.size
                && a.size != 0
                && f.store.get(&a.path) == f.store.get(&b.path);
            if same {
                let digest = full_hash_file(f.store.get(&a.path).unwrap());
                let group = groups.iter().find(|g| g.hash == digest).expect("grouped");
                assert!(group.files.contains(&a.path));
                assert!(group.files.contains(&b.path));
            }
        }
    }
}
