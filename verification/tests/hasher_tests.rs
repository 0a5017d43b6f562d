use dupfinder::hasher::{
    aggregate_duplicates, compute_hashes, full_hash_file, hash_buckets, quick_hash_file,
    select_for_full_hash, to_hex, ContentStore, HashedFile,
};
use dupfinder::utils::{CancelToken, ProgressCounter};
use dupfinder::scanner::{FileRef, SizeBucket};
use dupfinder::statistics::DuplicateGroup;

#[test]
fn test_quick_hash_file() {
    let hash = quick_hash_file(b"Hello, World!", 8192);
    assert!(!hash.is_empty());
    assert_eq!(hash.len(), 64);
}

#[test]
fn test_full_hash_file() {
    let hash = full_hash_file(b"Hello, World!");
    assert!(!hash.is_empty());
    assert_eq!(hash.len(), 64);
}

#[test]
fn test_same_content_same_hash() {
    let content = "Same content for both files";
    let hash1 = full_hash_file(content.as_bytes());
    let hash2 = full_hash_file(content.as_bytes());
    assert_eq!(hash1, hash2);
}

#[test]
fn test_different_content_different_hash() {
    let hash1 = full_hash_file(b"Content A");
    let hash2 = full_hash_file(b"Content B");
    assert_ne!(hash1, hash2);
}

#[test]
fn test_quick_hash_equals_full_for_small_files() {
    let quick = quick_hash_file(b"Small file", 8192);
    let full = full_hash_file(b"Small file");
    assert_eq!(quick, full);
}

#[test]
fn full_hash_matches_the_blake3_crate() {
    assert_eq!(
        full_hash_file(b""),
        "af1349b9f5f9a1a6a0404dea36dcc9499bcb25c9adc112b7cc9a93cae41f3262"
    );
    let data = b"The quick brown fox jumps over the lazy dog";
    assert_eq!(full_hash_file(data), blake3::hash(data).to_hex().to_string());
    assert_eq!(full_hash_file(data), blake3::Hasher::new().update(data).finalize().to_string());
}

#[test]
fn quick_hash_covers_only_the_sample() {
    let mut a = vec![7u8; 5000];
    let mut b = vec![7u8; 5000];
    a[4999] = 1;
    b[4999] = 2;
    assert_eq!(quick_hash_file(&a, 4096), quick_hash_file(&b, 4096));
    assert_eq!(quick_hash_file(&a, 4096), full_hash_file(&a[..4096]));
    assert_ne!(quick_hash_file(&a, 5000), quick_hash_file(&b, 5000));
    assert_ne!(full_hash_file(&a), full_hash_file(&b));
    assert_eq!(quick_hash_file(&a, 0), full_hash_file(b""));
}

#[test]
fn hex_is_lowercase_and_two_digits_per_byte() {
    assert_eq!(to_hex(&[]), "");
    assert_eq!(to_hex(&[0x00, 0x0f, 0xa5, 0xff]), "000fa5ff");
    assert_eq!(to_hex(&[0xde, 0xad, 0xbe, 0xef]), "deadbeef");
}

fn hashed(hash: &str, path: &str, size: u64) -> HashedFile {
    HashedFile { hash: hash.to_string(), path: path.to_string(), size }
}

fn dup_group(hash: &str, size: u64, files: &[&str]) -> DuplicateGroup {
    DuplicateGroup {
        hash: hash.to_string(),
        size,
        files: files.iter().map(|s| s.to_string()).collect(),
    }
}

fn store_of(files: &[(&str, &[u8])]) -> ContentStore {
    let mut store = ContentStore::new();
    for (path, content) in files {
        store.insert(path.to_string(), content.to_vec());
    }
    store
}

fn bucket(size: u64, files: &[&str]) -> SizeBucket {
    SizeBucket { size, files: files.iter().map(|s| s.to_string()).collect() }
}

#[test]
fn aggregate_groups_by_digest_in_first_seen_order() {
    let entries = vec![
        hashed("h1", "a", 10),
        hashed("h2", "b", 20),
        hashed("h3", "c", 30),
        hashed("h2", "d", 20),
        hashed("h1", "e", 10),
        hashed("h1", "f", 10),
    ];
    let groups = aggregate_duplicates(&entries);
    assert_eq!(
        groups,
        vec![dup_group("h1", 10, &["a", "e", "f"]), dup_group("h2", 20, &["b", "d"])]
    );
}

#[test]
fn aggregate_drops_digests_with_one_file() {
    let entries = vec![hashed("h1", "a", 1), hashed("h2", "b", 1), hashed("h3", "c", 1)];
    assert!(aggregate_duplicates(&entries).is_empty());
    assert!(aggregate_duplicates(&[]).is_empty());
}

#[test]
fn aggregate_merges_one_digest_from_two_buckets() {
    let entries = vec![hashed("h", "short", 3), hashed("h", "long", 5), hashed("k", "x", 5)];
    let groups = aggregate_duplicates(&entries);
    assert_eq!(groups, vec![dup_group("h", 3, &["short", "long"])]);
}

#[test]
fn aggregate_of_a_part_is_covered_by_the_whole() {
    let entries = vec![
        hashed("h1", "a", 10),
        hashed("h2", "b", 20),
        hashed("h1", "c", 10),
        hashed("h2", "d", 20),
        hashed("h1", "e", 10),
    ];
    let whole = aggregate_duplicates(&entries);
    for skip in 0..entries.len() {
        let mut part = entries.clone();
        part.remove(skip);
        for group in aggregate_duplicates(&part) {
            assert!(group.files.len() >= 2);
            let cover = whole.iter().find(|g| g.hash == group.hash).expect("covered");
            for path in &group.files {
                assert!(cover.files.contains(path));
            }
        }
    }
}

#[test]
fn select_for_full_hash_keeps_files_with_a_shared_quick_digest() {
    let entries = vec![
        hashed("q1", "a", 10),
        hashed("q2", "b", 10),
        hashed("q1", "c", 10),
        hashed("q3", "d", 10),
        hashed("q1", "e", 10),
        hashed("q3", "f", 10),
    ];
    let files = select_for_full_hash(&entries);
    assert_eq!(
        files,
        vec![
            FileRef { path: "a".to_string(), size: 10 },
            FileRef { path: "c".to_string(), size: 10 },
            FileRef { path: "d".to_string(), size: 10 },
            FileRef { path: "e".to_string(), size: 10 },
            FileRef { path: "f".to_string(), size: 10 },
        ]
    );
}

#[test]
fn select_for_full_hash_drops_everything_without_a_match() {
    let entries = vec![hashed("q1", "a", 10), hashed("q2", "b", 10)];
    assert!(select_for_full_hash(&entries).is_empty());
    assert!(select_for_full_hash(&[]).is_empty());
    assert!(select_for_full_hash(&[hashed("q", "only", 1)]).is_empty());
}

#[test]
fn content_store_returns_what_was_put_in() {
    let mut store = ContentStore::new();
    assert_eq!(store.get("a"), None);
    store.insert("a".to_string(), vec![1, 2, 3]);
    store.insert("b".to_string(), vec![]);
    assert_eq!(store.get("a"), Some(&vec![1, 2, 3]));
    assert_eq!(store.get("b"), Some(&vec![]));
    assert_eq!(store.get("c"), None);
    store.insert("a".to_string(), vec![9]);
    assert_eq!(store.get("a"), Some(&vec![9]));
}

#[test]
fn hash_buckets_groups_identical_contents() {
    let store = store_of(&[("a", b"same"), ("b", b"same"), ("c", b"diff"), ("d", b"xy"), ("e", b"xy")]);
    let buckets = vec![bucket(4, &["a", "b", "c"]), bucket(2, &["d", "e"])];
    let groups = hash_buckets(&buckets, &store, 8192, &ProgressCounter::new());
    assert_eq!(
        groups,
        vec![
            dup_group(&full_hash_file(b"same"), 4, &["a", "b"]),
            dup_group(&full_hash_file(b"xy"), 2, &["d", "e"]),
        ]
    );
}

#[test]
fn hash_buckets_leaves_unreadable_files_out() {
    let store = store_of(&[("a", b"same"), ("c", b"same")]);
    let buckets = vec![bucket(4, &["a", "gone", "c"]), bucket(9, &["lost1", "lost2"])];
    let groups = hash_buckets(&buckets, &store, 8192, &ProgressCounter::new());
    assert_eq!(groups, vec![dup_group(&full_hash_file(b"same"), 4, &["a", "c"])]);
    let alone = store_of(&[("a", b"same")]);
    assert!(hash_buckets(&buckets, &alone, 8192, &ProgressCounter::new()).is_empty());
}

#[test]
fn hash_buckets_skips_buckets_with_one_file() {
    let store = store_of(&[("a", b"same"), ("b", b"same")]);
    let buckets = vec![bucket(4, &["a"]), bucket(4, &["b"])];
    let progress = ProgressCounter::new();
    assert!(hash_buckets(&buckets, &store, 8192, &progress).is_empty());
    assert!(hash_buckets(&[], &store, 8192, &progress).is_empty());
    assert_eq!(progress.position(), 0);
}

#[test]
fn hash_buckets_gives_the_same_groups_for_any_sample_size() {
    let store = store_of(&[("a", b"abcdefgh"), ("b", b"abcdefgh"), ("c", b"abcdefgX")]);
    let buckets = vec![bucket(8, &["a", "b", "c"])];
    let expected = vec![dup_group(&full_hash_file(b"abcdefgh"), 8, &["a", "b"])];
    for sample in [0usize, 1, 7, 8, 9, 8192] {
        assert_eq!(hash_buckets(&buckets, &store, sample, &ProgressCounter::new()), expected);
    }
}

#[test]
fn hash_buckets_digests_in_full_only_what_the_quick_digest_lets_through() {
    let store = store_of(&[
        ("a", b"head-1-tail"),
        ("b", b"head-2-tail"),
        ("c", b"HEAD-3-tail"),
        ("d", b"xx"),
        ("e", b"yy"),
    ]);
    let buckets = vec![bucket(11, &["a", "b", "c"]), bucket(2, &["d", "e"])];
    let progress = ProgressCounter::new();
    assert!(hash_buckets(&buckets, &store, 4, &progress).is_empty());
    assert_eq!(progress.position(), 2);
    let all = ProgressCounter::new();
    assert!(hash_buckets(&buckets, &store, 0, &all).is_empty());
    assert_eq!(all.position(), 5);
}

#[test]
fn compute_hashes_runs_all_buckets_while_not_cancelled() {
    let store = store_of(&[("a", b"same"), ("b", b"same"), ("c", b"diff"), ("d", b"xy"), ("e", b"xy")]);
    let buckets = vec![bucket(4, &["a", "b", "c"]), bucket(2, &["d", "e"])];
    let cancel = CancelToken::new();
    let progress = ProgressCounter::new();
    let groups = compute_hashes(&buckets, &store, 8192, &cancel, &progress);
    assert_eq!(groups, hash_buckets(&buckets, &store, 8192, &ProgressCounter::new()));
    assert_eq!(groups.len(), 2);
    assert_eq!(progress.position(), 4);
    assert!(!cancel.is_cancelled());
}

#[test]
fn compute_hashes_starts_nothing_once_cancelled() {
    let store = store_of(&[("a", b"same"), ("b", b"same")]);
    let buckets = vec![bucket(4, &["a", "b"])];
    let cancel = CancelToken::new();
    cancel.cancel();
    assert!(cancel.is_cancelled());
    let progress = ProgressCounter::new();
    assert!(compute_hashes(&buckets, &store, 8192, &cancel, &progress).is_empty());
    assert_eq!(progress.position(), 0);
}
