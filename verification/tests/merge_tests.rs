use dupfinder::merge::merge_buckets;
use dupfinder::scanner::{collect_by_size, partition_by_size, prune_buckets, FileRef, SizeBucket};

fn sized(path: &str, size: u64) -> FileRef {
    FileRef { path: path.to_string(), size }
}

fn holding(size: u64, files: &[&str]) -> SizeBucket {
    SizeBucket { size, files: files.iter().map(|s| s.to_string()).collect() }
}

fn sample_files() -> Vec<FileRef> {
    vec![
        sized("a", 10),
        sized("b", 20),
        sized("c", 0),
        sized("d", 10),
        sized("e", 30),
        sized("f", 20),
        sized("g", 10),
        sized("h", 40),
        sized("i", 30),
    ]
}

#[test]
fn collect_by_size_keeps_buckets_of_one_file() {
    let all = collect_by_size(&sample_files());
    assert_eq!(
        all,
        vec![
            holding(10, &["a", "d", "g"]),
            holding(20, &["b", "f"]),
            holding(30, &["e", "i"]),
            holding(40, &["h"]),
        ]
    );
    assert!(collect_by_size(&[]).is_empty());
    assert!(collect_by_size(&[sized("empty", 0)]).is_empty());
}

#[test]
fn prune_buckets_drops_buckets_of_fewer_than_two_files() {
    let pruned = prune_buckets(vec![
        holding(1, &["a"]),
        holding(2, &["b", "c"]),
        holding(3, &[]),
        holding(4, &["d", "e", "f"]),
    ]);
    assert_eq!(pruned, vec![holding(2, &["b", "c"]), holding(4, &["d", "e", "f"])]);
    assert!(prune_buckets(Vec::new()).is_empty());
}

#[test]
fn merge_joins_the_buckets_of_one_length() {
    let left = vec![holding(10, &["a"]), holding(20, &["b", "c"])];
    let right = vec![holding(30, &["d"]), holding(10, &["e", "f"])];
    let merged = merge_buckets(left, right);
    assert_eq!(
        merged,
        vec![holding(10, &["a", "e", "f"]), holding(20, &["b", "c"]), holding(30, &["d"])]
    );
}

#[test]
fn merge_with_nothing_changes_nothing() {
    let buckets = vec![holding(10, &["a"]), holding(20, &["b", "c"])];
    assert_eq!(merge_buckets(buckets.clone(), Vec::new()), buckets);
    assert_eq!(merge_buckets(Vec::new(), buckets.clone()), buckets);
    assert!(merge_buckets(Vec::new(), Vec::new()).is_empty());
}

#[test]
fn merge_joins_a_length_that_comes_twice_on_one_side() {
    let left = vec![holding(5, &["a"]), holding(7, &["b"]), holding(5, &["c"])];
    let merged = merge_buckets(left, vec![holding(7, &["d"])]);
    assert_eq!(merged, vec![holding(5, &["a", "c"]), holding(7, &["b", "d"])]);
}

#[test]
fn merging_the_shares_gives_what_one_worker_collects() {
    let files = sample_files();
    let whole = collect_by_size(&files);
    for cut in 0..=files.len() {
        let merged = merge_buckets(collect_by_size(&files[..cut]), collect_by_size(&files[cut..]));
        assert_eq!(merged, whole);
        assert_eq!(prune_buckets(merged), partition_by_size(&files));
    }
}

#[test]
fn merging_is_associative() {
    let files = sample_files();
    for first in 0..=files.len() {
        for second in first..=files.len() {
            let a = collect_by_size(&files[..first]);
            let b = collect_by_size(&files[first..second]);
            let c = collect_by_size(&files[second..]);
            let left_first = merge_buckets(merge_buckets(a.clone(), b.clone()), c.clone());
            let right_first = merge_buckets(a, merge_buckets(b, c));
            assert_eq!(left_first, right_first);
            assert_eq!(left_first, collect_by_size(&files));
        }
    }
}
