//! The whole detection pipeline over a snapshot of file contents, and what
//! holds of its result.

use crate::distinct::lemma_filter_keeps_pair;
use crate::distinct::lemma_filter_map_source;
use crate::hasher::bucket_entries;
use crate::hasher::content_digest;
use crate::hasher::duplicate_groups;
use crate::hasher::entry_path;
use crate::hasher::engine_entries;
use crate::hasher::file_of;
use crate::hasher::full_entries;
use crate::hasher::full_entry;
use crate::hasher::has_hash;
use crate::hasher::hash_buckets;
use crate::hasher::is_readable;
use crate::hasher::is_readable_file;
use crate::hasher::is_shared;
use crate::hasher::lemma_duplicate_groups_properties;
use crate::hasher::paths_of;
use crate::hasher::quick_entries;
use crate::hasher::quick_entry;
use crate::hasher::shared_files;
use crate::hasher::with_hash;
use crate::hasher::ContentStore;
use crate::hasher::HashedFileView;
use crate::inclusion::is_part_of;
use crate::inclusion::lemma_empty_is_part;
use crate::inclusion::lemma_part_concat;
use crate::inclusion::lemma_part_contains;
use crate::inclusion::lemma_part_reflexive;
use crate::inclusion::lemma_part_transitive;
use crate::inclusion::lemma_prefix_is_part;
use crate::inclusion::lemma_part_filter;
use crate::inclusion::lemma_part_len;
use crate::inclusion::lemma_part_map;
use crate::scanner::has_size;
use crate::scanner::lemma_size_partition_properties;
use crate::scanner::path_of;
use crate::scanner::partition_by_size;
use crate::scanner::paths_of_size;
use crate::scanner::size_partition;
use crate::scanner::FileRef;
use crate::scanner::FileRefView;
use crate::scanner::SizeBucketView;
use crate::statistics::DuplicateGroup;
use crate::statistics::DuplicateGroupView;
use crate::utils::ProgressCounter;
use vstd::multiset::group_multiset_axioms;
use vstd::prelude::*;
use vstd::seq_lib::group_to_multiset_ensures;

verus! {

/// The fully hashed entries that the pipeline merges: what the engine
/// produces from the size partition of `files`.
pub open spec fn hashed_entries(
    files: Seq<FileRefView>,
    store: Map<Seq<char>, Seq<u8>>,
    sample_size: nat,
) -> Seq<HashedFileView> {
    engine_entries(size_partition(files), store, sample_size)
}

/// The duplicate groups of `files`, given the contents in `store`.
pub open spec fn duplicates_of(
    files: Seq<FileRefView>,
    store: Map<Seq<char>, Seq<u8>>,
    sample_size: nat,
) -> Seq<DuplicateGroupView> {
    duplicate_groups(hashed_entries(files, store, sample_size))
}

/// Finds the groups of files with identical content among `files`.
///
/// The files are partitioned by recorded size, each bucket is filtered by
/// the digest of the leading `quick_hash_size` bytes, and the remaining
/// files are grouped by the digest of their whole content. The result is a
/// function of the arguments: the same files and contents give the same
/// groups, with the same members in the same order.
pub fn find_duplicates(files: &[FileRef], store: &ContentStore, quick_hash_size: usize) -> (groups:
    Vec<DuplicateGroup>)
    ensures
        groups.deep_view() == duplicates_of(files.deep_view(), store@, quick_hash_size as nat),
        forall|i: int| 0 <= i < groups.len() ==> (#[trigger] groups[i]).files.len() >= 2,
{
    let buckets = partition_by_size(files);
    let progress = ProgressCounter::new();
    hash_buckets(buckets.as_slice(), store, quick_hash_size, &progress)
}

/// Two runs over the same files and the same contents report the same
/// groups: what [`find_duplicates`] returns is fixed by its arguments.
pub proof fn law_runs_agree(
    files: Seq<FileRefView>,
    store: Map<Seq<char>, Seq<u8>>,
    sample_size: nat,
    first: Seq<DuplicateGroupView>,
    second: Seq<DuplicateGroupView>,
)
    requires
        first == duplicates_of(files, store, sample_size),
        second == duplicates_of(files, store, sample_size),
    ensures
        first == second,
{
}

/// `e` is an entry that the engine makes from `bucket`: the bucket has at
/// least two files, `e` names one of them that `store` can read, with the
/// bucket's size and the digest of its content.
pub open spec fn is_entry_of(
    e: HashedFileView,
    bucket: SizeBucketView,
    store: Map<Seq<char>, Seq<u8>>,
) -> bool {
    &&& bucket.files.len() >= 2
    &&& e.size == bucket.size
    &&& bucket.files.contains(e.path)
    &&& store.contains_key(e.path)
    &&& e.hash == content_digest(store[e.path])
}

/// Every entry that a bucket contributes is an entry of that bucket.
pub proof fn lemma_bucket_entry(
    bucket: SizeBucketView,
    store: Map<Seq<char>, Seq<u8>>,
    sample_size: nat,
    k: int,
)
    requires
        0 <= k < bucket_entries(bucket, store, sample_size).len(),
    ensures
        is_entry_of(bucket_entries(bucket, store, sample_size)[k], bucket, store),
{
    let quick = quick_entries(bucket, store, sample_size);
    let survivors = shared_files(quick);
    let a = lemma_filter_map_source(survivors, is_readable_file(store), full_entry(store), k);
    let b = lemma_filter_map_source(quick, is_shared(quick), file_of(), a);
    let c = lemma_filter_map_source(
        bucket.files,
        is_readable(store),
        quick_entry(store, sample_size, bucket.size),
        b,
    );
    assert(bucket.files[c] == bucket_entries(bucket, store, sample_size)[k].path);
}

/// Every entry of the engine is an entry of one of the buckets.
pub proof fn lemma_engine_entry(
    groups: Seq<SizeBucketView>,
    store: Map<Seq<char>, Seq<u8>>,
    sample_size: nat,
    k: int,
) -> (j: int)
    requires
        0 <= k < engine_entries(groups, store, sample_size).len(),
    ensures
        0 <= j < groups.len(),
        is_entry_of(engine_entries(groups, store, sample_size)[k], groups[j], store),
    decreases groups.len(),
{
    let earlier = engine_entries(groups.drop_last(), store, sample_size);
    if k < earlier.len() {
        lemma_engine_entry(groups.drop_last(), store, sample_size, k)
    } else {
        lemma_bucket_entry(groups.last(), store, sample_size, k - earlier.len());
        groups.len() - 1
    }
}

/// Every group that the pipeline reports has at least two members.
pub proof fn law_no_singleton_groups(
    files: Seq<FileRefView>,
    store: Map<Seq<char>, Seq<u8>>,
    sample_size: nat,
)
    ensures
        forall|i: int|
            0 <= i < duplicates_of(files, store, sample_size).len() ==> (#[trigger] duplicates_of(
                files,
                store,
                sample_size,
            )[i]).files.len() >= 2,
{
    lemma_duplicate_groups_properties(hashed_entries(files, store, sample_size));
}

/// The size recorded for each readable file is the length of its content.
pub open spec fn sizes_are_accurate(files: Seq<FileRefView>, store: Map<Seq<char>, Seq<u8>>) -> bool {
    forall|i: int|
        0 <= i < files.len() && store.contains_key((#[trigger] files[i]).path) ==> store[files[i].path].len()
            == files[i].size
}

/// No two contents of different length in `store` have the same digest.
pub open spec fn lengths_follow_digests(store: Map<Seq<char>, Seq<u8>>) -> bool {
    forall|p: Seq<char>, q: Seq<char>|
        store.contains_key(p) && store.contains_key(q) && content_digest(#[trigger] store[p])
            == content_digest(#[trigger] store[q]) ==> store[p].len() == store[q].len()
}

/// Entries with one digest have one recorded size.
pub open spec fn sizes_follow_digests(entries: Seq<HashedFileView>) -> bool {
    forall|a: int, b: int|
        0 <= a < entries.len() && 0 <= b < entries.len() && (#[trigger] entries[a]).hash == (
        #[trigger] entries[b]).hash ==> entries[a].size == entries[b].size
}

/// Every entry under the digest of `group` has the size of `group`.
pub open spec fn group_has_one_size(entries: Seq<HashedFileView>, group: DuplicateGroupView) -> bool {
    forall|k: int|
        0 <= k < with_hash(entries, group.hash).len() ==> (#[trigger] with_hash(
            entries,
            group.hash,
        )[k]).size == group.size
}

/// The files of a group have one length, and it is the size of the group.
///
/// This holds unless two files of different recorded sizes come under the
/// same digest, which takes a file that changed after it was collected or
/// two contents of different length with one digest.
pub proof fn law_group_members_share_size(
    files: Seq<FileRefView>,
    store: Map<Seq<char>, Seq<u8>>,
    sample_size: nat,
)
    requires
        sizes_follow_digests(hashed_entries(files, store, sample_size)),
    ensures
        forall|g: int|
            0 <= g < duplicates_of(files, store, sample_size).len() ==> group_has_one_size(
                hashed_entries(files, store, sample_size),
                #[trigger] duplicates_of(files, store, sample_size)[g],
            ),
{
    let entries = hashed_entries(files, store, sample_size);
    let groups = duplicates_of(files, store, sample_size);
    lemma_duplicate_groups_properties(entries);
    assert forall|g: int| 0 <= g < groups.len() implies group_has_one_size(
        entries,
        #[trigger] groups[g],
    ) by {
        let members = with_hash(entries, groups[g].hash);
        assert forall|k: int| 0 <= k < members.len() implies (#[trigger] members[k]).size
            == groups[g].size by {
            entries.lemma_filter_pred(has_hash(groups[g].hash), k);
            entries.lemma_filter_pred(has_hash(groups[g].hash), 0);
            entries.lemma_filter_contains_rev(has_hash(groups[g].hash), members[k]);
            entries.lemma_filter_contains_rev(has_hash(groups[g].hash), members[0]);
            let a = choose|a: int| 0 <= a < entries.len() && entries[a] == members[k];
            let b = choose|b: int| 0 <= b < entries.len() && entries[b] == members[0];
            assert(entries[a].size == entries[b].size);
        }
    }
}

/// Where the recorded sizes are the lengths of the contents, and no two
/// contents of different length have the same digest, entries with one
/// digest have one recorded size.
pub proof fn lemma_accurate_sizes_follow_digests(
    files: Seq<FileRefView>,
    store: Map<Seq<char>, Seq<u8>>,
    sample_size: nat,
)
    requires
        sizes_are_accurate(files, store),
        lengths_follow_digests(store),
    ensures
        sizes_follow_digests(hashed_entries(files, store, sample_size)),
{
    let entries = hashed_entries(files, store, sample_size);
    assert forall|a: int, b: int|
        0 <= a < entries.len() && 0 <= b < entries.len() && (#[trigger] entries[a]).hash == (
        #[trigger] entries[b]).hash implies entries[a].size == entries[b].size by {
        lemma_entry_size_is_length(files, store, sample_size, a);
        lemma_entry_size_is_length(files, store, sample_size, b);
    }
}

/// With accurate sizes, the size of an entry is the length of the content
/// that its digest was taken of.
proof fn lemma_entry_size_is_length(
    files: Seq<FileRefView>,
    store: Map<Seq<char>, Seq<u8>>,
    sample_size: nat,
    a: int,
)
    requires
        sizes_are_accurate(files, store),
        0 <= a < hashed_entries(files, store, sample_size).len(),
    ensures
        store.contains_key(hashed_entries(files, store, sample_size)[a].path),
        hashed_entries(files, store, sample_size)[a].size == store[hashed_entries(
            files,
            store,
            sample_size,
        )[a].path].len(),
        hashed_entries(files, store, sample_size)[a].hash == content_digest(
            store[hashed_entries(files, store, sample_size)[a].path],
        ),
{
    let buckets = size_partition(files);
    let e = hashed_entries(files, store, sample_size)[a];
    let j = lemma_engine_entry(buckets, store, sample_size, a);
    lemma_size_partition_properties(files);
    assert(buckets[j].files == paths_of_size(files, buckets[j].size));
    let at = choose|at: int| 0 <= at < buckets[j].files.len() && buckets[j].files[at] == e.path;
    let m = lemma_filter_map_source(files, has_size(buckets[j].size), path_of(), at);
    assert(files[m].path == e.path && files[m].size == e.size);
}

/// No two different contents in `store` have the same digest.
pub open spec fn digests_tell_contents_apart(store: Map<Seq<char>, Seq<u8>>) -> bool {
    forall|p: Seq<char>, q: Seq<char>|
        store.contains_key(p) && store.contains_key(q) && content_digest(#[trigger] store[p])
            == content_digest(#[trigger] store[q]) ==> store[p] == store[q]
}

/// Entries with one digest name files with one content.
pub open spec fn contents_follow_digests(
    entries: Seq<HashedFileView>,
    store: Map<Seq<char>, Seq<u8>>,
) -> bool {
    forall|a: int, b: int|
        0 <= a < entries.len() && 0 <= b < entries.len() && (#[trigger] entries[a]).hash == (
        #[trigger] entries[b]).hash ==> store[entries[a].path] == store[entries[b].path]
}

/// Files that stand under the same digest have the same content, byte for
/// byte.
///
/// This holds unless two different contents of the snapshot have the same
/// digest.
pub proof fn law_same_digest_same_content(
    files: Seq<FileRefView>,
    store: Map<Seq<char>, Seq<u8>>,
    sample_size: nat,
)
    requires
        digests_tell_contents_apart(store),
    ensures
        contents_follow_digests(hashed_entries(files, store, sample_size), store),
{
    let entries = hashed_entries(files, store, sample_size);
    assert forall|a: int, b: int|
        0 <= a < entries.len() && 0 <= b < entries.len() && (#[trigger] entries[a]).hash == (
        #[trigger] entries[b]).hash implies store[entries[a].path] == store[entries[b].path] by {
        lemma_engine_entry(size_partition(files), store, sample_size, a);
        lemma_engine_entry(size_partition(files), store, sample_size, b);
    }
}

/// Entries with different digests name files with different contents.
pub open spec fn digests_differ_with_contents(
    entries: Seq<HashedFileView>,
    store: Map<Seq<char>, Seq<u8>>,
) -> bool {
    forall|a: int, b: int|
        0 <= a < entries.len() && 0 <= b < entries.len() && (#[trigger] entries[a]).hash != (
        #[trigger] entries[b]).hash ==> store[entries[a].path] != store[entries[b].path]
}

/// Files that stand under different digests differ in content.
pub proof fn law_distinct_digests_distinct_contents(
    files: Seq<FileRefView>,
    store: Map<Seq<char>, Seq<u8>>,
    sample_size: nat,
)
    ensures
        digests_differ_with_contents(hashed_entries(files, store, sample_size), store),
{
    let entries = hashed_entries(files, store, sample_size);
    assert forall|a: int, b: int|
        0 <= a < entries.len() && 0 <= b < entries.len() && (#[trigger] entries[a]).hash != (
        #[trigger] entries[b]).hash implies store[entries[a].path] != store[entries[b].path] by {
        lemma_engine_entry(size_partition(files), store, sample_size, a);
        lemma_engine_entry(size_partition(files), store, sample_size, b);
    }
}

/// Entries with one path have one digest.
pub open spec fn digests_follow_paths(entries: Seq<HashedFileView>) -> bool {
    forall|a: int, b: int|
        0 <= a < entries.len() && 0 <= b < entries.len() && (#[trigger] entries[a]).path == (
        #[trigger] entries[b]).path ==> entries[a].hash == entries[b].hash
}

/// No file stands under two digests.
pub proof fn law_no_file_under_two_digests(
    files: Seq<FileRefView>,
    store: Map<Seq<char>, Seq<u8>>,
    sample_size: nat,
)
    ensures
        digests_follow_paths(hashed_entries(files, store, sample_size)),
{
    let entries = hashed_entries(files, store, sample_size);
    assert forall|a: int, b: int|
        0 <= a < entries.len() && 0 <= b < entries.len() && (#[trigger] entries[a]).path == (
        #[trigger] entries[b]).path implies entries[a].hash == entries[b].hash by {
        lemma_engine_entry(size_partition(files), store, sample_size, a);
        lemma_engine_entry(size_partition(files), store, sample_size, b);
    }
}

/// Every bucket of `done` is covered by a bucket of `groups`: one of the
/// same length that holds each of its files at least as often.
pub open spec fn buckets_covered(done: Seq<SizeBucketView>, groups: Seq<SizeBucketView>) -> bool {
    forall|i: int| 0 <= i < done.len() ==> covers_bucket(groups, #[trigger] done[i])
}

/// One of `groups` has the length of `bucket` and holds each of its files
/// at least as often.
pub open spec fn covers_bucket(groups: Seq<SizeBucketView>, bucket: SizeBucketView) -> bool {
    exists|j: int|
        0 <= j < groups.len() && (#[trigger] groups[j]).size == bucket.size && is_part_of(
            bucket.files,
            groups[j].files,
        )
}

/// No two buckets stand for the same length.
pub open spec fn sizes_are_distinct(groups: Seq<SizeBucketView>) -> bool {
    forall|i: int, j: int|
        0 <= i < j < groups.len() ==> (#[trigger] groups[i]).size != (#[trigger] groups[j]).size
}

/// Every group of `partial` is covered by a group of `full`: one with the
/// same digest that holds each of its files at least as often.
pub open spec fn groups_covered(
    partial: Seq<DuplicateGroupView>,
    full: Seq<DuplicateGroupView>,
) -> bool {
    forall|i: int| 0 <= i < partial.len() ==> covers_group(full, #[trigger] partial[i])
}

/// One of `full` has the digest of `group` and holds each of its files at
/// least as often.
pub open spec fn covers_group(full: Seq<DuplicateGroupView>, group: DuplicateGroupView) -> bool {
    exists|j: int|
        0 <= j < full.len() && (#[trigger] full[j]).hash == group.hash && is_part_of(
            group.files,
            full[j].files,
        )
}

/// A bucket with fewer files contributes no entry that the bucket with all
/// the files would not contribute.
pub proof fn lemma_bucket_entries_part(
    small: SizeBucketView,
    large: SizeBucketView,
    store: Map<Seq<char>, Seq<u8>>,
    sample_size: nat,
)
    requires
        small.size == large.size,
        is_part_of(small.files, large.files),
    ensures
        is_part_of(
            bucket_entries(small, store, sample_size),
            bucket_entries(large, store, sample_size),
        ),
{
    lemma_part_len(small.files, large.files);
    if small.files.len() >= 2 {
        let quick_small = quick_entries(small, store, sample_size);
        let quick_large = quick_entries(large, store, sample_size);
        lemma_part_filter(small.files, large.files, is_readable(store), is_readable(store));
        lemma_part_map(
            small.files.filter(is_readable(store)),
            large.files.filter(is_readable(store)),
            quick_entry(store, sample_size, small.size),
        );
        lemma_shared_files_part(quick_small, quick_large);
        lemma_part_filter(
            shared_files(quick_small),
            shared_files(quick_large),
            is_readable_file(store),
            is_readable_file(store),
        );
        lemma_part_map(
            shared_files(quick_small).filter(is_readable_file(store)),
            shared_files(quick_large).filter(is_readable_file(store)),
            full_entry(store),
        );
    } else {
        lemma_empty_is_part(bucket_entries(large, store, sample_size));
    }
}

/// The quick stage lets through no file of a part that it would not let
/// through among the whole.
pub proof fn lemma_shared_files_part(part: Seq<HashedFileView>, whole: Seq<HashedFileView>)
    requires
        is_part_of(part, whole),
    ensures
        is_part_of(shared_files(part), shared_files(whole)),
{
    assert forall|x: HashedFileView| part.contains(x) && #[trigger] is_shared(part)(x) implies is_shared(
        whole,
    )(x) by {
        lemma_part_filter(part, whole, has_hash(x.hash), has_hash(x.hash));
        lemma_part_len(with_hash(part, x.hash), with_hash(whole, x.hash));
    }
    lemma_part_filter(part, whole, is_shared(part), is_shared(whole));
    lemma_part_map(part.filter(is_shared(part)), whole.filter(is_shared(whole)), file_of());
}

/// An entry of a length that no bucket has does not occur among the
/// entries of the engine.
pub proof fn lemma_engine_count_absent(
    groups: Seq<SizeBucketView>,
    store: Map<Seq<char>, Seq<u8>>,
    sample_size: nat,
    e: HashedFileView,
)
    requires
        forall|j: int| 0 <= j < groups.len() ==> (#[trigger] groups[j]).size != e.size,
    ensures
        engine_entries(groups, store, sample_size).to_multiset().count(e) == 0,
{
    broadcast use group_to_multiset_ensures;

    let entries = engine_entries(groups, store, sample_size);
    if entries.to_multiset().count(e) > 0 {
        assert(entries.contains(e));
        let k = choose|k: int| 0 <= k < entries.len() && entries[k] == e;
        lemma_engine_entry(groups, store, sample_size, k);
    }
}

/// Where the buckets have distinct lengths, an entry occurs among the
/// entries of the engine as often as among those of the bucket of its
/// length.
pub proof fn lemma_engine_count(
    groups: Seq<SizeBucketView>,
    store: Map<Seq<char>, Seq<u8>>,
    sample_size: nat,
    e: HashedFileView,
    j: int,
)
    requires
        sizes_are_distinct(groups),
        0 <= j < groups.len(),
        groups[j].size == e.size,
    ensures
        engine_entries(groups, store, sample_size).to_multiset().count(e) == bucket_entries(
            groups[j],
            store,
            sample_size,
        ).to_multiset().count(e),
    decreases groups.len(),
{
    broadcast use group_multiset_axioms, group_to_multiset_ensures;

    let rest = groups.drop_last();
    let earlier = engine_entries(rest, store, sample_size);
    let last = bucket_entries(groups.last(), store, sample_size);
    vstd::seq_lib::lemma_multiset_commutative(earlier, last);
    if j == groups.len() - 1 {
        assert forall|k: int| 0 <= k < rest.len() implies (#[trigger] rest[k]).size != e.size by {
            assert(rest[k] == groups[k]);
        }
        lemma_engine_count_absent(rest, store, sample_size, e);
    } else {
        assert(rest[j] == groups[j]);
        assert forall|a: int, b: int| 0 <= a < b < rest.len() implies (#[trigger] rest[a]).size != (
        #[trigger] rest[b]).size by {
            assert(rest[a] == groups[a] && rest[b] == groups[b]);
        }
        lemma_engine_count(rest, store, sample_size, e, j);
        if last.to_multiset().count(e) > 0 {
            assert(last.contains(e));
            let k = choose|k: int| 0 <= k < last.len() && last[k] == e;
            lemma_bucket_entry(groups.last(), store, sample_size, k);
            assert(groups[groups.len() - 1].size == e.size);
        }
    }
}

/// Buckets that are covered contribute no entry that the covering buckets
/// would not contribute.
pub proof fn lemma_engine_entries_part(
    done: Seq<SizeBucketView>,
    groups: Seq<SizeBucketView>,
    store: Map<Seq<char>, Seq<u8>>,
    sample_size: nat,
)
    requires
        buckets_covered(done, groups),
        sizes_are_distinct(done),
        sizes_are_distinct(groups),
    ensures
        is_part_of(
            engine_entries(done, store, sample_size),
            engine_entries(groups, store, sample_size),
        ),
{
    broadcast use group_to_multiset_ensures;

    let partial = engine_entries(done, store, sample_size);
    let full = engine_entries(groups, store, sample_size);
    assert forall|e: HashedFileView| partial.to_multiset().count(e) <= full.to_multiset().count(
        e,
    ) by {
        if partial.to_multiset().count(e) > 0 {
            assert(partial.contains(e));
            let k = choose|k: int| 0 <= k < partial.len() && partial[k] == e;
            let i = lemma_engine_entry(done, store, sample_size, k);
            assert(covers_bucket(groups, done[i]));
            let j = choose|j: int|
                0 <= j < groups.len() && (#[trigger] groups[j]).size == done[i].size && is_part_of(
                    done[i].files,
                    groups[j].files,
                );
            lemma_engine_count(done, store, sample_size, e, i);
            lemma_engine_count(groups, store, sample_size, e, j);
            lemma_bucket_entries_part(done[i], groups[j], store, sample_size);
            assert(bucket_entries(done[i], store, sample_size).to_multiset().count(e)
                <= bucket_entries(groups[j], store, sample_size).to_multiset().count(e));
        }
    }
}

/// Merging a part of the entries gives groups that the merge of all
/// entries covers.
pub proof fn lemma_groups_covered(partial: Seq<HashedFileView>, entries: Seq<HashedFileView>)
    requires
        is_part_of(partial, entries),
    ensures
        groups_covered(duplicate_groups(partial), duplicate_groups(entries)),
{
    let small = duplicate_groups(partial);
    let large = duplicate_groups(entries);
    lemma_duplicate_groups_properties(partial);
    lemma_duplicate_groups_properties(entries);
    assert forall|i: int| 0 <= i < small.len() implies covers_group(large, #[trigger] small[i]) by {
        let hash = small[i].hash;
        lemma_part_filter(partial, entries, has_hash(hash), has_hash(hash));
        lemma_part_len(with_hash(partial, hash), with_hash(entries, hash));
        lemma_part_map(with_hash(partial, hash), with_hash(entries, hash), entry_path());
        assert(with_hash(entries, hash).len() >= 2);
        let j = choose|j: int| 0 <= j < large.len() && (#[trigger] large[j]).hash == hash;
        assert(large[j].files == paths_of(with_hash(entries, hash)));
    }
}

/// The size partition of a part of the files is covered by the size
/// partition of all the files.
pub proof fn lemma_partition_covered(seen: Seq<FileRefView>, files: Seq<FileRefView>)
    requires
        is_part_of(seen, files),
    ensures
        buckets_covered(size_partition(seen), size_partition(files)),
        sizes_are_distinct(size_partition(seen)),
        sizes_are_distinct(size_partition(files)),
{
    let small = size_partition(seen);
    let large = size_partition(files);
    lemma_size_partition_properties(seen);
    lemma_size_partition_properties(files);
    assert forall|i: int| 0 <= i < small.len() implies covers_bucket(large, #[trigger] small[i]) by {
        let size = small[i].size;
        lemma_part_filter(seen, files, has_size(size), has_size(size));
        lemma_part_map(seen.filter(has_size(size)), files.filter(has_size(size)), path_of());
        lemma_part_len(paths_of_size(seen, size), paths_of_size(files, size));
        assert(paths_of_size(files, size).len() >= 2);
        let j = choose|j: int| 0 <= j < large.len() && (#[trigger] large[j]).size == size;
        assert(large[j].files == paths_of_size(files, size));
    }
}

/// An engine that is stopped before it has worked on all buckets, or that
/// works on buckets with fewer files, reports no group that is not part of
/// a group of the complete run with the same digest.
pub proof fn law_interrupted_engine_reports_parts(
    done: Seq<SizeBucketView>,
    groups: Seq<SizeBucketView>,
    store: Map<Seq<char>, Seq<u8>>,
    sample_size: nat,
)
    requires
        buckets_covered(done, groups),
        sizes_are_distinct(done),
        sizes_are_distinct(groups),
    ensures
        groups_covered(
            duplicate_groups(engine_entries(done, store, sample_size)),
            duplicate_groups(engine_entries(groups, store, sample_size)),
        ),
{
    lemma_engine_entries_part(done, groups, store, sample_size);
    lemma_groups_covered(
        engine_entries(done, store, sample_size),
        engine_entries(groups, store, sample_size),
    );
}

/// The entries of the first buckets are part of the entries of all
/// buckets.
pub proof fn lemma_first_buckets_entries_part(
    groups: Seq<SizeBucketView>,
    done: int,
    store: Map<Seq<char>, Seq<u8>>,
    sample_size: nat,
)
    requires
        0 <= done <= groups.len(),
    ensures
        is_part_of(
            engine_entries(groups.take(done), store, sample_size),
            engine_entries(groups, store, sample_size),
        ),
    decreases groups.len() - done,
{
    if done == groups.len() {
        assert(groups.take(done) =~= groups);
    } else {
        let shorter = engine_entries(groups.take(done), store, sample_size);
        let longer = engine_entries(groups.take(done + 1), store, sample_size);
        let added = bucket_entries(groups[done], store, sample_size);
        assert(groups.take(done + 1).drop_last() =~= groups.take(done));
        assert(longer == shorter + added);
        lemma_empty_is_part(added);
        lemma_part_concat(shorter, Seq::empty(), shorter, added);
        assert(shorter + Seq::<HashedFileView>::empty() =~= shorter);
        lemma_first_buckets_entries_part(groups, done + 1, store, sample_size);
        lemma_part_transitive(shorter, longer, engine_entries(groups, store, sample_size));
    }
}

/// An engine that stops after some of the buckets reports no group that is
/// not part of a group of the complete run with the same digest.
pub proof fn law_stopped_engine_reports_parts(
    groups: Seq<SizeBucketView>,
    done: int,
    store: Map<Seq<char>, Seq<u8>>,
    sample_size: nat,
)
    requires
        0 <= done <= groups.len(),
    ensures
        groups_covered(
            duplicate_groups(engine_entries(groups.take(done), store, sample_size)),
            duplicate_groups(engine_entries(groups, store, sample_size)),
        ),
{
    lemma_first_buckets_entries_part(groups, done, store, sample_size);
    lemma_groups_covered(
        engine_entries(groups.take(done), store, sample_size),
        engine_entries(groups, store, sample_size),
    );
}

/// A run that has taken in only the first of the files reports no group
/// that is not part of a group of the complete run with the same digest.
pub proof fn law_stopped_run_reports_parts(
    files: Seq<FileRefView>,
    taken: int,
    store: Map<Seq<char>, Seq<u8>>,
    sample_size: nat,
)
    requires
        0 <= taken <= files.len(),
    ensures
        groups_covered(
            duplicates_of(files.take(taken), store, sample_size),
            duplicates_of(files, store, sample_size),
        ),
{
    lemma_prefix_is_part(files, taken);
    law_interrupted_run_reports_parts(files.take(taken), files, store, sample_size);
}

/// A run that has seen only a part of the files reports no group that is
/// not part of a group of the complete run with the same digest.
pub proof fn law_interrupted_run_reports_parts(
    seen: Seq<FileRefView>,
    files: Seq<FileRefView>,
    store: Map<Seq<char>, Seq<u8>>,
    sample_size: nat,
)
    requires
        is_part_of(seen, files),
    ensures
        groups_covered(
            duplicates_of(seen, store, sample_size),
            duplicates_of(files, store, sample_size),
        ),
{
    lemma_partition_covered(seen, files);
    law_interrupted_engine_reports_parts(
        size_partition(seen),
        size_partition(files),
        store,
        sample_size,
    );
}

/// A run that is stopped twice, while it takes in the files and again
/// while it hashes the buckets of the files taken in, reports no group
/// that is not part of a group of the complete run with the same digest.
pub proof fn law_stopped_pipeline_reports_parts(
    files: Seq<FileRefView>,
    taken: int,
    done: int,
    store: Map<Seq<char>, Seq<u8>>,
    sample_size: nat,
)
    requires
        0 <= taken <= files.len(),
        0 <= done <= size_partition(files.take(taken)).len(),
    ensures
        groups_covered(
            duplicate_groups(
                engine_entries(size_partition(files.take(taken)).take(done), store, sample_size),
            ),
            duplicates_of(files, store, sample_size),
        ),
{
    let buckets = size_partition(files.take(taken));
    lemma_first_buckets_entries_part(buckets, done, store, sample_size);
    lemma_prefix_is_part(files, taken);
    lemma_partition_covered(files.take(taken), files);
    lemma_engine_entries_part(buckets, size_partition(files), store, sample_size);
    lemma_part_transitive(
        engine_entries(buckets.take(done), store, sample_size),
        engine_entries(buckets, store, sample_size),
        hashed_entries(files, store, sample_size),
    );
    lemma_groups_covered(
        engine_entries(buckets.take(done), store, sample_size),
        hashed_entries(files, store, sample_size),
    );
}

/// What a bucket contributes is part of the entries of the engine.
pub proof fn lemma_bucket_entries_in_engine(
    groups: Seq<SizeBucketView>,
    j: int,
    store: Map<Seq<char>, Seq<u8>>,
    sample_size: nat,
)
    requires
        0 <= j < groups.len(),
    ensures
        is_part_of(
            bucket_entries(groups[j], store, sample_size),
            engine_entries(groups, store, sample_size),
        ),
    decreases groups.len(),
{
    let earlier = engine_entries(groups.drop_last(), store, sample_size);
    let last = bucket_entries(groups.last(), store, sample_size);
    let own = bucket_entries(groups[j], store, sample_size);
    if j == groups.len() - 1 {
        lemma_empty_is_part(earlier);
        lemma_part_reflexive(last);
        lemma_part_concat(Seq::empty(), last, earlier, last);
        assert(Seq::<HashedFileView>::empty() + last =~= last);
    } else {
        lemma_bucket_entries_in_engine(groups.drop_last(), j, store, sample_size);
        lemma_empty_is_part(last);
        lemma_part_concat(own, Seq::empty(), earlier, last);
        assert(own + Seq::<HashedFileView>::empty() =~= own);
    }
}

/// Two files of one recorded size whose contents can be read and are
/// identical stand together in a group under the digest of that content,
/// unless they are empty.
pub proof fn law_identical_files_are_grouped(
    files: Seq<FileRefView>,
    store: Map<Seq<char>, Seq<u8>>,
    sample_size: nat,
    a: int,
    b: int,
)
    requires
        0 <= a < b < files.len(),
        files[a].size == files[b].size,
        files[a].size != 0,
        store.contains_key(files[a].path),
        store.contains_key(files[b].path),
        store[files[a].path] == store[files[b].path],
    ensures
        exists|g: int|
            0 <= g < duplicates_of(files, store, sample_size).len() && (#[trigger] duplicates_of(
                files,
                store,
                sample_size,
            )[g]).hash == content_digest(store[files[a].path]) && duplicates_of(
                files,
                store,
                sample_size,
            )[g].files.contains(files[a].path) && duplicates_of(
                files,
                store,
                sample_size,
            )[g].files.contains(files[b].path),
{
    let size = files[a].size;
    let digest = content_digest(store[files[a].path]);
    let buckets = size_partition(files);
    let entries = hashed_entries(files, store, sample_size);
    let groups = duplicates_of(files, store, sample_size);

    // both files stand in the bucket of their size
    let (a1, b1) = lemma_filter_keeps_pair(files, has_size(size), a, b);
    assert(paths_of_size(files, size)[a1] == files[a].path);
    assert(paths_of_size(files, size)[b1] == files[b].path);
    lemma_size_partition_properties(files);
    let j = choose|j: int| 0 <= j < buckets.len() && (#[trigger] buckets[j]).size == size;
    let bucket = buckets[j];
    assert(bucket.files == paths_of_size(files, size));

    // both pass the quick stage: they have the same quick digest
    let (a2, b2) = lemma_filter_keeps_pair(bucket.files, is_readable(store), a1, b1);
    let quick = quick_entries(bucket, store, sample_size);
    assert(quick[a2] == quick_entry(store, sample_size, size)(files[a].path));
    assert(quick[b2] == quick_entry(store, sample_size, size)(files[b].path));
    lemma_filter_keeps_pair(quick, has_hash(quick[a2].hash), a2, b2);
    assert(is_shared(quick)(quick[a2]) && is_shared(quick)(quick[b2]));
    let (a4, b4) = lemma_filter_keeps_pair(quick, is_shared(quick), a2, b2);
    let survivors = shared_files(quick);
    assert(survivors[a4] == file_of()(quick[a2]));
    assert(survivors[b4] == file_of()(quick[b2]));

    // both are digested in full, with the same digest
    let (a5, b5) = lemma_filter_keeps_pair(survivors, is_readable_file(store), a4, b4);
    let own = bucket_entries(bucket, store, sample_size);
    assert(own == full_entries(survivors, store));
    assert(own[a5] == full_entry(store)(survivors[a4]));
    assert(own[b5] == full_entry(store)(survivors[b4]));
    lemma_filter_keeps_pair(own, has_hash(digest), a5, b5);

    // so the merge holds both under that digest
    lemma_bucket_entries_in_engine(buckets, j, store, sample_size);
    lemma_part_filter(own, entries, has_hash(digest), has_hash(digest));
    lemma_part_len(with_hash(own, digest), with_hash(entries, digest));
    lemma_duplicate_groups_properties(entries);
    let g = choose|g: int| 0 <= g < groups.len() && (#[trigger] groups[g]).hash == digest;
    assert(groups[g].files == paths_of(with_hash(entries, digest)));
    assert(with_hash(own, digest).contains(own[a5]));
    assert(with_hash(own, digest).contains(own[b5]));
    lemma_part_contains(with_hash(own, digest), with_hash(entries, digest), own[a5]);
    lemma_part_contains(with_hash(own, digest), with_hash(entries, digest), own[b5]);
    let ma = choose|m: int|
        0 <= m < with_hash(entries, digest).len() && with_hash(entries, digest)[m] == own[a5];
    let mb = choose|m: int|
        0 <= m < with_hash(entries, digest).len() && with_hash(entries, digest)[m] == own[b5];
    assert(groups[g].files[ma] == files[a].path);
    assert(groups[g].files[mb] == files[b].path);
}

} // verus!
