//! Merging the buckets that several workers collected from their shares
//! of the files.

use crate::distinct::distinct_in_order;
use crate::distinct::lemma_distinct_concat_left;
use crate::distinct::lemma_distinct_concat_right;
use crate::distinct::lemma_distinct_contains;
use crate::distinct::lemma_distinct_no_duplicates;
use crate::distinct::lemma_distinct_push;
use crate::scanner::all_buckets;
use crate::scanner::bucket_of;
use crate::scanner::has_size;
use crate::scanner::is_nonzero;
use crate::scanner::lemma_bucket_sizes_nonzero;
use crate::scanner::lemma_paths_of_size_occupied;
use crate::scanner::nonzero_sizes;
use crate::scanner::paths_of_size;
use crate::scanner::FileRefView;
use crate::scanner::SizeBucket;
use crate::scanner::SizeBucketView;
use std::collections::HashMap;
use vstd::prelude::*;

verus! {

broadcast use vstd::std_specs::hash::group_hash_axioms;

/// The length that a bucket stands for.
pub open spec fn size_of_bucket() -> spec_fn(SizeBucketView) -> u64 {
    |b: SizeBucketView| b.size
}

/// The lengths of `buckets`, in order and with repetition.
pub open spec fn bucket_sizes(buckets: Seq<SizeBucketView>) -> Seq<u64> {
    buckets.map_values(size_of_bucket())
}

/// The files of all buckets of length `size`, bucket after bucket.
pub open spec fn files_under(buckets: Seq<SizeBucketView>, size: u64) -> Seq<Seq<char>>
    decreases buckets.len(),
{
    if buckets.len() == 0 {
        Seq::empty()
    } else {
        let earlier = files_under(buckets.drop_last(), size);
        if buckets.last().size == size {
            earlier + buckets.last().files
        } else {
            earlier
        }
    }
}

/// The one bucket that stands for all buckets of length `size`.
pub open spec fn joined_bucket(buckets: Seq<SizeBucketView>, size: u64) -> SizeBucketView {
    SizeBucketView { size, files: files_under(buckets, size) }
}

/// `buckets` with the buckets of one length joined into one: one bucket
/// for each length, in the order in which the lengths first occur.
pub open spec fn joined_buckets(buckets: Seq<SizeBucketView>) -> Seq<SizeBucketView> {
    distinct_in_order(bucket_sizes(buckets)).map_values(|size: u64| joined_bucket(buckets, size))
}

/// What two workers collected, merged: the buckets of `left` followed by
/// those of `right`, with the buckets of one length joined into one.
pub open spec fn merged_buckets(
    left: Seq<SizeBucketView>,
    right: Seq<SizeBucketView>,
) -> Seq<SizeBucketView> {
    joined_buckets(left + right)
}

/// One more bucket adds its files to those under its own length and to no
/// others.
pub proof fn lemma_files_under_push(buckets: Seq<SizeBucketView>, b: SizeBucketView, size: u64)
    ensures
        files_under(buckets.push(b), size) == if b.size == size {
            files_under(buckets, size) + b.files
        } else {
            files_under(buckets, size)
        },
{
    assert(buckets.push(b).drop_last() =~= buckets);
}

/// Under a length that no bucket has there are no files.
pub proof fn lemma_files_under_absent(buckets: Seq<SizeBucketView>, size: u64)
    requires
        !bucket_sizes(buckets).contains(size),
    ensures
        files_under(buckets, size) == Seq::<Seq<char>>::empty(),
    decreases buckets.len(),
{
    if buckets.len() > 0 {
        let rest = buckets.drop_last();
        assert(bucket_sizes(buckets)[buckets.len() - 1] == buckets.last().size);
        assert forall|i: int| 0 <= i < rest.len() implies bucket_sizes(rest)[i] != size by {
            assert(bucket_sizes(buckets)[i] == bucket_sizes(rest)[i]);
        }
        lemma_files_under_absent(rest, size);
    }
}

/// The files under a length in a concatenation are those of the first
/// half followed by those of the second.
pub proof fn lemma_files_under_concat(a: Seq<SizeBucketView>, b: Seq<SizeBucketView>, size: u64)
    ensures
        files_under(a + b, size) == files_under(a, size) + files_under(b, size),
    decreases b.len(),
{
    if b.len() == 0 {
        assert(a + b =~= a);
        assert(files_under(a, size) + files_under(b, size) =~= files_under(a, size));
    } else {
        lemma_files_under_concat(a, b.drop_last(), size);
        assert((a + b).drop_last() =~= a + b.drop_last());
        assert((a + b).last() == b.last());
        if b.last().size == size {
            assert(files_under(a + b, size) =~= files_under(a, size) + (files_under(
                b.drop_last(),
                size,
            ) + b.last().files));
        }
    }
}

/// Joining leaves the files under each length as they are.
pub proof fn lemma_files_under_joined(buckets: Seq<SizeBucketView>, size: u64)
    ensures
        files_under(joined_buckets(buckets), size) == files_under(buckets, size),
{
    let sizes = distinct_in_order(bucket_sizes(buckets));
    lemma_distinct_no_duplicates(bucket_sizes(buckets));
    lemma_distinct_contains(bucket_sizes(buckets), size);
    lemma_files_under_mapped(sizes, buckets, size);
    if !sizes.contains(size) {
        lemma_files_under_absent(buckets, size);
    }
}

/// Among buckets made one for each of `sizes`, without repetition, the
/// files under a length are those of its bucket, if it has one.
proof fn lemma_files_under_mapped(sizes: Seq<u64>, buckets: Seq<SizeBucketView>, size: u64)
    requires
        sizes.no_duplicates(),
    ensures
        files_under(sizes.map_values(|s: u64| joined_bucket(buckets, s)), size) == if sizes.contains(
            size,
        ) {
            files_under(buckets, size)
        } else {
            Seq::<Seq<char>>::empty()
        },
    decreases sizes.len(),
{
    let made = sizes.map_values(|s: u64| joined_bucket(buckets, s));
    if sizes.len() > 0 {
        let rest = sizes.drop_last();
        lemma_files_under_mapped(rest, buckets, size);
        assert(made.drop_last() =~= rest.map_values(|s: u64| joined_bucket(buckets, s)));
        vstd::seq_lib::lemma_seq_contains_after_push(rest, sizes.last(), size);
        assert(sizes =~= rest.push(sizes.last()));
        if sizes.last() == size {
            if rest.contains(size) {
                let i = choose|i: int| 0 <= i < rest.len() && rest[i] == size;
                assert(sizes[i] == sizes[sizes.len() - 1]);
            }
            assert(Seq::<Seq<char>>::empty() + files_under(buckets, size) =~= files_under(
                buckets,
                size,
            ));
        }
    }
}

/// The lengths of joined buckets are the distinct lengths of the buckets.
pub proof fn lemma_joined_sizes(buckets: Seq<SizeBucketView>)
    ensures
        bucket_sizes(joined_buckets(buckets)) == distinct_in_order(bucket_sizes(buckets)),
{
    assert(bucket_sizes(joined_buckets(buckets)) =~= distinct_in_order(bucket_sizes(buckets)));
}

/// Joining what was joined before more buckets came gives what joining
/// all at once gives.
pub proof fn lemma_joined_concat_left(a: Seq<SizeBucketView>, b: Seq<SizeBucketView>)
    ensures
        joined_buckets(joined_buckets(a) + b) == joined_buckets(a + b),
{
    lemma_joined_sizes(a);
    lemma_distinct_concat_left(bucket_sizes(a), bucket_sizes(b));
    assert(bucket_sizes(joined_buckets(a) + b) =~= distinct_in_order(bucket_sizes(a)) + bucket_sizes(
        b,
    ));
    assert(bucket_sizes(a + b) =~= bucket_sizes(a) + bucket_sizes(b));
    let sizes = distinct_in_order(bucket_sizes(a + b));
    assert forall|k: int| 0 <= k < sizes.len() implies joined_buckets(joined_buckets(a) + b)[k]
        == joined_buckets(a + b)[k] by {
        lemma_files_under_concat(joined_buckets(a), b, sizes[k]);
        lemma_files_under_concat(a, b, sizes[k]);
        lemma_files_under_joined(a, sizes[k]);
    }
    assert(joined_buckets(joined_buckets(a) + b) =~= joined_buckets(a + b));
}

/// Joining with buckets that were joined among themselves gives what
/// joining all at once gives.
pub proof fn lemma_joined_concat_right(a: Seq<SizeBucketView>, b: Seq<SizeBucketView>)
    ensures
        joined_buckets(a + joined_buckets(b)) == joined_buckets(a + b),
{
    lemma_joined_sizes(b);
    lemma_distinct_concat_right(bucket_sizes(a), bucket_sizes(b));
    assert(bucket_sizes(a + joined_buckets(b)) =~= bucket_sizes(a) + distinct_in_order(
        bucket_sizes(b),
    ));
    assert(bucket_sizes(a + b) =~= bucket_sizes(a) + bucket_sizes(b));
    let sizes = distinct_in_order(bucket_sizes(a + b));
    assert forall|k: int| 0 <= k < sizes.len() implies joined_buckets(a + joined_buckets(b))[k]
        == joined_buckets(a + b)[k] by {
        lemma_files_under_concat(a, joined_buckets(b), sizes[k]);
        lemma_files_under_concat(a, b, sizes[k]);
        lemma_files_under_joined(b, sizes[k]);
    }
    assert(joined_buckets(a + joined_buckets(b)) =~= joined_buckets(a + b));
}

/// Merging is associative: it does not matter which two of three shares
/// are merged first.
pub proof fn law_merge_is_associative(
    a: Seq<SizeBucketView>,
    b: Seq<SizeBucketView>,
    c: Seq<SizeBucketView>,
)
    ensures
        merged_buckets(merged_buckets(a, b), c) == merged_buckets(a, merged_buckets(b, c)),
{
    lemma_joined_concat_left(a + b, c);
    lemma_joined_concat_right(a, b + c);
    assert((a + b) + c =~= a + (b + c));
}

/// The buckets collected from a list of files hold, under each of their
/// lengths, the paths of the files of that length.
pub proof fn lemma_files_under_collected(files: Seq<FileRefView>, size: u64)
    requires
        size != 0,
    ensures
        files_under(all_buckets(files), size) == paths_of_size(files, size),
{
    let sizes = distinct_in_order(nonzero_sizes(files));
    lemma_distinct_no_duplicates(nonzero_sizes(files));
    lemma_files_under_of_collected(sizes, files, size);
    if !sizes.contains(size) {
        lemma_distinct_contains(nonzero_sizes(files), size);
        lemma_paths_of_size_occupied(files, size);
        let size_of = |f: FileRefView| f.size;
        if files.map_values(size_of).contains(size) {
            let m = choose|m: int|
                0 <= m < files.map_values(size_of).len() && files.map_values(size_of)[m] == size;
            files.map_values(size_of).lemma_filter_contains(is_nonzero(), m);
        }
        assert(paths_of_size(files, size) =~= Seq::<Seq<char>>::empty());
    }
}

/// Among the buckets of `files` for each of `sizes`, without repetition,
/// the files under a length are the paths of that length, if it is one of
/// `sizes`.
proof fn lemma_files_under_of_collected(sizes: Seq<u64>, files: Seq<FileRefView>, size: u64)
    requires
        sizes.no_duplicates(),
    ensures
        files_under(sizes.map_values(|s: u64| bucket_of(files, s)), size) == if sizes.contains(size) {
            paths_of_size(files, size)
        } else {
            Seq::<Seq<char>>::empty()
        },
    decreases sizes.len(),
{
    let made = sizes.map_values(|s: u64| bucket_of(files, s));
    if sizes.len() > 0 {
        let rest = sizes.drop_last();
        lemma_files_under_of_collected(rest, files, size);
        assert(made.drop_last() =~= rest.map_values(|s: u64| bucket_of(files, s)));
        vstd::seq_lib::lemma_seq_contains_after_push(rest, sizes.last(), size);
        assert(sizes =~= rest.push(sizes.last()));
        if sizes.last() == size {
            if rest.contains(size) {
                let i = choose|i: int| 0 <= i < rest.len() && rest[i] == size;
                assert(sizes[i] == sizes[sizes.len() - 1]);
            }
            assert(Seq::<Seq<char>>::empty() + paths_of_size(files, size) =~= paths_of_size(
                files,
                size,
            ));
        }
    }
}

/// Merging what two workers collected from two lists of files gives what
/// one worker collects from the first list followed by the second: the
/// number of workers does not change the result.
pub proof fn law_merge_joins_shares(first: Seq<FileRefView>, second: Seq<FileRefView>)
    ensures
        merged_buckets(all_buckets(first), all_buckets(second)) == all_buckets(first + second),
{
    let left = all_buckets(first);
    let right = all_buckets(second);
    let size_of = |f: FileRefView| f.size;
    assert(bucket_sizes(left) =~= distinct_in_order(nonzero_sizes(first)));
    assert(bucket_sizes(right) =~= distinct_in_order(nonzero_sizes(second)));
    assert(bucket_sizes(left + right) =~= bucket_sizes(left) + bucket_sizes(right));
    lemma_distinct_concat_left(
        nonzero_sizes(first),
        distinct_in_order(nonzero_sizes(second)),
    );
    lemma_distinct_concat_right(nonzero_sizes(first), nonzero_sizes(second));
    assert((first + second).map_values(size_of) =~= first.map_values(size_of)
        + second.map_values(size_of));
    Seq::filter_distributes_over_add(
        first.map_values(size_of),
        second.map_values(size_of),
        is_nonzero(),
    );
    assert(nonzero_sizes(first + second) == nonzero_sizes(first) + nonzero_sizes(second));
    let sizes = distinct_in_order(nonzero_sizes(first + second));
    assert forall|k: int| 0 <= k < sizes.len() implies merged_buckets(left, right)[k]
        == all_buckets(first + second)[k] by {
        let size = sizes[k];
        lemma_bucket_sizes_nonzero(first + second, k);
        lemma_files_under_concat(left, right, size);
        lemma_files_under_collected(first, size);
        lemma_files_under_collected(second, size);
        Seq::filter_distributes_over_add(first, second, has_size(size));
        assert(paths_of_size(first + second, size) =~= paths_of_size(first, size) + paths_of_size(
            second,
            size,
        ));
    }
    assert(merged_buckets(left, right) =~= all_buckets(first + second));
}

/// Working state of the merge after some of the buckets: the buckets so
/// far joined, found through `index`.
spec fn partial_merge(
    seen: Seq<SizeBucketView>,
    merged: Seq<SizeBucketView>,
    index: Map<u64, usize>,
) -> bool {
    let sizes = distinct_in_order(bucket_sizes(seen));
    &&& merged == joined_buckets(seen)
    &&& forall|s: u64| #[trigger] index.contains_key(s) <==> sizes.contains(s)
    &&& forall|s: u64| #[trigger]
        index.contains_key(s) ==> index[s] < sizes.len() && sizes[index[s] as int] == s
}

/// Takes one more bucket into the merge.
fn absorb_bucket(
    bucket: SizeBucket,
    merged: &mut Vec<SizeBucket>,
    index: &mut HashMap<u64, usize>,
    Ghost(seen): Ghost<Seq<SizeBucketView>>,
)
    requires
        partial_merge(seen, old(merged).deep_view(), old(index)@),
    ensures
        partial_merge(seen.push(bucket@), final(merged).deep_view(), final(index)@),
{
    let ghost next = seen.push(bucket@);
    let ghost sizes = distinct_in_order(bucket_sizes(seen));
    let ghost before = merged.deep_view();
    let ghost added = bucket@;
    proof {
        assert(bucket_sizes(next) =~= bucket_sizes(seen).push(bucket.size));
        lemma_distinct_push(bucket_sizes(seen), bucket.size);
        lemma_distinct_no_duplicates(bucket_sizes(seen));
        assert(before.len() == merged@.len() && before.len() == sizes.len());
    }
    let found = index.get(&bucket.size);
    match found {
        Some(slot) => {
            let j = *slot;
            assert(before[j as int] == merged@[j as int]@);
            let mut files = bucket.files;
            append_paths(&mut merged[j].files, &mut files);
            proof {
                assert(sizes.contains(added.size));
                assert forall|k: int| 0 <= k < sizes.len() implies merged.deep_view()[k]
                    == joined_buckets(next)[k] by {
                    lemma_files_under_push(seen, added, sizes[k]);
                    assert(before[k] == joined_bucket(seen, sizes[k]));
                    if k != j {
                        assert(sizes[k] != sizes[j as int]);
                    }
                }
                assert(merged.deep_view() =~= joined_buckets(next));
            }
        },
        None => {
            index.insert(bucket.size, merged.len());
            merged.push(bucket);
            proof {
                lemma_distinct_contains(bucket_sizes(seen), added.size);
                lemma_files_under_absent(seen, added.size);
                lemma_files_under_push(seen, added, added.size);
                assert(Seq::<Seq<char>>::empty() + added.files =~= added.files);
                assert(!sizes.contains(added.size));
                assert forall|k: int| 0 <= k < sizes.len() + 1 implies merged.deep_view()[k]
                    == joined_buckets(next)[k] by {
                    if k < sizes.len() {
                        lemma_files_under_push(seen, added, sizes[k]);
                        assert(before[k] == joined_bucket(seen, sizes[k]));
                        assert(sizes.contains(sizes[k]));
                    }
                }
                assert(merged.deep_view() =~= joined_buckets(next));
                let grown = distinct_in_order(bucket_sizes(next));
                assert(grown[before.len() as int] == added.size);
                assert forall|s: u64| #[trigger] index@.contains_key(s) <==> grown.contains(s) by {
                    vstd::seq_lib::lemma_seq_contains_after_push(sizes, added.size, s);
                }
            }
        },
    }
}

/// Moves the paths of `more` to the end of `paths`.
fn append_paths(paths: &mut Vec<String>, more: &mut Vec<String>)
    ensures
        final(paths).deep_view() == old(paths).deep_view() + old(more).deep_view(),
{
    paths.append(more);
    assert(paths.deep_view() =~= old(paths).deep_view() + old(more).deep_view());
}

/// Merges what two workers collected: the buckets of `left` followed by
/// those of `right`, with the buckets of one length joined into one.
pub fn merge_buckets(left: Vec<SizeBucket>, right: Vec<SizeBucket>) -> (merged: Vec<SizeBucket>)
    ensures
        merged.deep_view() == merged_buckets(left.deep_view(), right.deep_view()),
{
    let mut index: HashMap<u64, usize> = HashMap::new();
    let mut merged: Vec<SizeBucket> = Vec::new();
    proof {
        assert(bucket_sizes(Seq::<SizeBucketView>::empty()) =~= Seq::<u64>::empty());
        assert(merged.deep_view() =~= joined_buckets(Seq::<SizeBucketView>::empty()));
        assert(left.deep_view().take(0) =~= Seq::<SizeBucketView>::empty());
    }
    let ghost first = left.deep_view();
    for bucket in it: left.into_iter()
        invariant
            first.len() == it.seq().len(),
            forall|k: int| 0 <= k < first.len() ==> first[k] == (#[trigger] it.seq()[k])@,
            partial_merge(first.take(it.index() as int), merged.deep_view(), index@),
    {
        let ghost at = it.index() as int;
        proof {
            assert(first.take(at + 1) =~= first.take(at).push(bucket@));
        }
        absorb_bucket(bucket, &mut merged, &mut index, Ghost(first.take(at)));
    }
    let ghost second = right.deep_view();
    proof {
        assert(first.take(first.len() as int) =~= first);
        assert(first + second.take(0) =~= first);
    }
    for bucket in it: right.into_iter()
        invariant
            second.len() == it.seq().len(),
            forall|k: int| 0 <= k < second.len() ==> second[k] == (#[trigger] it.seq()[k])@,
            partial_merge(first + second.take(it.index() as int), merged.deep_view(), index@),
    {
        let ghost at = it.index() as int;
        proof {
            assert(first + second.take(at + 1) =~= (first + second.take(at)).push(bucket@));
        }
        absorb_bucket(bucket, &mut merged, &mut index, Ghost(first + second.take(at)));
    }
    proof {
        assert(second.take(second.len() as int) =~= second);
    }
    merged
}

} // verus!
