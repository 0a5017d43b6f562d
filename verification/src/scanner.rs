//! Candidate files and the size partitioner.

use crate::distinct::distinct_in_order;
use crate::distinct::lemma_distinct_contains;
use crate::distinct::lemma_distinct_no_duplicates;
use crate::distinct::lemma_distinct_push;
use crate::distinct::lemma_filter_ascends;
use crate::utils::CancelToken;
use crate::utils::ProgressCounter;
use std::collections::HashMap;
use vstd::prelude::*;
use vstd::string::StrSliceExecFns;
use vstd::string::StringExecFns;

verus! {

broadcast use vstd::std_specs::hash::group_hash_axioms;

/// A candidate file: its path and the byte length recorded when it was
/// collected.
#[derive(Debug, Clone, PartialEq, Eq)]
pub struct FileRef {
    pub path: String,
    pub size: u64,
}

/// Mathematical model of a [`FileRef`].
pub struct FileRefView {
    pub path: Seq<char>,
    pub size: u64,
}

impl View for FileRef {
    type V = FileRefView;

    open spec fn view(&self) -> FileRefView {
        FileRefView { path: self.path@, size: self.size }
    }
}

impl DeepView for FileRef {
    type V = FileRefView;

    open spec fn deep_view(&self) -> FileRefView {
        self@
    }
}

/// The files that share one exact byte length.
#[derive(Debug, Clone, PartialEq, Eq)]
pub struct SizeBucket {
    pub size: u64,
    pub files: Vec<String>,
}

/// Mathematical model of a [`SizeBucket`].
pub struct SizeBucketView {
    pub size: u64,
    pub files: Seq<Seq<char>>,
}

impl View for SizeBucket {
    type V = SizeBucketView;

    open spec fn view(&self) -> SizeBucketView {
        SizeBucketView { size: self.size, files: self.files.deep_view() }
    }
}

impl DeepView for SizeBucket {
    type V = SizeBucketView;

    open spec fn deep_view(&self) -> SizeBucketView {
        self@
    }
}

/// Predicate selecting the files of byte length `size`.
pub open spec fn has_size(size: u64) -> spec_fn(FileRefView) -> bool {
    |f: FileRefView| f.size == size
}

/// The paths of the files of byte length `size`, in the order of `files`.
pub open spec fn paths_of_size(files: Seq<FileRefView>, size: u64) -> Seq<Seq<char>> {
    files.filter(has_size(size)).map_values(path_of())
}

/// The path of a file.
pub open spec fn path_of() -> spec_fn(FileRefView) -> Seq<char> {
    |f: FileRefView| f.path
}

/// Predicate selecting the non-zero lengths.
pub open spec fn is_nonzero() -> spec_fn(u64) -> bool {
    |size: u64| size != 0
}

/// The non-zero lengths of `files`, in order and with repetition.
pub open spec fn nonzero_sizes(files: Seq<FileRefView>) -> Seq<u64> {
    files.map_values(|f: FileRefView| f.size).filter(is_nonzero())
}

/// The bucket of length `size`: the paths of all files of that length.
pub open spec fn bucket_of(files: Seq<FileRefView>, size: u64) -> SizeBucketView {
    SizeBucketView { size, files: paths_of_size(files, size) }
}

/// One bucket for each non-zero length in `files`, in the order in which
/// the lengths first occur.
pub open spec fn all_buckets(files: Seq<FileRefView>) -> Seq<SizeBucketView> {
    distinct_in_order(nonzero_sizes(files)).map_values(|size: u64| bucket_of(files, size))
}

/// Predicate selecting the buckets with at least two files.
pub open spec fn has_several_files() -> spec_fn(SizeBucketView) -> bool {
    |b: SizeBucketView| b.files.len() >= 2
}

/// The size partition of `files`: the buckets of the non-zero lengths that
/// at least two files share, in the order in which the lengths first
/// occur. Each bucket holds its paths in the order of `files`.
pub open spec fn size_partition(files: Seq<FileRefView>) -> Seq<SizeBucketView> {
    all_buckets(files).filter(has_several_files())
}

/// `buckets` holds one bucket for each non-zero length that at least two
/// of `files` share, with exactly the paths of that length in the order
/// of `files`, and no other bucket.
pub open spec fn is_size_partition(
    files: Seq<FileRefView>,
    buckets: Seq<SizeBucketView>,
) -> bool {
    &&& forall|i: int|
        0 <= i < buckets.len() ==> {
            &&& (#[trigger] buckets[i]).size != 0
            &&& buckets[i].files == paths_of_size(files, buckets[i].size)
            &&& buckets[i].files.len() >= 2
        }
    &&& forall|i: int, j: int|
        0 <= i < j < buckets.len() ==> (#[trigger] buckets[i]).size != (#[trigger] buckets[j]).size
    &&& forall|size: u64|
        size != 0 && (#[trigger] paths_of_size(files, size)).len() >= 2 ==> exists|i: int|
            0 <= i < buckets.len() && (#[trigger] buckets[i]).size == size
}

/// Appending a file extends the path list of its own length and no other.
pub proof fn lemma_paths_of_size_push(files: Seq<FileRefView>, f: FileRefView, size: u64)
    ensures
        paths_of_size(files.push(f), size) == if f.size == size {
            paths_of_size(files, size).push(f.path)
        } else {
            paths_of_size(files, size)
        },
{
    files.lemma_filter_push(f, has_size(size));
    if f.size == size {
        assert(paths_of_size(files.push(f), size) =~= paths_of_size(files, size).push(f.path));
    }
}

/// Appending a file appends its length to the non-zero lengths, unless it
/// is empty.
pub proof fn lemma_nonzero_sizes_push(files: Seq<FileRefView>, f: FileRefView)
    ensures
        nonzero_sizes(files.push(f)) == if f.size != 0 {
            nonzero_sizes(files).push(f.size)
        } else {
            nonzero_sizes(files)
        },
{
    let size_of = |f: FileRefView| f.size;
    assert(files.push(f).map_values(size_of) =~= files.map_values(size_of).push(f.size));
    files.map_values(size_of).lemma_filter_push(f.size, is_nonzero());
}

/// A length has files exactly if it occurs among the lengths.
pub proof fn lemma_paths_of_size_occupied(files: Seq<FileRefView>, size: u64)
    ensures
        paths_of_size(files, size).len() >= 1 <==> files.map_values(|f: FileRefView| f.size).contains(
            size,
        ),
    decreases files.len(),
{
    let size_of = |f: FileRefView| f.size;
    if files.len() == 0 {
        reveal(Seq::filter);
        assert(paths_of_size(files, size).len() == 0);
    } else {
        let rest = files.drop_last();
        let f = files.last();
        assert(files =~= rest.push(f));
        lemma_paths_of_size_occupied(rest, size);
        lemma_paths_of_size_push(rest, f, size);
        assert(files.map_values(size_of) =~= rest.map_values(size_of).push(f.size));
        vstd::seq_lib::lemma_seq_contains_after_push(rest.map_values(size_of), f.size, size);
    }
}

/// No bucket stands for the length zero.
pub proof fn lemma_bucket_sizes_nonzero(files: Seq<FileRefView>, k: int)
    requires
        0 <= k < distinct_in_order(nonzero_sizes(files)).len(),
    ensures
        distinct_in_order(nonzero_sizes(files))[k] != 0,
{
    let sizes = distinct_in_order(nonzero_sizes(files));
    lemma_distinct_contains(nonzero_sizes(files), sizes[k]);
    assert(sizes.contains(sizes[k]));
    let m = choose|m: int| 0 <= m < nonzero_sizes(files).len() && nonzero_sizes(files)[m] == sizes[k];
    files.map_values(|f: FileRefView| f.size).lemma_filter_pred(is_nonzero(), m);
}

/// The exact partition has the properties that define a size partition.
pub proof fn lemma_size_partition_properties(files: Seq<FileRefView>)
    ensures
        is_size_partition(files, size_partition(files)),
{
    let sizes = distinct_in_order(nonzero_sizes(files));
    let all = all_buckets(files);
    let out = size_partition(files);
    let size_of = |f: FileRefView| f.size;
    lemma_distinct_no_duplicates(nonzero_sizes(files));
    broadcast use Seq::lemma_filter_pred, Seq::lemma_filter_contains_rev;

    assert forall|i: int| 0 <= i < out.len() implies {
        &&& (#[trigger] out[i]).size != 0
        &&& out[i].files == paths_of_size(files, out[i].size)
        &&& out[i].files.len() >= 2
    } by {
        all.lemma_filter_pred(has_several_files(), i);
        all.lemma_filter_contains_rev(has_several_files(), out[i]);
        let k = choose|k: int| 0 <= k < all.len() && all[k] == out[i];
        lemma_bucket_sizes_nonzero(files, k);
    }
    assert forall|i: int, j: int| 0 <= i < j < out.len() implies (#[trigger] out[i]).size != (
    #[trigger] out[j]).size by {
        lemma_filter_ascends(all, has_several_files(), i, j);
        let (a, b) = choose|a: int, b: int|
            0 <= a < b < all.len() && all[a] == out[i] && all[b] == out[j];
        assert(sizes[a] != sizes[b]);
    }
    assert forall|size: u64|
        size != 0 && (#[trigger] paths_of_size(files, size)).len() >= 2 implies exists|i: int|
        0 <= i < out.len() && (#[trigger] out[i]).size == size by {
        lemma_paths_of_size_occupied(files, size);
        let m = choose|m: int|
            0 <= m < files.map_values(size_of).len() && files.map_values(size_of)[m] == size;
        files.map_values(size_of).lemma_filter_contains(is_nonzero(), m);
        lemma_distinct_contains(nonzero_sizes(files), size);
        let k = choose|k: int| 0 <= k < sizes.len() && sizes[k] == size;
        assert(all[k] == bucket_of(files, size));
        all.lemma_filter_contains(has_several_files(), k);
        let i = choose|i: int| 0 <= i < out.len() && out[i] == all[k];
        assert(out[i].size == size);
    }
}

/// Working state of the partitioner after a prefix of the input: one bucket
/// per non-zero length seen so far, found through `index`.
spec fn partial_partition(
    seen: Seq<FileRefView>,
    all: Seq<SizeBucketView>,
    index: Map<u64, usize>,
) -> bool {
    let sizes = distinct_in_order(nonzero_sizes(seen));
    &&& all == all_buckets(seen)
    &&& forall|s: u64| #[trigger] index.contains_key(s) <==> sizes.contains(s)
    &&& forall|s: u64| #[trigger]
        index.contains_key(s) ==> index[s] < sizes.len() && sizes[index[s] as int] == s
}

/// Adds one file to the working state of the partitioner.
fn add_file(
    f: &FileRef,
    all: &mut Vec<SizeBucket>,
    index: &mut HashMap<u64, usize>,
    Ghost(seen): Ghost<Seq<FileRefView>>,
)
    requires
        partial_partition(seen, old(all).deep_view(), old(index)@),
    ensures
        partial_partition(seen.push(f@), final(all).deep_view(), final(index)@),
{
    let ghost next = seen.push(f@);
    let ghost sizes = distinct_in_order(nonzero_sizes(seen));
    let ghost before = all.deep_view();
    proof {
        lemma_nonzero_sizes_push(seen, f@);
        lemma_distinct_push(nonzero_sizes(seen), f.size);
        lemma_distinct_no_duplicates(nonzero_sizes(seen));
        assert(before.len() == all@.len() && before.len() == sizes.len());
    }
    if f.size != 0 {
        let found = index.get(&f.size);
        match found {
            Some(slot) => {
                let j = *slot;
                assert(before[j as int] == all@[j as int]@);
                all[j].files.push(f.path.clone());
                proof {
                    assert(all@[j as int]@.files =~= before[j as int].files.push(f.path@));
                    assert(sizes.contains(f.size));
                    assert forall|k: int| 0 <= k < sizes.len() implies all.deep_view()[k]
                        == all_buckets(next)[k] by {
                        lemma_paths_of_size_push(seen, f@, sizes[k]);
                        assert(before[k] == bucket_of(seen, sizes[k]));
                        if k != j {
                            assert(sizes[k] != sizes[j as int]);
                        }
                    }
                    assert(all.deep_view() =~= all_buckets(next));
                }
            },
            None => {
                let mut paths: Vec<String> = Vec::new();
                paths.push(f.path.clone());
                assert(paths.deep_view() =~= Seq::<Seq<char>>::empty().push(f.path@));
                index.insert(f.size, all.len());
                all.push(SizeBucket { size: f.size, files: paths });
                proof {
                    lemma_paths_of_size_occupied(seen, f.size);
                    lemma_distinct_contains(nonzero_sizes(seen), f.size);
                    let size_of = |f: FileRefView| f.size;
                    if seen.map_values(size_of).contains(f.size) {
                        let m = choose|m: int|
                            0 <= m < seen.map_values(size_of).len() && seen.map_values(size_of)[m]
                                == f.size;
                        seen.map_values(size_of).lemma_filter_contains(is_nonzero(), m);
                    }
                    assert(paths_of_size(seen, f.size).len() == 0);
                    lemma_paths_of_size_push(seen, f@, f.size);
                    assert(all@[before.len() as int]@.files =~= paths_of_size(next, f.size));
                    assert(!sizes.contains(f.size));
                    assert forall|k: int| 0 <= k < sizes.len() + 1 implies all.deep_view()[k]
                        == all_buckets(next)[k] by {
                        if k < sizes.len() {
                            lemma_paths_of_size_push(seen, f@, sizes[k]);
                            assert(before[k] == bucket_of(seen, sizes[k]));
                            assert(sizes.contains(sizes[k]));
                        }
                    }
                    assert(all.deep_view() =~= all_buckets(next));
                    let grown = distinct_in_order(nonzero_sizes(next));
                    assert(grown[before.len() as int] == f.size);
                    assert forall|s: u64| #[trigger]
                        index@.contains_key(s) <==> grown.contains(s) by {
                        vstd::seq_lib::lemma_seq_contains_after_push(sizes, f.size, s);
                    }
                }
            },
        }
    } else {
        proof {
            assert forall|k: int| 0 <= k < sizes.len() implies all.deep_view()[k] == all_buckets(
                next,
            )[k] by {
                lemma_paths_of_size_push(seen, f@, sizes[k]);
                lemma_bucket_sizes_nonzero(seen, k);
            }
            assert(all.deep_view() =~= all_buckets(next));
        }
    }
}

/// Drops the buckets with fewer than two files.
pub fn prune_buckets(all: Vec<SizeBucket>) -> (buckets: Vec<SizeBucket>)
    ensures
        buckets.deep_view() == all.deep_view().filter(has_several_files()),
        forall|i: int| 0 <= i < buckets.len() ==> (#[trigger] buckets[i]).files.len() >= 2,
{
    let ghost source = all.deep_view();
    let mut buckets: Vec<SizeBucket> = Vec::new();
    proof {
        reveal(Seq::filter);
        assert(source.take(0) =~= Seq::<SizeBucketView>::empty());
        assert(buckets.deep_view() =~= source.take(0).filter(has_several_files()));
    }
    for bucket in it: all.into_iter()
        invariant
            source.len() == it.seq().len(),
            forall|k: int| 0 <= k < source.len() ==> source[k] == (#[trigger] it.seq()[k])@,
            buckets.deep_view() == source.take(it.index() as int).filter(has_several_files()),
            forall|i: int| 0 <= i < buckets.len() ==> (#[trigger] buckets[i]).files.len() >= 2,
    {
        let ghost at = it.index() as int;
        let ghost before = buckets.deep_view();
        proof {
            assert(source.take(at + 1) =~= source.take(at).push(bucket@));
            source.take(at).lemma_filter_push(bucket@, has_several_files());
        }
        if bucket.files.len() >= 2 {
            buckets.push(bucket);
            proof {
                assert(buckets.deep_view() =~= before.push(bucket@));
            }
        }
    }
    proof {
        assert(source.take(source.len() as int) =~= source);
    }
    buckets
}

/// The working state of the partitioner before any file.
proof fn lemma_partition_start(files: Seq<FileRefView>)
    ensures
        partial_partition(files.take(0), Seq::empty(), Map::empty()),
{
    reveal(Seq::filter);
    assert(files.take(0) =~= Seq::<FileRefView>::empty());
    assert(nonzero_sizes(files.take(0)) =~= Seq::<u64>::empty());
    assert(all_buckets(files.take(0)) =~= Seq::<SizeBucketView>::empty());
}

/// Buckets candidate files by exact byte length.
///
/// Zero-length files are left out, and so is every length that only one
/// file has: neither can hold a duplicate.
pub fn partition_by_size(files: &[FileRef]) -> (buckets: Vec<SizeBucket>)
    ensures
        buckets.deep_view() == size_partition(files.deep_view()),
        forall|i: int| 0 <= i < buckets.len() ==> (#[trigger] buckets[i]).files.len() >= 2,
{
    prune_buckets(collect_by_size(files))
}

/// Buckets files by exact byte length and keeps every bucket, also those
/// of a single file: the share of one worker, to be merged with the
/// shares of the others before the small buckets are dropped.
///
/// Zero-length files are left out.
pub fn collect_by_size(files: &[FileRef]) -> (all: Vec<SizeBucket>)
    ensures
        all.deep_view() == all_buckets(files.deep_view()),
{
    let ghost input = files.deep_view();
    let mut index: HashMap<u64, usize> = HashMap::new();
    let mut all: Vec<SizeBucket> = Vec::new();
    let mut i: usize = 0;
    proof {
        lemma_partition_start(input);
        assert(all.deep_view() =~= Seq::<SizeBucketView>::empty());
    }
    while i < files.len()
        invariant
            i <= files.len(),
            input == files.deep_view(),
            partial_partition(input.take(i as int), all.deep_view(), index@),
        decreases files.len() - i,
    {
        proof {
            assert(input[i as int] == files[i as int]@);
            assert(input.take(i + 1) =~= input.take(i as int).push(files[i as int]@));
        }
        add_file(&files[i], &mut all, &mut index, Ghost(input.take(i as int)));
        i += 1;
    }
    proof {
        assert(input.take(files.len() as int) =~= input);
    }
    all
}

/// Buckets candidate files by exact byte length until all are taken in or
/// the run is asked to stop.
///
/// The files are taken in order, as [`partition_by_size`] does. Before
/// each file the partitioner looks at `cancel`; once it sees the token set
/// it takes no further file and returns what has accumulated: the
/// partition of the files taken so far. `progress` is advanced once for
/// each file that is taken.
pub fn group_by_size(files: &[FileRef], cancel: &CancelToken, progress: &ProgressCounter) -> (buckets:
    Vec<SizeBucket>)
    ensures
        exists|taken: int|
            0 <= taken <= files.len() && buckets.deep_view() == size_partition(
                #[trigger] files.deep_view().take(taken),
            ),
        forall|i: int| 0 <= i < buckets.len() ==> (#[trigger] buckets[i]).files.len() >= 2,
{
    let ghost input = files.deep_view();
    let mut index: HashMap<u64, usize> = HashMap::new();
    let mut all: Vec<SizeBucket> = Vec::new();
    let mut i: usize = 0;
    proof {
        lemma_partition_start(input);
        assert(all.deep_view() =~= Seq::<SizeBucketView>::empty());
    }
    while i < files.len() && !cancel.is_cancelled()
        invariant
            i <= files.len(),
            input == files.deep_view(),
            partial_partition(input.take(i as int), all.deep_view(), index@),
        decreases files.len() - i,
    {
        proof {
            assert(input[i as int] == files[i as int]@);
            assert(input.take(i + 1) =~= input.take(i as int).push(files[i as int]@));
        }
        add_file(&files[i], &mut all, &mut index, Ghost(input.take(i as int)));
        progress.advance();
        i += 1;
    }
    prune_buckets(all)
}

/// What a directory walk reports of one entry.
#[derive(Debug, Clone, PartialEq, Eq)]
pub struct EntryInfo {
    pub path: String,
    /// The path itself is a symbolic link.
    pub is_symlink: bool,
    /// The entry is a regular file.
    pub is_file: bool,
    /// Byte length from the entry's metadata, if it could be read.
    pub size: Option<u64>,
}

/// Mathematical model of an [`EntryInfo`].
pub struct EntryInfoView {
    pub path: Seq<char>,
    pub is_symlink: bool,
    pub is_file: bool,
    pub size: Option<u64>,
}

impl View for EntryInfo {
    type V = EntryInfoView;

    open spec fn view(&self) -> EntryInfoView {
        EntryInfoView {
            path: self.path@,
            is_symlink: self.is_symlink,
            is_file: self.is_file,
            size: self.size,
        }
    }
}

impl DeepView for EntryInfo {
    type V = EntryInfoView;

    open spec fn deep_view(&self) -> EntryInfoView {
        self@
    }
}

/// Predicate selecting the entries that become candidates: regular files
/// with readable metadata and at least `min_size` bytes, and no symbolic
/// links unless links are followed.
pub open spec fn is_candidate(follow_links: bool, min_size: u64) -> spec_fn(EntryInfoView) -> bool {
    |e: EntryInfoView|
        {
            &&& follow_links || !e.is_symlink
            &&& e.is_file
            &&& e.size is Some
            &&& e.size->0 >= min_size
        }
}

/// The candidate file that an entry stands for.
pub open spec fn candidate_of() -> spec_fn(EntryInfoView) -> FileRefView {
    |e: EntryInfoView| FileRefView { path: e.path, size: e.size->0 }
}

/// The candidate files among `entries`, in order.
pub open spec fn candidates(entries: Seq<EntryInfoView>, follow_links: bool, min_size: u64) -> Seq<
    FileRefView,
> {
    entries.filter(is_candidate(follow_links, min_size)).map_values(candidate_of())
}

/// Collects the candidate files among the entries of a directory walk.
///
/// An entry that is not a regular file, whose metadata could not be read,
/// or that is smaller than `min_size` is left out; so is a symbolic link,
/// unless links are followed.
pub fn scan_files(entries: &[EntryInfo], follow_links: bool, min_size: u64) -> (files: Vec<FileRef>)
    ensures
        files.deep_view() == candidates(entries.deep_view(), follow_links, min_size),
{
    let ghost input = entries.deep_view();
    let mut files: Vec<FileRef> = Vec::new();
    let mut i: usize = 0;
    proof {
        reveal(Seq::filter);
        assert(input.take(0) =~= Seq::<EntryInfoView>::empty());
        assert(files.deep_view() =~= candidates(input.take(0), follow_links, min_size));
    }
    while i < entries.len()
        invariant
            i <= entries.len(),
            input == entries.deep_view(),
            files.deep_view() == candidates(input.take(i as int), follow_links, min_size),
        decreases entries.len() - i,
    {
        let entry = &entries[i];
        let ghost seen = input.take(i as int);
        let ghost before = files.deep_view();
        proof {
            assert(input[i as int] == entry@);
            assert(input.take(i + 1) =~= seen.push(entry@));
            seen.lemma_filter_push(entry@, is_candidate(follow_links, min_size));
        }
        if (follow_links || !entry.is_symlink) && entry.is_file {
            match entry.size {
                Some(size) => {
                    if size >= min_size {
                        files.push(FileRef { path: entry.path.clone(), size });
                        proof {
                            let added = FileRefView { path: entry.path@, size };
                            assert(files.deep_view() =~= before.push(added));
                            assert(candidates(input.take(i + 1), follow_links, min_size)
                                =~= before.push(added));
                        }
                    }
                },
                None => {},
            }
        }
        i += 1;
    }
    proof {
        assert(input.take(entries.len() as int) =~= input);
    }
    files
}

/// The name begins with a dot.
pub open spec fn is_dot_name(name: Seq<char>) -> bool {
    name.len() > 0 && name[0] == '.'
}

/// Tells whether a file or directory name begins with a dot.
pub fn has_dot_name(name: &str) -> (dotted: bool)
    ensures
        dotted == is_dot_name(name@),
{
    name.unicode_len() > 0 && name.get_char(0) == '.'
}

/// The rule by which a walk keeps an entry and, for a directory, goes into
/// it. `name` is the entry's file name where it is valid text.
///
/// Unless hidden entries are included, a name that begins with a dot is
/// turned down (the name `.` itself is not), and so is an entry that the
/// system marks as hidden. A directory whose name is among `ignored` is
/// always turned down.
pub open spec fn entry_is_kept(
    name: Option<Seq<char>>,
    is_dir: bool,
    hidden_flag: bool,
    include_hidden: bool,
    ignored: Seq<Seq<char>>,
) -> bool {
    &&& !(name is Some && !include_hidden && is_dot_name(name->0) && name->0 != seq!['.'])
    &&& !(name is Some && is_dir && ignored.contains(name->0))
    &&& !(!include_hidden && hidden_flag)
}

/// Decides whether a walk keeps an entry and, for a directory, goes into
/// it.
pub fn keep_entry(
    name: Option<&str>,
    is_dir: bool,
    hidden_flag: bool,
    include_hidden: bool,
    ignored: &[String],
) -> (kept: bool)
    ensures
        kept == entry_is_kept(
            match name {
                Some(n) => Some(n@),
                None => None,
            },
            is_dir,
            hidden_flag,
            include_hidden,
            ignored.deep_view(),
        ),
{
    match name {
        Some(text) => {
            proof {
                if text@.len() == 1 && text@[0] == '.' {
                    assert(text@ =~= seq!['.']);
                }
            }
            if !include_hidden && has_dot_name(text) && text.unicode_len() != 1 {
                return false;
            }
            if is_dir && names_contain(ignored, text) {
                return false;
            }
        },
        None => {},
    }
    include_hidden || !hidden_flag
}

/// Tells whether `name` is one of `names`.
pub fn names_contain(names: &[String], name: &str) -> (found: bool)
    ensures
        found == names.deep_view().contains(name@),
{
    let wanted = String::from_str(name);
    let mut i: usize = 0;
    while i < names.len()
        invariant
            i <= names.len(),
            wanted@ == name@,
            forall|k: int| 0 <= k < i ==> names.deep_view()[k] != name@,
        decreases names.len() - i,
    {
        if names[i] == wanted {
            assert(names.deep_view()[i as int] == name@);
            return true;
        }
        i += 1;
    }
    false
}

/// Decides whether the root of a scan is itself hidden, so that the scan
/// finds nothing. `name` is the root's file name where it has one that is
/// valid text.
pub fn root_is_hidden(name: Option<&str>, hidden_flag: bool, include_hidden: bool) -> (hidden: bool)
    ensures
        hidden == (!include_hidden && (hidden_flag || match name {
            Some(n) => is_dot_name(n@),
            None => false,
        })),
{
    if include_hidden {
        return false;
    }
    match name {
        Some(text) => {
            if has_dot_name(text) {
                return true;
            }
        },
        None => {},
    }
    hidden_flag
}

} // verus!
