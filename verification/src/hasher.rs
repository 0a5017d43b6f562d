//! Content digests and the tiered hash engine.

use crate::distinct::distinct_in_order;
use crate::distinct::lemma_distinct_contains;
use crate::distinct::lemma_distinct_no_duplicates;
use crate::distinct::lemma_distinct_push;
use crate::distinct::lemma_filter_ascends;
use crate::scanner::FileRef;
use crate::scanner::FileRefView;
use crate::scanner::SizeBucket;
use crate::scanner::SizeBucketView;
use crate::statistics::DuplicateGroup;
use crate::statistics::DuplicateGroupView;
use crate::utils::CancelToken;
use crate::utils::ProgressCounter;
use vstd::hash_map::StringHashMap;
use vstd::prelude::*;
use vstd::slice::slice_subrange;
use vstd::string::StringExecFns;
use vstd::string::StrSliceExecFns;

verus! {

/// The 32-byte BLAKE3 hash of `input`, as computed by the `blake3` crate's
/// default (unkeyed) hash function.
pub uninterp spec fn blake3_hash(input: Seq<u8>) -> Seq<u8>;

/// Calls `blake3::hash` and copies the 32 output bytes out of the returned
/// `Hash`. The contract only names the result: the hash is a function of
/// the input bytes alone.
#[verifier::external_body]
fn blake3_bytes(input: &[u8]) -> (out: [u8; 32])
    ensures
        out@ == blake3_hash(input@),
{
    *blake3::hash(input).as_bytes()
}

/// The sixteen lowercase hexadecimal digits, indexed by value.
pub open spec fn hex_digits() -> Seq<char> {
    seq!['0', '1', '2', '3', '4', '5', '6', '7', '8', '9', 'a', 'b', 'c', 'd', 'e', 'f']
}

/// The nibble of `bytes` that hex position `i` renders: high nibble first.
pub open spec fn nibble_at(bytes: Seq<u8>, i: int) -> u8 {
    if i % 2 == 0 {
        bytes[i / 2] >> 4
    } else {
        bytes[i / 2] & 0x0f
    }
}

/// Lowercase hexadecimal rendering of `bytes`, two digits per byte.
pub open spec fn hex_lower(bytes: Seq<u8>) -> Seq<char> {
    Seq::new(2 * bytes.len(), |i: int| hex_digits()[nibble_at(bytes, i) as int])
}

/// The digest string of a byte sequence: the BLAKE3 hash in lowercase hex.
pub open spec fn content_digest(content: Seq<u8>) -> Seq<char> {
    hex_lower(blake3_hash(content))
}

/// The bytes that the quick digest covers: the first `sample_size` bytes of
/// the content, or all of it when it is shorter.
pub open spec fn sample_of(content: Seq<u8>, sample_size: nat) -> Seq<u8> {
    if sample_size < content.len() {
        content.take(sample_size as int)
    } else {
        content
    }
}

/// Renders `bytes` in lowercase hexadecimal.
pub fn to_hex(bytes: &[u8]) -> (hex: String)
    ensures
        hex@ == hex_lower(bytes@),
{
    let digits = "0123456789abcdef";
    proof {
        reveal_strlit("0123456789abcdef");
        assert(digits@ =~= hex_digits());
    }
    let mut hex = String::new();
    let mut i: usize = 0;
    while i < bytes.len()
        invariant
            i <= bytes.len(),
            digits@ == hex_digits(),
            digits.is_ascii(),
            hex@.len() == 2 * i,
            forall|k: int| 0 <= k < 2 * i ==> hex@[k] == hex_digits()[nibble_at(bytes@, k) as int],
        decreases bytes.len() - i,
    {
        let b = bytes[i];
        let hi: usize = (b >> 4) as usize;
        let lo: usize = (b & 0x0f) as usize;
        assert(b >> 4 < 16 && b & 0x0f < 16) by (bit_vector);
        let ghost before = hex@;
        hex.append(digits.substring_ascii(hi, hi + 1));
        hex.append(digits.substring_ascii(lo, lo + 1));
        proof {
            assert(hex@ =~= before.push(hex_digits()[hi as int]).push(hex_digits()[lo as int]));
            assert(nibble_at(bytes@, 2 * i) == b >> 4);
            assert(nibble_at(bytes@, 2 * i + 1) == b & 0x0f);
        }
        i += 1;
    }
    proof {
        assert(hex@ =~= hex_lower(bytes@));
    }
    hex
}

/// Digest of the whole content of a file.
pub fn full_hash_file(content: &[u8]) -> (hash: String)
    ensures
        hash@ == content_digest(content@),
        hash@.len() == 64,
{
    let raw = blake3_bytes(content);
    to_hex(raw.as_slice())
}

/// Digest of the leading `sample_size` bytes of a file, or of the whole
/// content when the file is shorter than the sample.
pub fn quick_hash_file(content: &[u8], sample_size: usize) -> (hash: String)
    ensures
        hash@ == content_digest(sample_of(content@, sample_size as nat)),
        content.len() <= sample_size ==> hash@ == content_digest(content@),
        hash@.len() == 64,
{
    if sample_size < content.len() {
        let head = slice_subrange(content, 0, sample_size);
        proof {
            assert(head@ =~= sample_of(content@, sample_size as nat));
        }
        full_hash_file(head)
    } else {
        full_hash_file(content)
    }
}

/// A file together with a digest of its content.
#[derive(Debug, Clone, PartialEq, Eq)]
pub struct HashedFile {
    /// Lowercase hexadecimal digest.
    pub hash: String,
    pub path: String,
    /// Byte length recorded for the file.
    pub size: u64,
}

/// Mathematical model of a [`HashedFile`].
pub struct HashedFileView {
    pub hash: Seq<char>,
    pub path: Seq<char>,
    pub size: u64,
}

impl View for HashedFile {
    type V = HashedFileView;

    open spec fn view(&self) -> HashedFileView {
        HashedFileView { hash: self.hash@, path: self.path@, size: self.size }
    }
}

impl DeepView for HashedFile {
    type V = HashedFileView;

    open spec fn deep_view(&self) -> HashedFileView {
        self@
    }
}

/// Predicate selecting the entries with digest `hash`.
pub open spec fn has_hash(hash: Seq<char>) -> spec_fn(HashedFileView) -> bool {
    |e: HashedFileView| e.hash == hash
}

/// The entries with digest `hash`, in the order of `entries`.
pub open spec fn with_hash(entries: Seq<HashedFileView>, hash: Seq<char>) -> Seq<HashedFileView> {
    entries.filter(has_hash(hash))
}

/// The paths of `entries`, in order.
pub open spec fn paths_of(entries: Seq<HashedFileView>) -> Seq<Seq<char>> {
    entries.map_values(entry_path())
}

/// The path of an entry.
pub open spec fn entry_path() -> spec_fn(HashedFileView) -> Seq<char> {
    |e: HashedFileView| e.path
}

/// The digests of `entries`, in order and with repetition.
pub open spec fn digests(entries: Seq<HashedFileView>) -> Seq<Seq<char>> {
    entries.map_values(|e: HashedFileView| e.hash)
}

/// The group of digest `hash`: the paths of all entries with that digest,
/// and the recorded size of the first of them.
pub open spec fn group_of(entries: Seq<HashedFileView>, hash: Seq<char>) -> DuplicateGroupView {
    DuplicateGroupView {
        hash,
        size: with_hash(entries, hash)[0].size,
        files: paths_of(with_hash(entries, hash)),
    }
}

/// One group for each digest in `entries`, in the order in which the
/// digests first occur.
pub open spec fn all_groups(entries: Seq<HashedFileView>) -> Seq<DuplicateGroupView> {
    distinct_in_order(digests(entries)).map_values(|hash: Seq<char>| group_of(entries, hash))
}

/// Predicate selecting the groups with at least two members.
pub open spec fn has_several_members() -> spec_fn(DuplicateGroupView) -> bool {
    |g: DuplicateGroupView| g.files.len() >= 2
}

/// The duplicate groups of `entries`: the groups of the digests that at
/// least two entries share, in the order in which the digests first occur.
/// Each group holds its paths in the order of `entries`.
pub open spec fn duplicate_groups(entries: Seq<HashedFileView>) -> Seq<DuplicateGroupView> {
    all_groups(entries).filter(has_several_members())
}

/// `groups` holds one group for each digest that at least two of `entries`
/// share, with the paths of exactly those entries in the order of
/// `entries` and the recorded size of the first of them, and no other
/// group.
pub open spec fn is_duplicate_grouping(
    entries: Seq<HashedFileView>,
    groups: Seq<DuplicateGroupView>,
) -> bool {
    &&& forall|i: int|
        0 <= i < groups.len() ==> {
            &&& with_hash(entries, (#[trigger] groups[i]).hash).len() >= 2
            &&& groups[i].files == paths_of(with_hash(entries, groups[i].hash))
            &&& groups[i].size == with_hash(entries, groups[i].hash)[0].size
        }
    &&& forall|i: int, j: int|
        0 <= i < j < groups.len() ==> (#[trigger] groups[i]).hash != (#[trigger] groups[j]).hash
    &&& forall|hash: Seq<char>|
        (#[trigger] with_hash(entries, hash)).len() >= 2 ==> exists|i: int|
            0 <= i < groups.len() && (#[trigger] groups[i]).hash == hash
}

/// Appending an entry extends the entries of its own digest and no others.
pub proof fn lemma_with_hash_push(entries: Seq<HashedFileView>, e: HashedFileView, hash: Seq<char>)
    ensures
        with_hash(entries.push(e), hash) == if e.hash == hash {
            with_hash(entries, hash).push(e)
        } else {
            with_hash(entries, hash)
        },
{
    entries.lemma_filter_push(e, has_hash(hash));
}

/// Without entries no digest has any.
pub proof fn lemma_with_hash_empty(hash: Seq<char>)
    ensures
        with_hash(Seq::<HashedFileView>::empty(), hash) == Seq::<HashedFileView>::empty(),
{
    reveal(Seq::filter);
}

/// A digest has entries exactly if it occurs among the digests.
pub proof fn lemma_with_hash_occupied(entries: Seq<HashedFileView>, hash: Seq<char>)
    ensures
        with_hash(entries, hash).len() >= 1 <==> digests(entries).contains(hash),
    decreases entries.len(),
{
    if entries.len() == 0 {
        lemma_with_hash_empty(hash);
        assert(entries =~= Seq::<HashedFileView>::empty());
    } else {
        let rest = entries.drop_last();
        let e = entries.last();
        assert(entries =~= rest.push(e));
        lemma_with_hash_occupied(rest, hash);
        lemma_with_hash_push(rest, e, hash);
        assert(digests(entries) =~= digests(rest).push(e.hash));
        vstd::seq_lib::lemma_seq_contains_after_push(digests(rest), e.hash, hash);
    }
}

/// The exact grouping has the properties that define a duplicate grouping.
pub proof fn lemma_duplicate_groups_properties(entries: Seq<HashedFileView>)
    ensures
        is_duplicate_grouping(entries, duplicate_groups(entries)),
{
    let order = distinct_in_order(digests(entries));
    let all = all_groups(entries);
    let out = duplicate_groups(entries);
    lemma_distinct_no_duplicates(digests(entries));
    assert forall|i: int| 0 <= i < out.len() implies {
        &&& with_hash(entries, (#[trigger] out[i]).hash).len() >= 2
        &&& out[i].files == paths_of(with_hash(entries, out[i].hash))
        &&& out[i].size == with_hash(entries, out[i].hash)[0].size
    } by {
        all.lemma_filter_pred(has_several_members(), i);
        all.lemma_filter_contains_rev(has_several_members(), out[i]);
        let k = choose|k: int| 0 <= k < all.len() && all[k] == out[i];
        assert(all[k] == group_of(entries, order[k]));
    }
    assert forall|i: int, j: int| 0 <= i < j < out.len() implies (#[trigger] out[i]).hash != (
    #[trigger] out[j]).hash by {
        lemma_filter_ascends(all, has_several_members(), i, j);
        let (a, b) = choose|a: int, b: int|
            0 <= a < b < all.len() && all[a] == out[i] && all[b] == out[j];
        assert(order[a] != order[b]);
    }
    assert forall|hash: Seq<char>| (#[trigger] with_hash(entries, hash)).len() >= 2 implies exists|
        i: int,
    | 0 <= i < out.len() && (#[trigger] out[i]).hash == hash by {
        lemma_with_hash_occupied(entries, hash);
        lemma_distinct_contains(digests(entries), hash);
        let k = choose|k: int| 0 <= k < order.len() && order[k] == hash;
        assert(all[k] == group_of(entries, hash));
        all.lemma_filter_contains(has_several_members(), k);
        let i = choose|i: int| 0 <= i < out.len() && out[i] == all[k];
        assert(out[i].hash == hash);
    }
}

/// Working state of the aggregator after a prefix of the input: one group
/// per digest seen so far, found through `index`.
spec fn partial_grouping(
    seen: Seq<HashedFileView>,
    all: Seq<DuplicateGroupView>,
    index: Map<Seq<char>, usize>,
) -> bool {
    let order = distinct_in_order(digests(seen));
    &&& all == all_groups(seen)
    &&& forall|h: Seq<char>| #[trigger] index.contains_key(h) <==> order.contains(h)
    &&& forall|h: Seq<char>| #[trigger]
        index.contains_key(h) ==> index[h] < order.len() && order[index[h] as int] == h
}

/// Merges fully hashed files into one mapping from digest to files and
/// keeps the digests with at least two members.
///
/// This is the last step of the engine: `entries` holds one item for each
/// file whose whole content was digested, from whichever bucket it came.
pub fn aggregate_duplicates(entries: &[HashedFile]) -> (groups: Vec<DuplicateGroup>)
    ensures
        groups.deep_view() == duplicate_groups(entries.deep_view()),
        forall|i: int| 0 <= i < groups.len() ==> (#[trigger] groups[i]).files.len() >= 2,
{
    let ghost input = entries.deep_view();
    let mut index: StringHashMap<usize> = StringHashMap::new();
    let mut all: Vec<DuplicateGroup> = Vec::new();
    let mut i: usize = 0;
    proof {
        assert(input.take(0) =~= Seq::<HashedFileView>::empty());
        assert(digests(input.take(0)) =~= Seq::<Seq<char>>::empty());
        assert(all.deep_view() =~= all_groups(input.take(0)));
    }
    while i < entries.len()
        invariant
            i <= entries.len(),
            input == entries.deep_view(),
            partial_grouping(input.take(i as int), all.deep_view(), index@),
        decreases entries.len() - i,
    {
        let e = &entries[i];
        let ghost seen = input.take(i as int);
        let ghost next = input.take(i + 1);
        let ghost order = distinct_in_order(digests(seen));
        let ghost before = all.deep_view();
        proof {
            assert(input[i as int] == e@);
            assert(next =~= seen.push(e@));
            assert(digests(next) =~= digests(seen).push(e.hash@));
            lemma_distinct_push(digests(seen), e.hash@);
            lemma_distinct_no_duplicates(digests(seen));
            assert(before.len() == all@.len() && before.len() == order.len());
        }
        let found = index.get(e.hash.as_str());
        match found {
            Some(slot) => {
                let j = *slot;
                assert(before[j as int] == all@[j as int]@);
                all[j].files.push(e.path.clone());
                proof {
                    assert(all@[j as int]@.files =~= before[j as int].files.push(e.path@));
                    assert(order.contains(e.hash@));
                    assert forall|k: int| 0 <= k < order.len() implies all.deep_view()[k]
                        == all_groups(next)[k] by {
                        lemma_group_of_push(seen, e@, order[k]);
                        lemma_with_hash_occupied(seen, order[k]);
                        assert(order.contains(order[k]));
                        lemma_distinct_contains(digests(seen), order[k]);
                        assert(before[k] == group_of(seen, order[k]));
                        if k != j {
                            assert(order[k] != order[j as int]);
                        }
                    }
                    assert(all.deep_view() =~= all_groups(next));
                }
            },
            None => {
                let mut paths: Vec<String> = Vec::new();
                paths.push(e.path.clone());
                assert(paths.deep_view() =~= Seq::<Seq<char>>::empty().push(e.path@));
                index.insert(e.hash.clone(), all.len());
                all.push(DuplicateGroup { hash: e.hash.clone(), size: e.size, files: paths });
                proof {
                    lemma_with_hash_occupied(seen, e.hash@);
                    lemma_distinct_contains(digests(seen), e.hash@);
                    assert(!order.contains(e.hash@));
                    assert(with_hash(seen, e.hash@).len() == 0);
                    lemma_group_of_push(seen, e@, e.hash@);
                    assert(all@[before.len() as int]@.files =~= paths_of(with_hash(next, e.hash@)));
                    assert forall|k: int| 0 <= k < order.len() + 1 implies all.deep_view()[k]
                        == all_groups(next)[k] by {
                        if k < order.len() {
                            lemma_group_of_push(seen, e@, order[k]);
                            assert(before[k] == group_of(seen, order[k]));
                            assert(order.contains(order[k]));
                        }
                    }
                    assert(all.deep_view() =~= all_groups(next));
                    let grown = distinct_in_order(digests(next));
                    assert(grown[before.len() as int] == e.hash@);
                    assert forall|h: Seq<char>| #[trigger]
                        index@.contains_key(h) <==> grown.contains(h) by {
                        vstd::seq_lib::lemma_seq_contains_after_push(order, e.hash@, h);
                    }
                }
            },
        }
        i += 1;
    }
    proof {
        assert(input.take(entries.len() as int) =~= input);
    }
    let ghost source = all.deep_view();
    let mut groups: Vec<DuplicateGroup> = Vec::new();
    proof {
        reveal(Seq::filter);
        assert(source.take(0) =~= Seq::<DuplicateGroupView>::empty());
        assert(groups.deep_view() =~= source.take(0).filter(has_several_members()));
    }
    for group in it: all.into_iter()
        invariant
            source.len() == it.seq().len(),
            forall|k: int| 0 <= k < source.len() ==> source[k] == (#[trigger] it.seq()[k])@,
            groups.deep_view() == source.take(it.index() as int).filter(has_several_members()),
    {
        let ghost at = it.index() as int;
        let ghost before = groups.deep_view();
        proof {
            assert(source.take(at + 1) =~= source.take(at).push(group@));
            source.take(at).lemma_filter_push(group@, has_several_members());
        }
        if group.files.len() >= 2 {
            groups.push(group);
            proof {
                assert(groups.deep_view() =~= before.push(group@));
            }
        }
    }
    proof {
        assert(source.take(source.len() as int) =~= source);
        lemma_duplicate_groups_properties(input);
        assert forall|i: int| 0 <= i < groups.len() implies (#[trigger] groups[i]).files.len()
            >= 2 by {
            assert(groups.deep_view()[i] == groups[i]@);
        }
    }
    groups
}

/// Appending an entry changes the group of its own digest and no other: it
/// adds its path at the end and, if it is the first, sets the size.
pub proof fn lemma_group_of_push(entries: Seq<HashedFileView>, e: HashedFileView, hash: Seq<char>)
    ensures
        e.hash != hash ==> group_of(entries.push(e), hash) == group_of(entries, hash),
        e.hash == hash ==> group_of(entries.push(e), hash).files == group_of(entries, hash).files.push(
            e.path,
        ),
        e.hash == hash && with_hash(entries, hash).len() >= 1 ==> group_of(entries.push(e), hash).size
            == group_of(entries, hash).size,
        e.hash == hash && with_hash(entries, hash).len() == 0 ==> group_of(entries.push(e), hash).size
            == e.size,
{
    lemma_with_hash_push(entries, e, hash);
    if e.hash == hash {
        assert(paths_of(with_hash(entries, hash).push(e)) =~= paths_of(with_hash(entries, hash)).push(
            e.path,
        ));
    }
}

/// Predicate selecting the entries whose digest at least one other entry of
/// `entries` shares.
pub open spec fn is_shared(entries: Seq<HashedFileView>) -> spec_fn(HashedFileView) -> bool {
    |e: HashedFileView| with_hash(entries, e.hash).len() >= 2
}

/// The files of `entries` that share their digest with another entry, in
/// the order of `entries`.
pub open spec fn shared_files(entries: Seq<HashedFileView>) -> Seq<FileRefView> {
    entries.filter(is_shared(entries)).map_values(file_of())
}

/// The file that an entry stands for: its path and recorded size.
pub open spec fn file_of() -> spec_fn(HashedFileView) -> FileRefView {
    |e: HashedFileView| FileRefView { path: e.path, size: e.size }
}

/// Working state of the quick filter after a prefix of the input: for each
/// digest seen so far, whether it was seen more than once.
spec fn partial_tally(seen: Seq<HashedFileView>, tally: Map<Seq<char>, bool>) -> bool {
    forall|h: Seq<char>|
        {
            &&& tally.contains_key(h) <==> (#[trigger] with_hash(seen, h)).len() >= 1
            &&& tally.contains_key(h) ==> (tally[h] <==> with_hash(seen, h).len() >= 2)
        }
}

/// Selects the files of one size bucket that go on to full hashing.
///
/// `entries` holds the files of the bucket whose leading bytes were
/// digested. A file whose quick digest no other file of the bucket has
/// cannot have a duplicate there and is dropped.
pub fn select_for_full_hash(entries: &[HashedFile]) -> (files: Vec<FileRef>)
    ensures
        files.deep_view() == shared_files(entries.deep_view()),
{
    let ghost input = entries.deep_view();
    let mut tally: StringHashMap<bool> = StringHashMap::new();
    let mut i: usize = 0;
    proof {
        assert forall|h: Seq<char>| (#[trigger] with_hash(input.take(0), h)).len() == 0 by {
            assert(input.take(0) =~= Seq::<HashedFileView>::empty());
            lemma_with_hash_empty(h);
        }
    }
    while i < entries.len()
        invariant
            i <= entries.len(),
            input == entries.deep_view(),
            partial_tally(input.take(i as int), tally@),
        decreases entries.len() - i,
    {
        let e = &entries[i];
        let ghost seen = input.take(i as int);
        let ghost next = input.take(i + 1);
        proof {
            assert(input[i as int] == e@);
            assert(next =~= seen.push(e@));
            assert forall|h: Seq<char>|
                with_hash(next, h) == if e.hash@ == h {
                    with_hash(seen, h).push(e@)
                } else {
                    with_hash(seen, h)
                } by {
                lemma_with_hash_push(seen, e@, h);
            }
        }
        let again = tally.contains_key(e.hash.as_str());
        tally.insert(e.hash.clone(), again);
        proof {
            assert(partial_tally(next, tally@));
        }
        i += 1;
    }
    proof {
        assert(input.take(entries.len() as int) =~= input);
        reveal(Seq::filter);
    }
    let mut files: Vec<FileRef> = Vec::new();
    let mut i: usize = 0;
    while i < entries.len()
        invariant
            i <= entries.len(),
            input == entries.deep_view(),
            partial_tally(input, tally@),
            files.deep_view() == shared_files_of(input.take(i as int), input),
        decreases entries.len() - i,
    {
        let e = &entries[i];
        let ghost seen = input.take(i as int);
        proof {
            assert(input[i as int] == e@);
            assert(input.take(i + 1) =~= seen.push(e@));
            seen.lemma_filter_push(e@, is_shared(input));
            input.lemma_filter_contains(has_hash(e.hash@), i as int);
        }
        let shared = match tally.get(e.hash.as_str()) {
            Some(flag) => *flag,
            None => false,
        };
        if shared {
            let ghost before = files.deep_view();
            files.push(FileRef { path: e.path.clone(), size: e.size });
            proof {
                assert(files.deep_view() =~= before.push(
                    FileRefView { path: e.path@, size: e.size },
                ));
                assert(shared_files_of(input.take(i + 1), input) =~= shared_files_of(seen, input).push(
                    FileRefView { path: e.path@, size: e.size },
                ));
            }
        }
        i += 1;
    }
    proof {
        assert(input.take(entries.len() as int) =~= input);
    }
    files
}

/// The files of `part` whose digest at least two entries of `entries` have.
spec fn shared_files_of(part: Seq<HashedFileView>, entries: Seq<HashedFileView>) -> Seq<
    FileRefView,
> {
    part.filter(is_shared(entries)).map_values(file_of())
}

/// An in-memory snapshot of file contents, keyed by path.
///
/// A path without an entry stands for a file that cannot be read.
pub struct ContentStore {
    files: StringHashMap<Vec<u8>>,
}

impl View for ContentStore {
    type V = Map<Seq<char>, Seq<u8>>;

    closed spec fn view(&self) -> Map<Seq<char>, Seq<u8>> {
        Map::new(|p: Seq<char>| self.files@.contains_key(p), |p: Seq<char>| self.files@[p]@)
    }
}

impl ContentStore {
    /// A snapshot without any file.
    pub fn new() -> (store: ContentStore)
        ensures
            store@ == Map::<Seq<char>, Seq<u8>>::empty(),
    {
        let store = ContentStore { files: StringHashMap::new() };
        assert(store@ =~= Map::<Seq<char>, Seq<u8>>::empty());
        store
    }

    /// Records `content` as what the file at `path` holds, in place of
    /// anything recorded for that path before.
    pub fn insert(&mut self, path: String, content: Vec<u8>)
        ensures
            final(self)@ == old(self)@.insert(path@, content@),
    {
        self.files.insert(path, content);
        assert(self@ =~= old(self)@.insert(path@, content@));
    }

    /// The content recorded for `path`, if any.
    pub fn get(&self, path: &str) -> (content: Option<&Vec<u8>>)
        ensures
            match content {
                Some(bytes) => self@.contains_key(path@) && bytes@ == self@[path@],
                None => !self@.contains_key(path@),
            },
    {
        self.files.get(path)
    }
}

/// Predicate selecting the paths that `store` can read.
pub open spec fn is_readable(store: Map<Seq<char>, Seq<u8>>) -> spec_fn(Seq<char>) -> bool {
    |p: Seq<char>| store.contains_key(p)
}

/// What the quick stage sees of one bucket: each readable file with the
/// digest of its leading `sample_size` bytes.
pub open spec fn quick_entries(
    bucket: SizeBucketView,
    store: Map<Seq<char>, Seq<u8>>,
    sample_size: nat,
) -> Seq<HashedFileView> {
    bucket.files.filter(is_readable(store)).map_values(quick_entry(store, sample_size, bucket.size))
}

/// The quick-hashed entry of a path in a bucket of length `size`.
pub open spec fn quick_entry(store: Map<Seq<char>, Seq<u8>>, sample_size: nat, size: u64) -> spec_fn(
    Seq<char>,
) -> HashedFileView {
    |p: Seq<char>|
        HashedFileView { hash: content_digest(sample_of(store[p], sample_size)), path: p, size }
}

/// Predicate selecting the files that `store` can read.
pub open spec fn is_readable_file(store: Map<Seq<char>, Seq<u8>>) -> spec_fn(FileRefView) -> bool {
    |f: FileRefView| store.contains_key(f.path)
}

/// What the full stage makes of `files`: each readable file with the
/// digest of its whole content.
pub open spec fn full_entries(files: Seq<FileRefView>, store: Map<Seq<char>, Seq<u8>>) -> Seq<
    HashedFileView,
> {
    files.filter(is_readable_file(store)).map_values(full_entry(store))
}

/// The fully hashed entry of a file.
pub open spec fn full_entry(store: Map<Seq<char>, Seq<u8>>) -> spec_fn(FileRefView) -> HashedFileView {
    |f: FileRefView|
        HashedFileView { hash: content_digest(store[f.path]), path: f.path, size: f.size }
}

/// What one bucket contributes to the final merge: the full digests of the
/// files that the quick stage lets through. A bucket with fewer than two
/// files contributes nothing.
pub open spec fn bucket_entries(
    bucket: SizeBucketView,
    store: Map<Seq<char>, Seq<u8>>,
    sample_size: nat,
) -> Seq<HashedFileView> {
    if bucket.files.len() >= 2 {
        full_entries(shared_files(quick_entries(bucket, store, sample_size)), store)
    } else {
        Seq::empty()
    }
}

/// What all buckets contribute to the final merge, bucket after bucket.
pub open spec fn engine_entries(
    groups: Seq<SizeBucketView>,
    store: Map<Seq<char>, Seq<u8>>,
    sample_size: nat,
) -> Seq<HashedFileView>
    decreases groups.len(),
{
    if groups.len() == 0 {
        Seq::empty()
    } else {
        engine_entries(groups.drop_last(), store, sample_size) + bucket_entries(
            groups.last(),
            store,
            sample_size,
        )
    }
}

/// Digests the leading bytes of the readable files of one bucket.
fn quick_hash_bucket(bucket: &SizeBucket, store: &ContentStore, sample_size: usize) -> (entries:
    Vec<HashedFile>)
    ensures
        entries.deep_view() == quick_entries(bucket@, store@, sample_size as nat),
{
    let ghost paths = bucket.files.deep_view();
    let mut entries: Vec<HashedFile> = Vec::new();
    let mut i: usize = 0;
    proof {
        reveal(Seq::filter);
        assert(paths.take(0) =~= Seq::<Seq<char>>::empty());
        assert(entries.deep_view() =~= quick_entries(
            SizeBucketView { size: bucket.size, files: paths.take(0) },
            store@,
            sample_size as nat,
        ));
    }
    while i < bucket.files.len()
        invariant
            i <= bucket.files.len(),
            paths == bucket.files.deep_view(),
            entries.deep_view() == quick_entries(
                SizeBucketView { size: bucket.size, files: paths.take(i as int) },
                store@,
                sample_size as nat,
            ),
        decreases bucket.files.len() - i,
    {
        let path = &bucket.files[i];
        let ghost seen = paths.take(i as int);
        proof {
            assert(paths[i as int] == path@);
            assert(paths.take(i + 1) =~= seen.push(path@));
            seen.lemma_filter_push(path@, is_readable(store@));
        }
        match store.get(path.as_str()) {
            Some(content) => {
                let ghost before = entries.deep_view();
                let hash = quick_hash_file(content.as_slice(), sample_size);
                entries.push(HashedFile { hash, path: path.clone(), size: bucket.size });
                proof {
                    let added = HashedFileView {
                        hash: content_digest(sample_of(store@[path@], sample_size as nat)),
                        path: path@,
                        size: bucket.size,
                    };
                    assert(entries.deep_view() =~= before.push(added));
                    assert(quick_entries(
                        SizeBucketView { size: bucket.size, files: paths.take(i + 1) },
                        store@,
                        sample_size as nat,
                    ) =~= before.push(added));
                }
            },
            None => {},
        }
        i += 1;
    }
    proof {
        assert(paths.take(bucket.files.len() as int) =~= paths);
    }
    entries
}

/// Digests the whole content of the readable files among `files` and
/// appends the outcome to `entries`.
fn full_hash_files(
    files: &Vec<FileRef>,
    store: &ContentStore,
    progress: &ProgressCounter,
    entries: &mut Vec<HashedFile>,
)
    ensures
        final(entries).deep_view() == old(entries).deep_view() + full_entries(
            files.deep_view(),
            store@,
        ),
{
    let ghost input = files.deep_view();
    let ghost start = entries.deep_view();
    let mut i: usize = 0;
    proof {
        reveal(Seq::filter);
        assert(input.take(0) =~= Seq::<FileRefView>::empty());
        assert(entries.deep_view() =~= start + full_entries(input.take(0), store@));
    }
    while i < files.len()
        invariant
            i <= files.len(),
            input == files.deep_view(),
            entries.deep_view() == start + full_entries(input.take(i as int), store@),
        decreases files.len() - i,
    {
        let file = &files[i];
        let ghost seen = input.take(i as int);
        proof {
            assert(input[i as int] == file@);
            assert(input.take(i + 1) =~= seen.push(file@));
            seen.lemma_filter_push(file@, is_readable_file(store@));
        }
        match store.get(file.path.as_str()) {
            Some(content) => {
                let ghost before = entries.deep_view();
                let hash = full_hash_file(content.as_slice());
                progress.advance();
                entries.push(HashedFile { hash, path: file.path.clone(), size: file.size });
                proof {
                    let added = HashedFileView {
                        hash: content_digest(store@[file.path@]),
                        path: file.path@,
                        size: file.size,
                    };
                    assert(entries.deep_view() =~= before.push(added));
                    assert(full_entries(input.take(i + 1), store@) =~= full_entries(
                        seen,
                        store@,
                    ).push(added));
                    assert(start + full_entries(input.take(i + 1), store@) =~= before.push(added));
                }
            },
            None => {},
        }
        i += 1;
    }
    proof {
        assert(input.take(files.len() as int) =~= input);
    }
}

/// Runs one bucket through both stages and appends what it contributes
/// to `entries`.
fn hash_bucket(
    bucket: &SizeBucket,
    store: &ContentStore,
    quick_hash_size: usize,
    progress: &ProgressCounter,
    entries: &mut Vec<HashedFile>,
)
    ensures
        final(entries).deep_view() == old(entries).deep_view() + bucket_entries(
            bucket@,
            store@,
            quick_hash_size as nat,
        ),
{
    if bucket.files.len() >= 2 {
        let quick = quick_hash_bucket(bucket, store, quick_hash_size);
        let survivors = select_for_full_hash(quick.as_slice());
        full_hash_files(&survivors, store, progress, entries);
    } else {
        proof {
            assert(bucket@.files.len() == bucket.files.len());
            assert(entries.deep_view() + Seq::<HashedFileView>::empty() =~= entries.deep_view());
        }
    }
}

/// Runs the tiered hash engine over a snapshot of file contents, all
/// buckets through.
///
/// For each bucket with at least two files, the leading `quick_hash_size`
/// bytes of every readable file are digested, the files whose quick digest
/// no other file of the bucket shares are dropped, and the rest are
/// digested in full. The full digests of all buckets are then merged into
/// duplicate groups. A file that `store` does not hold is left out.
/// `progress` is advanced once for each file that is digested in full.
pub fn hash_buckets(
    groups: &[SizeBucket],
    store: &ContentStore,
    quick_hash_size: usize,
    progress: &ProgressCounter,
) -> (hashes: Vec<DuplicateGroup>)
    ensures
        hashes.deep_view() == duplicate_groups(
            engine_entries(groups.deep_view(), store@, quick_hash_size as nat),
        ),
        forall|i: int| 0 <= i < hashes.len() ==> (#[trigger] hashes[i]).files.len() >= 2,
{
    let ghost input = groups.deep_view();
    let mut entries: Vec<HashedFile> = Vec::new();
    let mut i: usize = 0;
    proof {
        assert(input.take(0) =~= Seq::<SizeBucketView>::empty());
        assert(entries.deep_view() =~= engine_entries(
            input.take(0),
            store@,
            quick_hash_size as nat,
        ));
    }
    while i < groups.len()
        invariant
            i <= groups.len(),
            input == groups.deep_view(),
            entries.deep_view() == engine_entries(
                input.take(i as int),
                store@,
                quick_hash_size as nat,
            ),
        decreases groups.len() - i,
    {
        proof {
            assert(input[i as int] == groups[i as int]@);
            assert(input.take(i + 1).drop_last() =~= input.take(i as int));
        }
        hash_bucket(&groups[i], store, quick_hash_size, progress, &mut entries);
        i += 1;
    }
    proof {
        assert(input.take(groups.len() as int) =~= input);
    }
    aggregate_duplicates(entries.as_slice())
}

/// Runs the tiered hash engine over a snapshot of file contents until it
/// is done or asked to stop.
///
/// The buckets are worked on in order, each as [`hash_buckets`] does.
/// Before each bucket the engine looks at `cancel`; once it sees the token
/// set it starts no further bucket. The result is that of the buckets
/// that were worked on: the groups of an uninterrupted run over exactly
/// these buckets.
pub fn compute_hashes(
    groups: &[SizeBucket],
    store: &ContentStore,
    quick_hash_size: usize,
    cancel: &CancelToken,
    progress: &ProgressCounter,
) -> (hashes: Vec<DuplicateGroup>)
    ensures
        exists|done: int|
            0 <= done <= groups.len() && hashes.deep_view() == duplicate_groups(
                #[trigger] engine_entries(
                    groups.deep_view().take(done),
                    store@,
                    quick_hash_size as nat,
                ),
            ),
        forall|i: int| 0 <= i < hashes.len() ==> (#[trigger] hashes[i]).files.len() >= 2,
{
    let ghost input = groups.deep_view();
    let mut entries: Vec<HashedFile> = Vec::new();
    let mut i: usize = 0;
    proof {
        assert(input.take(0) =~= Seq::<SizeBucketView>::empty());
        assert(entries.deep_view() =~= engine_entries(
            input.take(0),
            store@,
            quick_hash_size as nat,
        ));
    }
    while i < groups.len() && !cancel.is_cancelled()
        invariant
            i <= groups.len(),
            input == groups.deep_view(),
            entries.deep_view() == engine_entries(
                input.take(i as int),
                store@,
                quick_hash_size as nat,
            ),
        decreases groups.len() - i,
    {
        proof {
            assert(input[i as int] == groups[i as int]@);
            assert(input.take(i + 1).drop_last() =~= input.take(i as int));
        }
        hash_bucket(&groups[i], store, quick_hash_size, progress, &mut entries);
        i += 1;
    }
    aggregate_duplicates(entries.as_slice())
}

} // verus!
