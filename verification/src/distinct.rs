//! The distinct values of a sequence, in the order of their first
//! occurrence.

use vstd::prelude::*;

verus! {

/// The values of `keys` without repetition: each value stands where it
/// first occurs.
pub open spec fn distinct_in_order<K>(keys: Seq<K>) -> Seq<K>
    decreases keys.len(),
{
    if keys.len() == 0 {
        Seq::empty()
    } else {
        let earlier = distinct_in_order(keys.drop_last());
        if earlier.contains(keys.last()) {
            earlier
        } else {
            earlier.push(keys.last())
        }
    }
}

/// One more key at the end is appended if it is new, and changes nothing
/// if it is not.
pub proof fn lemma_distinct_push<K>(keys: Seq<K>, key: K)
    ensures
        distinct_in_order(keys.push(key)) == if distinct_in_order(keys).contains(key) {
            distinct_in_order(keys)
        } else {
            distinct_in_order(keys).push(key)
        },
{
    assert(keys.push(key).drop_last() =~= keys);
}

/// The distinct values are the values that occur.
pub proof fn lemma_distinct_contains<K>(keys: Seq<K>, key: K)
    ensures
        distinct_in_order(keys).contains(key) <==> keys.contains(key),
    decreases keys.len(),
{
    if keys.len() > 0 {
        let rest = keys.drop_last();
        lemma_distinct_contains(rest, key);
        lemma_distinct_contains(rest, keys.last());
        assert(keys =~= rest.push(keys.last()));
        vstd::seq_lib::lemma_seq_contains_after_push(rest, keys.last(), key);
        vstd::seq_lib::lemma_seq_contains_after_push(
            distinct_in_order(rest),
            keys.last(),
            key,
        );
    }
}

/// No value stands twice among the distinct values.
pub proof fn lemma_distinct_no_duplicates<K>(keys: Seq<K>)
    ensures
        distinct_in_order(keys).no_duplicates(),
    decreases keys.len(),
{
    if keys.len() > 0 {
        lemma_distinct_no_duplicates(keys.drop_last());
    }
}

/// A sequence that holds no value twice is its own sequence of distinct
/// values.
pub proof fn lemma_distinct_of_no_duplicates<K>(keys: Seq<K>)
    requires
        keys.no_duplicates(),
    ensures
        distinct_in_order(keys) == keys,
    decreases keys.len(),
{
    if keys.len() > 0 {
        let rest = keys.drop_last();
        lemma_distinct_of_no_duplicates(rest);
        if rest.contains(keys.last()) {
            let i = choose|i: int| 0 <= i < rest.len() && rest[i] == keys.last();
            assert(keys[i] == keys[keys.len() - 1]);
        }
        assert(keys =~= rest.push(keys.last()));
    }
}

/// Distinct values that were made distinct before the end was appended
/// are the distinct values of the whole.
pub proof fn lemma_distinct_concat_left<K>(a: Seq<K>, b: Seq<K>)
    ensures
        distinct_in_order(distinct_in_order(a) + b) == distinct_in_order(a + b),
    decreases b.len(),
{
    if b.len() == 0 {
        assert(distinct_in_order(a) + b =~= distinct_in_order(a));
        assert(a + b =~= a);
        lemma_distinct_no_duplicates(a);
        lemma_distinct_of_no_duplicates(distinct_in_order(a));
    } else {
        let rest = b.drop_last();
        lemma_distinct_concat_left(a, rest);
        assert((distinct_in_order(a) + b).drop_last() =~= distinct_in_order(a) + rest);
        assert((a + b).drop_last() =~= a + rest);
    }
}

/// Appending the distinct values of the end gives the distinct values of
/// the whole.
pub proof fn lemma_distinct_concat_right<K>(a: Seq<K>, b: Seq<K>)
    ensures
        distinct_in_order(a + distinct_in_order(b)) == distinct_in_order(a + b),
    decreases b.len(),
{
    if b.len() == 0 {
        assert(a + distinct_in_order(b) =~= a + b);
    } else {
        let rest = b.drop_last();
        let x = b.last();
        lemma_distinct_concat_right(a, rest);
        assert((a + b).drop_last() =~= a + rest);
        lemma_distinct_contains(rest, x);
        lemma_distinct_contains(a + rest, x);
        lemma_distinct_contains(a + distinct_in_order(rest), x);
        lemma_concat_contains(a, rest, x);
        lemma_concat_contains(a, distinct_in_order(rest), x);
        if !distinct_in_order(rest).contains(x) {
            assert(a + distinct_in_order(b) =~= (a + distinct_in_order(rest)).push(x));
            lemma_distinct_push(a + distinct_in_order(rest), x);
        }
    }
}

/// A concatenation holds what either of its halves holds.
pub proof fn lemma_concat_contains<K>(a: Seq<K>, b: Seq<K>, x: K)
    ensures
        (a + b).contains(x) <==> a.contains(x) || b.contains(x),
{
    if a.contains(x) {
        let i = choose|i: int| 0 <= i < a.len() && a[i] == x;
        assert((a + b)[i] == x);
    }
    if b.contains(x) {
        let i = choose|i: int| 0 <= i < b.len() && b[i] == x;
        assert((a + b)[a.len() + i] == x);
    }
    if (a + b).contains(x) {
        let i = choose|i: int| 0 <= i < (a + b).len() && (a + b)[i] == x;
        if i < a.len() {
            assert(a[i] == x);
        } else {
            assert(b[i - a.len()] == x);
        }
    }
}

/// Filtering keeps the order: two places of the filtered sequence come from
/// two places of the source in the same order.
pub proof fn lemma_filter_ascends<A>(s: Seq<A>, pred: spec_fn(A) -> bool, i: int, j: int)
    requires
        0 <= i < j < s.filter(pred).len(),
    ensures
        exists|a: int, b: int|
            0 <= a < b < s.len() && s[a] == s.filter(pred)[i] && s[b] == s.filter(pred)[j],
    decreases s.len(),
{
    reveal(Seq::filter);
    if s.len() > 0 {
        let rest = s.drop_last();
        let sub = rest.filter(pred);
        if pred(s.last()) && j == sub.len() {
            rest.lemma_filter_contains_rev(pred, sub[i]);
            let a = choose|a: int| 0 <= a < rest.len() && rest[a] == sub[i];
            assert(s[a] == s.filter(pred)[i] && s[s.len() - 1] == s.filter(pred)[j]);
        } else {
            lemma_filter_ascends(rest, pred, i, j);
            let (a, b) = choose|a: int, b: int|
                0 <= a < b < rest.len() && rest[a] == sub[i] && rest[b] == sub[j];
            assert(s[a] == s.filter(pred)[i] && s[b] == s.filter(pred)[j]);
        }
    }
}

/// Every item of a filtered and mapped sequence is the image of an item of
/// the source that passes the filter.
pub proof fn lemma_filter_map_source<A, B>(
    s: Seq<A>,
    pred: spec_fn(A) -> bool,
    f: spec_fn(A) -> B,
    i: int,
) -> (m: int)
    requires
        0 <= i < s.filter(pred).map_values(f).len(),
    ensures
        0 <= m < s.len(),
        pred(s[m]),
        s[m] == s.filter(pred)[i],
        f(s[m]) == s.filter(pred).map_values(f)[i],
{
    s.lemma_filter_pred(pred, i);
    s.lemma_filter_contains_rev(pred, s.filter(pred)[i]);
    choose|m: int| 0 <= m < s.len() && s[m] == s.filter(pred)[i]
}

/// Filtering keeps two items that pass, in their order.
pub proof fn lemma_filter_keeps_pair<A>(s: Seq<A>, pred: spec_fn(A) -> bool, i: int, j: int) -> (kept:
    (int, int))
    requires
        0 <= i < j < s.len(),
        pred(s[i]),
        pred(s[j]),
    ensures
        0 <= kept.0 < kept.1 < s.filter(pred).len(),
        s.filter(pred)[kept.0] == s[i],
        s.filter(pred)[kept.1] == s[j],
    decreases s.len(),
{
    reveal(Seq::filter);
    let rest = s.drop_last();
    let sub = rest.filter(pred);
    if j == s.len() - 1 {
        rest.lemma_filter_contains(pred, i);
        let a = choose|a: int| 0 <= a < sub.len() && sub[a] == rest[i];
        (a, sub.len() as int)
    } else {
        lemma_filter_keeps_pair(rest, pred, i, j)
    }
}

} // verus!
