//! Inclusion of one collection in another, whatever the order of their
//! items: the relation between what an interrupted stage has seen and what
//! the whole stage would see.

use vstd::multiset::group_multiset_axioms;
use vstd::prelude::*;
use vstd::seq_lib::group_to_multiset_ensures;

verus! {

/// `part` holds no value more often than `whole` does.
pub open spec fn is_part_of<A>(part: Seq<A>, whole: Seq<A>) -> bool {
    part.to_multiset().subset_of(whole.to_multiset())
}

/// Every collection is part of itself.
pub proof fn lemma_part_reflexive<A>(s: Seq<A>)
    ensures
        is_part_of(s, s),
{
}

/// The empty collection is part of every collection.
pub proof fn lemma_empty_is_part<A>(whole: Seq<A>)
    ensures
        is_part_of(Seq::<A>::empty(), whole),
{
    broadcast use group_multiset_axioms, group_to_multiset_ensures;

}

/// A part of a part is a part.
pub proof fn lemma_part_transitive<A>(a: Seq<A>, b: Seq<A>, c: Seq<A>)
    requires
        is_part_of(a, b),
        is_part_of(b, c),
    ensures
        is_part_of(a, c),
{
    assert forall|v: A| a.to_multiset().count(v) <= c.to_multiset().count(v) by {
        assert(a.to_multiset().count(v) <= b.to_multiset().count(v));
        assert(b.to_multiset().count(v) <= c.to_multiset().count(v));
    }
}

/// The first `n` items of a collection are part of it.
pub proof fn lemma_prefix_is_part<A>(s: Seq<A>, n: int)
    requires
        0 <= n <= s.len(),
    ensures
        is_part_of(s.take(n), s),
    decreases s.len() - n,
{
    broadcast use group_multiset_axioms, group_to_multiset_ensures;

    if n < s.len() {
        lemma_prefix_is_part(s, n + 1);
        assert(s.take(n + 1) =~= s.take(n).push(s[n]));
        lemma_part_transitive(s.take(n), s.take(n + 1), s);
    } else {
        assert(s.take(n) =~= s);
    }
}

/// If a collection with one more item `x` is part of `whole`, then `x`
/// stands somewhere in `whole`, and the collection is part of `whole`
/// without that place.
pub proof fn lemma_part_split<A>(part: Seq<A>, x: A, whole: Seq<A>) -> (i: int)
    requires
        is_part_of(part.push(x), whole),
    ensures
        0 <= i < whole.len(),
        whole[i] == x,
        is_part_of(part, whole.remove(i)),
{
    broadcast use group_multiset_axioms, group_to_multiset_ensures;

    assert(part.push(x).to_multiset().count(x) <= whole.to_multiset().count(x));
    assert(whole.contains(x));
    let i = choose|i: int| 0 <= i < whole.len() && whole[i] == x;
    assert forall|v: A| part.to_multiset().count(v) <= whole.remove(i).to_multiset().count(v) by {
        assert(part.push(x).to_multiset().count(v) <= whole.to_multiset().count(v));
    }
    i
}

/// A part is no longer than the whole.
pub proof fn lemma_part_len<A>(part: Seq<A>, whole: Seq<A>)
    requires
        is_part_of(part, whole),
    ensures
        part.len() <= whole.len(),
    decreases part.len(),
{
    if part.len() > 0 {
        let rest = part.drop_last();
        assert(part =~= rest.push(part.last()));
        let i = lemma_part_split(rest, part.last(), whole);
        lemma_part_len(rest, whole.remove(i));
    }
}

/// What a part holds, the whole holds.
pub proof fn lemma_part_contains<A>(part: Seq<A>, whole: Seq<A>, x: A)
    requires
        is_part_of(part, whole),
        part.contains(x),
    ensures
        whole.contains(x),
{
    broadcast use group_multiset_axioms, group_to_multiset_ensures;

    assert(part.to_multiset().count(x) <= whole.to_multiset().count(x));
}

/// Filtering keeps the copies of the values that pass, and none of the
/// others.
pub proof fn lemma_filter_count<A>(s: Seq<A>, pred: spec_fn(A) -> bool, x: A)
    ensures
        s.filter(pred).to_multiset().count(x) == if pred(x) {
            s.to_multiset().count(x)
        } else {
            0
        },
    decreases s.len(),
{
    broadcast use group_multiset_axioms, group_to_multiset_ensures;

    if s.len() == 0 {
        reveal(Seq::filter);
        assert(s.filter(pred) =~= Seq::<A>::empty());
        assert(s =~= Seq::<A>::empty());
    } else {
        let rest = s.drop_last();
        assert(s =~= rest.push(s.last()));
        lemma_filter_count(rest, pred, x);
        rest.lemma_filter_push(s.last(), pred);
    }
}

/// Filtering a part, by a condition no weaker than the one on the whole,
/// gives a part of the filtered whole.
pub proof fn lemma_part_filter<A>(
    part: Seq<A>,
    whole: Seq<A>,
    narrow: spec_fn(A) -> bool,
    wide: spec_fn(A) -> bool,
)
    requires
        is_part_of(part, whole),
        forall|x: A| part.contains(x) && #[trigger] narrow(x) ==> wide(x),
    ensures
        is_part_of(part.filter(narrow), whole.filter(wide)),
{
    broadcast use group_multiset_axioms, group_to_multiset_ensures;

    assert forall|v: A|
        part.filter(narrow).to_multiset().count(v) <= whole.filter(wide).to_multiset().count(
            v,
        ) by {
        lemma_filter_count(part, narrow, v);
        lemma_filter_count(whole, wide, v);
        assert(part.to_multiset().count(v) <= whole.to_multiset().count(v));
        if narrow(v) && part.to_multiset().count(v) > 0 {
            assert(part.contains(v));
        }
    }
}

/// Mapping a part gives a part of the mapped whole.
pub proof fn lemma_part_map<A, B>(part: Seq<A>, whole: Seq<A>, f: spec_fn(A) -> B)
    requires
        is_part_of(part, whole),
    ensures
        is_part_of(part.map_values(f), whole.map_values(f)),
    decreases part.len(),
{
    broadcast use group_multiset_axioms, group_to_multiset_ensures;

    if part.len() == 0 {
        assert(part.map_values(f) =~= Seq::<B>::empty());
    } else {
        let rest = part.drop_last();
        let x = part.last();
        assert(part =~= rest.push(x));
        let i = lemma_part_split(rest, x, whole);
        lemma_part_map(rest, whole.remove(i), f);
        assert(part.map_values(f) =~= rest.map_values(f).push(f(x)));
        assert(whole.remove(i).map_values(f) =~= whole.map_values(f).remove(i));
        assert(whole.map_values(f)[i] == f(x));
        assert forall|v: B|
            part.map_values(f).to_multiset().count(v) <= whole.map_values(f).to_multiset().count(
                v,
            ) by {
            assert(rest.map_values(f).to_multiset().count(v) <= whole.remove(i).map_values(
                f,
            ).to_multiset().count(v));
        }
    }
}

/// Both halves of a concatenation being parts, the concatenation is part
/// of the concatenated wholes.
pub proof fn lemma_part_concat<A>(a: Seq<A>, b: Seq<A>, c: Seq<A>, d: Seq<A>)
    requires
        is_part_of(a, c),
        is_part_of(b, d),
    ensures
        is_part_of(a + b, c + d),
{
    broadcast use group_multiset_axioms;

    vstd::seq_lib::lemma_multiset_commutative(a, b);
    vstd::seq_lib::lemma_multiset_commutative(c, d);
    assert forall|v: A| (a + b).to_multiset().count(v) <= (c + d).to_multiset().count(v) by {
        assert(a.to_multiset().count(v) <= c.to_multiset().count(v));
        assert(b.to_multiset().count(v) <= d.to_multiset().count(v));
    }
}

} // verus!
