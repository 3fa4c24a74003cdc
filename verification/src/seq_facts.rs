//! Facts about filtered sequences and their multisets.

use vstd::prelude::*;

verus! {

/// A filter that no element passes leaves nothing.
pub proof fn lemma_filter_none<A>(s: Seq<A>, p: spec_fn(A) -> bool)
    requires
        forall|i: int| 0 <= i < s.len() ==> !p(#[trigger] s[i]),
    ensures
        s.filter(p) == Seq::<A>::empty(),
    decreases s.len(),
{
    reveal(Seq::filter);
    if s.len() > 0 {
        lemma_filter_none(s.drop_last(), p);
    }
}

/// A filter that every element passes changes nothing.
pub proof fn lemma_filter_all<A>(s: Seq<A>, p: spec_fn(A) -> bool)
    requires
        forall|i: int| 0 <= i < s.len() ==> p(#[trigger] s[i]),
    ensures
        s.filter(p) == s,
    decreases s.len(),
{
    reveal(Seq::filter);
    if s.len() > 0 {
        lemma_filter_all(s.drop_last(), p);
        assert(s.drop_last().push(s.last()) =~= s);
    }
}

/// A value occurs in the filtered sequence as often as in the sequence
/// itself if it passes the filter, and not at all if it does not.
pub proof fn lemma_filter_count<A>(s: Seq<A>, p: spec_fn(A) -> bool, v: A)
    ensures
        s.filter(p).to_multiset().count(v) == if p(v) {
            s.to_multiset().count(v)
        } else {
            0
        },
    decreases s.len(),
{
    broadcast use vstd::seq_lib::group_to_multiset_ensures;

    reveal(Seq::filter);
    if s.len() == 0 {
        assert(s.to_multiset().count(v) == 0) by {
            if s.to_multiset().count(v) > 0 {
                assert(s.contains(v));
            }
        }
    } else {
        let rest = s.drop_last();
        lemma_filter_count(rest, p, v);
        assert(rest.push(s.last()) =~= s);
        assert(s.to_multiset() == rest.to_multiset().insert(s.last()));
    }
}

/// Two sequences with the same elements have the same elements after a
/// filter.
pub proof fn lemma_filter_same_elements<A>(a: Seq<A>, b: Seq<A>, p: spec_fn(A) -> bool)
    requires
        a.to_multiset() == b.to_multiset(),
    ensures
        a.filter(p).to_multiset() == b.filter(p).to_multiset(),
{
    assert forall|v: A| a.filter(p).to_multiset().count(v) == b.filter(p).to_multiset().count(
        v,
    ) by {
        lemma_filter_count(a, p, v);
        lemma_filter_count(b, p, v);
    }
    assert(a.filter(p).to_multiset() =~= b.filter(p).to_multiset());
}

/// Exchanging two neighbours of which at most one passes the filter leaves
/// the filtered sequence as it was.
pub proof fn lemma_filter_swap_adjacent<A>(s: Seq<A>, i: int, p: spec_fn(A) -> bool)
    requires
        0 <= i,
        i + 1 < s.len(),
        !(p(s[i]) && p(s[i + 1])),
    ensures
        s.update(i, s[i + 1]).update(i + 1, s[i]).filter(p) == s.filter(p),
{
    let swapped = s.update(i, s[i + 1]).update(i + 1, s[i]);
    let head = s.take(i);
    let tail = s.skip(i + 2);
    let none = Seq::<A>::empty();
    assert(s =~= head.push(s[i]).push(s[i + 1]) + tail);
    assert(swapped =~= head.push(s[i + 1]).push(s[i]) + tail);
    head.lemma_filter_push(s[i], p);
    head.push(s[i]).lemma_filter_push(s[i + 1], p);
    head.lemma_filter_push(s[i + 1], p);
    head.push(s[i + 1]).lemma_filter_push(s[i], p);
    Seq::filter_distributes_over_add(head.push(s[i]).push(s[i + 1]), tail, p);
    Seq::filter_distributes_over_add(head.push(s[i + 1]).push(s[i]), tail, p);
}

/// Filtering by `q` and then by `p` is filtering by `p` alone where nothing
/// passes `p` without passing `q`.
pub proof fn lemma_filter_twice<A>(s: Seq<A>, q: spec_fn(A) -> bool, p: spec_fn(A) -> bool)
    requires
        forall|i: int| 0 <= i < s.len() && p(#[trigger] s[i]) ==> q(s[i]),
    ensures
        s.filter(q).filter(p) == s.filter(p),
    decreases s.len(),
{
    reveal(Seq::filter);
    if s.len() > 0 {
        let rest = s.drop_last();
        lemma_filter_twice(rest, q, p);
        if q(s.last()) {
            rest.filter(q).lemma_filter_push(s.last(), p);
        }
    }
}

} // verus!
