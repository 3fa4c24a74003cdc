//! The order in which a map keeps its descriptors: real regions by start
//! address and then by page count, unused slots after every real region.

use vstd::prelude::*;
use crate::descriptor::RegionDescriptor;
use crate::seq_facts::{
    lemma_filter_all, lemma_filter_none, lemma_filter_same_elements, lemma_filter_twice,
};

verus! {

/// `a` may stand before `b`.
///
/// Anything may stand before an unused slot; an unused slot may stand before
/// nothing but another unused slot; real regions go by ascending start
/// address, and by ascending page count where the addresses are equal.
pub open spec fn precedes(a: RegionDescriptor, b: RegionDescriptor) -> bool {
    if b.page_count == 0 {
        true
    } else if a.page_count == 0 {
        false
    } else {
        a.phys_start < b.phys_start || (a.phys_start == b.phys_start && a.page_count
            <= b.page_count)
    }
}

/// Neither of `a` and `b` has to stand before the other: both are unused
/// slots, or both are real regions with the same start and page count.
pub open spec fn same_rank(a: RegionDescriptor, b: RegionDescriptor) -> bool {
    precedes(a, b) && precedes(b, a)
}

/// Every element may stand before every later one.
pub open spec fn ordered(s: Seq<RegionDescriptor>) -> bool {
    forall|i: int, j: int| 0 <= i < j < s.len() ==> precedes(#[trigger] s[i], #[trigger] s[j])
}

/// Every element starts no later than every later one, and covers no more
/// pages where the two start together.
pub open spec fn ascending(s: Seq<RegionDescriptor>) -> bool {
    forall|i: int, j: int|
        0 <= i < j < s.len() ==> {
            ||| (#[trigger] s[i]).phys_start < (#[trigger] s[j]).phys_start
            ||| (s[i].phys_start == s[j].phys_start && s[i].page_count <= s[j].page_count)
        }
}

/// The real regions of `s`, in the order in which they stand there.
pub open spec fn live(s: Seq<RegionDescriptor>) -> Seq<RegionDescriptor> {
    s.filter(|d: RegionDescriptor| d.page_count != 0)
}

/// The elements of `s` that rank with `k`, in the order in which they stand
/// there.
pub open spec fn ranked_with(s: Seq<RegionDescriptor>, k: RegionDescriptor) -> Seq<
    RegionDescriptor,
> {
    s.filter(|d: RegionDescriptor| same_rank(d, k))
}

/// Decides whether `a` may stand before `b`.
pub fn may_precede(a: &RegionDescriptor, b: &RegionDescriptor) -> (r: bool)
    ensures
        r == precedes(*a, *b),
{
    if b.page_count == 0 {
        true
    } else if a.page_count == 0 {
        false
    } else {
        a.phys_start < b.phys_start || (a.phys_start == b.phys_start && a.page_count
            <= b.page_count)
    }
}

/// `precedes` is a total preorder: any two descriptors are comparable, and
/// the relation is reflexive and transitive.
pub proof fn lemma_precedes_total_preorder(
    a: RegionDescriptor,
    b: RegionDescriptor,
    c: RegionDescriptor,
)
    ensures
        precedes(a, a),
        precedes(a, b) || precedes(b, a),
        precedes(a, b) && precedes(b, c) ==> precedes(a, c),
{
}

/// `after` holds the elements of `before` in order, those that rank alike in
/// the order in which they stood in `before`.
pub open spec fn is_stable_sort_of(after: Seq<RegionDescriptor>, before: Seq<RegionDescriptor>) -> bool {
    &&& ordered(after)
    &&& after.to_multiset() == before.to_multiset()
    &&& forall|k: RegionDescriptor| #[trigger] ranked_with(after, k) == ranked_with(before, k)
}

/// Two sequences in order whose elements of each rank are the same, in the
/// same order, are equal.
pub proof fn lemma_ordered_ranks_unique(a: Seq<RegionDescriptor>, b: Seq<RegionDescriptor>)
    requires
        ordered(a),
        ordered(b),
        a.len() == b.len(),
        forall|k: RegionDescriptor| #[trigger] ranked_with(a, k) == ranked_with(b, k),
    ensures
        a == b,
    decreases a.len(),
{
    if a.len() == 0 {
        assert(a =~= b);
    } else {
        let x = a.last();
        let y = b.last();
        let a0 = a.drop_last();
        let b0 = b.drop_last();
        assert(a0.push(x) =~= a);
        assert(b0.push(y) =~= b);
        assert forall|k: RegionDescriptor|
            #[trigger] ranked_with(a, k) == (if same_rank(x, k) {
                ranked_with(a0, k).push(x)
            } else {
                ranked_with(a0, k)
            }) && ranked_with(b, k) == (if same_rank(y, k) {
                ranked_with(b0, k).push(y)
            } else {
                ranked_with(b0, k)
            }) by {
            a0.lemma_filter_push(x, |d: RegionDescriptor| same_rank(d, k));
            b0.lemma_filter_push(y, |d: RegionDescriptor| same_rank(d, k));
        }
        // The last element of each sequence occurs in the other one.
        assert(ranked_with(b, x) == ranked_with(a, x));
        assert(ranked_with(a, x).last() == x);
        assert(ranked_with(b, x).contains(x)) by {
            assert(ranked_with(b, x)[ranked_with(b, x).len() - 1] == x);
        }
        b.lemma_filter_contains_rev(|d: RegionDescriptor| same_rank(d, x), x);
        assert(precedes(x, y)) by {
            let i = choose|i: int| 0 <= i < b.len() && b[i] == x;
            if i < b.len() - 1 {
                assert(precedes(b[i], b[b.len() - 1]));
            }
        }
        assert(ranked_with(a, y) == ranked_with(b, y));
        assert(ranked_with(b, y).last() == y);
        assert(ranked_with(a, y).contains(y)) by {
            assert(ranked_with(a, y)[ranked_with(a, y).len() - 1] == y);
        }
        a.lemma_filter_contains_rev(|d: RegionDescriptor| same_rank(d, y), y);
        assert(precedes(y, x)) by {
            let i = choose|i: int| 0 <= i < a.len() && a[i] == y;
            if i < a.len() - 1 {
                assert(precedes(a[i], a[a.len() - 1]));
            }
        }
        // They rank alike, and each is the last of its rank: they are equal.
        assert(same_rank(y, x));
        assert(ranked_with(b, x).last() == y);
        assert(x == y);
        assert forall|k: RegionDescriptor| #[trigger]
            ranked_with(a0, k) == ranked_with(b0, k) by {
            assert(ranked_with(a, k) == ranked_with(b, k));
            if same_rank(x, k) {
                assert(ranked_with(a0, k) =~= ranked_with(a, k).drop_last());
                assert(ranked_with(b0, k) =~= ranked_with(b, k).drop_last());
            }
        }
        lemma_ordered_ranks_unique(a0, b0);
    }
}

/// A sequence has one stable sort and no more.
pub proof fn lemma_stable_sort_unique(
    a: Seq<RegionDescriptor>,
    b: Seq<RegionDescriptor>,
    s: Seq<RegionDescriptor>,
)
    requires
        is_stable_sort_of(a, s),
        is_stable_sort_of(b, s),
    ensures
        a == b,
{
    broadcast use vstd::seq_lib::to_multiset_len;

    assert(a.len() == a.to_multiset().len());
    assert(b.len() == b.to_multiset().len());
    assert forall|k: RegionDescriptor| #[trigger] ranked_with(a, k) == ranked_with(b, k) by {
        assert(ranked_with(a, k) == ranked_with(s, k));
        assert(ranked_with(b, k) == ranked_with(s, k));
    }
    lemma_ordered_ranks_unique(a, b);
}

/// Where the real regions of a sequence in order end at `n`, the first `n`
/// elements are its real regions.
pub proof fn lemma_live_prefix(s: Seq<RegionDescriptor>, n: int)
    requires
        0 <= n <= s.len(),
        forall|i: int| 0 <= i < n ==> (#[trigger] s[i]).page_count != 0,
        forall|i: int| n <= i < s.len() ==> (#[trigger] s[i]).page_count == 0,
    ensures
        live(s) == s.take(n),
{
    let p = |d: RegionDescriptor| d.page_count != 0;
    assert(s =~= s.take(n) + s.skip(n));
    Seq::filter_distributes_over_add(s.take(n), s.skip(n), p);
    lemma_filter_all(s.take(n), p);
    lemma_filter_none(s.skip(n), p);
    assert(s.take(n) + Seq::<RegionDescriptor>::empty() =~= s.take(n));
}

/// The real regions at the head of a stable sort are the stable sort of the
/// real regions.
pub proof fn lemma_live_prefix_of_sort(
    after: Seq<RegionDescriptor>,
    before: Seq<RegionDescriptor>,
    n: int,
)
    requires
        is_stable_sort_of(after, before),
        0 <= n <= after.len(),
        forall|i: int| 0 <= i < n ==> (#[trigger] after[i]).page_count != 0,
        forall|i: int| n <= i < after.len() ==> (#[trigger] after[i]).page_count == 0,
    ensures
        is_stable_sort_of(after.take(n), live(before)),
{
    let p = |d: RegionDescriptor| d.page_count != 0;
    lemma_live_prefix(after, n);
    assert(ordered(after.take(n))) by {
        assert forall|i: int, j: int| 0 <= i < j < after.take(n).len() implies precedes(
            #[trigger] after.take(n)[i],
            #[trigger] after.take(n)[j],
        ) by {
            assert(precedes(after[i], after[j]));
        }
    }
    lemma_filter_same_elements(after, before, p);
    assert forall|k: RegionDescriptor| #[trigger]
        ranked_with(live(after), k) == ranked_with(live(before), k) by {
        let q = |d: RegionDescriptor| same_rank(d, k);
        assert(ranked_with(after, k) == ranked_with(before, k));
        if k.page_count != 0 {
            lemma_filter_twice(after, p, q);
            lemma_filter_twice(before, p, q);
        } else {
            assert forall|i: int| 0 <= i < live(after).len() implies !q(
                #[trigger] live(after)[i],
            ) by {
                after.lemma_filter_pred(p, i);
            }
            assert forall|i: int| 0 <= i < live(before).len() implies !q(
                #[trigger] live(before)[i],
            ) by {
                before.lemma_filter_pred(p, i);
            }
            lemma_filter_none(live(after), q);
            lemma_filter_none(live(before), q);
        }
    }
}

/// The head of a sequence in order is in order.
pub proof fn lemma_ordered_prefix(s: Seq<RegionDescriptor>, n: int)
    requires
        ordered(s),
        0 <= n <= s.len(),
    ensures
        ordered(s.take(n)),
{
    assert forall|i: int, j: int| 0 <= i < j < s.take(n).len() implies precedes(
        #[trigger] s.take(n)[i],
        #[trigger] s.take(n)[j],
    ) by {
        assert(precedes(s[i], s[j]));
    }
}

/// Number of elements of `s` that may stand before `d`: the place that a
/// stable sort gives `d` when it follows the elements of `s`.
pub open spec fn insertion_point(s: Seq<RegionDescriptor>, d: RegionDescriptor) -> int {
    s.filter(|e: RegionDescriptor| precedes(e, d)).len() as int
}

/// In a sequence in order, the elements that may stand before `d` are the
/// ones before its insertion point.
pub proof fn lemma_insertion_point(s: Seq<RegionDescriptor>, d: RegionDescriptor)
    requires
        ordered(s),
    ensures
        0 <= insertion_point(s, d) <= s.len(),
        forall|i: int| 0 <= i < insertion_point(s, d) ==> precedes(#[trigger] s[i], d),
        forall|i: int| insertion_point(s, d) <= i < s.len() ==> !precedes(#[trigger] s[i], d),
    decreases s.len(),
{
    let p = |e: RegionDescriptor| precedes(e, d);
    if s.len() == 0 {
        lemma_filter_none(s, p);
    } else {
        let rest = s.drop_last();
        assert(rest.push(s.last()) =~= s);
        rest.lemma_filter_push(s.last(), p);
        if precedes(s.last(), d) {
            assert forall|i: int| 0 <= i < s.len() implies p(#[trigger] s[i]) by {
                if i < s.len() - 1 {
                    assert(precedes(s[i], s[s.len() - 1]));
                }
            }
            lemma_filter_all(s, p);
        } else {
            assert(ordered(rest)) by {
                assert forall|i: int, j: int| 0 <= i < j < rest.len() implies precedes(
                    #[trigger] rest[i],
                    #[trigger] rest[j],
                ) by {
                    assert(precedes(s[i], s[j]));
                }
            }
            lemma_insertion_point(rest, d);
            assert forall|i: int| 0 <= i < insertion_point(s, d) implies precedes(
                #[trigger] s[i],
                d,
            ) by {
                assert(s[i] == rest[i]);
            }
            assert forall|i: int| insertion_point(s, d) <= i < s.len() implies !precedes(
                #[trigger] s[i],
                d,
            ) by {
                if i < s.len() - 1 {
                    assert(s[i] == rest[i]);
                }
            }
        }
    }
}

/// Putting `d` into a sequence in order at its insertion point gives the
/// stable sort of the sequence followed by `d`.
pub proof fn lemma_insert_is_stable_sort(s: Seq<RegionDescriptor>, d: RegionDescriptor)
    requires
        ordered(s),
    ensures
        is_stable_sort_of(s.insert(insertion_point(s, d), d), s.push(d)),
{
    broadcast use vstd::seq_lib::group_to_multiset_ensures;

    let n = insertion_point(s, d);
    let placed = s.insert(n, d);
    lemma_insertion_point(s, d);
    assert(ordered(placed)) by {
        assert forall|i: int, j: int| 0 <= i < j < placed.len() implies precedes(
            #[trigger] placed[i],
            #[trigger] placed[j],
        ) by {
            if j < n {
                assert(precedes(s[i], s[j]));
            } else if j == n {
                assert(precedes(s[i], d));
            } else if i < n {
                assert(precedes(s[i], s[j - 1]));
            } else if i == n {
                assert(!precedes(s[j - 1], d));
            } else {
                assert(precedes(s[i - 1], s[j - 1]));
            }
        }
    }
    assert(placed.to_multiset() == s.push(d).to_multiset());
    assert forall|k: RegionDescriptor| #[trigger]
        ranked_with(placed, k) == ranked_with(s.push(d), k) by {
        let q = |e: RegionDescriptor| same_rank(e, k);
        let head = s.take(n);
        let tail = s.skip(n);
        assert(placed =~= head.push(d) + tail);
        assert(s.push(d) =~= (head + tail).push(d));
        Seq::filter_distributes_over_add(head.push(d), tail, q);
        Seq::filter_distributes_over_add(head, tail, q);
        head.lemma_filter_push(d, q);
        (head + tail).lemma_filter_push(d, q);
        if same_rank(d, k) {
            assert forall|i: int| 0 <= i < tail.len() implies !q(#[trigger] tail[i]) by {
                assert(!precedes(s[n + i], d));
            }
            lemma_filter_none(tail, q);
            assert(head.filter(q).push(d) + Seq::<RegionDescriptor>::empty() =~= head.filter(
                q,
            ).push(d));
            assert(head.filter(q) + Seq::<RegionDescriptor>::empty() =~= head.filter(q));
        }
    }
}

/// The stable sort of a sequence in order followed by `d` is the sequence
/// with `d` put in at its insertion point.
pub proof fn lemma_sort_of_pushed(
    after: Seq<RegionDescriptor>,
    s: Seq<RegionDescriptor>,
    d: RegionDescriptor,
)
    requires
        ordered(s),
        is_stable_sort_of(after, s.push(d)),
    ensures
        after == s.insert(insertion_point(s, d), d),
{
    lemma_insert_is_stable_sort(s, d);
    lemma_stable_sort_unique(after, s.insert(insertion_point(s, d), d), s.push(d));
}

/// The stable sort of a sequence in order is the sequence itself.
pub proof fn lemma_sort_of_ordered(after: Seq<RegionDescriptor>, s: Seq<RegionDescriptor>)
    requires
        ordered(s),
        is_stable_sort_of(after, s),
    ensures
        after == s,
{
    lemma_stable_sort_unique(after, s, s);
}

/// Sorting, appending `d` and sorting again gives the stable sort of the
/// first sequence followed by `d`.
pub proof fn lemma_sort_extends(
    after: Seq<RegionDescriptor>,
    sorted: Seq<RegionDescriptor>,
    s: Seq<RegionDescriptor>,
    d: RegionDescriptor,
)
    requires
        is_stable_sort_of(sorted, s),
        is_stable_sort_of(after, sorted.push(d)),
    ensures
        is_stable_sort_of(after, s.push(d)),
{
    assert(after.to_multiset() == s.push(d).to_multiset()) by {
        vstd::seq_lib::to_multiset_build(sorted, d);
        vstd::seq_lib::to_multiset_build(s, d);
    }
    assert forall|k: RegionDescriptor| #[trigger]
        ranked_with(after, k) == ranked_with(s.push(d), k) by {
        let q = |e: RegionDescriptor| same_rank(e, k);
        assert(ranked_with(after, k) == ranked_with(sorted.push(d), k));
        assert(ranked_with(sorted, k) == ranked_with(s, k));
        sorted.lemma_filter_push(d, q);
        s.lemma_filter_push(d, q);
    }
}

} // verus!
