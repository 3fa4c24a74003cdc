//! What holds of a map over several operations: that a sort or an append
//! has one outcome, that a second sort changes nothing, and what a run of
//! appends to an empty map leads to.

use vstd::prelude::*;
use crate::descriptor::RegionDescriptor;
use crate::order::{ascending, is_stable_sort_of, lemma_sort_extends, lemma_stable_sort_unique, live};
use crate::region_map::{MemoryMap, CAPACITY};
use crate::seq_facts::lemma_filter_all;

verus! {

/// A sort has one outcome: two maps that are each what `sort` makes of
/// `before` are equal, slot for slot.
pub proof fn lemma_sort_determined(first: MemoryMap, second: MemoryMap, before: MemoryMap)
    requires
        first.is_sort_of(before),
        second.is_sort_of(before),
    ensures
        first == second,
{
    lemma_stable_sort_unique(first.storage(), second.storage(), before.storage());
    first.lemma_ordered_same_storage(second);
}

/// An append has one outcome: two maps that are each what `add_region`
/// makes of `before` and `region` are equal, slot for slot.
pub proof fn lemma_append_determined(
    first: MemoryMap,
    second: MemoryMap,
    before: MemoryMap,
    region: RegionDescriptor,
)
    requires
        first.is_append_of(before, region),
        second.is_append_of(before, region),
    ensures
        first == second,
{
    lemma_stable_sort_unique(
        first.storage(),
        second.storage(),
        before.storage().update(before.count() as int, region),
    );
    first.lemma_ordered_same_storage(second);
}

/// Sorting twice in a row gives what sorting once gave: the same slots, the
/// same count and so the same visible regions.
pub proof fn lemma_sort_idempotent(before: MemoryMap, once: MemoryMap, twice: MemoryMap)
    requires
        once.is_sort_of(before),
        twice.is_sort_of(once),
    ensures
        twice == once,
        twice@ == once@,
{
    twice.lemma_sort_keeps_ordered(once);
}

/// `states` are the maps that a run of appends goes through: the first is
/// empty, and each further one is what `add_region` makes of the one before
/// it and the region of that step.
pub open spec fn is_append_run(states: Seq<MemoryMap>, regions: Seq<RegionDescriptor>) -> bool {
    &&& states.len() == regions.len() + 1
    &&& states[0].is_ordered()
    &&& states[0].count() == 0
    &&& forall|k: int|
        0 <= k < regions.len() ==> states[k + 1].is_append_of(states[k], #[trigger] regions[k])
}

/// In a run of at most `CAPACITY` appends to an empty map every append finds
/// a free slot: the map before it is in order and holds no more visible
/// regions than appends were made, so fewer than `CAPACITY`. The map at the
/// end is in order too, its count within the capacity.
pub proof fn lemma_run_fits(states: Seq<MemoryMap>, regions: Seq<RegionDescriptor>, k: int)
    requires
        is_append_run(states, regions),
        regions.len() <= CAPACITY,
        0 <= k <= regions.len(),
    ensures
        states[k].is_ordered(),
        states[k].count() <= k,
        states[k].count() <= CAPACITY,
        k < regions.len() ==> states[k].count() < CAPACITY,
    decreases k,
{
    if k > 0 {
        lemma_run_fits(states, regions, k - 1);
        let region = regions[k - 1];
        states[k].lemma_append_visible(states[k - 1], region);
    }
}

/// After a run of appends of real regions the visible regions are the
/// stable sort of the regions appended so far: all of them, ascending by
/// start address and, where the starts are equal, by page count.
pub proof fn lemma_run_of_real_regions(
    states: Seq<MemoryMap>,
    regions: Seq<RegionDescriptor>,
    k: int,
)
    requires
        is_append_run(states, regions),
        regions.len() <= CAPACITY,
        0 <= k <= regions.len(),
        forall|i: int| 0 <= i < regions.len() ==> (#[trigger] regions[i]).page_count != 0,
    ensures
        states[k].count() == k,
        is_stable_sort_of(states[k]@, regions.take(k)),
        ascending(states[k]@),
    decreases k,
{
    lemma_run_fits(states, regions, k);
    states[k].lemma_ordered_view();
    if k == 0 {
        assert(states[0]@ =~= regions.take(0));
    } else {
        let p = |d: RegionDescriptor| d.page_count != 0;
        let region = regions[k - 1];
        let before = states[k - 1];
        lemma_run_of_real_regions(states, regions, k - 1);
        lemma_run_fits(states, regions, k - 1);
        states[k].lemma_append_visible(before, region);
        before.lemma_ordered_view();
        assert(live(before@.push(region)) == before@.push(region)) by {
            lemma_filter_all(before@, p);
            before@.lemma_filter_push(region, p);
        }
        lemma_sort_extends(states[k]@, before@, regions.take(k - 1), region);
        assert(regions.take(k - 1).push(region) =~= regions.take(k));
    }
}

} // verus!
