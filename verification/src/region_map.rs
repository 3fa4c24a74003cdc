//! The region map: a fixed array of descriptors and the number of slots in
//! use.

use vstd::prelude::*;
use vstd::seq_lib::to_multiset_len;
use crate::descriptor::{sentinel, RegionDescriptor};
use crate::order::{
    ascending, insertion_point, is_stable_sort_of, lemma_live_prefix, lemma_live_prefix_of_sort,
    lemma_ordered_prefix, lemma_sort_of_ordered, lemma_sort_of_pushed, live, may_precede, ordered,
    precedes, ranked_with, same_rank,
};
use crate::seq_facts::{lemma_filter_all, lemma_filter_none, lemma_filter_swap_adjacent};

verus! {

/// Number of slots of a map.
pub const CAPACITY: usize = 64;

/// A map of the physical memory regions of the machine.
///
/// The regions that count are the first `len()` slots, the view of the map.
/// Every slot behind them holds a descriptor with zero pages.
pub struct MemoryMap {
    entries: [RegionDescriptor; CAPACITY],
    // Always 64 bits wide, so that the record means the same to a reader
    // built for another word size.
    next_entry_index: u64,
}

impl View for MemoryMap {
    type V = Seq<RegionDescriptor>;

    /// The visible regions: the slots before the next free one.
    open spec fn view(&self) -> Seq<RegionDescriptor> {
        self.storage().take(self.count() as int)
    }
}

impl MemoryMap {
    /// All the slots, used or not.
    pub closed spec fn storage(&self) -> Seq<RegionDescriptor> {
        self.entries@
    }

    /// Index of the next free slot, which is the number of visible regions.
    pub closed spec fn count(&self) -> nat {
        self.next_entry_index as nat
    }

    /// Structural validity: the count is within the capacity and no slot
    /// behind the visible ones holds a real region.
    pub open spec fn wf(&self) -> bool {
        &&& self.storage().len() == CAPACITY
        &&& self.count() <= CAPACITY
        &&& forall|i: int|
            self.count() <= i < CAPACITY ==> (#[trigger] self.storage()[i]).page_count == 0
    }

    /// The state after construction, an append or a sort: valid, every
    /// visible slot a real region, and the slots in order.
    pub open spec fn is_ordered(&self) -> bool {
        &&& self.wf()
        &&& forall|i: int|
            0 <= i < self.count() ==> (#[trigger] self.storage()[i]).page_count != 0
        &&& ordered(self.storage())
    }

    /// This map is what `sort` makes of `before`: in order, its slots the
    /// stable sort of the slots of `before`.
    pub open spec fn is_sort_of(&self, before: MemoryMap) -> bool {
        &&& self.is_ordered()
        &&& is_stable_sort_of(self.storage(), before.storage())
    }

    /// This map is what `add_region` makes of `before` and `region`: in
    /// order, its slots the stable sort of the slots of `before` with
    /// `region` written to the next free one.
    pub open spec fn is_append_of(&self, before: MemoryMap, region: RegionDescriptor) -> bool {
        &&& self.is_ordered()
        &&& is_stable_sort_of(
            self.storage(),
            before.storage().update(before.count() as int, region),
        )
    }

    /// An empty map: every slot holds the default descriptor.
    pub fn new() -> (map: Self)
        ensures
            map.is_ordered(),
            map.count() == 0,
            map@ == Seq::<RegionDescriptor>::empty(),
            forall|i: int| 0 <= i < CAPACITY ==> map.storage()[i] == sentinel(),
    {
        MemoryMap { entries: [RegionDescriptor::default();CAPACITY], next_entry_index: 0 }
    }

    /// Number of visible regions.
    pub fn len(&self) -> (n: usize)
        requires
            self.wf(),
        ensures
            n == self.count(),
            n == self@.len(),
    {
        self.next_entry_index as usize
    }

    /// True when the visible regions fill every slot, so that no region
    /// can be appended.
    pub fn is_full(&self) -> (full: bool)
        ensures
            full == (self.count() == CAPACITY),
    {
        self.next_entry_index == CAPACITY as u64
    }

    /// The visible regions, in stored order.
    pub fn as_slice(&self) -> (visible: &[RegionDescriptor])
        requires
            self.wf(),
        ensures
            visible@ == self@,
    {
        let n: usize = self.next_entry_index as usize;
        let visible = vstd::slice::slice_subrange(self.entries.as_slice(), 0, n);
        proof {
            assert(visible@ =~= self@);
        }
        visible
    }

    /// The visible regions, open to edits in place.
    ///
    /// The count stays as it is and the slots behind the visible ones are
    /// out of reach. An edit may leave a visible slot with zero pages or out
    /// of order: the map is valid still, and in order again after `sort`.
    pub fn as_mut_slice(&mut self) -> (visible: &mut [RegionDescriptor])
        requires
            old(self).wf(),
        ensures
            visible@ == old(self)@,
            final(self).count() == old(self).count(),
            final(self).storage() == final(visible)@ + old(self).storage().skip(
                old(self).count() as int,
            ),
            final(self)@ == final(visible)@,
            final(self).wf(),
    {
        let n: usize = self.next_entry_index as usize;
        let (visible, _) = self.entries.split_at_mut(n);
        visible
    }

    /// The diagnostic listing: the text of each visible region, in stored
    /// order, and nothing of the slots behind them.
    pub fn listing(&self) -> (lines: Vec<String>)
        requires
            self.wf(),
        ensures
            lines@.len() == self@.len(),
            forall|i: int| 0 <= i < self@.len() ==> (#[trigger] lines@[i])@ == self@[i].text(),
    {
        let n: usize = self.next_entry_index as usize;
        let mut lines: Vec<String> = Vec::new();
        let mut i: usize = 0;
        while i < n
            invariant
                0 <= i <= n <= CAPACITY,
                n == self.count(),
                lines@.len() == i,
                forall|k: int| 0 <= k < i ==> (#[trigger] lines@[k])@ == self.entries@[k].text(),
            decreases n - i,
        {
            lines.push(self.entries[i].to_text());
            i = i + 1;
        }
        lines
    }

    /// All the slots, as they lie in memory: the visible regions first, then
    /// the unused slots.
    pub fn raw_entries(&self) -> (slots: &[RegionDescriptor; CAPACITY])
        ensures
            slots@ == self.storage(),
    {
        &self.entries
    }

    /// Takes over slots and a count that were laid out elsewhere, if they
    /// make a valid map: the count within the capacity and zero pages in
    /// every slot from the count on.
    pub fn from_raw_parts(slots: [RegionDescriptor; CAPACITY], count: u64) -> (map: Option<Self>)
        ensures
            map is Some <==> count <= CAPACITY && forall|i: int|
                count <= i < CAPACITY ==> (#[trigger] slots@[i]).page_count == 0,
            map matches Some(m) ==> m.wf() && m.storage() == slots@ && m.count() == count,
    {
        if count > CAPACITY as u64 {
            return None;
        }
        let mut i: usize = count as usize;
        while i < CAPACITY
            invariant
                count <= i <= CAPACITY,
                forall|k: int| count <= k < i ==> (#[trigger] slots@[k]).page_count == 0,
            decreases CAPACITY - i,
        {
            if slots[i].page_count != 0 {
                return None;
            }
            i = i + 1;
        }
        Some(MemoryMap { entries: slots, next_entry_index: count })
    }

    /// Appends a region and puts the map in order again.
    ///
    /// The region is written to the next free slot. One with zero pages is
    /// sorted behind the real regions at once, so it never becomes visible.
    /// A map whose visible regions fill every slot takes no further region.
    pub fn add_region(&mut self, region: RegionDescriptor)
        requires
            old(self).wf(),
            old(self).count() < CAPACITY,
        ensures
            final(self).is_append_of(*old(self), region),
            is_stable_sort_of(final(self)@, live(old(self)@.push(region))),
            ascending(final(self)@),
            final(self).count() == live(old(self)@.push(region)).len(),
            final(self).count() <= old(self).count() + 1,
            region.page_count == 0 ==> final(self).count() <= old(self).count(),
            old(self).is_ordered() && region.page_count == 0 ==> final(self)@ == old(self)@,
            old(self).is_ordered() && region.page_count != 0 ==> final(self)@ == old(
                self,
            )@.insert(insertion_point(old(self)@, region), region),
    {
        let ghost before = *self;
        let slot: usize = self.next_entry_index as usize;
        self.entries[slot] = region;
        self.next_entry_index = self.next_entry_index + 1;
        assert(self.storage() == before.storage().update(slot as int, region));
        self.sort();
        proof {
            self.lemma_append_visible(before, region);
            if before.is_ordered() {
                self.lemma_append_to_ordered(before, region);
            }
        }
    }

    /// Puts the whole array in order, the unused slots last and the real
    /// regions by start address and page count, and sets the count to the
    /// number of real regions. Slots that rank alike keep their order.
    pub fn sort(&mut self)
        ensures
            final(self).is_sort_of(*old(self)),
            is_stable_sort_of(final(self)@, live(old(self).storage())),
            old(self).wf() ==> is_stable_sort_of(final(self)@, live(old(self)@)),
            ascending(final(self)@),
            final(self).count() == live(old(self).storage()).len(),
            old(self).is_ordered() ==> *final(self) == *old(self),
    {
        let ghost before = self.entries@;
        let mut i: usize = 1;
        while i < CAPACITY
            invariant
                1 <= i <= CAPACITY,
                ordered(self.entries@.take(i as int)),
                self.entries@.to_multiset() == before.to_multiset(),
                forall|k: RegionDescriptor| #[trigger]
                    ranked_with(self.entries@, k) == ranked_with(before, k),
            decreases CAPACITY - i,
        {
            let mut j: usize = i;
            proof {
                let head = self.entries@.take(i as int);
                assert forall|a: int, b: int| 0 <= a < b < i implies precedes(
                    #[trigger] self.entries@[a],
                    #[trigger] self.entries@[b],
                ) by {
                    assert(precedes(head[a], head[b]));
                }
            }
            while j > 0 && !may_precede(&self.entries[j - 1], &self.entries[j])
                invariant
                    0 <= j <= i < CAPACITY,
                    self.entries@.to_multiset() == before.to_multiset(),
                    forall|k: RegionDescriptor| #[trigger]
                        ranked_with(self.entries@, k) == ranked_with(before, k),
                    forall|a: int, b: int|
                        0 <= a < b <= i && a != j && b != j ==> precedes(
                            #[trigger] self.entries@[a],
                            #[trigger] self.entries@[b],
                        ),
                    forall|b: int|
                        j < b <= i ==> precedes(self.entries@[j as int], #[trigger] self.entries@[b]),
                decreases j,
            {
                let ghost s = self.entries@;
                let lower = self.entries[j - 1];
                let upper = self.entries[j];
                self.entries[j - 1] = upper;
                self.entries[j] = lower;
                proof {
                    broadcast use vstd::seq_lib::group_to_multiset_ensures;

                    assert(self.entries@ == s.update(j - 1, upper).update(j as int, lower));
                    assert(self.entries@.to_multiset() =~= s.to_multiset());
                    assert forall|k: RegionDescriptor| #[trigger]
                        ranked_with(self.entries@, k) == ranked_with(before, k) by {
                        assert(ranked_with(s, k) == ranked_with(before, k));
                        lemma_filter_swap_adjacent(
                            s,
                            j - 1,
                            |d: RegionDescriptor| same_rank(d, k),
                        );
                    }
                }
                j = j - 1;
            }
            i = i + 1;
        }
        let mut n: usize = 0;
        while n < CAPACITY && self.entries[n].page_count != 0
            invariant
                0 <= n <= CAPACITY,
                forall|k: int| 0 <= k < n ==> (#[trigger] self.entries@[k]).page_count != 0,
            decreases CAPACITY - n,
        {
            n = n + 1;
        }
        self.next_entry_index = n as u64;
        proof {
            assert(self.entries@.take(CAPACITY as int) == self.entries@);
            assert forall|k: int| n <= k < CAPACITY implies (#[trigger] self.entries@[k]).page_count
                == 0 by {
                if n < k {
                    assert(precedes(self.entries@[n as int], self.entries@[k]));
                }
            }
            self.lemma_sort_visible(*old(self));
            if old(self).is_ordered() {
                self.lemma_sort_keeps_ordered(*old(self));
            }
        }
    }

    /// Two maps with the same slots and the same count are one map.
    pub proof fn lemma_same_parts(self, other: MemoryMap)
        requires
            self.storage() == other.storage(),
            self.count() == other.count(),
        ensures
            self == other,
    {
        assert(self.entries =~= other.entries);
    }

    /// In a valid map the real regions of the storage are those of the view.
    pub proof fn lemma_live_storage(self)
        requires
            self.wf(),
        ensures
            live(self.storage()) == live(self@),
    {
        let p = |d: RegionDescriptor| d.page_count != 0;
        let n = self.count() as int;
        let s = self.storage();
        assert(s =~= s.take(n) + s.skip(n));
        Seq::filter_distributes_over_add(s.take(n), s.skip(n), p);
        lemma_filter_none(s.skip(n), p);
        assert(live(s.take(n)) + Seq::<RegionDescriptor>::empty() =~= live(s.take(n)));
    }

    /// The view of a map in order holds the real regions of its storage, in
    /// ascending order.
    pub proof fn lemma_ordered_view(self)
        requires
            self.is_ordered(),
        ensures
            self@ == live(self.storage()),
            forall|i: int| 0 <= i < self@.len() ==> (#[trigger] self@[i]).page_count != 0,
            ordered(self@),
            ascending(self@),
    {
        lemma_live_prefix(self.storage(), self.count() as int);
        lemma_ordered_prefix(self.storage(), self.count() as int);
        assert forall|i: int, j: int| 0 <= i < j < self@.len() implies {
            ||| (#[trigger] self@[i]).phys_start < (#[trigger] self@[j]).phys_start
            ||| (self@[i].phys_start == self@[j].phys_start && self@[i].page_count
                <= self@[j].page_count)
        } by {
            assert(precedes(self@[i], self@[j]));
        }
    }

    /// What a sort leaves visible: the stable sort of the real regions that
    /// the storage held.
    pub proof fn lemma_sort_visible(self, before: MemoryMap)
        requires
            self.is_sort_of(before),
        ensures
            is_stable_sort_of(self@, live(before.storage())),
            before.wf() ==> is_stable_sort_of(self@, live(before@)),
            ascending(self@),
            self.count() == live(before.storage()).len(),
    {
        self.lemma_ordered_view();
        lemma_live_prefix_of_sort(self.storage(), before.storage(), self.count() as int);
        to_multiset_len(self@);
        to_multiset_len(live(before.storage()));
        if before.wf() {
            before.lemma_live_storage();
        }
    }

    /// Two maps in order with the same slots are one map: the slots fix
    /// the count.
    pub proof fn lemma_ordered_same_storage(self, other: MemoryMap)
        requires
            self.is_ordered(),
            other.is_ordered(),
            self.storage() == other.storage(),
        ensures
            self == other,
    {
        if self.count() < other.count() {
            assert(self.storage()[self.count() as int].page_count == 0);
        }
        if other.count() < self.count() {
            assert(other.storage()[other.count() as int].page_count == 0);
        }
        self.lemma_same_parts(other);
    }

    /// Sorting a map that is in order changes nothing.
    pub proof fn lemma_sort_keeps_ordered(self, before: MemoryMap)
        requires
            before.is_ordered(),
            self.is_sort_of(before),
        ensures
            self == before,
    {
        lemma_sort_of_ordered(self.storage(), before.storage());
        self.lemma_ordered_same_storage(before);
    }

    /// Writing a region to the next free slot of a valid map adds it to the
    /// visible regions and changes no other real region.
    proof fn lemma_live_written(self, region: RegionDescriptor)
        requires
            self.wf(),
            self.count() < CAPACITY,
        ensures
            live(self.storage().update(self.count() as int, region)) == live(
                self@.push(region),
            ),
    {
        let p = |d: RegionDescriptor| d.page_count != 0;
        let n = self.count() as int;
        let written = self.storage().update(n, region);
        let rest = self.storage().skip(n + 1);
        assert(written =~= self@.push(region) + rest);
        Seq::filter_distributes_over_add(self@.push(region), rest, p);
        lemma_filter_none(rest, p);
        assert(self@.push(region).filter(p) + Seq::<RegionDescriptor>::empty()
            =~= self@.push(region).filter(p));
    }

    /// What an append leaves visible: the stable sort of the real regions
    /// among those that were visible and the new one.
    pub proof fn lemma_append_visible(self, before: MemoryMap, region: RegionDescriptor)
        requires
            before.wf(),
            before.count() < CAPACITY,
            self.is_append_of(before, region),
        ensures
            is_stable_sort_of(self@, live(before@.push(region))),
            ascending(self@),
            self.count() == live(before@.push(region)).len(),
            self.count() <= before.count() + 1,
            region.page_count == 0 ==> self.count() <= before.count(),
    {
        let p = |d: RegionDescriptor| d.page_count != 0;
        let written = before.storage().update(before.count() as int, region);
        self.lemma_ordered_view();
        before.lemma_live_written(region);
        lemma_live_prefix_of_sort(self.storage(), written, self.count() as int);
        assert(self@.len() == live(written).len()) by {
            to_multiset_len(self@);
            to_multiset_len(live(written));
        }
        assert(live(before@.push(region)).len() <= before@.len() + 1 && (region.page_count == 0
            ==> live(before@.push(region)).len() <= before@.len())) by {
            before@.lemma_filter_push(region, p);
            before@.lemma_filter_len(p);
        }
    }


    /// What an append makes of a map in order: a region with zero pages
    /// leaves the visible regions as they were, and a real region goes in
    /// behind the visible regions that may stand before it.
    pub proof fn lemma_append_to_ordered(self, before: MemoryMap, region: RegionDescriptor)
        requires
            before.is_ordered(),
            before.count() < CAPACITY,
            self.is_append_of(before, region),
        ensures
            region.page_count == 0 ==> self@ == before@,
            region.page_count != 0 ==> self@ == before@.insert(
                insertion_point(before@, region),
                region,
            ),
    {
        let p = |d: RegionDescriptor| d.page_count != 0;
        self.lemma_append_visible(before, region);
        before.lemma_ordered_view();
        assert(live(before@.push(region)) == if region.page_count != 0 {
            before@.push(region)
        } else {
            before@
        }) by {
            lemma_filter_all(before@, p);
            before@.lemma_filter_push(region, p);
        }
        if region.page_count == 0 {
            lemma_sort_of_ordered(self@, before@);
        } else {
            lemma_sort_of_pushed(self@, before@, region);
        }
    }
}

} // verus!
