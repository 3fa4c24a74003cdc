//! The record that describes one contiguous range of physical memory.

use vstd::prelude::*;

verus! {

/// One contiguous range of physical memory.
///
/// A descriptor whose `page_count` is zero stands for an unused slot: it is
/// never a real region, whatever its other fields hold.
#[derive(Clone, Copy, Debug, PartialEq, Eq, Structural)]
pub struct RegionDescriptor {
    /// Firmware code of the kind of memory in the range; carried, never read.
    pub ty: u32,
    /// Physical address at which the range starts.
    pub phys_start: u64,
    /// Virtual address at which the range starts; carried, never read.
    pub virt_start: u64,
    /// Number of 4 KiB pages in the range; zero marks an unused slot.
    pub page_count: u64,
    /// Firmware attribute bits of the range; carried, never read.
    pub att: u64,
}

/// The descriptor that fills every unused slot: all fields zero.
pub open spec fn sentinel() -> RegionDescriptor {
    RegionDescriptor { ty: 0, phys_start: 0, virt_start: 0, page_count: 0, att: 0 }
}

/// The text that `uefi`'s `Debug` impl of its memory descriptor gives for
/// the descriptor with these fields and zero padding.
pub uninterp spec fn descriptor_text(
    ty: u32,
    phys_start: u64,
    virt_start: u64,
    page_count: u64,
    att: u64,
) -> Seq<char>;

/// Calls `uefi::mem::memory_map::MemoryDescriptor::default()` and copies its
/// fields out. Trusted: that the default is the reserved type (code 0), zero
/// addresses, zero pages and no attribute bits.
#[verifier::external_body]
fn firmware_default() -> (d: RegionDescriptor)
    ensures
        d == sentinel(),
{
    let raw = uefi::mem::memory_map::MemoryDescriptor::default();
    RegionDescriptor {
        ty: raw.ty.0,
        phys_start: raw.phys_start,
        virt_start: raw.virt_start,
        page_count: raw.page_count,
        att: raw.att.bits(),
    }
}

/// Formats the descriptor through the derived `Debug` impl of
/// `uefi::mem::memory_map::MemoryDescriptor`, with the padding word at the
/// zero that its documentation asks for. Trusted: that the text depends on
/// the five fields alone.
#[verifier::external_body]
fn firmware_debug_text(d: &RegionDescriptor) -> (text: String)
    ensures
        text@ == descriptor_text(d.ty, d.phys_start, d.virt_start, d.page_count, d.att),
{
    let raw = uefi::mem::memory_map::MemoryDescriptor {
        ty: uefi::mem::memory_map::MemoryType(d.ty),
        padding: 0,
        phys_start: d.phys_start,
        virt_start: d.virt_start,
        page_count: d.page_count,
        att: uefi::mem::memory_map::MemoryAttribute::from_bits_retain(d.att),
    };
    format!("{:?}", raw)
}

impl Default for RegionDescriptor {
    /// The descriptor of an unused slot, as the firmware interface defines
    /// its default.
    fn default() -> (d: Self)
        ensures
            d == sentinel(),
    {
        firmware_default()
    }
}

impl RegionDescriptor {
    /// The text of this descriptor in a diagnostic listing.
    pub open spec fn text(self) -> Seq<char> {
        descriptor_text(self.ty, self.phys_start, self.virt_start, self.page_count, self.att)
    }

    /// Renders the descriptor for a diagnostic listing.
    pub fn to_text(&self) -> (text: String)
        ensures
            text@ == self.text(),
    {
        firmware_debug_text(self)
    }
}

} // verus!
