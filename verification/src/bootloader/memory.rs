//! Sizing the storage the memory map will be copied into.
//!
//! The final memory map only exists *after* boot services exit, but
//! allocation is only possible *before*. So a generously sized array is
//! allocated up front and filled in afterwards.

use crate::boot_info::PAGE_SIZE;
use vstd::prelude::*;

verus! {

/// How many entries to reserve room for.
///
/// A virtual machine reports well under 100 regions, and leaving boot
/// services can split a region or two.
pub const REGION_CAPACITY: u64 = 256;

/// The size of one region in memory: two 64-bit fields, a 32-bit one, and
/// padding to the alignment of the first.
pub const REGION_SIZE: u64 = 24;

/// The pages that `capacity` regions need.
pub open spec fn region_pages(capacity: int) -> int {
    (capacity * REGION_SIZE + PAGE_SIZE - 1) / PAGE_SIZE as int
}

/// How many pages to allocate for `capacity` regions, and how many regions
/// those pages can actually hold.
pub fn region_array(capacity: u64) -> (array: (u64, u64))
    requires
        region_pages(capacity as int) * PAGE_SIZE <= u64::MAX,
    ensures
        array.0 == region_pages(capacity as int),
        array.1 == region_pages(capacity as int) * PAGE_SIZE / REGION_SIZE as int,
{
    let bytes: u64 = capacity * REGION_SIZE;
    let pages: u64 = if bytes == 0 {
        0
    } else {
        (bytes - 1) / PAGE_SIZE + 1
    };
    assert(pages == region_pages(capacity as int));
    (pages, (pages * PAGE_SIZE) / REGION_SIZE)
}

/// The array holds at least as many regions as were asked for, and all of
/// them lie inside its pages.
pub proof fn the_array_holds_what_was_asked_for(capacity: u64)
    ensures
        ({
            let pages = region_pages(capacity as int);
            let actual = pages * PAGE_SIZE / REGION_SIZE as int;
            &&& capacity <= actual
            &&& actual * REGION_SIZE <= pages * PAGE_SIZE
        }),
{
}

/// No page is asked for that the regions do not need, and no further region
/// of 24 bytes would fit into the pages.
pub proof fn the_array_is_no_larger_than_it_must_be(capacity: u64)
    ensures
        ({
            let pages = region_pages(capacity as int);
            let actual = pages * PAGE_SIZE / REGION_SIZE as int;
            &&& capacity * 24 <= pages * 4096
            &&& pages > 0 ==> (pages - 1) * 4096 < capacity * 24
            &&& pages >= 0
            &&& actual * 24 <= pages * 4096 < (actual + 1) * 24
        }),
{
}

} // verus!
