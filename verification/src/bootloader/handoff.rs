//! The point of no return: leave UEFI behind and enter the kernel.

use crate::boot_info::{MemoryRegion, PAGE_SIZE};
use vstd::prelude::*;

verus! {

/// 64 KiB of stack for the kernel. The stack the bootloader runs on lives in
/// boot-services memory, which stops being its own the moment boot services
/// exit, so the kernel needs one of its own.
pub const KERNEL_STACK_PAGES: u64 = 16;

/// The size of the kernel's stack in bytes.
pub open spec fn stack_size() -> int {
    KERNEL_STACK_PAGES * PAGE_SIZE
}

/// The address to load into the stack pointer: the *top* of the stack that
/// starts at `bottom`, since x86 stacks grow downward.
///
/// The SysV ABI guarantees that a function sees `rsp % 16 == 8` at its entry
/// point, because it is reached by `call`, which pushes an 8-byte return
/// address. The kernel is reached by `jmp`, which pushes nothing, so the
/// stack pointer is biased by 8.
pub fn kernel_stack_top(bottom: u64) -> (top: u64)
    requires
        bottom + stack_size() <= u64::MAX,
    ensures
        top == crate::align::align_down(bottom + stack_size(), 16) - 8,
{
    let end: u64 = bottom + KERNEL_STACK_PAGES * PAGE_SIZE;
    assert(end & !(0xfu64) == end - end % 16) by (bit_vector);
    (end & !(0xfu64)) - 8
}

/// The kernel enters with the alignment a called function expects, on a
/// stack pointer inside its own stack.
pub proof fn stack_top_is_aligned_for_a_called_function(bottom: u64)
    requires
        bottom + stack_size() <= u64::MAX,
    ensures
        ({
            let top = crate::align::align_down(bottom + stack_size(), 16) - 8;
            &&& top % 16 == 8
            &&& bottom < top < bottom + stack_size()
        }),
{
}

/// Copy one descriptor into the region array behind the `count` already
/// there, unless the array is full.
///
/// Out of room, truncating is the only option left: nothing can be allocated
/// any more, and no error can be reported to anyone. An entry may have
/// whatever layout the two programs agreed on.
pub fn store_region<T: Copy>(regions: &mut [T], count: usize, region: T) -> (stored: bool)
    ensures
        stored == (count < old(regions)@.len()),
        final(regions)@ == (if stored {
            old(regions)@.update(count as int, region)
        } else {
            old(regions)@
        }),
{
    if count >= regions.len() {
        return false;
    }
    regions[count] = region;
    true
}

/// Copy the memory map into the region array, as much of it as fits, and
/// return how many entries that is.
pub fn fill_regions(map: &[MemoryRegion], regions: &mut [MemoryRegion]) -> (count: usize)
    ensures
        count == (if map@.len() <= old(regions)@.len() { map@.len() } else { old(regions)@.len() }),
        final(regions)@ == map@.take(count as int) + old(regions)@.skip(count as int),
{
    let mut count: usize = 0;
    assert(regions@ =~= map@.take(0) + regions@.skip(0));
    while count < map.len()
        invariant
            count <= map@.len(),
            count <= old(regions)@.len(),
            regions@ == map@.take(count as int) + old(regions)@.skip(count as int),
        ensures
            count == map@.len() || count == old(regions)@.len(),
            count <= map@.len(),
            count <= old(regions)@.len(),
            regions@ == map@.take(count as int) + old(regions)@.skip(count as int),
        decreases map@.len() - count,
    {
        if !store_region(regions, count, map[count]) {
            break;
        }
        assert(regions@ =~= map@.take(count + 1) + old(regions)@.skip(count + 1));
        count += 1;
    }
    count
}

/// The kernel starts with all of its 64 KiB of stack but for the bytes that
/// the alignment costs: 8 on a stack that ends on a multiple of 16.
pub proof fn almost_the_whole_stack_is_left(bottom: u64)
    requires
        bottom + stack_size() <= u64::MAX,
    ensures
        ({
            let top = crate::align::align_down(bottom + stack_size(), 16) - 8;
            &&& bottom + 65536 - 24 < top <= bottom + 65536 - 8
            &&& bottom % 16 == 0 ==> top == bottom + 65528
        }),
{
}

} // verus!
