use rust_bl::boot_info::MemoryRegion;
use rust_bl::kernel::frame;
use rust_bl::ram::{RamWindow, WordMemory};

fn region(start: u64, pages: u64) -> MemoryRegion {
    MemoryRegion::new(start, pages, MemoryRegion::CONVENTIONAL)
}

/// 64 KiB of memory from address 0 on.
fn memory() -> RamWindow {
    RamWindow::new(0, 8192)
}

#[test]
fn seeding_counts_the_usable_frames() {
    let regions = [region(0x2000, 3), MemoryRegion::new(0x5000, 9, 2), region(0xa000, 2)];
    let mut slot = None;
    assert_eq!(frame::init(&mut slot, &regions), 5);
    assert!(slot.is_some());
    assert_eq!(frame::frames_in_use(&slot), 0);
}

#[test]
fn seeding_from_an_empty_map_leaves_no_allocator() {
    let mut slot = None;
    assert_eq!(frame::init(&mut slot, &[]), 0);
    assert!(slot.is_none());
    let mut memory = memory();
    assert_eq!(frame::alloc_frame(&mut slot, &mut memory), None);
    assert_eq!(frame::alloc_contiguous(&mut slot, &mut memory, 1), None);
    frame::dealloc_frame(&mut slot, &mut memory, 0x1000);
    assert_eq!(frame::frames_in_use(&slot), 0);
}

#[test]
fn frames_come_in_address_order_and_run_out() {
    let regions = [region(0x2000, 2), region(0x8000, 1)];
    let mut slot = None;
    frame::init(&mut slot, &regions);
    let mut memory = memory();
    assert_eq!(frame::alloc_frame(&mut slot, &mut memory), Some(0x2000));
    assert_eq!(frame::alloc_frame(&mut slot, &mut memory), Some(0x3000));
    assert_eq!(frame::alloc_frame(&mut slot, &mut memory), Some(0x8000));
    assert_eq!(frame::alloc_frame(&mut slot, &mut memory), None);
    assert_eq!(frame::frames_in_use(&slot), 3);
}

#[test]
fn a_freed_frame_is_the_next_one_handed_out() {
    let regions = [region(0x2000, 4)];
    let mut slot = None;
    frame::init(&mut slot, &regions);
    let mut memory = memory();
    let a = frame::alloc_frame(&mut slot, &mut memory).unwrap();
    let b = frame::alloc_frame(&mut slot, &mut memory).unwrap();
    frame::dealloc_frame(&mut slot, &mut memory, a);
    frame::dealloc_frame(&mut slot, &mut memory, b);
    assert_eq!(frame::frames_in_use(&slot), 0);
    // The node of each free frame is its own first word.
    assert_eq!(memory.read_word(b), a);
    assert_eq!(memory.read_word(a), 0);
    assert_eq!(frame::alloc_frame(&mut slot, &mut memory), Some(b));
    assert_eq!(frame::alloc_frame(&mut slot, &mut memory), Some(a));
    assert_eq!(frame::alloc_frame(&mut slot, &mut memory), Some(0x4000));
}

#[test]
fn a_contiguous_request_strands_no_frame() {
    let regions = [region(0x1000, 2), region(0x5000, 4)];
    let mut slot = None;
    frame::init(&mut slot, &regions);
    let mut memory = memory();
    assert_eq!(frame::alloc_contiguous(&mut slot, &mut memory, 3), Some(0x5000));
    assert_eq!(frame::frames_in_use(&slot), 3);
    // The frames of the run that was too short are still there, last first,
    // and then the rest of the run that was cut.
    assert_eq!(frame::alloc_frame(&mut slot, &mut memory), Some(0x2000));
    assert_eq!(frame::alloc_frame(&mut slot, &mut memory), Some(0x1000));
    assert_eq!(frame::alloc_frame(&mut slot, &mut memory), Some(0x8000));
    assert_eq!(frame::alloc_frame(&mut slot, &mut memory), None);
}

#[test]
fn a_contiguous_request_that_no_run_can_serve_keeps_every_frame() {
    let regions = [region(0x1000, 2), region(0x5000, 1)];
    let mut slot = None;
    frame::init(&mut slot, &regions);
    let mut memory = memory();
    assert_eq!(frame::alloc_contiguous(&mut slot, &mut memory, 3), None);
    assert_eq!(frame::frames_in_use(&slot), 0);
    assert_eq!(frame::alloc_frame(&mut slot, &mut memory), Some(0x5000));
    assert_eq!(frame::alloc_frame(&mut slot, &mut memory), Some(0x2000));
    assert_eq!(frame::alloc_frame(&mut slot, &mut memory), Some(0x1000));
    assert_eq!(frame::alloc_frame(&mut slot, &mut memory), None);
}

#[test]
fn a_request_past_the_address_space_changes_nothing() {
    let regions = [region(0x1000, 2)];
    let mut slot = None;
    frame::init(&mut slot, &regions);
    let mut memory = memory();
    assert_eq!(frame::alloc_contiguous(&mut slot, &mut memory, u64::MAX), None);
    assert_eq!(frame::alloc_frame(&mut slot, &mut memory), Some(0x1000));
}

#[test]
fn a_request_for_no_frames_takes_none() {
    let regions = [region(0x1000, 2)];
    let mut slot = None;
    frame::init(&mut slot, &regions);
    let mut memory = memory();
    assert_eq!(frame::alloc_contiguous(&mut slot, &mut memory, 0), Some(0x1000));
    assert_eq!(frame::frames_in_use(&slot), 0);
    assert_eq!(frame::alloc_frame(&mut slot, &mut memory), Some(0x1000));
}

#[test]
fn the_frame_selftest_passes_and_leaves_the_frames() {
    let regions = [region(0x1000, 3)];
    let mut slot = None;
    frame::init(&mut slot, &regions);
    let mut memory = memory();
    assert_eq!(frame::selftest(&mut slot, &mut memory), Ok(()));
    assert_eq!(frame::frames_in_use(&slot), 0);
    assert_eq!(frame::alloc_frame(&mut slot, &mut memory), Some(0x1000));
    assert_eq!(frame::alloc_frame(&mut slot, &mut memory), Some(0x2000));
    assert_eq!(frame::alloc_frame(&mut slot, &mut memory), Some(0x3000));
}

#[test]
fn the_frame_selftest_names_what_is_missing() {
    let mut memory = memory();
    let mut none = None;
    assert_eq!(
        frame::selftest(&mut none, &mut memory),
        Err("alloc_frame returned None on a fresh allocator")
    );
    let regions = [region(0x1000, 1)];
    let mut slot = None;
    frame::init(&mut slot, &regions);
    assert_eq!(
        frame::selftest(&mut slot, &mut memory),
        Err("alloc_frame returned None for the second of two frames")
    );
}

#[test]
fn an_overlapping_map_is_not_sound() {
    assert!(frame::map_is_sound(&[region(0x1000, 2), region(0x3000, 1)]));
    assert!(frame::map_is_sound(&[region(0x3000, 1), region(0x1000, 2)]));
    assert!(!frame::map_is_sound(&[region(0x1000, 3), region(0x3000, 1)]));
    assert!(frame::map_is_sound(&[region(0x1000, 3), MemoryRegion::new(0x3000, 1, 2)]));
    assert!(frame::map_is_sound(&[]));
}

#[test]
fn only_conventional_memory_is_handed_out_and_never_address_zero() {
    let regions = [
        region(0, 2),
        MemoryRegion::new(0x2000, 2, 2),
        MemoryRegion::new(0x4000, 2, 3),
        region(0x6800, 2),
    ];
    let mut slot = None;
    assert_eq!(frame::init(&mut slot, &regions), 2);
    let mut memory = memory();
    assert_eq!(frame::alloc_frame(&mut slot, &mut memory), Some(0x1000));
    assert_eq!(frame::alloc_frame(&mut slot, &mut memory), Some(0x7000));
    assert_eq!(frame::alloc_frame(&mut slot, &mut memory), None);
}

#[test]
fn what_is_free_and_what_is_in_use_come_to_the_same_number() {
    let regions = [region(0x1000, 3), region(0x8000, 2)];
    let mut slot = None;
    let total = frame::init(&mut slot, &regions);
    let mut memory = memory();
    let first = frame::alloc_frame(&mut slot, &mut memory).unwrap();
    frame::alloc_contiguous(&mut slot, &mut memory, 2).unwrap();
    frame::dealloc_frame(&mut slot, &mut memory, first);
    let in_use = frame::frames_in_use(&slot);
    let mut left = 0;
    while frame::alloc_frame(&mut slot, &mut memory).is_some() {
        left += 1;
    }
    assert_eq!(in_use + left, total);
}
