use rust_bl::boot_info::MemoryRegion;
use rust_bl::kernel::boot::{bring_up_memory, MemoryFault, MemoryReport};
use rust_bl::kernel::frame;
use rust_bl::kernel::heap::{self, Heap, KernelHeap};
use rust_bl::kernel::layout::{normalise, Layout};
use rust_bl::ram::{RamWindow, WordMemory};

const BASE: u64 = 0x10_0000;
const SIZE: u64 = 0x1_0000;

fn layout(size: u64, align: u64) -> Layout {
    Layout::from_size_align(size, align).unwrap()
}

fn fresh() -> (Heap, RamWindow) {
    let mut memory = RamWindow::new(BASE, (SIZE / 8) as usize);
    let mut heap = Heap::empty();
    heap.init(&mut memory, BASE, SIZE);
    (heap, memory)
}

#[test]
fn layouts_need_a_power_of_two() {
    assert!(Layout::from_size_align(1, 0).is_none());
    assert!(Layout::from_size_align(1, 3).is_none());
    assert!(Layout::from_size_align(u64::MAX, 1).is_none());
    assert!(Layout::from_size_align(0, 8).is_some());
}

#[test]
fn requests_are_rounded_onto_the_grid() {
    assert_eq!(normalise(layout(0, 1)), (16, 16));
    assert_eq!(normalise(layout(1, 1)), (16, 16));
    assert_eq!(normalise(layout(16, 8)), (16, 16));
    assert_eq!(normalise(layout(17, 8)), (32, 16));
    assert_eq!(normalise(layout(100, 64)), (112, 64));
}

#[test]
fn a_fresh_heap_is_one_block() {
    let (heap, memory) = fresh();
    assert_eq!(heap.free_bytes(&memory), SIZE);
    assert_eq!(heap.free_blocks(&memory), 1);
    assert_eq!(memory.read_word(BASE), SIZE);
    assert_eq!(memory.read_word(BASE + 8), 0);
}

#[test]
fn an_empty_heap_has_nothing_to_give() {
    let mut memory = RamWindow::new(BASE, 8);
    let mut heap = Heap::empty();
    assert_eq!(heap.free_bytes(&memory), 0);
    assert_eq!(heap.free_blocks(&memory), 0);
    assert_eq!(heap.allocate(&mut memory, layout(1, 1)), None);
    assert_eq!(KernelHeap.allocate(&mut heap, &mut memory, layout(1, 1)), 0);
}

#[test]
fn the_first_fit_is_taken_from_the_front() {
    let (mut heap, mut memory) = fresh();
    assert_eq!(heap.allocate(&mut memory, layout(24, 8)), Some(BASE));
    assert_eq!(heap.allocate(&mut memory, layout(8, 8)), Some(BASE + 32));
    assert_eq!(heap.free_bytes(&memory), SIZE - 48);
    assert_eq!(heap.free_blocks(&memory), 1);
}

#[test]
fn a_large_alignment_keeps_the_front_as_a_block() {
    let (mut heap, mut memory) = fresh();
    assert_eq!(heap.allocate(&mut memory, layout(16, 16)), Some(BASE));
    let aligned = heap.allocate(&mut memory, layout(64, 4096)).unwrap();
    assert_eq!(aligned, BASE + 4096);
    assert_eq!(aligned % 4096, 0);
    assert_eq!(heap.free_blocks(&memory), 2);
    // The front is the first fit for what comes next.
    assert_eq!(heap.allocate(&mut memory, layout(16, 16)), Some(BASE + 16));
}

#[test]
fn an_exact_fit_takes_the_whole_block() {
    let (mut heap, mut memory) = fresh();
    assert_eq!(heap.allocate(&mut memory, layout(SIZE, 16)), Some(BASE));
    assert_eq!(heap.free_bytes(&memory), 0);
    assert_eq!(heap.free_blocks(&memory), 0);
    assert_eq!(heap.allocate(&mut memory, layout(1, 1)), None);
    heap.dealloc(&mut memory, BASE, layout(SIZE, 16));
    assert_eq!(heap.free_blocks(&memory), 1);
    assert_eq!(heap.free_bytes(&memory), SIZE);
}

#[test]
fn a_request_that_fits_nowhere_changes_nothing() {
    let (mut heap, mut memory) = fresh();
    assert_eq!(heap.allocate(&mut memory, layout(SIZE + 1, 1)), None);
    assert_eq!(heap.free_bytes(&memory), SIZE);
    assert_eq!(heap.free_blocks(&memory), 1);
}

#[test]
fn freeing_merges_with_both_neighbours_in_any_order() {
    let size = layout(64, 1);
    let orders = [[0, 1, 2], [0, 2, 1], [1, 0, 2], [1, 2, 0], [2, 0, 1], [2, 1, 0]];
    for order in orders {
        let (mut heap, mut memory) = fresh();
        let mut blocks = Vec::new();
        for _ in 0..3 {
            blocks.push(heap.allocate(&mut memory, size).unwrap());
        }
        for which in order {
            heap.dealloc(&mut memory, blocks[which], size);
        }
        assert_eq!(heap.free_bytes(&memory), SIZE);
        assert_eq!(heap.free_blocks(&memory), 1);
        assert_eq!(memory.read_word(BASE), SIZE);
        assert_eq!(memory.read_word(BASE + 8), 0);
    }
}

#[test]
fn a_hole_between_allocations_is_a_block_of_its_own() {
    let (mut heap, mut memory) = fresh();
    let a = heap.allocate(&mut memory, layout(32, 1)).unwrap();
    let b = heap.allocate(&mut memory, layout(32, 1)).unwrap();
    let c = heap.allocate(&mut memory, layout(32, 1)).unwrap();
    heap.dealloc(&mut memory, b, layout(32, 1));
    assert_eq!(heap.free_blocks(&memory), 2);
    assert_eq!(memory.read_word(b), 32);
    assert_eq!(memory.read_word(b + 8), c + 32);
    // Too large for the hole, so from behind it.
    assert_eq!(heap.allocate(&mut memory, layout(48, 1)), Some(c + 32));
    assert_eq!(heap.allocate(&mut memory, layout(20, 1)), Some(b));
    assert_eq!(a, BASE);
}

#[test]
fn allocations_keep_their_words_while_others_come_and_go() {
    let (mut heap, mut memory) = fresh();
    let a = heap.allocate(&mut memory, layout(16, 8)).unwrap();
    memory.write_word(a, 11);
    memory.write_word(a + 8, 12);
    let b = heap.allocate(&mut memory, layout(16, 8)).unwrap();
    let c = heap.allocate(&mut memory, layout(16, 8)).unwrap();
    memory.write_word(c, 31);
    heap.dealloc(&mut memory, b, layout(16, 8));
    assert_eq!(memory.read_word(a), 11);
    assert_eq!(memory.read_word(a + 8), 12);
    assert_eq!(memory.read_word(c), 31);
}

#[test]
fn the_allocator_interface_gives_back_what_it_took() {
    let (mut heap, mut memory) = fresh();
    let addr = KernelHeap.allocate(&mut heap, &mut memory, layout(100, 32));
    assert_eq!(addr, BASE);
    assert_eq!(heap.free_bytes(&memory), SIZE - 112);
    KernelHeap.dealloc(&mut heap, &mut memory, addr, layout(100, 32));
    assert_eq!(heap.free_bytes(&memory), SIZE);
}

#[test]
fn the_heap_selftest_passes_on_a_whole_heap() {
    let (mut heap, mut memory) = fresh();
    assert_eq!(heap::selftest(&mut heap, &mut memory), Ok(()));
    assert_eq!(heap.free_bytes(&memory), SIZE);
    assert_eq!(heap.free_blocks(&memory), 1);
}

#[test]
fn the_heap_selftest_leaves_its_traces_in_free_memory() {
    let (mut heap, mut memory) = fresh();
    assert_eq!(heap::selftest(&mut heap, &mut memory), Ok(()));
    assert_eq!((memory.read_word(BASE), memory.read_word(BASE + 8)), (SIZE, 0));
    // The headers behind each of the three neighbours.
    assert_eq!(memory.read_word(BASE + 64), SIZE - 64);
    assert_eq!(memory.read_word(BASE + 128), SIZE - 128);
    assert_eq!(memory.read_word(BASE + 192), SIZE - 192);
    // The vector's last buffer, behind all its earlier ones.
    for i in 0..1024 {
        assert_eq!(memory.read_word(BASE + 8160 + 8 * i), i);
    }
    // The string's last buffer, behind all its earlier ones.
    for i in 0..50 {
        assert_eq!(memory.read_word(BASE + 512 + 8 * i), 0x7473_7572_7473_7572);
    }
}

#[test]
fn the_heap_selftest_needs_no_more_than_its_vector_takes() {
    let mut memory = RamWindow::new(BASE, (heap::SELFTEST_ROOM / 8) as usize);
    let mut heap = Heap::empty();
    heap.init(&mut memory, BASE, heap::SELFTEST_ROOM);
    assert_eq!(heap::SELFTEST_ROOM, 32 + 64 + 128 + 256 + 512 + 1024 + 2048 + 4096 + 8192);
    assert_eq!(heap::selftest(&mut heap, &mut memory), Ok(()));
    assert_eq!(heap.free_bytes(&memory), heap::SELFTEST_ROOM);
}

#[test]
fn the_heap_selftest_runs_wherever_its_claims_are_served() {
    // Two free blocks, neither of which holds all that the vector claims.
    let size = 8160 + 16 + 8192;
    let mut memory = RamWindow::new(BASE, (size / 8) as usize);
    let mut heap = Heap::empty();
    heap.init(&mut memory, BASE, size);
    let low = heap.allocate(&mut memory, layout(8160, 1)).unwrap();
    heap.allocate(&mut memory, layout(16, 1)).unwrap();
    heap.dealloc(&mut memory, low, layout(8160, 1));
    assert_eq!(
        heap::selftest(&mut heap, &mut memory),
        Err("free list did not coalesce back to a single block")
    );
    assert_eq!((heap.free_bytes(&memory), heap.free_blocks(&memory)), (8160 + 8192, 2));
}

#[test]
fn the_heap_selftest_notices_a_split_heap() {
    let (mut heap, mut memory) = fresh();
    let a = heap.allocate(&mut memory, layout(32, 1)).unwrap();
    let b = heap.allocate(&mut memory, layout(32, 1)).unwrap();
    heap.dealloc(&mut memory, a, layout(32, 1));
    memory.write_word(b, 77);
    assert_eq!(
        heap::selftest(&mut heap, &mut memory),
        Err("free list did not coalesce back to a single block")
    );
    assert_eq!(memory.read_word(b), 77);
    assert_eq!(heap.free_blocks(&memory), 2);
}

#[test]
fn the_heap_claims_its_frames() {
    let regions = [
        MemoryRegion::new(0x1000, 3, MemoryRegion::CONVENTIONAL),
        MemoryRegion::new(0x10_0000, 300, MemoryRegion::CONVENTIONAL),
    ];
    let mut memory = RamWindow::new(0, 0x3_0000);
    let mut frames = None;
    let mut heap = Heap::empty();
    assert_eq!(heap::init(&mut frames, &mut heap, &mut memory), None);
    assert_eq!(frame::init(&mut frames, &regions), 303);
    assert_eq!(heap::init(&mut frames, &mut heap, &mut memory), Some((0x10_0000, 0x10_0000)));
    assert_eq!(frame::frames_in_use(&frames), 256);
    assert_eq!(heap.free_bytes(&memory), 0x10_0000);
    // The frames that were stepped over are still handed out.
    assert_eq!(frame::alloc_frame(&mut frames, &mut memory), Some(0x3000));
}

#[test]
fn memory_comes_up_on_a_good_map() {
    let regions = [MemoryRegion::new(0x10_0000, 300, MemoryRegion::CONVENTIONAL)];
    let mut memory = RamWindow::new(0, 0x5_0000);
    let mut frames = None;
    let mut heap = Heap::empty();
    let report = bring_up_memory(&regions, &mut frames, &mut heap, &mut memory).unwrap();
    assert_eq!(
        report,
        MemoryReport {
            total_frames: 300,
            total_mib: 1,
            heap_start: 0x10_2000,
            heap_kib: 1024,
            frames_in_use: 256,
        }
    );
    assert_eq!(heap.free_blocks(&memory), 1);
    // The heap's check has run: its vector was here.
    assert_eq!(memory.read_word(0x10_2000 + 8160 + 8 * 1023), 1023);
    assert_eq!(memory.read_word(0x10_2000 + 64), 0x10_0000 - 64);
}

#[test]
fn frames_of_the_heap_are_not_handed_out_again() {
    let regions = [
        MemoryRegion::new(0x1_0000, 5, MemoryRegion::CONVENTIONAL),
        MemoryRegion::new(0x10_0000, 300, MemoryRegion::CONVENTIONAL),
    ];
    let mut memory = RamWindow::new(0, 0x5_0000);
    let mut frames = None;
    let mut heap = Heap::empty();
    let report = bring_up_memory(&regions, &mut frames, &mut heap, &mut memory).unwrap();
    assert_eq!(report.heap_start, 0x10_0000);
    let mut handed_out = vec![];
    while let Some(frame) = frame::alloc_frame(&mut frames, &mut memory) {
        assert!(frame < 0x10_0000 || frame >= 0x20_0000);
        handed_out.push(frame);
    }
    // The frames that were stepped over, the last first, then the two that
    // the frame check took, then what lies behind the heap.
    assert_eq!(handed_out[..6], [0x1_4000, 0x1_3000, 0x1_2000, 0x1_0000, 0x1_1000, 0x20_0000]);
    assert_eq!(handed_out.len(), 305 - 256);
}

#[test]
fn memory_faults_are_told_apart() {
    let mut memory = RamWindow::new(0, 0x5_0000);
    let mut heap = Heap::empty();
    let mut none = None;
    assert!(matches!(
        bring_up_memory(&[], &mut none, &mut heap, &mut memory),
        Err(MemoryFault::NoUsableMemory)
    ));
    let one = [MemoryRegion::new(0x1000, 1, MemoryRegion::CONVENTIONAL)];
    let mut frames = None;
    assert!(matches!(
        bring_up_memory(&one, &mut frames, &mut heap, &mut memory),
        Err(MemoryFault::FrameSelftest(
            1,
            "alloc_frame returned None for the second of two frames"
        ))
    ));
    // Two frames short of a heap once the selftest has taken two.
    let short = [MemoryRegion::new(0x10_0000, 257, MemoryRegion::CONVENTIONAL)];
    let mut frames = None;
    assert!(matches!(
        bring_up_memory(&short, &mut frames, &mut heap, &mut memory),
        Err(MemoryFault::NoHeapFrames(257))
    ));
    let enough = [MemoryRegion::new(0x10_0000, 258, MemoryRegion::CONVENTIONAL)];
    let mut frames = None;
    assert!(bring_up_memory(&enough, &mut frames, &mut heap, &mut memory).is_ok());
}
