//! What the kernel decides on its way up: whether to trust the handoff,
//! whether the machine's memory is usable, and whether both interrupt lines
//! are live.

use crate::boot_info::{usable_runs, BootInfo, FrameRun, MemoryRegion, PAGE_SIZE};
use crate::kernel::frame::{
    a_contiguous_request_strands_nothing, a_seeded_allocator_is_well_formed, disjoint_runs,
    frame_count, lent_frames, mapped_runs, slot_wf, stock, FrameAllocator,
};
use crate::kernel::frame_supply::{
    advanced, all_frames, first_run, frames_of, in_frames, lemma_append, lemma_nodes_are_in_frames,
    only_frames_changed, only_nodes_changed, shrunk,
};
use crate::kernel::free_list::{has_room, FreeBlock};
use crate::kernel::growable::state_of;
use crate::kernel::heap::{
    a_block_of_selftest_room_is_enough, after_selftest, armed, lemma_frames_not_stacked,
    the_selftest_reads_the_free_list_alone, Heap, HEAP_FRAMES, SELFTEST_ROOM,
};
use crate::qemu_exit::QemuExitCode;
use crate::ram::WordMemory;
use vstd::prelude::*;

verus! {

/// Rate the interval timer is programmed to interrupt at.
pub const TIMER_HZ: u32 = 100;

/// How many ticks prove that the timer works.
pub const TICKS_REQUIRED: u64 = 100;

/// How many ticks to wait for a key: ten seconds of them.
pub const KEYBOARD_TICKS: u64 = 1000;

/// Decide whether to trust what the bootloader handed over; `None` stands
/// for a null pointer. An error is the reason to report before giving up.
pub fn accept_boot_info(info: Option<&BootInfo>) -> (outcome: Result<(), &'static str>)
    ensures
        match info {
            None => outcome matches Err(why) && why@ == "FATAL: boot_info pointer is null"@,
            Some(info) if info.valid() => outcome is Ok,
            Some(info) => outcome matches Err(why) && why@
                == "FATAL: boot_info failed validation (magic/version/format)"@,
        },
{
    match info {
        None => Err("FATAL: boot_info pointer is null"),
        Some(info) => {
            if info.is_valid() {
                Ok(())
            } else {
                Err("FATAL: boot_info failed validation (magic/version/format)")
            }
        },
    }
}

/// The machine's memory, once both allocators are up.
#[derive(Clone, Copy, Debug, PartialEq, Eq, Structural)]
pub struct MemoryReport {
    /// All usable frames.
    pub total_frames: u64,
    /// What they come to, in whole mebibytes.
    pub total_mib: u64,
    pub heap_start: u64,
    /// The heap's size in kibibytes.
    pub heap_kib: u64,
    /// Frames handed out so far.
    pub frames_in_use: u64,
}

/// Why the machine's memory is not usable.
#[derive(Clone, Copy, Debug)]
pub enum MemoryFault {
    /// The memory map holds no usable memory.
    NoUsableMemory,
    /// The frame allocator's selftest failed, with this many usable frames.
    FrameSelftest(u64, &'static str),
    /// No run is long enough for the heap, with this many usable frames.
    NoHeapFrames(u64),
    /// The heap's selftest failed.
    HeapSelftest(&'static str),
}

/// Where the heap goes: the first run that is long enough once the frame
/// allocator's selftest has taken two single frames.
pub open spec fn heap_run(runs: Seq<FrameRun>) -> int {
    first_run(advanced(runs, 2), HEAP_FRAMES)
}

/// The frames of a heap that starts at `start`.
pub open spec fn heap_frames(start: u64) -> Seq<u64> {
    frames_of(FrameRun { start, frames: HEAP_FRAMES })
}

/// Bring up both allocators on a memory map whose regions do not overlap and
/// are mapped, and check them.
///
/// That takes at least two usable frames, and a run that is long enough for
/// the heap after the selftest has taken two frames.
pub fn bring_up_memory<'a, M: WordMemory>(
    regions: &'a [MemoryRegion],
    frames: &mut Option<FrameAllocator<'a>>,
    heap: &mut Heap,
    memory: &mut M,
) -> (outcome: Result<MemoryReport, MemoryFault>)
    requires
        frame_count(usable_runs(regions@)) <= u64::MAX,
        disjoint_runs(usable_runs(regions@)),
        mapped_runs(old(memory).words(), usable_runs(regions@)),
    ensures
        only_frames_changed(
            old(memory).words(),
            final(memory).words(),
            all_frames(usable_runs(regions@)),
        ),
        frame_count(usable_runs(regions@)) > 0 ==> slot_wf(*final(frames), final(memory).words()),
        ({
            let runs = usable_runs(regions@);
            let total = frame_count(runs);
            match outcome {
                Ok(report) => {
                    &&& total >= 2
                    &&& heap_run(runs) < advanced(runs, 2).len()
                    &&& report == (MemoryReport {
                        total_frames: total as u64,
                        total_mib: (total * PAGE_SIZE / 0x10_0000) as u64,
                        heap_start: advanced(runs, 2)[heap_run(runs)].start,
                        heap_kib: 1024,
                        frames_in_use: HEAP_FRAMES,
                    })
                    &&& *final(frames) is Some
                    &&& (*final(frames))->0.in_use() == HEAP_FRAMES
                    &&& (*final(frames))->0.live() == heap_frames(report.heap_start).to_set()
                    &&& (*final(frames))->0.stack() == all_frames(
                        advanced(runs, 2).take(heap_run(runs)),
                    ).reverse() + all_frames(runs).take(2)
                    &&& (*final(frames))->0.pending() == shrunk(
                        advanced(runs, 2).skip(heap_run(runs)),
                        HEAP_FRAMES,
                    )
                    &&& forall|f: u64| #[trigger]
                        stock(*final(frames)).contains(f) <==> (all_frames(runs).contains(f)
                            && !heap_frames(report.heap_start).contains(f))
                    &&& final(heap).wf(final(memory).words())
                    &&& final(heap).region() == (FreeBlock {
                        start: report.heap_start,
                        size: (HEAP_FRAMES * PAGE_SIZE) as u64,
                    })
                    &&& final(heap).blocks() == seq![final(heap).region()]
                    &&& final(heap).live() == Map::<u64, u64>::empty()
                    &&& forall|addr: u64|
                        final(heap).region().covers(addr as int)
                            ==> #[trigger] final(memory).words()[addr] == after_selftest(
                            armed(old(memory).words(), final(heap).region()),
                        ).words[addr]
                    &&& forall|addr: u64|
                        !final(heap).region().covers(addr as int)
                            && !(*final(frames))->0.stack().contains(addr)
                            ==> #[trigger] final(memory).words()[addr] == old(memory).words()[addr]
                },
                Err(MemoryFault::NoUsableMemory) => total == 0 && *final(frames) == *old(frames)
                    && *final(heap) == *old(heap),
                Err(MemoryFault::FrameSelftest(count, why)) => {
                    &&& total == 1
                    &&& count == total
                    &&& why@ == "alloc_frame returned None for the second of two frames"@
                    &&& stock(*final(frames)) == Seq::<u64>::empty()
                    &&& lent_frames(*final(frames)) == all_frames(runs).to_set()
                    &&& only_nodes_changed(
                        old(memory).words(),
                        final(memory).words(),
                        all_frames(runs),
                    )
                    &&& *final(heap) == *old(heap)
                },
                Err(MemoryFault::NoHeapFrames(count)) => {
                    &&& total >= 2
                    &&& count == total
                    &&& heap_run(runs) == advanced(runs, 2).len()
                    &&& stock(*final(frames)) == all_frames(advanced(runs, 2)).reverse()
                        + all_frames(runs).take(2)
                    &&& lent_frames(*final(frames)) == Set::<u64>::empty()
                    &&& only_nodes_changed(
                        old(memory).words(),
                        final(memory).words(),
                        all_frames(runs),
                    )
                    &&& *final(heap) == *old(heap)
                },
                Err(MemoryFault::HeapSelftest(_)) => false,
            }
        }),
{
    let ghost runs = usable_runs(regions@);
    let total: u64 = crate::kernel::frame::init(frames, regions);
    if total == 0 {
        return Err(MemoryFault::NoUsableMemory);
    }
    proof {
        a_seeded_allocator_is_well_formed(frames->0, regions@, memory.words());
        crate::kernel::frame::lemma_frame_count(runs);
    }
    let ghost first = memory.words();
    let ghost supply = all_frames(runs);
    let tested = crate::kernel::frame::selftest(frames, memory);
    proof {
        lemma_nodes_are_in_frames(first, memory.words(), supply, supply);
    }
    match tested {
        Ok(()) => {},
        Err(why) => {
            proof {
                assert(supply =~= seq![supply[0]]);
                assert(supply.to_set() =~= Set::<u64>::empty().insert(supply[0]));
            }
            return Err(MemoryFault::FrameSelftest(total, why));
        },
    }
    let ghost seeded = frames->0;
    let ghost tested_words = memory.words();
    let ghost two_taken = frames->0.stack();
    let ghost passed = all_frames(advanced(runs, 2).take(heap_run(runs)));
    proof {
        crate::kernel::frame_supply::lemma_first_run(advanced(runs, 2), HEAP_FRAMES);
    }
    let (heap_start, heap_size) = match crate::kernel::heap::init(frames, heap, memory) {
        Some(claimed) => claimed,
        None => {
            proof {
                let slot = *frames;
                assert(stock(slot) =~= slot->0.stack());
            }
            return Err(MemoryFault::NoHeapFrames(total));
        },
    };
    let ghost slot = *frames;
    proof {
        assert(slot->0.live() =~= heap_frames(heap_start).to_set());
        assert forall|f: u64| #[trigger] stock(slot).contains(f) <==> (supply.contains(f)
            && !heap_frames(heap_start).contains(f)) by {
            a_contiguous_request_strands_nothing(
                seeded,
                slot->0,
                tested_words,
                HEAP_FRAMES,
                Some(heap_start),
                f,
            );
        }
    }
    let ghost words = memory.words();
    let ghost fresh = *heap;
    let frames_in_use: u64 = crate::kernel::frame::frames_in_use(frames);
    proof {
        assert(heap.blocks()[0].size >= SELFTEST_ROOM);
        assert(has_room(heap.blocks(), SELFTEST_ROOM as int));
        a_block_of_selftest_room_is_enough(state_of(*heap, memory.words()));
    }
    match crate::kernel::heap::selftest(heap, memory) {
        Ok(()) => {},
        Err(why) => return Err(MemoryFault::HeapSelftest(why)),
    }
    proof {
        lemma_frames_not_stacked(slot->0, words, heap_start);
        crate::kernel::frame::allocator_survives_writes_elsewhere(
            slot->0,
            words,
            memory.words(),
        );
        assert forall|addr: u64| !in_frames(supply, addr) implies #[trigger] memory.words()[addr]
            == first[addr] by {
            assert(!heap.region().covers(addr as int));
            assert(memory.words()[addr] == words[addr]);
        }
        let region = heap.region();
        assert forall|addr: u64| region.covers(addr as int) implies #[trigger] memory.words()[addr]
            == after_selftest(armed(first, region)).words[addr] by {
            assert(!two_taken.contains(addr)) by {
                if two_taken.contains(addr) {
                    lemma_append(passed.reverse(), two_taken);
                    assert(slot->0.stack().contains(addr));
                }
            }
            assert(tested_words[addr] == first[addr]);
            assert(words[addr] == armed(tested_words, region).words[addr]);
            the_selftest_reads_the_free_list_alone(
                state_of(fresh, words),
                armed(first, region),
                addr,
            );
        }
        assert forall|addr: u64|
            !region.covers(addr as int) && !slot->0.stack().contains(addr) implies
            #[trigger] memory.words()[addr] == first[addr] by {
            lemma_append(passed.reverse(), two_taken);
            assert(words[addr] == tested_words[addr]);
        }
    }
    Ok(
        MemoryReport {
            total_frames: total,
            total_mib: total / 256,
            heap_start,
            heap_kib: heap_size / 1024,
            frames_in_use,
        },
    )
}

/// Whether the timer has proven itself.
pub fn timer_works(ticks: u64) -> (works: bool)
    ensures
        works == (ticks >= TICKS_REQUIRED),
{
    ticks >= TICKS_REQUIRED
}

/// The last tick at which a key is still waited for, from tick `now` on.
pub fn keyboard_deadline(now: u64) -> (deadline: u64)
    requires
        now + KEYBOARD_TICKS <= u64::MAX,
    ensures
        deadline == now + KEYBOARD_TICKS,
        deadline == now + 10 * TIMER_HZ,
{
    now + KEYBOARD_TICKS
}

/// How the wait for a key stands.
#[derive(Clone, Copy, Debug, PartialEq, Eq, Structural)]
pub enum KeyboardWait {
    /// Halt until the next interrupt, then look again.
    Waiting,
    /// The keyboard works.
    Received,
    /// No key came in time.
    TimedOut,
}

/// How the wait for a key stands at tick `ticks`, with `events` key events
/// seen so far.
///
/// The wait is bounded in ticks, so that a dead keyboard reports itself: the
/// timer is known good by now, and makes a serviceable clock.
pub fn keyboard_wait(events: u64, ticks: u64, deadline: u64) -> (wait: KeyboardWait)
    ensures
        wait == (if events > 0 {
            KeyboardWait::Received
        } else if ticks > deadline {
            KeyboardWait::TimedOut
        } else {
            KeyboardWait::Waiting
        }),
{
    if events != 0 {
        KeyboardWait::Received
    } else if ticks > deadline {
        KeyboardWait::TimedOut
    } else {
        KeyboardWait::Waiting
    }
}

/// What the kernel reports once the wait is over, if it is.
pub fn exit_code(wait: KeyboardWait) -> (code: Option<QemuExitCode>)
    ensures
        code == (match wait {
            KeyboardWait::Waiting => None,
            KeyboardWait::Received => Some(QemuExitCode::Success),
            KeyboardWait::TimedOut => Some(QemuExitCode::Failed),
        }),
{
    match wait {
        KeyboardWait::Waiting => None,
        KeyboardWait::Received => Some(QemuExitCode::Success),
        KeyboardWait::TimedOut => Some(QemuExitCode::Failed),
    }
}

/// The timer ticks a hundred times a second. It is trusted after one second
/// of ticks, and a key is waited for ten seconds.
pub proof fn the_waits_are_in_seconds()
    ensures
        TIMER_HZ == 100,
        TICKS_REQUIRED == TIMER_HZ,
        KEYBOARD_TICKS == 10 * TIMER_HZ,
        crate::kernel::pit::LOWEST_RATE <= TIMER_HZ <= crate::kernel::pit::BASE_FREQUENCY,
{
}

/// The heap goes into the first run that holds its 256 frames once two
/// frames are gone, and is found a place if any run does.
pub proof fn the_heap_goes_into_the_first_run_that_holds_it(runs: Seq<FrameRun>, i: int)
    requires
        0 <= i < advanced(runs, 2).len(),
    ensures
        advanced(runs, 2)[i].frames >= 256 ==> heap_run(runs) <= i,
        heap_run(runs) == i ==> advanced(runs, 2)[i].frames >= 256,
        i < heap_run(runs) ==> advanced(runs, 2)[i].frames < 256,
{
    crate::kernel::frame_supply::the_first_run_that_holds_them_serves(
        advanced(runs, 2),
        HEAP_FRAMES,
        i,
    );
}

/// The heap's frames are the 256 pages from its start on.
pub proof fn the_heaps_frames_are_its_pages(start: u64, i: int)
    requires
        start + 0x10_0000 < 0x1_0000_0000_0000_0000,
        0 <= i < 256,
    ensures
        heap_frames(start).len() == 256,
        heap_frames(start)[i] == start + 4096 * i,
{
}

} // verus!
