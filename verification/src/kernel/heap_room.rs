//! How much room the heap's boot-time check needs.
//!
//! A block that holds everything a buffer ever claims serves each of its
//! claims, whatever the rest of the list looks like: a claim that another
//! block serves costs nothing, and one that this block serves costs its size.

use crate::kernel::free_list::{
    canonical, carvable, covered, free_list_is_determined_by_its_bytes, has_room, lemma_carve,
    lemma_first_fit, lemma_release, lemma_room_carve, lemma_room_fits, lemma_room_release,
    releasable, FreeBlock, GRAIN,
};
use crate::kernel::growable::BufferState;
use crate::kernel::heap_check::{
    after_box, box_served, lemma_capacity, merge_served, string_of, string_served, string_step,
    vector_of, vector_served, vector_step,
};
use crate::kernel::heap_words::HeapState;
use crate::kernel::layout::Layout;
use vstd::prelude::*;

verus! {

/// A claim that the largest block could serve alone is served, and takes its
/// bytes off the list.
proof fn lemma_claim(heap: HeapState, size: u64, room: int)
    requires
        canonical(heap.blocks),
        has_room(heap.blocks, room),
        0 < size <= room,
        size % GRAIN == 0,
    ensures
        heap.serves(size),
        (FreeBlock { start: heap.place(size), size }).wf(),
        canonical(heap.claimed(size).blocks),
        has_room(heap.claimed(size).blocks, room - size),
        forall|addr: int| #[trigger]
            covered(heap.claimed(size).blocks, addr) <==> (covered(heap.blocks, addr) && !(
            heap.place(size) <= addr < heap.place(size) + size)),
        forall|addr: int|
            heap.place(size) <= addr < heap.place(size) + size ==> #[trigger] covered(
                heap.blocks,
                addr,
            ),
{
    reveal(HeapState::claimed);
    let blocks = heap.blocks;
    lemma_room_fits(blocks, size, room);
    lemma_first_fit(blocks, size, GRAIN);
    let at = crate::kernel::free_list::first_fit(blocks, size, GRAIN);
    assert(blocks[at].wf());
    assert(carvable(blocks, at, blocks[at].start, size));
    lemma_carve(blocks, at, blocks[at].start, size);
    lemma_room_carve(blocks, at, size, room);
    assert forall|addr: int|
        heap.place(size) <= addr < heap.place(size) + size implies #[trigger] covered(
        blocks,
        addr,
    ) by {
        assert(blocks[at].covers(addr));
    }
}

/// Giving memory back puts its bytes on the list and takes no room.
proof fn lemma_given_back(heap: HeapState, payload: u64, size: u64, room: int)
    requires
        releasable(heap.blocks, payload, size),
        has_room(heap.blocks, room),
    ensures
        canonical(heap.given_back(payload, size).blocks),
        has_room(heap.given_back(payload, size).blocks, room),
        forall|addr: int| #[trigger]
            covered(heap.given_back(payload, size).blocks, addr) <==> (covered(heap.blocks, addr)
                || payload <= addr < payload + size),
{
    reveal(HeapState::given_back);
    lemma_release(heap.blocks, payload, size);
    lemma_room_release(heap.blocks, payload, size, room);
}

/// The byte at `addr` belongs to the buffer.
spec fn spans(buffer: BufferState, addr: int) -> bool {
    buffer.cap > 0 && buffer.addr <= addr < buffer.addr + BufferState::footprint(buffer.cap)
}

/// The free list and the buffer make up what was free before, between them.
spec fn split_off(buffer: BufferState, base: Seq<FreeBlock>) -> bool {
    &&& canonical(base)
    &&& canonical(buffer.heap.blocks)
    &&& buffer.cap > 0 ==> (FreeBlock {
        start: buffer.addr,
        size: BufferState::footprint(buffer.cap),
    }).wf()
    &&& forall|addr: int|
        #![trigger covered(base, addr)]
        #![trigger covered(buffer.heap.blocks, addr)]
        covered(base, addr) <==> (covered(buffer.heap.blocks, addr) || spans(buffer, addr))
    &&& forall|addr: int| #[trigger]
        covered(buffer.heap.blocks, addr) ==> !spans(buffer, addr)
}

/// A buffer whose memory is given back leaves the list as it was.
proof fn lemma_dropped(buffer: BufferState, base: Seq<FreeBlock>)
    requires
        split_off(buffer, base),
    ensures
        buffer.dropped().blocks == base,
{
    let size = BufferState::footprint(buffer.cap);
    if buffer.cap > 0 {
        lemma_given_back(buffer.heap, buffer.addr, size, 0);
    }
    assert forall|addr: int| covered(buffer.dropped().blocks, addr) <==> covered(base, addr) by {
        assert(covered(base, addr) <==> (covered(buffer.heap.blocks, addr) || spans(buffer, addr)));
    }
    free_list_is_determined_by_its_bytes(buffer.dropped().blocks, base);
}

/// A move to a capacity that there is room for is served, and costs its size.
proof fn lemma_moved(buffer: BufferState, base: Seq<FreeBlock>, cap: u64, room: int)
    requires
        split_off(buffer, base),
        has_room(buffer.heap.blocks, room),
        cap > 0,
        0 < BufferState::footprint(cap) <= room,
        BufferState::footprint(cap) % GRAIN == 0,
    ensures
        buffer.heap.serves(BufferState::footprint(cap)),
        split_off(buffer.moved(cap), base),
        has_room(buffer.moved(cap).heap.blocks, room - BufferState::footprint(cap)),
{
    let size = BufferState::footprint(cap);
    let old_size = BufferState::footprint(buffer.cap);
    let claimed = buffer.heap.claimed(size);
    let moved = buffer.moved(cap);
    lemma_claim(buffer.heap, size, room);
    if buffer.cap > 0 {
        let filled = HeapState {
            blocks: claimed.blocks,
            words: crate::kernel::growable::laid_out(claimed.words, moved.addr, buffer.contents),
        };
        assert(releasable(filled.blocks, buffer.addr, old_size)) by {
            assert forall|addr: int|
                buffer.addr <= addr < buffer.addr + old_size implies !covered(
                filled.blocks,
                addr,
            ) by {
                assert(spans(buffer, addr));
                assert(!covered(buffer.heap.blocks, addr));
            }
        }
        lemma_given_back(filled, buffer.addr, old_size, room - size);
    }
    assert forall|addr: int|
        #![trigger covered(base, addr)]
        #![trigger covered(moved.heap.blocks, addr)]
        covered(base, addr) <==> (covered(moved.heap.blocks, addr) || spans(moved, addr)) by {
        assert(covered(base, addr) <==> (covered(buffer.heap.blocks, addr) || spans(buffer, addr)));
        assert(covered(claimed.blocks, addr) <==> (covered(buffer.heap.blocks, addr) && !spans(
            moved,
            addr,
        )));
        if spans(moved, addr) {
            assert(covered(buffer.heap.blocks, addr));
        }
    }
    assert forall|addr: int| #[trigger] covered(moved.heap.blocks, addr) implies !spans(
        moved,
        addr,
    ) by {
        assert(covered(claimed.blocks, addr) <==> (covered(buffer.heap.blocks, addr) && !spans(
            moved,
            addr,
        )));
        if spans(moved, addr) {
            assert(covered(buffer.heap.blocks, addr));
            assert(!spans(buffer, addr));
        }
    }
}

/// A growing vector, on a heap with room for all it ever claims.
proof fn lemma_vector(heap: HeapState, len: nat, room: int)
    requires
        canonical(heap.blocks),
        has_room(heap.blocks, room),
        room >= 16352,
        len <= 1024,
    ensures
        ({
            let buffer = vector_of(heap, len);
            &&& split_off(buffer, heap.blocks)
            &&& vector_step(buffer.cap as int)
            &&& 8 * len <= buffer.cap
            &&& has_room(
                buffer.heap.blocks,
                room - (if buffer.cap == 0 { 0 } else { 2 * buffer.cap - 32 }),
            )
            &&& len < 1024 ==> buffer.served(8 * len as int + 8, 32)
        }),
    decreases len,
{
    let buffer = vector_of(heap, len);
    if len > 0 {
        let less = (len - 1) as nat;
        lemma_vector(heap, less, room);
        let short = vector_of(heap, less);
        if 8 * len > short.cap {
            let cap = short.next_cap(32);
            lemma_capacity(Layout { size: cap, align: 1 });
            let left = room - (if short.cap == 0 { 0 } else { 2 * short.cap - 32 });
            lemma_moved(short, heap.blocks, cap, left);
        }
        let fitted = short.fitted(8 * len as int, 32);
        assert(split_off(buffer, heap.blocks)) by {
            assert(split_off(fitted, heap.blocks));
            assert(forall|addr: int| spans(buffer, addr) == spans(fitted, addr));
        }
    }
    if len < 1024 && 8 * len + 8 > buffer.cap {
        let cap = buffer.next_cap(32);
        lemma_capacity(Layout { size: cap, align: 1 });
        let left = room - (if buffer.cap == 0 { 0 } else { 2 * buffer.cap - 32 });
        lemma_moved(buffer, heap.blocks, cap, left);
    }
}

/// A growing string, on a heap with room for all it ever claims.
proof fn lemma_string(heap: HeapState, times: nat, room: int)
    requires
        canonical(heap.blocks),
        has_room(heap.blocks, room),
        room >= 1024,
        times <= 100,
    ensures
        ({
            let buffer = string_of(heap, times);
            &&& split_off(buffer, heap.blocks)
            &&& string_step(buffer.cap as int)
            &&& 4 * times <= buffer.cap
            &&& has_room(buffer.heap.blocks, room - 2 * buffer.cap)
            &&& times < 100 ==> buffer.served(4 * times as int + 4, 8)
        }),
    decreases times,
{
    let buffer = string_of(heap, times);
    if times > 0 {
        let less = (times - 1) as nat;
        lemma_string(heap, less, room);
        let short = string_of(heap, less);
        if 4 * times > short.cap {
            let cap = short.next_cap(8);
            lemma_capacity(Layout { size: cap, align: 1 });
            lemma_moved(short, heap.blocks, cap, room - 2 * short.cap);
        }
        let fitted = short.fitted(4 * times as int, 8);
        assert(split_off(buffer, heap.blocks)) by {
            assert(split_off(fitted, heap.blocks));
            assert(forall|addr: int| spans(buffer, addr) == spans(fitted, addr));
        }
    }
    if times < 100 && 4 * times + 4 > buffer.cap {
        let cap = buffer.next_cap(8);
        lemma_capacity(Layout { size: cap, align: 1 });
        lemma_moved(buffer, heap.blocks, cap, room - 2 * buffer.cap);
    }
}

/// A box is served by a grain, and leaves the list as it was.
pub proof fn lemma_room_for_box(heap: HeapState, room: int)
    requires
        canonical(heap.blocks),
        has_room(heap.blocks, room),
        room >= 16,
    ensures
        box_served(heap),
        after_box(heap).blocks == heap.blocks,
{
    lemma_claim(heap, 16, room);
    let boxed = heap.place(16);
    let stored = heap.claimed(16).stored(boxed, 0xdead_beef);
    lemma_given_back(stored, boxed, 16, room - 16);
    assert forall|addr: int| covered(after_box(heap).blocks, addr) <==> covered(
        heap.blocks,
        addr,
    ) by {
        assert(covered(heap.claimed(16).blocks, addr) <==> (covered(heap.blocks, addr) && !(boxed
            <= addr < boxed + 16)));
    }
    free_list_is_determined_by_its_bytes(after_box(heap).blocks, heap.blocks);
}

/// A vector is served by a block that holds all its buffers, and leaves the
/// list as it was.
pub proof fn lemma_room_for_vector(heap: HeapState, room: int)
    requires
        canonical(heap.blocks),
        has_room(heap.blocks, room),
        room >= 16352,
    ensures
        vector_served(heap, 1024),
        vector_of(heap, 1024).dropped().blocks == heap.blocks,
{
    assert forall|n: nat| n < 1024 implies (#[trigger] vector_of(heap, n)).served(
        8 * n as int + 8,
        32,
    ) by {
        lemma_vector(heap, n, room);
    }
    lemma_vector(heap, 1024, room);
    lemma_dropped(vector_of(heap, 1024), heap.blocks);
}

/// A string is served by a block that holds all its buffers, and leaves the
/// list as it was.
pub proof fn lemma_room_for_string(heap: HeapState, room: int)
    requires
        canonical(heap.blocks),
        has_room(heap.blocks, room),
        room >= 1024,
    ensures
        string_served(heap, 100),
        string_of(heap, 100).dropped().blocks == heap.blocks,
{
    assert forall|n: nat| n < 100 implies (#[trigger] string_of(heap, n)).served(
        4 * n as int + 4,
        8,
    ) by {
        lemma_string(heap, n, room);
    }
    lemma_string(heap, 100, room);
    lemma_dropped(string_of(heap, 100), heap.blocks);
}

/// Three neighbours are served by a block that holds them all.
pub proof fn lemma_room_for_merge(heap: HeapState, room: int)
    requires
        canonical(heap.blocks),
        has_room(heap.blocks, room),
        room >= 192,
    ensures
        merge_served(heap),
{
    lemma_claim(heap, 64, room);
    lemma_claim(heap.claimed(64), 64, room - 64);
    lemma_claim(heap.claimed(64).claimed(64), 64, room - 128);
}

} // verus!
