//! The kernel heap: an address-ordered free list with splitting and
//! bidirectional coalescing, backed by frames from [`crate::kernel::frame`].
//!
//! Each free block stores its header in its own first sixteen bytes: its
//! size, then the address of the next free block, zero for none. So the
//! heap costs no side metadata. Freeing must *merge*: a heap that split but
//! never merged would fragment into a chain of unusable slivers while still
//! reporting plenty of free bytes.
//!
//! # The 16-byte grid
//!
//! Every block start and every block size is a multiple of [`GRAIN`].
//! Requested sizes are rounded up, and requested alignments are raised to at
//! least `GRAIN`. So the front padding and the tail remainder of any carve
//! are themselves multiples of 16: each is either zero, or large enough to
//! be a whole block. A remainder too small to hold a header cannot arise.

use crate::align::{align_up, checked_next_multiple_of};
use crate::boot_info::{FrameRun, PAGE_SIZE};
use crate::kernel::frame::{alloc_contiguous, slot_wf, stock, took_contiguous, FrameAllocator};
use crate::kernel::frame_supply::{
    accessible, all_frames, frames_of, in_frames, lemma_append, lemma_nodes_are_in_frames,
    only_frames_changed, only_nodes_changed, paged,
};
use crate::kernel::free_list::{
    canonical, carvable, carve, covered, first_fit, fits, has_room, lemma_below_is, lemma_carve,
    lemma_first_fit, lemma_first_fit_is, lemma_len_bound, lemma_merge, lemma_release,
    lemma_total_one, lemma_total_take, release, total, FreeBlock, GRAIN,
};
use crate::kernel::growable::{kept, lemma_kept, state_of};
use crate::kernel::heap_check::{
    after_box, after_merge, alike_at, box_served, check_box, check_merge, check_string,
    check_vector, lemma_box_alike, lemma_merge_alike, lemma_string_alike, lemma_vector_alike,
    merge_served, string_of, string_served, vector_of, vector_served,
};
use crate::kernel::heap_room::{
    lemma_room_for_box, lemma_room_for_merge, lemma_room_for_string, lemma_room_for_vector,
};
use crate::kernel::heap_words::{
    addr_at, allocation, carved_words, header_at, lemma_carve_linked, lemma_carve_only_free,
    lemma_header_words, lemma_live_releasable, lemma_mapped_words, lemma_partition_at,
    lemma_partition_carve, lemma_partition_release, lemma_release_linked, lemma_release_only_free,
    lent, linked, mapped, only_free_changed, only_inside_changed, partition, released_words,
    HeapState,
};
use crate::kernel::layout::{
    lemma_multiple_on_grid, lemma_on_grid, lemma_payload_aligned, normalise, Layout,
};
use crate::ram::WordMemory;
use vstd::prelude::*;

verus! {

/// The kernel heap.
pub struct Heap {
    /// Address of the first free block, or zero.
    head: u64,
    /// The free list that the words in memory spell out.
    blocks: Ghost<Seq<FreeBlock>>,
    /// The allocations handed out, each with its size on the grid.
    live: Ghost<Map<u64, u64>>,
    /// The memory this heap manages.
    region: Ghost<FreeBlock>,
}

impl Heap {
    /// The free list.
    pub closed spec fn blocks(&self) -> Seq<FreeBlock> {
        self.blocks@
    }

    /// The allocations handed out, each with its size on the grid.
    pub closed spec fn live(&self) -> Map<u64, u64> {
        self.live@
    }

    /// The memory this heap manages.
    pub closed spec fn region(&self) -> FreeBlock {
        self.region@
    }

    /// Where the list starts.
    pub closed spec fn head(&self) -> u64 {
        self.head
    }

    /// The free list is in memory, in canonical form, and together with the
    /// allocations it makes up the whole region.
    pub open spec fn wf(&self, words: Map<u64, u64>) -> bool {
        &&& canonical(self.blocks())
        &&& linked(words, self.head(), self.blocks())
        &&& partition(self.region(), self.blocks(), self.live())
        &&& mapped(words, self.region())
    }

    /// A heap that manages nothing yet.
    pub fn empty() -> (heap: Heap)
        ensures
            heap.blocks() == Seq::<FreeBlock>::empty(),
            heap.live() == Map::<u64, u64>::empty(),
            heap.region() == (FreeBlock { start: 0, size: 0 }),
            forall|words: Map<u64, u64>| heap.wf(words),
    {
        proof {
            reveal(partition);
        }
        Heap {
            head: 0,
            blocks: Ghost(Seq::empty()),
            live: Ghost(Map::empty()),
            region: Ghost(FreeBlock { start: 0, size: 0 }),
        }
    }

    /// Take over the region of `size` bytes at `start`, all of it free.
    #[verifier::spinoff_prover]
    pub fn init<M: WordMemory>(&mut self, memory: &mut M, start: u64, size: u64)
        requires
            (FreeBlock { start, size }).wf(),
            mapped(old(memory).words(), FreeBlock { start, size }),
        ensures
            final(self).wf(final(memory).words()),
            final(self).blocks() == seq![FreeBlock { start, size }],
            final(self).live() == Map::<u64, u64>::empty(),
            final(self).region() == (FreeBlock { start, size }),
            final(memory).words() == old(memory).words().insert(start, size).insert(
                (start + 8) as u64,
                0,
            ),
            only_free_changed(
                old(memory).words(),
                final(memory).words(),
                seq![FreeBlock { start, size }],
            ),
    {
        let ghost block = FreeBlock { start, size };
        let ghost list = seq![block];
        let ghost before = memory.words();
        assert(block.covers(start as int) && block.covers(start + 8));
        memory.write_word(start, size);
        memory.write_word(start + 8, 0);
        self.head = start;
        self.blocks = Ghost(list);
        self.live = Ghost(Map::empty());
        self.region = Ghost(block);
        proof {
            reveal(partition);
            assert(header_at(memory.words(), self.blocks(), 0));
            assert forall|addr: int| covered(seq![block], addr) <==> block.covers(addr) by {
                if block.covers(addr) {
                    assert(seq![block][0].covers(addr));
                }
            }
            assert(only_free_changed(before, memory.words(), seq![block])) by {
                assert(memory.words().dom() =~= before.dom());
                assert(block.covers(start as int) && block.covers(start + 8));
            }
        }
    }

    /// Carve `size` bytes at `payload` out of the block at `cur`, which
    /// follows the block at `prev`.
    #[verifier::spinoff_prover]
    #[verifier::rlimit(40)]
    fn take<M: WordMemory>(
        &mut self,
        memory: &mut M,
        prev: u64,
        cur: u64,
        payload: u64,
        size: u64,
        Ghost(at): Ghost<int>,
    )
        requires
            old(self).wf(old(memory).words()),
            carvable(old(self).blocks(), at, payload, size),
            cur == old(self).blocks()[at].start,
            prev == addr_at(old(self).blocks(), at - 1),
        ensures
            final(self).wf(final(memory).words()),
            final(self).region() == old(self).region(),
            only_free_changed(old(memory).words(), final(memory).words(), old(self).blocks()),
            final(self).blocks() == carve(old(self).blocks(), at, payload, size),
            final(memory).words() == carved_words(
                old(memory).words(),
                old(self).blocks(),
                at,
                payload,
                size,
            ),
            final(self).live() == old(self).live().insert(payload, size),
            !old(self).live().contains_key(payload),
    {
        let ghost blocks = self.blocks();
        let ghost words = memory.words();
        let ghost live = self.live();
        let ghost region = self.region();
        let ghost head = self.head();
        proof {
            assert(header_at(words, blocks, at));
            assert(blocks[at].wf());
            if at > 0 {
                assert(header_at(words, blocks, at - 1));
                assert(blocks[at - 1].wf());
            }
        }
        let block_size: u64 = memory.read_word(cur);
        let next: u64 = memory.read_word(cur + 8);
        let front: u64 = payload - cur;
        let tail: u64 = block_size - front - size;
        proof {
            if tail > 0 {
                let after = (payload + size) as u64;
                lemma_mapped_words(words, region, blocks, live, at, after);
                lemma_mapped_words(words, region, blocks, live, at, (after + 8) as u64);
            }
        }

        // Both `front` and `tail` are multiples of the grain, so each is
        // either 0 or a whole block.
        let remainder: u64 = if tail >= GRAIN {
            let tail_block: u64 = payload + size;
            memory.write_word(tail_block, tail);
            memory.write_word(tail_block + 8, next);
            tail_block
        } else {
            next
        };

        if front >= GRAIN {
            // Keep the front as its own free block, shrunk to fit.
            memory.write_word(cur, front);
            memory.write_word(cur + 8, remainder);
        } else if prev == 0 {
            self.head = remainder;
        } else {
            memory.write_word(prev + 8, remainder);
        }
        self.blocks = Ghost(carve(blocks, at, payload, size));
        self.live = Ghost(self.live@.insert(payload, size));
        proof {
            assert(memory.words() == carved_words(words, blocks, at, payload, size));
            assert(canonical(self.blocks())) by {
                lemma_carve(blocks, at, payload, size);
            }
            assert(linked(memory.words(), self.head(), self.blocks())) by {
                lemma_carve_linked(words, head, blocks, at, payload, size);
            }
            assert(only_free_changed(words, memory.words(), blocks)) by {
                lemma_carve_only_free(words, head, blocks, at, payload, size);
            }
            lemma_partition_carve(region, blocks, live, at, payload, size);
            assert(mapped(memory.words(), region)) by {
                assert(memory.words().dom() == words.dom());
                assert forall|addr: u64|
                    region.covers(addr as int) && addr % 8
                        == 0 implies #[trigger] memory.words().contains_key(addr) by {
                    assert(words.contains_key(addr));
                }
            }
        }
    }

    /// Hand out memory for `layout` from the first block it fits into, or
    /// `None` if it fits into none.
    pub fn allocate<M: WordMemory>(&mut self, memory: &mut M, layout: Layout) -> (payload: Option<u64>)
        requires
            layout.valid(),
            old(self).wf(old(memory).words()),
        ensures
            final(self).wf(final(memory).words()),
            final(self).region() == old(self).region(),
            only_free_changed(old(memory).words(), final(memory).words(), old(self).blocks()),
            ({
                let blocks = old(self).blocks();
                let at = first_fit(blocks, layout.grid_size(), layout.grid_align());
                match payload {
                    Some(addr) => {
                        &&& at < blocks.len()
                        &&& addr == align_up(
                            blocks[at].start as int,
                            layout.grid_align() as int,
                        )
                        &&& addr % layout.align == 0
                        &&& final(self).blocks() == carve(blocks, at, addr, layout.grid_size())
                        &&& final(memory).words() == carved_words(
                            old(memory).words(),
                            blocks,
                            at,
                            addr,
                            layout.grid_size(),
                        )
                        &&& total(final(self).blocks()) == total(blocks) - layout.grid_size()
                        &&& final(self).live() == old(self).live().insert(addr, layout.grid_size())
                        &&& !old(self).live().contains_key(addr)
                        &&& can_hold(blocks[at], layout, addr as int)
                        &&& forall|i: int, lower: int|
                            0 <= i < blocks.len() && lower < addr ==> !#[trigger] can_hold(
                                blocks[i],
                                layout,
                                lower,
                            )
                    },
                    None => {
                        &&& forall|i: int, place: int|
                            0 <= i < blocks.len() ==> !#[trigger] can_hold(
                                blocks[i],
                                layout,
                                place,
                            )
                        &&& at == blocks.len()
                        &&& final(self).blocks() == blocks
                        &&& final(self).live() == old(self).live()
                        &&& final(memory).words() == old(memory).words()
                    },
                }
            }),
    {
        let (size, align) = normalise(layout);
        let ghost blocks = self.blocks();
        let ghost words = memory.words();
        let ghost mut at: int = 0;
        proof {
            lemma_on_grid(layout);
        }

        let mut prev: u64 = 0;
        let mut cur: u64 = self.head;
        while cur != 0
            invariant
                *self == *old(self),
                memory.words() == words,
                words == old(memory).words(),
                blocks == self.blocks(),
                self.wf(words),
                layout.valid(),
                size == layout.grid_size(),
                align == layout.grid_align(),
                size % GRAIN == 0,
                size > 0,
                align % GRAIN == 0,
                align > 0,
                0 <= at <= blocks.len(),
                cur == addr_at(blocks, at),
                prev == addr_at(blocks, at - 1),
                forall|i: int| 0 <= i < at ==> !fits(#[trigger] blocks[i], size, align),
            decreases blocks.len() - at,
        {
            assert(header_at(words, blocks, at));
            assert(blocks[at].wf());
            let block_size: u64 = memory.read_word(cur);
            let next: u64 = memory.read_word(cur + 8);

            if let Some(payload) = checked_next_multiple_of(cur, align) {
                proof {
                    crate::align::lemma_align(cur as int, align as int);
                    lemma_multiple_on_grid(payload, align);
                }
                let front: u64 = payload - cur;
                if front <= block_size && size <= block_size - front {
                    proof {
                        assert(fits(blocks[at], size, align));
                        lemma_first_fit_is(blocks, size, align, at);
                    }
                    proof {
                        lemma_carve(blocks, at, payload, size);
                        lemma_payload_aligned(layout, payload);
                        lemma_lowest_place(blocks, layout);
                    }
                    self.take(memory, prev, cur, payload, size, Ghost(at));
                    return Some(payload);
                }
            }
            prev = cur;
            cur = next;
            proof {
                assert(!fits(blocks[at], size, align));
                at = at + 1;
            }
        }
        proof {
            if at < blocks.len() {
                assert(blocks[at].wf());
            }
            lemma_first_fit_is(blocks, size, align, at);
            lemma_lowest_place(blocks, layout);
        }
        None
    }

    /// Take back the memory at `payload`, which was handed out for `layout`.
    pub fn dealloc<M: WordMemory>(&mut self, memory: &mut M, payload: u64, layout: Layout)
        requires
            layout.valid(),
            old(self).wf(old(memory).words()),
            old(self).live().contains_key(payload),
            old(self).live()[payload] == layout.grid_size(),
        ensures
            final(self).wf(final(memory).words()),
            final(self).region() == old(self).region(),
            final(self).blocks() == release(old(self).blocks(), payload, layout.grid_size()),
            final(memory).words() == released_words(
                old(memory).words(),
                old(self).blocks(),
                payload,
                layout.grid_size(),
            ),
            total(final(self).blocks()) == total(old(self).blocks()) + layout.grid_size(),
            final(self).live() == old(self).live().remove(payload),
            only_free_changed(old(memory).words(), final(memory).words(), final(self).blocks()),
    {
        let (grid_size, _align) = normalise(layout);
        let start: u64 = payload;
        let ghost blocks = self.blocks();
        let ghost words = memory.words();
        let ghost mut at: int = 0;
        proof {
            lemma_live_releasable(words, self.region(), blocks, self.live(), payload);
            lemma_partition_release(self.region(), blocks, self.live(), payload);
            lemma_release_linked(words, self.head(), blocks, start, grid_size);
            lemma_release_only_free(words, self.head(), blocks, start, grid_size);
            lemma_release(blocks, start, grid_size);
            lemma_merge(blocks, start, grid_size);
        }

        // Find the insertion point, remembering the block before it.
        let mut prev: u64 = 0;
        let mut cur: u64 = self.head;
        while cur != 0 && cur < start
            invariant
                memory.words() == words,
                self.wf(words),
                blocks == self.blocks(),
                0 <= at <= blocks.len(),
                cur == addr_at(blocks, at),
                prev == addr_at(blocks, at - 1),
                forall|i: int| 0 <= i < at ==> (#[trigger] blocks[i]).start < start,
            decreases blocks.len() - at,
        {
            assert(header_at(words, blocks, at));
            assert(blocks[at].wf());
            prev = cur;
            cur = memory.read_word(cur + 8);
            proof {
                at = at + 1;
            }
        }
        proof {
            if at < blocks.len() {
                assert(blocks[at].wf());
                assert(header_at(words, blocks, at));
            }
            if at > 0 {
                assert(blocks[at - 1].wf());
                assert(header_at(words, blocks, at - 1));
            }
            lemma_below_is(blocks, start, at);
        }

        // Merge forward: if this block runs exactly up to the next free
        // block, the two become one.
        let mut size: u64 = grid_size;
        let mut next: u64 = cur;
        if cur != 0 && start + size == cur {
            size = size + memory.read_word(cur);
            next = memory.read_word(cur + 8);
        }

        // Merge backward: if the previous free block runs exactly up to this
        // one, grow it in place instead of linking a new header.
        let mut joined: bool = false;
        if prev != 0 {
            let prev_size: u64 = memory.read_word(prev);
            if prev + prev_size == start {
                memory.write_word(prev, prev_size + size);
                memory.write_word(prev + 8, next);
                joined = true;
            }
        }
        if !joined {
            memory.write_word(start, size);
            memory.write_word(start + 8, next);
            if prev == 0 {
                self.head = start;
            } else {
                memory.write_word(prev + 8, start);
            }
        }
        self.blocks = Ghost(release(blocks, start, grid_size));
        self.live = Ghost(self.live@.remove(payload));
        assert(memory.words() == released_words(words, blocks, start, grid_size));
    }

    /// Total free bytes across the list.
    pub fn free_bytes<M: WordMemory>(&self, memory: &M) -> (bytes: u64)
        requires
            self.wf(memory.words()),
        ensures
            bytes == total(self.blocks()),
    {
        let ghost blocks = self.blocks();
        let ghost mut at: int = 0;
        let mut bytes: u64 = 0;
        let mut cur: u64 = self.head;
        proof {
            lemma_len_bound(blocks);
            assert(blocks.take(0) == Seq::<FreeBlock>::empty());
        }
        while cur != 0
            invariant
                self.wf(memory.words()),
                blocks == self.blocks(),
                total(blocks) <= u64::MAX,
                0 <= at <= blocks.len(),
                cur == addr_at(blocks, at),
                bytes == total(blocks.take(at)),
            decreases blocks.len() - at,
        {
            assert(header_at(memory.words(), blocks, at));
            assert(blocks[at].wf());
            proof {
                lemma_total_take(blocks, at);
            }
            bytes = bytes + memory.read_word(cur);
            cur = memory.read_word(cur + 8);
            proof {
                at = at + 1;
            }
        }
        proof {
            if at < blocks.len() {
                assert(blocks[at].wf());
            }
            assert(blocks.take(at) == blocks);
        }
        bytes
    }

    /// How many separate blocks the free list holds.
    ///
    /// This, not the free *byte* count, is what detects a coalescing bug:
    /// total free bytes are conserved whether or not neighbours merge.
    pub fn free_blocks<M: WordMemory>(&self, memory: &M) -> (count: u64)
        requires
            self.wf(memory.words()),
        ensures
            count == self.blocks().len(),
    {
        let ghost blocks = self.blocks();
        let mut count: u64 = 0;
        let mut cur: u64 = self.head;
        proof {
            lemma_len_bound(blocks);
        }
        while cur != 0
            invariant
                self.wf(memory.words()),
                blocks == self.blocks(),
                blocks.len() <= u64::MAX,
                count <= blocks.len(),
                cur == addr_at(blocks, count as int),
            decreases blocks.len() - count,
        {
            assert(header_at(memory.words(), blocks, count as int));
            assert(blocks[count as int].wf());
            count = count + 1;
            cur = memory.read_word(cur + 8);
        }
        proof {
            if count < blocks.len() {
                assert(blocks[count as int].wf());
            }
        }
        count
    }
}

/// Once everything is given back, the heap is one block again: the whole
/// region, as it was at the start.
pub proof fn an_idle_heap_is_one_block(heap: Heap, words: Map<u64, u64>)
    requires
        heap.wf(words),
        heap.live() == Map::<u64, u64>::empty(),
        heap.region().wf(),
    ensures
        heap.blocks() == seq![heap.region()],
        total(heap.blocks()) == heap.region().size,
{
    let whole = seq![heap.region()];
    assert forall|addr: int| covered(heap.blocks(), addr) <==> covered(whole, addr) by {
        lemma_partition_at(heap.region(), heap.blocks(), heap.live(), addr);
        assert(!lent(heap.live(), addr));
        if heap.region().covers(addr) {
            assert(whole[0].covers(addr));
        }
    }
    crate::kernel::free_list::free_list_is_determined_by_its_bytes(heap.blocks(), whole);
    lemma_total_one(heap.region());
}

/// Two allocations never share a byte, none of them holds a free byte, and
/// each lies inside the heap's region.
pub proof fn allocations_are_disjoint(
    heap: Heap,
    words: Map<u64, u64>,
    one: u64,
    two: u64,
    addr: int,
)
    requires
        heap.wf(words),
        heap.live().contains_key(one),
        heap.live().contains_key(two),
        allocation(heap.live(), one).covers(addr),
    ensures
        allocation(heap.live(), two).covers(addr) ==> one == two,
        !covered(heap.blocks(), addr),
        heap.region().covers(addr),
{
    reveal(partition);
    assert(lent(heap.live(), addr));
    lemma_partition_at(heap.region(), heap.blocks(), heap.live(), addr);
}

/// What a heap operation writes never lies in an allocation that stays.
pub proof fn allocations_keep_their_contents(
    before: Map<u64, u64>,
    after: Map<u64, u64>,
    heap: Heap,
    words: Map<u64, u64>,
    payload: u64,
    addr: u64,
)
    requires
        heap.wf(words),
        only_free_changed(before, after, heap.blocks()),
        heap.live().contains_key(payload),
        allocation(heap.live(), payload).covers(addr as int),
    ensures
        after[addr] == before[addr],
{
    allocations_are_disjoint(heap, words, payload, payload, addr as int);
}

/// What a heap operation writes lies in the heap's region.
pub proof fn free_memory_lies_in_the_region(
    before: Map<u64, u64>,
    after: Map<u64, u64>,
    heap: Heap,
    words: Map<u64, u64>,
)
    requires
        heap.wf(words),
        only_free_changed(before, after, heap.blocks()),
    ensures
        only_inside_changed(before, after, heap.region()),
{
    assert forall|addr: u64| !heap.region().covers(addr as int) implies #[trigger] after[addr]
        == before[addr] by {
        lemma_partition_at(heap.region(), heap.blocks(), heap.live(), addr as int);
    }
}

/// Writes outside the free blocks' headers leave the heap as it is, so the
/// owners of allocations may write to them.
pub proof fn heap_survives_writes_to_allocations(
    heap: Heap,
    before: Map<u64, u64>,
    after: Map<u64, u64>,
)
    requires
        heap.wf(before),
        before.dom().subset_of(after.dom()),
        forall|addr: u64| covered(heap.blocks(), addr as int) ==> #[trigger] after[addr]
            == before[addr],
    ensures
        heap.wf(after),
{
    let blocks = heap.blocks();
    assert forall|i: int| 0 <= i < blocks.len() implies #[trigger] header_at(after, blocks, i) by {
        assert(header_at(before, blocks, i));
        lemma_header_words(blocks, i);
        assert(blocks[i].covers(blocks[i].start as int) && blocks[i].covers(blocks[i].start + 8));
        assert(covered(blocks, blocks[i].start as int));
        assert(covered(blocks, ((blocks[i].start + 8) as u64) as int));
    }
}

/// The heap behind the allocator interface of a running kernel, where an
/// address of zero stands for "no memory".
pub struct KernelHeap;

impl KernelHeap {
    /// The address of fresh memory for `layout`, or zero.
    pub fn allocate<M: WordMemory>(
        &self,
        heap: &mut Heap,
        memory: &mut M,
        layout: Layout,
    ) -> (addr: u64)
        requires
            layout.valid(),
            old(heap).wf(old(memory).words()),
        ensures
            final(heap).wf(final(memory).words()),
            final(heap).region() == old(heap).region(),
            only_free_changed(old(memory).words(), final(memory).words(), old(heap).blocks()),
            ({
                let blocks = old(heap).blocks();
                let at = first_fit(blocks, layout.grid_size(), layout.grid_align());
                if at < blocks.len() {
                    &&& addr == align_up(blocks[at].start as int, layout.grid_align() as int)
                    &&& addr > 0
                    &&& addr % layout.align == 0
                    &&& can_hold(blocks[at], layout, addr as int)
                    &&& forall|i: int, lower: int|
                        0 <= i < blocks.len() && lower < addr ==> !#[trigger] can_hold(
                            blocks[i],
                            layout,
                            lower,
                        )
                    &&& final(heap).blocks() == carve(blocks, at, addr, layout.grid_size())
                    &&& final(memory).words() == carved_words(
                        old(memory).words(),
                        blocks,
                        at,
                        addr,
                        layout.grid_size(),
                    )
                    &&& final(heap).live() == old(heap).live().insert(addr, layout.grid_size())
                } else {
                    &&& addr == 0
                    &&& forall|i: int, place: int|
                        0 <= i < blocks.len() ==> !#[trigger] can_hold(blocks[i], layout, place)
                    &&& final(heap).blocks() == blocks
                    &&& final(heap).live() == old(heap).live()
                    &&& final(memory).words() == old(memory).words()
                }
            }),
    {
        proof {
            lemma_on_grid(layout);
            let at = first_fit(heap.blocks(), layout.grid_size(), layout.grid_align());
            lemma_first_fit(
                heap.blocks(),
                layout.grid_size(),
                layout.grid_align(),
            );
            if at < heap.blocks().len() {
                assert(heap.blocks()[at].wf());
                crate::align::lemma_align(
                    heap.blocks()[at].start as int,
                    layout.grid_align() as int,
                );
            }
        }
        match heap.allocate(memory, layout) {
            Some(addr) => addr,
            None => 0,
        }
    }

    /// Give back the memory at `addr`, which was handed out for `layout`.
    pub fn dealloc<M: WordMemory>(
        &self,
        heap: &mut Heap,
        memory: &mut M,
        addr: u64,
        layout: Layout,
    )
        requires
            layout.valid(),
            old(heap).wf(old(memory).words()),
            old(heap).live().contains_key(addr),
            old(heap).live()[addr] == layout.grid_size(),
        ensures
            final(heap).wf(final(memory).words()),
            final(heap).region() == old(heap).region(),
            final(heap).blocks() == release(old(heap).blocks(), addr, layout.grid_size()),
            final(memory).words() == released_words(
                old(memory).words(),
                old(heap).blocks(),
                addr,
                layout.grid_size(),
            ),
            final(heap).live() == old(heap).live().remove(addr),
            only_free_changed(old(memory).words(), final(memory).words(), final(heap).blocks()),
    {
        heap.dealloc(memory, addr, layout);
    }
}

/// The free list is determined by what is handed out: two heaps over one
/// region with the same allocations have the same list.
pub proof fn same_allocations_same_list(
    one: Heap,
    words_one: Map<u64, u64>,
    two: Heap,
    words_two: Map<u64, u64>,
)
    requires
        one.wf(words_one),
        two.wf(words_two),
        one.region() == two.region(),
        one.live() == two.live(),
    ensures
        one.blocks() == two.blocks(),
{
    assert forall|addr: int| covered(one.blocks(), addr) <==> covered(two.blocks(), addr) by {
        lemma_partition_at(one.region(), one.blocks(), one.live(), addr);
        lemma_partition_at(two.region(), two.blocks(), two.live(), addr);
    }
    crate::kernel::free_list::free_list_is_determined_by_its_bytes(one.blocks(), two.blocks());
}

/// Giving back what was just handed out leaves the free list exactly as it
/// was, and so does everything else that ends with the same allocations.
pub proof fn freeing_an_allocation_restores_the_list(
    before: Heap,
    words_before: Map<u64, u64>,
    after: Heap,
    words_after: Map<u64, u64>,
    payload: u64,
    size: u64,
)
    requires
        before.wf(words_before),
        after.wf(words_after),
        after.region() == before.region(),
        !before.live().contains_key(payload),
        after.live() == before.live().insert(payload, size).remove(payload),
    ensures
        after.blocks() == before.blocks(),
        total(after.blocks()) == total(before.blocks()),
{
    assert(after.live() =~= before.live());
    same_allocations_same_list(before, words_before, after, words_after);
}

/// Every aligned word of an allocation can be accessed and is not free, and
/// the allocation starts on the grid.
pub proof fn allocated_words_are_mapped(heap: Heap, words: Map<u64, u64>, payload: u64)
    requires
        heap.wf(words),
        heap.live().contains_key(payload),
    ensures
        allocation(heap.live(), payload).wf(),
        forall|addr: u64| #[trigger]
            allocation(heap.live(), payload).covers(addr as int) && addr % 8 == 0
                ==> words.contains_key(addr) && !covered(heap.blocks(), addr as int),
{
    assert(allocation(heap.live(), payload).wf()) by {
        reveal(partition);
    }
    assert forall|addr: u64| #[trigger]
        allocation(heap.live(), payload).covers(addr as int) && addr % 8
            == 0 implies words.contains_key(addr) && !covered(heap.blocks(), addr as int) by {
        allocations_are_disjoint(heap, words, payload, payload, addr as int);
    }
}

/// 1 MiB, and well under a percent of what a virtual machine is booted with.
/// If the target's memory is ever reduced, this is the constant to revisit.
pub const HEAP_FRAMES: u64 = 256;

/// Claim the heap's backing frames and arm the allocator.
///
/// Returns `(start, size)`, or `None` if no run of [`HEAP_FRAMES`]
/// contiguous frames is available, which the caller must treat as fatal.
pub fn init<'a, M: WordMemory>(
    frames: &mut Option<FrameAllocator<'a>>,
    heap: &mut Heap,
    memory: &mut M,
) -> (claimed: Option<(u64, u64)>)
    requires
        slot_wf(*old(frames), old(memory).words()),
    ensures
        slot_wf(*final(frames), final(memory).words()),
        only_frames_changed(old(memory).words(), final(memory).words(), stock(*old(frames))),
        match (*old(frames), *final(frames)) {
            (Some(before), Some(after)) => took_contiguous(
                before,
                after,
                HEAP_FRAMES,
                match claimed {
                    Some((start, size)) => Some(start),
                    None => None,
                },
            ),
            (None, None) => claimed is None,
            _ => false,
        },
        match claimed {
            Some((start, size)) => {
                &&& size == HEAP_FRAMES * PAGE_SIZE
                &&& final(heap).wf(final(memory).words())
                &&& final(heap).region() == (FreeBlock { start, size })
                &&& final(heap).blocks() == seq![FreeBlock { start, size }]
                &&& final(heap).live() == Map::<u64, u64>::empty()
                &&& start % PAGE_SIZE == 0
                &&& start + size <= u64::MAX
                &&& forall|addr: u64|
                    start <= addr < start + size ==> #[trigger] in_frames(
                        stock(*old(frames)),
                        addr,
                    )
                &&& forall|addr: u64|
                    start <= addr < start + size ==> #[trigger] final(memory).words()[addr]
                        == old(memory).words().insert(start, size).insert((start + 8) as u64, 0)[addr]
                &&& forall|addr: u64|
                    !(start <= addr < start + size) && !(*final(frames))->0.stack().contains(addr)
                        ==> #[trigger] final(memory).words()[addr] == old(memory).words()[addr]
            },
            None => {
                &&& *final(heap) == *old(heap)
                &&& only_nodes_changed(
                    old(memory).words(),
                    final(memory).words(),
                    stock(*old(frames)),
                )
            },
        },
{
    let ghost first = memory.words();
    let ghost supply = stock(*frames);
    let ghost slot_before = *frames;
    proof {
        if slot_before is Some {
            lemma_append(
                slot_before->0.stack(),
                all_frames(slot_before->0.pending()),
            );
        }
    }
    let start: u64 = match alloc_contiguous(frames, memory, HEAP_FRAMES) {
        Some(start) => start,
        None => {
            proof {
                if slot_before is Some {
                    lemma_nodes_are_in_frames(
                        first,
                        memory.words(),
                        all_frames(slot_before->0.pending()),
                        supply,
                    );
                }
            }
            return None;
        },
    };
    let size: u64 = HEAP_FRAMES * PAGE_SIZE;
    let ghost words = memory.words();
    let ghost slot = *frames;
    let ghost allocator = slot->0;
    let ghost taken = frames_of(FrameRun { start, frames: HEAP_FRAMES });
    proof {
        assert(taken[0] == start);
        assert(taken.contains(start));
        assert(allocator.live().contains(start));
        assert(accessible(words, start));
        lemma_claimed_frames(slot_before, slot, words, start);
        lemma_nodes_are_in_frames(
            first,
            words,
            all_frames(slot_before->0.pending()),
            supply,
        );
        assert forall|addr: u64| start <= addr < start + size implies #[trigger] in_frames(
            supply,
            addr,
        ) by {
            let k = (addr - start) / PAGE_SIZE as int;
            assert(taken[k] == start + k * PAGE_SIZE);
            assert(taken.contains(taken[k]));
            assert(supply.contains(taken[k]));
            let i = supply.index_of(taken[k]);
            assert(supply[i] <= addr < supply[i] + PAGE_SIZE);
        }
    }
    proof {
        lemma_frames_not_stacked(allocator, words, start);
    }
    heap.init(memory, start, size);
    proof {
        let region = FreeBlock { start, size };
        assert forall|f: u64| #[trigger] allocator.stack().contains(f) implies memory.words()[f]
            == words[f] by {
            assert forall|i: int| 0 <= i < seq![region].len() implies !(
            #[trigger] seq![region][i]).covers(f as int) by {}
            assert(!covered(seq![region], f as int));
        }
        crate::kernel::frame::allocator_survives_writes_elsewhere(
            allocator,
            words,
            memory.words(),
        );
        assert forall|addr: u64| !in_frames(supply, addr) implies #[trigger] memory.words()[addr]
            == first[addr] by {
            assert forall|i: int| 0 <= i < seq![region].len() implies !(
            #[trigger] seq![region][i]).covers(addr as int) by {}
            assert(!covered(seq![region], addr as int));
            assert(memory.words()[addr] == words[addr]);
        }
    }
    Some((start, size))
}

/// The frames claimed for the heap are not on the free stack.
pub proof fn lemma_frames_not_stacked(allocator: FrameAllocator, words: Map<u64, u64>, start: u64)
    requires
        allocator.wf(words),
        start % PAGE_SIZE == 0,
        start + HEAP_FRAMES * PAGE_SIZE <= u64::MAX,
        frames_of(FrameRun { start, frames: HEAP_FRAMES }).to_set().subset_of(allocator.live()),
    ensures
        forall|f: u64| #[trigger]
            allocator.stack().contains(f) ==> !(start <= f < start + HEAP_FRAMES * PAGE_SIZE),
{
    let taken = frames_of(FrameRun { start, frames: HEAP_FRAMES });
    assert forall|f: u64| #[trigger] allocator.stack().contains(f) implies !(start <= f < start
        + HEAP_FRAMES * PAGE_SIZE) by {
        assert(accessible(words, f));
        if start <= f < start + HEAP_FRAMES * PAGE_SIZE {
            let k = (f - start) / PAGE_SIZE as int;
            assert(taken[k] == f);
            assert(taken.contains(f));
            assert(taken.to_set().contains(f));
        }
    }
}

/// The frames claimed for the heap make up one mapped region on the grid.
proof fn lemma_claimed_frames(
    before: Option<FrameAllocator>,
    after: Option<FrameAllocator>,
    words: Map<u64, u64>,
    start: u64,
)
    requires
        before is Some,
        after is Some,
        after->0.wf(words),
        forall|i: int|
            0 <= i < before->0.pending().len() ==> paged(#[trigger] before->0.pending()[i]),
        took_contiguous(before->0, after->0, HEAP_FRAMES, Some(start)),
    ensures
        (FreeBlock { start, size: (HEAP_FRAMES * PAGE_SIZE) as u64 }).wf(),
        mapped(words, FreeBlock { start, size: (HEAP_FRAMES * PAGE_SIZE) as u64 }),
        forall|f: u64| #[trigger]
            frames_of(FrameRun { start, frames: HEAP_FRAMES }).contains(f) ==> all_frames(
                before->0.pending(),
            ).contains(f),
{
    let size = (HEAP_FRAMES * PAGE_SIZE) as u64;
    let region = FreeBlock { start, size };
    let pending = before->0.pending();
    let at = crate::kernel::frame_supply::first_run(pending, HEAP_FRAMES);
    crate::kernel::frame_supply::lemma_first_run(pending, HEAP_FRAMES);
    assert(paged(pending[at]));
    let taken = frames_of(FrameRun { start, frames: HEAP_FRAMES });
    assert forall|f: u64| #[trigger] taken.contains(f) implies all_frames(pending).contains(f) by {
        crate::kernel::frame_supply::lemma_split(pending, at);
        crate::kernel::frame_supply::lemma_shrunk(pending.skip(at), HEAP_FRAMES);
        let rest = all_frames(crate::kernel::frame_supply::shrunk(pending.skip(at), HEAP_FRAMES));
        lemma_append(taken, rest);
        lemma_append(all_frames(pending.take(at)), taken + rest);
        assert((taken + rest).contains(f));
    }
    assert forall|addr: u64| region.covers(addr as int) && addr % 8 == 0 implies #[trigger] words.contains_key(
    addr) by {
        let k = (addr - start) / PAGE_SIZE as int;
        let frame = taken[k];
        assert(frame == start + k * PAGE_SIZE);
        assert(taken.contains(frame));
        assert(after->0.live().contains(frame));
        assert(accessible(words, frame));
    }
}

/// What the growing vector of [`selftest`] claims, all together: the other
/// parts claim less, and each gives everything back.
pub const SELFTEST_ROOM: u64 = 16352;

/// The heap once the box, the vector, the string and the three neighbours of
/// [`selftest`] have come and gone.
pub open spec fn after_selftest(heap: HeapState) -> HeapState {
    let boxed = after_box(heap);
    let grown = vector_of(boxed, 1024).dropped();
    after_merge(string_of(grown, 100).dropped())
}

/// The heap can serve every claim of [`selftest`], part after part.
pub open spec fn selftest_served(heap: HeapState) -> bool {
    let boxed = after_box(heap);
    let grown = vector_of(boxed, 1024).dropped();
    &&& box_served(heap)
    &&& vector_served(boxed, 1024)
    &&& string_served(grown, 100)
    &&& merge_served(string_of(grown, 100).dropped())
}

/// A heap with a block of [`SELFTEST_ROOM`] bytes can serve every claim of
/// [`selftest`].
pub proof fn a_block_of_selftest_room_is_enough(heap: HeapState)
    requires
        canonical(heap.blocks),
        has_room(heap.blocks, SELFTEST_ROOM as int),
    ensures
        selftest_served(heap),
{
    let room = SELFTEST_ROOM as int;
    lemma_room_for_box(heap, room);
    let boxed = after_box(heap);
    lemma_room_for_vector(boxed, room);
    let grown = vector_of(boxed, 1024).dropped();
    lemma_room_for_string(grown, room);
    lemma_room_for_merge(string_of(grown, 100).dropped(), room);
}

/// A heap that just took over `region`, in a memory that held `words`.
pub open spec fn armed(words: Map<u64, u64>, region: FreeBlock) -> HeapState {
    HeapState {
        blocks: seq![region],
        words: words.insert(region.start, region.size).insert((region.start + 8) as u64, 0),
    }
}

/// What [`selftest`] leaves in a word depends on the free list and on that
/// word alone.
pub proof fn the_selftest_reads_the_free_list_alone(one: HeapState, two: HeapState, addr: u64)
    requires
        alike_at(one, two, addr),
    ensures
        alike_at(after_selftest(one), after_selftest(two), addr),
{
    lemma_box_alike(one, two, addr);
    let (one_a, two_a) = (after_box(one), after_box(two));
    lemma_vector_alike(one_a, two_a, addr, 1024);
    let (one_b, two_b) = (vector_of(one_a, 1024).dropped(), vector_of(two_a, 1024).dropped());
    lemma_string_alike(one_b, two_b, addr, 100);
    lemma_merge_alike(string_of(one_b, 100).dropped(), string_of(two_b, 100).dropped(), addr);
}

/// Boot-time proof that allocation works and that freeing restores the heap.
///
/// Two closing assertions, and they catch different faults. The free-byte
/// balance catches a leak. The block count catches a *coalescing* failure,
/// which the byte balance cannot see at all: a heap that split correctly and
/// never merged would sum to exactly the right total. Only the block count
/// returning to one shows that merging really happened.
///
/// The heap is left as it was found, so this passes on a heap whose free
/// memory is one block.
pub fn selftest<M: WordMemory>(heap: &mut Heap, memory: &mut M) -> (outcome: Result<
    (),
    &'static str,
>)
    requires
        old(heap).wf(old(memory).words()),
        selftest_served(state_of(*old(heap), old(memory).words())),
    ensures
        final(heap).wf(final(memory).words()),
        final(heap).region() == old(heap).region(),
        final(heap).blocks() == old(heap).blocks(),
        final(heap).live() == old(heap).live(),
        final(memory).words() == after_selftest(state_of(*old(heap), old(memory).words())).words,
        kept(old(memory).words(), final(memory).words(), old(heap).live()),
        only_inside_changed(old(memory).words(), final(memory).words(), old(heap).region()),
        match outcome {
            Ok(()) => old(heap).blocks().len() == 1,
            Err(why) => {
                &&& old(heap).blocks().len() != 1
                &&& why@ == "free list did not coalesce back to a single block"@
            },
        },
{
    let ghost live = heap.live();
    let ghost words = memory.words();
    let before: u64 = heap.free_bytes(memory);

    if let Err(why) = check_box(heap, memory) {
        return Err(why);
    }
    let ghost one = memory.words();
    if let Err(why) = check_vector(heap, memory) {
        return Err(why);
    }
    let ghost two = memory.words();
    if let Err(why) = check_string(heap, memory) {
        return Err(why);
    }
    let ghost three = memory.words();
    check_merge(heap, memory);
    proof {
        lemma_kept(words, one, two, live, live, live);
        lemma_kept(words, two, three, live, live, live);
        lemma_kept(words, three, memory.words(), live, live, live);
        same_allocations_same_list(*old(heap), words, *heap, memory.words());
    }

    if heap.free_bytes(memory) != before {
        return Err("heap did not return to its starting free-byte count");
    }
    // Everything allocated above has been given back, so a heap that merges
    // correctly is back to the single block it started as.

    if heap.free_blocks(memory) != 1 {
        return Err("free list did not coalesce back to a single block");
    }
    Ok(())
}

/// `layout` can be served at `addr`: a block has that address, at the
/// alignment asked for and on the grid of 16 bytes, and as many bytes behind
/// it as were asked for, or a header's worth if that is more.
pub open spec fn can_hold(block: FreeBlock, layout: Layout, addr: int) -> bool {
    &&& block.start <= addr
    &&& addr % 16 == 0
    &&& addr % layout.align as int == 0
    &&& addr + layout.size <= block.start + block.size
    &&& addr + 16 <= block.start + block.size
}

/// A request is refused only if no free block can hold it anywhere, whatever
/// its alignment, and it is served at the lowest address that can hold it.
#[verifier::spinoff_prover]
pub proof fn a_request_is_served_at_the_lowest_place(
    blocks: Seq<FreeBlock>,
    layout: Layout,
    i: int,
    addr: int,
)
    requires
        canonical(blocks),
        layout.valid(),
        0 <= i < blocks.len(),
    ensures
        ({
            let at = first_fit(blocks, layout.grid_size(), layout.grid_align());
            let payload = align_up(blocks[at].start as int, layout.grid_align() as int);
            &&& 0 <= at <= blocks.len()
            &&& at < blocks.len() ==> can_hold(blocks[at], layout, payload)
            &&& can_hold(blocks[i], layout, addr) ==> at < blocks.len() && payload <= addr
        }),
{
    let size = layout.grid_size();
    let align = layout.grid_align();
    let at = first_fit(blocks, size, align);
    lemma_on_grid(layout);
    lemma_first_fit(blocks, size, align);
    if at < blocks.len() {
        let payload = align_up(blocks[at].start as int, align as int);
        assert(blocks[at].wf());
        crate::align::lemma_align(blocks[at].start as int, align as int);
        lemma_multiple_on_grid(payload as u64, align);
        lemma_payload_aligned(layout, payload as u64);
    }
    if can_hold(blocks[i], layout, addr) {
        assert(blocks[i].wf());
        crate::kernel::layout::a_request_takes_the_least_room_on_the_grid(
            layout,
            blocks[i].start + blocks[i].size - addr,
        );
        assert(addr % align as int == 0);
        crate::align::lemma_align_tight(blocks[i].start as int, align as int, addr);
        assert(fits(blocks[i], size, align));
        if at < i {
            assert(blocks[at].start + blocks[at].size < blocks[i].start);
        }
    }
}

/// What [`a_request_is_served_at_the_lowest_place`] says, of every place.
proof fn lemma_lowest_place(blocks: Seq<FreeBlock>, layout: Layout)
    requires
        canonical(blocks),
        layout.valid(),
    ensures
        ({
            let at = first_fit(blocks, layout.grid_size(), layout.grid_align());
            let payload = align_up(blocks[at].start as int, layout.grid_align() as int);
            &&& at < blocks.len() ==> can_hold(blocks[at], layout, payload)
            &&& forall|i: int, place: int|
                0 <= i < blocks.len() && #[trigger] can_hold(blocks[i], layout, place) ==> at
                    < blocks.len() && payload <= place
        }),
{
    let at = first_fit(blocks, layout.grid_size(), layout.grid_align());
    let payload = align_up(blocks[at].start as int, layout.grid_align() as int);
    assert forall|i: int, place: int|
        0 <= i < blocks.len() && #[trigger] can_hold(blocks[i], layout, place) implies at
        < blocks.len() && payload <= place by {
        a_request_is_served_at_the_lowest_place(blocks, layout, i, place);
    }
    lemma_first_fit(blocks, layout.grid_size(), layout.grid_align());
    if at < blocks.len() {
        a_request_is_served_at_the_lowest_place(blocks, layout, at, payload);
    }
}

} // verus!
