//! A buffer on the kernel heap that doubles as it fills.
//!
//! The heap's boot-time check runs the allocation patterns of a box, of a
//! growing vector and of a growing string. Growing is where a heap is most
//! likely to go wrong: the larger buffer is claimed while the smaller one is
//! still held, the contents move over, and the smaller one is given back.

use crate::kernel::free_list::{covered, first_fit, GRAIN};
use crate::kernel::heap::{
    allocated_words_are_mapped, allocations_are_disjoint, free_memory_lies_in_the_region,
    heap_survives_writes_to_allocations, Heap,
};
use crate::kernel::heap_words::{
    addr_at, allocation, only_inside_changed, HeapState,
};
use crate::kernel::layout::{lemma_on_grid, Layout};
use crate::ram::WordMemory;
use vstd::prelude::*;

verus! {

/// The heap manages the same region as before and holds these allocations.
pub open spec fn continues(before: Heap, after: Heap, live: Map<u64, u64>) -> bool {
    &&& after.region() == before.region()
    &&& after.live() == live
}

/// The heap's free list, in this memory.
pub open spec fn state_of(heap: Heap, words: Map<u64, u64>) -> HeapState {
    HeapState { blocks: heap.blocks(), words }
}

/// The words of every allocation in `live` are the same in both memories.
pub open spec fn kept(before: Map<u64, u64>, after: Map<u64, u64>, live: Map<u64, u64>) -> bool {
    forall|payload: u64, addr: u64|
        live.contains_key(payload) && #[trigger] allocation(live, payload).covers(addr as int)
            ==> #[trigger] after[addr] == before[addr]
}

/// Two steps that keep the words of these allocations keep them together.
pub proof fn lemma_kept(
    before: Map<u64, u64>,
    middle: Map<u64, u64>,
    after: Map<u64, u64>,
    first: Map<u64, u64>,
    second: Map<u64, u64>,
    live: Map<u64, u64>,
)
    requires
        kept(before, middle, first),
        kept(middle, after, second),
        live.submap_of(first),
        live.submap_of(second),
    ensures
        kept(before, after, live),
{
    assert forall|payload: u64, addr: u64|
        live.contains_key(payload) && #[trigger] allocation(live, payload).covers(
            addr as int,
        ) implies #[trigger] after[addr] == before[addr] by {
        assert(first.contains_key(payload) && second.contains_key(payload));
        assert(allocation(first, payload).covers(addr as int));
        assert(allocation(second, payload).covers(addr as int));
        assert(after[addr] == middle[addr]);
    }
}

/// Claim memory for `layout`, on a heap that can serve it.
pub(crate) fn claim<M: WordMemory>(
    heap: &mut Heap,
    memory: &mut M,
    layout: Layout,
) -> (payload: u64)
    requires
        old(heap).wf(old(memory).words()),
        layout.valid(),
        layout.align <= GRAIN,
        state_of(*old(heap), old(memory).words()).serves(layout.grid_size()),
    ensures
        final(heap).wf(final(memory).words()),
        !old(heap).live().contains_key(payload),
        continues(
            *old(heap),
            *final(heap),
            old(heap).live().insert(payload, layout.grid_size()),
        ),
        payload == state_of(*old(heap), old(memory).words()).place(layout.grid_size()),
        state_of(*final(heap), final(memory).words()) == state_of(
            *old(heap),
            old(memory).words(),
        ).claimed(layout.grid_size()),
        kept(old(memory).words(), final(memory).words(), old(heap).live()),
        only_inside_changed(old(memory).words(), final(memory).words(), old(heap).region()),
{
    let ghost blocks = heap.blocks();
    let ghost before = *heap;
    let ghost words = memory.words();
    let ghost at = first_fit(blocks, layout.grid_size(), GRAIN);
    proof {
        lemma_on_grid(layout);
        assert(layout.grid_align() == GRAIN);
        crate::kernel::free_list::lemma_first_fit(blocks, layout.grid_size(), GRAIN);
        assert(blocks[at].wf());
        crate::align::lemma_align(blocks[at].start as int, GRAIN as int);
    }
    let payload: u64 = match heap.allocate(memory, layout) {
        Some(payload) => payload,
        None => 0,
    };
    proof {
        assert(payload == blocks[at].start);
        assert(state_of(*heap, memory.words()) == state_of(before, words).claimed(
            layout.grid_size(),
        )) by {
            reveal(HeapState::claimed);
            assert(addr_at(blocks, at) == payload);
        }
        free_memory_lies_in_the_region(words, memory.words(), before, words);
        assert forall|other: u64, addr: u64|
            before.live().contains_key(other) && #[trigger] allocation(before.live(), other).covers(
                addr as int,
            ) implies #[trigger] memory.words()[addr] == words[addr] by {
            allocations_are_disjoint(before, words, other, other, addr as int);
        }
    }
    payload
}

/// Give the memory at `payload` back.
pub(crate) fn give_back<M: WordMemory>(
    heap: &mut Heap,
    memory: &mut M,
    payload: u64,
    layout: Layout,
)
    requires
        old(heap).wf(old(memory).words()),
        layout.valid(),
        old(heap).live().contains_key(payload),
        old(heap).live()[payload] == layout.grid_size(),
    ensures
        final(heap).wf(final(memory).words()),
        continues(*old(heap), *final(heap), old(heap).live().remove(payload)),
        state_of(*final(heap), final(memory).words()) == state_of(
            *old(heap),
            old(memory).words(),
        ).given_back(payload, layout.grid_size()),
        kept(old(memory).words(), final(memory).words(), old(heap).live().remove(payload)),
        only_inside_changed(old(memory).words(), final(memory).words(), old(heap).region()),
{
    let ghost before = *heap;
    let ghost words = memory.words();
    heap.dealloc(memory, payload, layout);
    proof {
        assert(state_of(*heap, memory.words()) == state_of(before, words).given_back(
            payload,
            layout.grid_size(),
        )) by {
            reveal(HeapState::given_back);
        }
        free_memory_lies_in_the_region(words, memory.words(), *heap, memory.words());
        assert forall|other: u64, addr: u64|
            heap.live().contains_key(other) && #[trigger] allocation(heap.live(), other).covers(
                addr as int,
            ) implies #[trigger] memory.words()[addr] == words[addr] by {
            allocations_are_disjoint(*heap, memory.words(), other, other, addr as int);
        }
    }
}

/// Write one word of the allocation at `payload`.
pub(crate) fn store<M: WordMemory>(heap: &Heap, memory: &mut M, payload: u64, addr: u64, value: u64)
    requires
        heap.wf(old(memory).words()),
        heap.live().contains_key(payload),
        allocation(heap.live(), payload).covers(addr as int),
        addr % 8 == 0,
    ensures
        heap.wf(final(memory).words()),
        final(memory).words() == old(memory).words().insert(addr, value),
        kept(old(memory).words(), final(memory).words(), heap.live().remove(payload)),
        only_inside_changed(old(memory).words(), final(memory).words(), heap.region()),
{
    let ghost words = memory.words();
    proof {
        allocated_words_are_mapped(*heap, words, payload);
        assert(words.contains_key(addr) && !covered(heap.blocks(), addr as int));
    }
    memory.write_word(addr, value);
    proof {
        allocations_are_disjoint(*heap, words, payload, payload, addr as int);
        assert(memory.words().dom() =~= words.dom());
        heap_survives_writes_to_allocations(*heap, words, memory.words());
        let rest = heap.live().remove(payload);
        assert forall|other: u64, a: u64|
            rest.contains_key(other) && #[trigger] allocation(rest, other).covers(
                a as int,
            ) implies #[trigger] memory.words()[a] == words[a] by {
            assert(allocation(heap.live(), other).covers(a as int));
            allocations_are_disjoint(*heap, words, other, payload, a as int);
        }
    }
}

/// The memory once `contents` stand in it from `addr` on.
pub open spec fn laid_out(words: Map<u64, u64>, addr: u64, contents: Seq<u64>) -> Map<u64, u64>
    decreases contents.len(),
{
    if contents.len() == 0 {
        words
    } else {
        laid_out(words, addr, contents.drop_last()).insert(
            (addr + 8 * (contents.len() - 1)) as u64,
            contents.last(),
        )
    }
}

/// A heap with one buffer on it: `cap` bytes at `addr`, or no memory at all
/// while `cap` is zero, of which the first words are `contents`.
#[verifier::ext_equal]
pub struct BufferState {
    pub heap: HeapState,
    pub addr: u64,
    pub cap: u64,
    pub contents: Seq<u64>,
}

impl BufferState {
    /// A buffer that has not asked for memory yet.
    pub open spec fn unallocated(heap: HeapState) -> BufferState {
        BufferState { heap, addr: 0, cap: 0, contents: Seq::empty() }
    }

    /// The bytes on the grid that a capacity takes up.
    pub open spec fn footprint(cap: u64) -> u64 {
        (Layout { size: cap, align: 1 }).grid_size()
    }

    /// Once the buffer has moved to one of `cap` bytes: the new one is
    /// claimed and filled before the old one is given back.
    pub open spec fn moved(self, cap: u64) -> BufferState {
        let addr = self.heap.place(Self::footprint(cap));
        let claimed = self.heap.claimed(Self::footprint(cap));
        let filled = HeapState {
            blocks: claimed.blocks,
            words: laid_out(claimed.words, addr, self.contents),
        };
        BufferState { heap: BufferState { heap: filled, ..self }.dropped(), addr, cap, ..self }
    }

    /// The capacity after the next move: `floor` bytes at first, and twice
    /// the capacity later.
    pub open spec fn next_cap(self, floor: u64) -> u64 {
        if self.cap == 0 {
            floor
        } else {
            (2 * self.cap) as u64
        }
    }

    /// The heap can serve the move that `bytes` bytes take, if they take one.
    pub open spec fn served(self, bytes: int, floor: u64) -> bool {
        bytes <= self.cap || self.heap.serves(Self::footprint(self.next_cap(floor)))
    }

    /// Once there is room for `bytes` bytes: a buffer that is too small
    /// moves to the next capacity.
    pub open spec fn fitted(self, bytes: int, floor: u64) -> BufferState {
        if bytes <= self.cap {
            self
        } else {
            self.moved(self.next_cap(floor))
        }
    }

    /// Once `value` is the word at `index`, and the last one.
    pub open spec fn put(self, index: int, value: u64) -> BufferState {
        BufferState {
            heap: self.heap.stored((self.addr + 8 * index) as u64, value),
            contents: self.contents.take(index).push(value),
            ..self
        }
    }

    /// The heap once the buffer's memory is given back.
    pub open spec fn dropped(self) -> HeapState {
        if self.cap > 0 {
            self.heap.given_back(self.addr, Self::footprint(self.cap))
        } else {
            self.heap
        }
    }
}

/// A buffer of words on the heap, with a capacity in bytes that doubles.
pub struct Growable {
    addr: u64,
    cap: u64,
    len: u64,
    align: u64,
    floor: u64,
}

impl Growable {
    /// Where the buffer is, once it has a capacity.
    pub closed spec fn addr(&self) -> u64 {
        self.addr
    }

    /// The capacity in bytes.
    pub closed spec fn cap(&self) -> u64 {
        self.cap
    }

    /// The length in words.
    pub closed spec fn len(&self) -> u64 {
        self.len
    }

    /// The layout of a capacity of `cap` bytes.
    pub closed spec fn layout(&self, cap: u64) -> Layout {
        Layout { size: cap, align: self.align }
    }

    /// The first capacity in bytes.
    pub closed spec fn floor(&self) -> u64 {
        self.floor
    }

    /// The alignment is one the grid gives anyway, and the capacity is a
    /// whole number of words.
    pub closed spec fn sane(&self) -> bool {
        &&& self.layout(0).valid()
        &&& self.align <= GRAIN
        &&& self.cap % 8 == 0
        &&& self.cap <= 0x1000_0000
        &&& self.floor % 8 == 0
        &&& 8 <= self.floor <= 0x1000_0000
        &&& self.len * 8 <= self.cap
    }

    /// The buffer is one of the heap's allocations and holds `contents`.
    pub open spec fn holds(&self, heap: Heap, words: Map<u64, u64>, contents: Seq<u64>) -> bool {
        &&& self.sane()
        &&& self.len() == contents.len()
        &&& self.len() * 8 <= self.cap()
        &&& self.cap() > 0 ==> {
            &&& heap.live().contains_key(self.addr())
            &&& heap.live()[self.addr()] == self.layout(self.cap()).grid_size()
        }
        &&& forall|i: int|
            0 <= i < contents.len() ==> words[(self.addr() + 8 * i) as u64] == #[trigger] contents[i]
    }

    /// The heap and this buffer on it.
    pub open spec fn state(
        &self,
        heap: Heap,
        words: Map<u64, u64>,
        contents: Seq<u64>,
    ) -> BufferState {
        BufferState {
            heap: state_of(heap, words),
            addr: self.addr(),
            cap: self.cap(),
            contents,
        }
    }

    /// The allocations without this buffer.
    pub open spec fn others(&self, live: Map<u64, u64>) -> Map<u64, u64> {
        if self.cap() > 0 {
            live.remove(self.addr())
        } else {
            live
        }
    }

    /// A buffer without a capacity, whose first one will be `floor` bytes.
    pub fn empty(align: u64, floor: u64) -> (buffer: Growable)
        requires
            align == 1 || align == 8,
            floor % 8 == 0,
            8 <= floor <= 0x1000_0000,
        ensures
            buffer.addr() == 0,
            buffer.cap() == 0,
            buffer.len() == 0,
            buffer.floor() == floor,
            buffer.layout(0) == (Layout { size: 0, align }),
            forall|cap: u64| #[trigger] buffer.layout(cap) == (Layout { size: cap, align }),
            forall|heap: Heap, words: Map<u64, u64>|
                #[trigger] buffer.holds(heap, words, Seq::<u64>::empty()),
    {
        assert(1u64 & ((1u64 - 1) as u64) == 0 && 8u64 & ((8u64 - 1) as u64) == 0) by (bit_vector);
        Growable { addr: 0, cap: 0, len: 0, align, floor }
    }

    /// The capacity after the next growth.
    pub open spec fn next_cap(&self) -> int {
        if self.cap() == 0 {
            self.floor() as int
        } else {
            2 * self.cap()
        }
    }

    /// The word at index `i` lies inside the buffer.
    proof fn lemma_inside(&self, heap: Heap, words: Map<u64, u64>, contents: Seq<u64>, i: int)
        requires
            heap.wf(words),
            self.holds(heap, words, contents),
            0 <= i,
            8 * i + 8 <= self.cap(),
        ensures
            self.addr() + 8 * i <= u64::MAX,
            self.addr() % 8 == 0,
            allocation(heap.live(), self.addr()).covers(self.addr() + 8 * i),
            words.contains_key((self.addr() + 8 * i) as u64),
    {
        allocated_words_are_mapped(heap, words, self.addr());
        lemma_valid_size(self.layout(self.cap()), self.layout(0));
        lemma_on_grid(self.layout(self.cap()));
        let span = allocation(heap.live(), self.addr());
        assert(span.wf());
        let addr = (self.addr() + 8 * i) as u64;
        assert(span.covers(addr as int));
    }

    /// Move to a buffer of the next capacity: claim it, copy the contents
    /// over, and give the old one back.
    pub(crate) fn grow<M: WordMemory>(
        &mut self,
        heap: &mut Heap,
        memory: &mut M,
        Ghost(contents): Ghost<Seq<u64>>,
    )
        requires
            old(heap).wf(old(memory).words()),
            old(self).holds(*old(heap), old(memory).words(), contents),
            old(self).next_cap() <= 0x1000_0000,
            state_of(*old(heap), old(memory).words()).serves(
                BufferState::footprint(old(self).next_cap() as u64),
            ),
        ensures
            final(heap).wf(final(memory).words()),
            final(self).holds(*final(heap), final(memory).words(), contents),
            final(self).cap() == old(self).next_cap(),
            final(self).state(*final(heap), final(memory).words(), contents) == old(self).state(
                *old(heap),
                old(memory).words(),
                contents,
            ).moved(old(self).next_cap() as u64),
            final(self).floor() == old(self).floor(),
            final(self).len() == old(self).len(),
            forall|cap: u64| #[trigger] final(self).layout(cap) == old(self).layout(cap),
            final(heap).region() == old(heap).region(),
            final(self).others(final(heap).live()) == old(self).others(old(heap).live()),
            kept(
                old(memory).words(),
                final(memory).words(),
                old(self).others(old(heap).live()),
            ),
            only_inside_changed(old(memory).words(), final(memory).words(), old(heap).region()),
    {
        let old_addr: u64 = self.addr;
        let old_cap: u64 = self.cap;
        let new_cap: u64 = if self.cap == 0 {
            self.floor
        } else {
            2 * self.cap
        };
        let ghost first = *heap;
        let layout = Layout { size: new_cap, align: self.align };
        proof {
            lemma_valid_size(layout, self.layout(0));
            lemma_on_grid(layout);
        }
        let ghost words = memory.words();
        let new_addr: u64 = claim(heap, memory, layout);
        let ghost claimed = memory.words();
        let ghost taken = *heap;
        proof {
            assert(contents.take(0) == Seq::<u64>::empty());
            if old_cap > 0 {
                assert forall|i: int| 0 <= i < contents.len() implies memory.words()[(old_addr + 8
                    * i) as u64] == contents[i] by {
                    self.lemma_inside(first, words, contents, i);
                    assert(words[(old_addr + 8 * i) as u64] == contents[i]);
                }
            }
            allocated_words_are_mapped(*heap, memory.words(), new_addr);
        }
        let ghost others = self.others(first.live());
        proof {
            lemma_kept(words, words, memory.words(), first.live(), first.live(), others);
        }
        let mut i: u64 = 0;
        while i < self.len
            invariant
                heap.wf(memory.words()),
                *self == *old(self),
                self.sane(),
                contents.len() == self.len,
                self.len * 8 <= self.cap,
                old_addr == self.addr,
                old_cap == self.cap,
                self.cap <= new_cap,
                new_addr != old_addr || old_cap == 0,
                old_cap > 0 ==> {
                    &&& heap.live().contains_key(old_addr)
                    &&& heap.live()[old_addr] == self.layout(self.cap).grid_size()
                },
                heap.live().contains_key(new_addr),
                heap.live()[new_addr] == layout.grid_size(),
                layout.grid_size() >= new_cap,
                allocation(heap.live(), new_addr).wf(),
                i <= self.len,
                kept(words, memory.words(), others),
                words == old(memory).words(),
                memory.words() == laid_out(claimed, new_addr, contents.take(i as int)),
                *heap == taken,
                heap.region() == old(heap).region(),
                only_inside_changed(words, memory.words(), heap.region()),
                others.submap_of(heap.live().remove(new_addr)),
                forall|k: int|
                    0 <= k < contents.len() ==> memory.words()[(old_addr + 8 * k) as u64]
                        == #[trigger] contents[k],
                forall|k: int|
                    0 <= k < i ==> memory.words()[(new_addr + 8 * k) as u64]
                        == #[trigger] contents[k],
            decreases self.len - i,
        {
            let ghost step = memory.words();
            proof {
                assert(self.holds(*heap, step, contents));
                self.lemma_inside(*heap, step, contents, i as int);
                assert(step[(old_addr + 8 * i) as u64] == contents[i as int]);
            }
            let value: u64 = memory.read_word(old_addr + 8 * i);
            store(heap, memory, new_addr, new_addr + 8 * i, value);
            proof {
                assert(contents.take(i + 1).drop_last() == contents.take(i as int));
                assert(contents.take(i + 1).last() == value);
                lemma_kept(
                    words,
                    step,
                    memory.words(),
                    others,
                    heap.live().remove(new_addr),
                    others,
                );
                assert forall|k: int| 0 <= k < contents.len() implies memory.words()[(old_addr + 8
                    * k) as u64] == #[trigger] contents[k] by {
                    self.lemma_inside(*heap, step, contents, k);
                    assert(allocation(heap.live().remove(new_addr), old_addr).covers(
                        ((old_addr + 8 * k) as u64) as int,
                    ));
                    assert(step[(old_addr + 8 * k) as u64] == contents[k]);
                }
                assert forall|k: int| 0 <= k < i + 1 implies memory.words()[(new_addr + 8 * k) as u64]
                    == #[trigger] contents[k] by {
                    if k < i {
                        assert(step[(new_addr + 8 * k) as u64] == contents[k]);
                    }
                }
            }
            i = i + 1;
        }
        let ghost copied = memory.words();
        let ghost middle = *heap;
        assert(contents.take(self.len as int) == contents);
        self.addr = new_addr;
        self.cap = new_cap;
        proof {
            assert(self.holds(*heap, copied, contents));
            assert(first.live().insert(new_addr, layout.grid_size()).remove(new_addr)
                =~= first.live());
        }
        if old_cap > 0 {
            proof {
                lemma_valid_size(old(self).layout(old_cap), old(self).layout(0));
            }
            give_back(
                heap,
                memory,
                old_addr,
                Layout { size: old_cap, align: self.align },
            );
            proof {
                assert forall|k: int| 0 <= k < contents.len() implies memory.words()[(new_addr + 8
                    * k) as u64] == #[trigger] contents[k] by {
                    self.lemma_inside(middle, copied, contents, k);
                    assert(allocation(middle.live().remove(old_addr), new_addr).covers(
                        ((new_addr + 8 * k) as u64) as int,
                    ));
                    assert(copied[(new_addr + 8 * k) as u64] == contents[k]);
                }
                assert(middle.live().remove(old_addr).remove(new_addr) =~= first.live().remove(
                    old_addr,
                ));
                lemma_kept(
                    words,
                    copied,
                    memory.words(),
                    others,
                    middle.live().remove(old_addr),
                    others,
                );
            }
        }
    }

    /// Overwrite the last word, or add one behind it, in a buffer with room
    /// for it.
    pub(crate) fn put<M: WordMemory>(
        &mut self,
        heap: &Heap,
        memory: &mut M,
        index: u64,
        value: u64,
        Ghost(contents): Ghost<Seq<u64>>,
    )
        requires
            heap.wf(old(memory).words()),
            old(self).holds(*heap, old(memory).words(), contents),
            index <= contents.len() <= index + 1,
            8 * index + 8 <= old(self).cap(),
        ensures
            heap.wf(final(memory).words()),
            final(self).holds(*heap, final(memory).words(), contents.take(index as int).push(value)),
            final(self).state(
                *heap,
                final(memory).words(),
                contents.take(index as int).push(value),
            ) == old(self).state(*heap, old(memory).words(), contents).put(index as int, value),
            final(self).addr() == old(self).addr(),
            final(self).cap() == old(self).cap(),
            final(self).floor() == old(self).floor(),
            forall|cap: u64| #[trigger] final(self).layout(cap) == old(self).layout(cap),
            kept(old(memory).words(), final(memory).words(), old(self).others(heap.live())),
            only_inside_changed(old(memory).words(), final(memory).words(), heap.region()),
    {
        let ghost words = memory.words();
        proof {
            self.lemma_inside(*heap, words, contents, index as int);
        }
        store(heap, memory, self.addr, self.addr + 8 * index, value);
        self.len = index + 1;
        proof {
            let after = contents.take(index as int).push(value);
            assert forall|k: int| 0 <= k < after.len() implies memory.words()[(self.addr() + 8 * k) as u64]
                == #[trigger] after[k] by {
                if k < index {
                    assert(words[(self.addr() + 8 * k) as u64] == contents[k]);
                }
            }
        }
    }

    /// The word at `index`.
    pub(crate) fn get<M: WordMemory>(
        &self,
        heap: &Heap,
        memory: &M,
        index: u64,
        Ghost(contents): Ghost<Seq<u64>>,
    ) -> (value: u64)
        requires
            heap.wf(memory.words()),
            self.holds(*heap, memory.words(), contents),
            index < contents.len(),
        ensures
            value == contents[index as int],
    {
        proof {
            self.lemma_inside(*heap, memory.words(), contents, index as int);
            assert(memory.words()[(self.addr() + 8 * index) as u64] == contents[index as int]);
        }
        memory.read_word(self.addr + 8 * index)
    }

    /// Give the buffer back.
    pub(crate) fn release<M: WordMemory>(
        self,
        heap: &mut Heap,
        memory: &mut M,
        Ghost(contents): Ghost<Seq<u64>>,
    )
        requires
            old(heap).wf(old(memory).words()),
            self.holds(*old(heap), old(memory).words(), contents),
        ensures
            final(heap).wf(final(memory).words()),
            final(heap).region() == old(heap).region(),
            final(heap).live() == self.others(old(heap).live()),
            state_of(*final(heap), final(memory).words()) == self.state(
                *old(heap),
                old(memory).words(),
                contents,
            ).dropped(),
            kept(old(memory).words(), final(memory).words(), self.others(old(heap).live())),
            only_inside_changed(old(memory).words(), final(memory).words(), old(heap).region()),
    {
        if self.cap > 0 {
            proof {
                lemma_valid_size(self.layout(self.cap), self.layout(0));
            }
            give_back(
                heap,
                memory,
                self.addr,
                Layout { size: self.cap, align: self.align },
            );
        }
    }

    /// How many words the buffer holds.
    pub(crate) fn count(&self) -> (count: u64)
        ensures
            count == self.len(),
    {
        self.len
    }

    /// How many bytes the buffer can hold.
    pub(crate) fn capacity(&self) -> (bytes: u64)
        ensures
            bytes == self.cap(),
    {
        self.cap
    }
}

/// A small size fits any small alignment.
proof fn lemma_valid_size(layout: Layout, base: Layout)
    requires
        base.valid(),
        layout.align == base.align,
        layout.align <= GRAIN,
        layout.size <= 0x1000_0000,
    ensures
        layout.valid(),
{
}

/// What is kept are the words of every allocation that stays.
pub proof fn kept_words_are_the_same(
    before: Map<u64, u64>,
    after: Map<u64, u64>,
    live: Map<u64, u64>,
    payload: u64,
    addr: u64,
)
    requires
        kept(before, after, live),
        live.contains_key(payload),
        payload <= addr < payload + live[payload],
    ensures
        after[addr] == before[addr],
{
    assert(allocation(live, payload).covers(addr as int));
}

} // verus!
