//! The allocation patterns that the heap's boot-time check runs: those of a
//! box, of a growing vector, of a growing string, and of three neighbours.

use crate::kernel::free_list::has_room;
use crate::kernel::growable::{
    claim, continues, give_back, kept, laid_out, lemma_kept, state_of, store, BufferState,
    Growable,
};
use crate::kernel::heap::{allocated_words_are_mapped, same_allocations_same_list, Heap};
use crate::kernel::heap_words::{allocation, only_inside_changed, HeapState};
use crate::kernel::layout::{lemma_on_grid, Layout};
use crate::ram::WordMemory;
use vstd::prelude::*;

verus! {

/// The capacities a growing vector of words goes through, in bytes.
pub open spec fn vector_step(cap: int) -> bool {
    ||| cap == 0
    ||| cap == 32
    ||| cap == 64
    ||| cap == 128
    ||| cap == 256
    ||| cap == 512
    ||| cap == 1024
    ||| cap == 2048
    ||| cap == 4096
    ||| cap == 8192
}

/// The capacities a growing string goes through.
pub open spec fn string_step(cap: int) -> bool {
    ||| cap == 0
    ||| cap == 8
    ||| cap == 16
    ||| cap == 32
    ||| cap == 64
    ||| cap == 128
    ||| cap == 256
    ||| cap == 512
}

/// The grid size of a capacity.
pub proof fn lemma_capacity(layout: Layout)
    requires
        layout.align == 1 || layout.align == 8,
        layout.size <= 0x1000_0000,
    ensures
        layout.valid(),
        layout.size % 16 == 0 && layout.size > 0 ==> layout.grid_size() == layout.size,
        layout.size <= 16 ==> layout.grid_size() == 16,
{
    assert(1u64 & ((1u64 - 1) as u64) == 0 && 8u64 & ((8u64 - 1) as u64) == 0) by (bit_vector);
    lemma_on_grid(layout);
}

/// The heap once a box has come and gone: a word was claimed, written and
/// given back.
pub open spec fn after_box(heap: HeapState) -> HeapState {
    let boxed = heap.place(16);
    heap.claimed(16).stored(boxed, 0xdead_beef).given_back(boxed, 16)
}

/// The heap with a vector on it that the words from 0 up to `len` were added
/// to one by one.
pub open spec fn vector_of(heap: HeapState, len: nat) -> BufferState
    decreases len,
{
    if len == 0 {
        BufferState::unallocated(heap)
    } else {
        vector_of(heap, (len - 1) as nat).fitted(8 * len as int, 32).put(len - 1, (len - 1) as u64)
    }
}

/// The last word of a text of `bytes` bytes that repeats "rust": the four
/// letters in one half of a word, or in both.
pub open spec fn last_word(bytes: int) -> u64 {
    if bytes % 8 == 4 {
        0x7473_7572
    } else {
        0x7473_7572_7473_7572
    }
}

/// The heap with a string on it that "rust" was added to `times` times.
pub open spec fn string_of(heap: HeapState, times: nat) -> BufferState
    decreases times,
{
    if times == 0 {
        BufferState::unallocated(heap)
    } else {
        let bytes = 4 * times as int;
        string_of(heap, (times - 1) as nat).fitted(bytes, 8).put((bytes - 1) / 8, last_word(bytes))
    }
}

/// The heap once three neighbours of 64 bytes have come and gone, the middle
/// one last.
pub open spec fn after_merge(heap: HeapState) -> HeapState {
    let first = heap.place(64);
    let one = heap.claimed(64);
    let middle = one.place(64);
    let two = one.claimed(64);
    let last = two.place(64);
    let three = two.claimed(64);
    three.given_back(first, 64).given_back(last, 64).given_back(middle, 64)
}

/// The heap can serve a box.
pub open spec fn box_served(heap: HeapState) -> bool {
    heap.serves(16)
}

/// The heap can serve every move of a vector that grows to `len` words.
pub open spec fn vector_served(heap: HeapState, len: nat) -> bool {
    forall|n: nat| n < len ==> (#[trigger] vector_of(heap, n)).served(8 * n as int + 8, 32)
}

/// The heap can serve every move of a string that "rust" is added to `times`
/// times.
pub open spec fn string_served(heap: HeapState, times: nat) -> bool {
    forall|n: nat| n < times ==> (#[trigger] string_of(heap, n)).served(4 * n as int + 4, 8)
}

/// The heap can serve three neighbours of 64 bytes.
pub open spec fn merge_served(heap: HeapState) -> bool {
    &&& heap.serves(64)
    &&& heap.claimed(64).serves(64)
    &&& heap.claimed(64).claimed(64).serves(64)
}

/// The two states have the same free list, and the same word at `addr`.
pub open spec fn alike_at(one: HeapState, two: HeapState, addr: u64) -> bool {
    &&& one.blocks == two.blocks
    &&& one.words[addr] == two.words[addr]
}

/// What handing out and giving back write comes from the free list alone.
proof fn lemma_steps_alike(one: HeapState, two: HeapState, addr: u64, payload: u64, size: u64)
    requires
        alike_at(one, two, addr),
    ensures
        one.place(size) == two.place(size),
        alike_at(one.claimed(size), two.claimed(size), addr),
        alike_at(one.given_back(payload, size), two.given_back(payload, size), addr),
{
    reveal(HeapState::claimed);
    reveal(HeapState::given_back);
}

/// The two states hold the same buffer, and are alike at `addr`.
spec fn buffers_alike(one: BufferState, two: BufferState, addr: u64) -> bool {
    &&& alike_at(one.heap, two.heap, addr)
    &&& one.addr == two.addr
    &&& one.cap == two.cap
    &&& one.contents == two.contents
}

/// Laying words out is alike wherever it is done.
proof fn lemma_laid_out_alike(
    one: Map<u64, u64>,
    two: Map<u64, u64>,
    addr: u64,
    at: u64,
    contents: Seq<u64>,
)
    requires
        one[addr] == two[addr],
    ensures
        laid_out(one, at, contents)[addr] == laid_out(two, at, contents)[addr],
    decreases contents.len(),
{
    if contents.len() > 0 {
        lemma_laid_out_alike(one, two, addr, at, contents.drop_last());
    }
}

/// Growing and dropping keep two buffers alike.
proof fn lemma_buffers_alike(
    one: BufferState,
    two: BufferState,
    addr: u64,
    bytes: int,
    floor: u64,
)
    requires
        buffers_alike(one, two, addr),
    ensures
        buffers_alike(one.fitted(bytes, floor), two.fitted(bytes, floor), addr),
        alike_at(one.dropped(), two.dropped(), addr),
{
    lemma_steps_alike(one.heap, two.heap, addr, one.addr, BufferState::footprint(one.cap));
    if bytes > one.cap {
        let cap = if one.cap == 0 {
            floor
        } else {
            (2 * one.cap) as u64
        };
        let size = BufferState::footprint(cap);
        lemma_steps_alike(one.heap, two.heap, addr, one.addr, size);
        let first = one.heap.claimed(size);
        let second = two.heap.claimed(size);
        let at = one.heap.place(size);
        lemma_laid_out_alike(first.words, second.words, addr, at, one.contents);
        lemma_steps_alike(
            HeapState { blocks: first.blocks, words: laid_out(first.words, at, one.contents) },
            HeapState { blocks: second.blocks, words: laid_out(second.words, at, two.contents) },
            addr,
            one.addr,
            BufferState::footprint(one.cap),
        );
    }
}

/// A vector grows alike on heaps that are alike.
proof fn lemma_vectors_alike(one: HeapState, two: HeapState, addr: u64, len: nat)
    requires
        alike_at(one, two, addr),
    ensures
        buffers_alike(vector_of(one, len), vector_of(two, len), addr),
    decreases len,
{
    if len > 0 {
        let less = (len - 1) as nat;
        lemma_vectors_alike(one, two, addr, less);
        lemma_buffers_alike(vector_of(one, less), vector_of(two, less), addr, 8 * len as int, 32);
    }
}

/// A string grows alike on heaps that are alike.
proof fn lemma_strings_alike(one: HeapState, two: HeapState, addr: u64, times: nat)
    requires
        alike_at(one, two, addr),
    ensures
        buffers_alike(string_of(one, times), string_of(two, times), addr),
    decreases times,
{
    if times > 0 {
        let less = (times - 1) as nat;
        lemma_strings_alike(one, two, addr, less);
        lemma_buffers_alike(string_of(one, less), string_of(two, less), addr, 4 * times as int, 8);
    }
}

/// What a box leaves behind is alike on heaps that are alike.
pub proof fn lemma_box_alike(one: HeapState, two: HeapState, addr: u64)
    requires
        alike_at(one, two, addr),
    ensures
        alike_at(after_box(one), after_box(two), addr),
{
    let boxed = one.place(16);
    lemma_steps_alike(one, two, addr, boxed, 16);
    lemma_steps_alike(
        one.claimed(16).stored(boxed, 0xdead_beef),
        two.claimed(16).stored(boxed, 0xdead_beef),
        addr,
        boxed,
        16,
    );
}

/// What a vector leaves behind is alike on heaps that are alike.
pub proof fn lemma_vector_alike(one: HeapState, two: HeapState, addr: u64, len: nat)
    requires
        alike_at(one, two, addr),
    ensures
        alike_at(vector_of(one, len).dropped(), vector_of(two, len).dropped(), addr),
{
    lemma_vectors_alike(one, two, addr, len);
    lemma_buffers_alike(vector_of(one, len), vector_of(two, len), addr, 0, 32);
}

/// What a string leaves behind is alike on heaps that are alike.
pub proof fn lemma_string_alike(one: HeapState, two: HeapState, addr: u64, times: nat)
    requires
        alike_at(one, two, addr),
    ensures
        alike_at(string_of(one, times).dropped(), string_of(two, times).dropped(), addr),
{
    lemma_strings_alike(one, two, addr, times);
    lemma_buffers_alike(string_of(one, times), string_of(two, times), addr, 0, 8);
}

/// What three neighbours leave behind is alike on heaps that are alike.
pub proof fn lemma_merge_alike(one: HeapState, two: HeapState, addr: u64)
    requires
        alike_at(one, two, addr),
    ensures
        alike_at(after_merge(one), after_merge(two), addr),
{
    let first = one.place(64);
    let (one_a, two_a) = (one.claimed(64), two.claimed(64));
    let middle = one_a.place(64);
    let (one_b, two_b) = (one_a.claimed(64), two_a.claimed(64));
    let last = one_b.place(64);
    let (one_c, two_c) = (one_b.claimed(64), two_b.claimed(64));
    lemma_steps_alike(one, two, addr, 0, 64);
    lemma_steps_alike(one_a, two_a, addr, 0, 64);
    lemma_steps_alike(one_b, two_b, addr, 0, 64);
    lemma_steps_alike(one_c, two_c, addr, first, 64);
    let (one_d, two_d) = (one_c.given_back(first, 64), two_c.given_back(first, 64));
    lemma_steps_alike(one_d, two_d, addr, last, 64);
    let (one_e, two_e) = (one_d.given_back(last, 64), two_d.given_back(last, 64));
    lemma_steps_alike(one_e, two_e, addr, middle, 64);
}

/// A box: one word that must come back as it was stored.
pub(crate) fn check_box<M: WordMemory>(heap: &mut Heap, memory: &mut M) -> (outcome:
    Result<(), &'static str>)
    requires
        old(heap).wf(old(memory).words()),
        box_served(state_of(*old(heap), old(memory).words())),
    ensures
        outcome is Ok,
        final(heap).wf(final(memory).words()),
        continues(*old(heap), *final(heap), old(heap).live()),
        state_of(*final(heap), final(memory).words()) == after_box(state_of(*old(heap), old(memory).words())),
        final(heap).blocks() == old(heap).blocks(),
        kept(old(memory).words(), final(memory).words(), old(heap).live()),
        only_inside_changed(old(memory).words(), final(memory).words(), old(heap).region()),
{
    let layout = Layout { size: 8, align: 8 };
    let ghost first = memory.words();
    let ghost live = heap.live();
    proof {
        lemma_capacity(layout);
    }
    let boxed: u64 = claim(heap, memory, layout);
    let ghost second = memory.words();
    proof {
        allocated_words_are_mapped(*heap, second, boxed);
        assert(allocation(heap.live(), boxed).covers(boxed as int));
        assert(heap.live().remove(boxed) =~= live);
    }
    store(heap, memory, boxed, boxed, 0xdead_beef);
    let ghost third = memory.words();
    let value: u64 = memory.read_word(boxed);
    give_back(heap, memory, boxed, layout);
    proof {
        lemma_kept(first, second, third, live, live, live);
        lemma_kept(first, third, memory.words(), live, live, live);
        same_allocations_same_list(*old(heap), first, *heap, memory.words());
    }
    if value != 0xdead_beef {
        return Err("Box did not round-trip its value");
    }
    Ok(())
}

/// A vector of 1024 words from empty, which forces several moves.
#[verifier::spinoff_prover]
#[verifier::rlimit(40)]
pub(crate) fn check_vector<M: WordMemory>(heap: &mut Heap, memory: &mut M) -> (outcome:
    Result<(), &'static str>)
    requires
        old(heap).wf(old(memory).words()),
        vector_served(state_of(*old(heap), old(memory).words()), 1024),
    ensures
        outcome is Ok,
        final(heap).wf(final(memory).words()),
        continues(*old(heap), *final(heap), old(heap).live()),
        state_of(*final(heap), final(memory).words()) == vector_of(
            state_of(*old(heap), old(memory).words()),
            1024,
        ).dropped(),
        final(heap).blocks() == old(heap).blocks(),
        kept(old(memory).words(), final(memory).words(), old(heap).live()),
        only_inside_changed(old(memory).words(), final(memory).words(), old(heap).region()),
{
    let ghost live = heap.live();
    let ghost first = memory.words();
    let mut values = Growable::empty(8, 32);
    let ghost mut contents = Seq::<u64>::empty();
    let mut i: u64 = 0;
    while i < 1024
        invariant
            i <= 1024,
            heap.wf(memory.words()),
            heap.region() == old(heap).region(),
            values.holds(*heap, memory.words(), contents),
            values.others(heap.live()) == live,
            contents.len() == i,
            forall|k: int| 0 <= k < i ==> #[trigger] contents[k] == k,
            values.state(*heap, memory.words(), contents) == vector_of(
                state_of(*old(heap), first),
                i as nat,
            ),
            vector_step(values.cap() as int),
            values.floor() == 32,
            forall|cap: u64| #[trigger] values.layout(cap) == (Layout { size: cap, align: 8 }),
            8 * i <= values.cap(),
            vector_served(state_of(*old(heap), first), 1024),
            kept(first, memory.words(), live),
            first == old(memory).words(),
            only_inside_changed(first, memory.words(), heap.region()),
        decreases 1024 - i,
    {
        let ghost step = memory.words();
        if values.count() * 8 == values.capacity() {
            proof {
                assert(vector_of(state_of(*old(heap), first), i as nat).served(8 * i + 8, 32));
            }
            values.grow(heap, memory, Ghost(contents));
            proof {
                lemma_kept(first, step, memory.words(), live, live, live);
            }
        }
        let ghost grown = memory.words();
        values.put(heap, memory, i, i, Ghost(contents));
        proof {
            lemma_kept(first, grown, memory.words(), live, live, live);
            contents = contents.take(i as int).push(i);
        }
        i = i + 1;
    }
    let count: u64 = values.count();
    let low: u64 = values.get(heap, memory, 0, Ghost(contents));
    let high: u64 = values.get(heap, memory, 1023, Ghost(contents));
    let ghost filled = memory.words();
    values.release(heap, memory, Ghost(contents));
    proof {
        lemma_kept(first, filled, memory.words(), live, live, live);
        same_allocations_same_list(*old(heap), first, *heap, memory.words());
    }
    if count != 1024 {
        return Err("Vec length is wrong after growth");
    }
    if low != 0 || high != 1023 {
        return Err("Vec contents are wrong after reallocation");
    }
    Ok(())
}

/// A string that four bytes are added to a hundred times.
#[verifier::spinoff_prover]
#[verifier::rlimit(40)]
pub(crate) fn check_string<M: WordMemory>(heap: &mut Heap, memory: &mut M) -> (outcome:
    Result<(), &'static str>)
    requires
        old(heap).wf(old(memory).words()),
        string_served(state_of(*old(heap), old(memory).words()), 100),
    ensures
        outcome is Ok,
        final(heap).wf(final(memory).words()),
        continues(*old(heap), *final(heap), old(heap).live()),
        state_of(*final(heap), final(memory).words()) == string_of(
            state_of(*old(heap), old(memory).words()),
            100,
        ).dropped(),
        final(heap).blocks() == old(heap).blocks(),
        kept(old(memory).words(), final(memory).words(), old(heap).live()),
        only_inside_changed(old(memory).words(), final(memory).words(), old(heap).region()),
{
    let ghost live = heap.live();
    let ghost first = memory.words();
    let mut text = Growable::empty(1, 8);
    let ghost mut contents = Seq::<u64>::empty();
    let mut len: u64 = 0;
    let mut i: u64 = 0;
    while i < 100
        invariant
            i <= 100,
            len == 4 * i,
            heap.wf(memory.words()),
            heap.region() == old(heap).region(),
            text.holds(*heap, memory.words(), contents),
            text.others(heap.live()) == live,
            contents.len() == (len + 7) / 8,
            text.state(*heap, memory.words(), contents) == string_of(
                state_of(*old(heap), first),
                i as nat,
            ),
            string_step(text.cap() as int),
            text.floor() == 8,
            forall|cap: u64| #[trigger] text.layout(cap) == (Layout { size: cap, align: 1 }),
            len <= text.cap(),
            string_served(state_of(*old(heap), first), 100),
            kept(first, memory.words(), live),
            first == old(memory).words(),
            only_inside_changed(first, memory.words(), heap.region()),
        decreases 100 - i,
    {
        let ghost step = memory.words();
        if len + 4 > text.capacity() {
            proof {
                assert(string_of(state_of(*old(heap), first), i as nat).served(4 * i + 4, 8));
            }
            text.grow(heap, memory, Ghost(contents));
            proof {
                lemma_kept(first, step, memory.words(), live, live, live);
            }
        }
        let ghost grown = memory.words();
        // "rust" in one half of a word, or in both.
        let value: u64 = if len % 8 == 0 {
            0x7473_7572
        } else {
            0x7473_7572_7473_7572
        };
        text.put(heap, memory, len / 8, value, Ghost(contents));
        proof {
            lemma_kept(first, grown, memory.words(), live, live, live);
            contents = contents.take((len / 8) as int).push(value);
        }
        len = len + 4;
        i = i + 1;
    }
    let ghost filled = memory.words();
    text.release(heap, memory, Ghost(contents));
    proof {
        lemma_kept(first, filled, memory.words(), live, live, live);
        same_allocations_same_list(*old(heap), first, *heap, memory.words());
    }
    if len != 400 {
        return Err("String length is wrong after growth");
    }
    Ok(())
}

/// Three allocations, of which the middle one is given back last, so that
/// the final free has a free neighbour on both sides.
pub(crate) fn check_merge<M: WordMemory>(heap: &mut Heap, memory: &mut M)
    requires
        old(heap).wf(old(memory).words()),
        merge_served(state_of(*old(heap), old(memory).words())),
    ensures
        final(heap).wf(final(memory).words()),
        continues(*old(heap), *final(heap), old(heap).live()),
        state_of(*final(heap), final(memory).words()) == after_merge(
            state_of(*old(heap), old(memory).words()),
        ),
        final(heap).blocks() == old(heap).blocks(),
        kept(old(memory).words(), final(memory).words(), old(heap).live()),
        only_inside_changed(old(memory).words(), final(memory).words(), old(heap).region()),
{
    let layout = Layout { size: 64, align: 1 };
    let ghost live = heap.live();
    let ghost words = memory.words();
    proof {
        lemma_capacity(layout);
    }
    let first: u64 = claim(heap, memory, layout);
    let ghost one = memory.words();
    let ghost live_one = heap.live();
    let middle: u64 = claim(heap, memory, layout);
    let ghost two = memory.words();
    let ghost live_two = heap.live();
    let last: u64 = claim(heap, memory, layout);
    let ghost three = memory.words();
    let ghost live_three = heap.live();
    give_back(heap, memory, first, layout);
    let ghost four = memory.words();
    give_back(heap, memory, last, layout);
    let ghost five = memory.words();
    give_back(heap, memory, middle, layout);
    proof {
        let live_four = live_three.remove(first);
        let live_five = live_four.remove(last);
        assert(live_five.remove(middle) =~= live);
        lemma_kept(words, one, two, live, live_one, live);
        lemma_kept(words, two, three, live, live_two, live);
        lemma_kept(words, three, four, live, live_four, live);
        lemma_kept(words, four, five, live, live_five, live);
        lemma_kept(words, five, memory.words(), live, live, live);
        same_allocations_same_list(*old(heap), words, *heap, memory.words());
    }
}

} // verus!
