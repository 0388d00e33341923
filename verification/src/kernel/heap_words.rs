//! The heap's free list as the words in memory spell it out, and the part of
//! the heap's region that is handed out.

use crate::kernel::free_list::{
    below, canonical, carvable, carve, covered, first_fit, front_of, lemma_carve,
    lemma_carve_index, lemma_merge, lemma_release, merge_of, origin, releasable, release, splice,
    tail_of, FreeBlock, GRAIN,
};
use vstd::prelude::*;

verus! {

/// The address of block `i`, or zero past the end of the list.
pub open spec fn addr_at(blocks: Seq<FreeBlock>, i: int) -> u64 {
    if 0 <= i < blocks.len() {
        blocks[i].start
    } else {
        0
    }
}

/// The header of block `i` says what it should.
pub open spec fn header_at(words: Map<u64, u64>, blocks: Seq<FreeBlock>, i: int) -> bool {
    &&& words.contains_key(blocks[i].start)
    &&& words.contains_key((blocks[i].start + 8) as u64)
    &&& words[blocks[i].start] == blocks[i].size
    &&& words[(blocks[i].start + 8) as u64] == addr_at(blocks, i + 1)
}

/// The words in memory spell out this free list, starting at `head`.
pub open spec fn linked(words: Map<u64, u64>, head: u64, blocks: Seq<FreeBlock>) -> bool {
    &&& head == addr_at(blocks, 0)
    &&& forall|i: int| 0 <= i < blocks.len() ==> #[trigger] header_at(words, blocks, i)
}

/// The span of the allocation at `payload`.
pub open spec fn allocation(live: Map<u64, u64>, payload: u64) -> FreeBlock {
    FreeBlock { start: payload, size: live[payload] }
}

/// The byte at `addr` is handed out.
pub open spec fn lent(live: Map<u64, u64>, addr: int) -> bool {
    exists|payload: u64|
        live.contains_key(payload) && #[trigger] allocation(live, payload).covers(addr)
}

/// Every byte of the region is either free or part of exactly one
/// allocation, and nothing outside the region is either.
#[verifier::opaque]
pub open spec fn partition(region: FreeBlock, blocks: Seq<FreeBlock>, live: Map<u64, u64>) -> bool {
    &&& forall|payload: u64|
        live.contains_key(payload) ==> (#[trigger] allocation(live, payload)).wf()
    &&& forall|addr: int|
        region.covers(addr) <==> (#[trigger] covered(blocks, addr) || lent(live, addr))
    &&& forall|addr: int| #[trigger] covered(blocks, addr) ==> !lent(live, addr)
    &&& forall|one: u64, two: u64, addr: int|
        live.contains_key(one) && live.contains_key(two) && #[trigger] allocation(live, one).covers(
            addr,
        ) && #[trigger] allocation(live, two).covers(addr) ==> one == two
}

/// Every word of the region can be accessed.
pub open spec fn mapped(words: Map<u64, u64>, region: FreeBlock) -> bool {
    forall|addr: u64|
        region.covers(addr as int) && addr % 8 == 0 ==> #[trigger] words.contains_key(addr)
}

/// The memory differs at most in bytes that `blocks` covers.
pub open spec fn only_free_changed(
    before: Map<u64, u64>,
    after: Map<u64, u64>,
    blocks: Seq<FreeBlock>,
) -> bool {
    &&& after.dom() == before.dom()
    &&& forall|addr: u64|
        !covered(blocks, addr as int) ==> #[trigger] after[addr] == before[addr]
}

/// The memory differs at most in bytes of the region.
pub open spec fn only_inside_changed(
    before: Map<u64, u64>,
    after: Map<u64, u64>,
    region: FreeBlock,
) -> bool {
    &&& after.dom() == before.dom()
    &&& forall|addr: u64| !region.covers(addr as int) ==> #[trigger] after[addr] == before[addr]
}

/// The memory once `size` bytes at `payload` are carved out of block `at`:
/// the header of the tail, and the header or link in front of it.
pub open spec fn carved_words(
    words: Map<u64, u64>,
    blocks: Seq<FreeBlock>,
    at: int,
    payload: u64,
    size: u64,
) -> Map<u64, u64> {
    let block = blocks[at];
    let after = (payload + size) as u64;
    let next = addr_at(blocks, at + 1);
    let has_tail = payload + size < block.end();
    let with_tail = if has_tail {
        words.insert(after, (block.end() - after) as u64).insert((after + 8) as u64, next)
    } else {
        words
    };
    let remainder = if has_tail { after } else { next };
    if block.start < payload {
        with_tail.insert(block.start, (payload - block.start) as u64).insert(
            (block.start + 8) as u64,
            remainder,
        )
    } else if at > 0 {
        with_tail.insert((blocks[at - 1].start + 8) as u64, remainder)
    } else {
        with_tail
    }
}

/// A block's two header words belong to it, and to no other block.
pub proof fn lemma_header_words(blocks: Seq<FreeBlock>, i: int)
    requires
        canonical(blocks),
        0 <= i < blocks.len(),
    ensures
        blocks[i].start + 16 <= blocks[i].end() <= u64::MAX,
        blocks[i].start % 16 == 0,
        forall|j: int|
            0 <= j < blocks.len() && j != i ==> (#[trigger] blocks[j]).end() < blocks[i].start
                || blocks[i].end() < blocks[j].start,
{
    assert(blocks[i].wf());
    assert forall|j: int| 0 <= j < blocks.len() && j != i implies (#[trigger] blocks[j]).end()
        < blocks[i].start || blocks[i].end() < blocks[j].start by {
        if j < i {
            assert(blocks[j].end() < blocks[i].start);
        } else {
            assert(blocks[i].end() < blocks[j].start);
        }
    }
}

/// What a carve needs of the memory.
pub open spec fn carvable_in(
    words: Map<u64, u64>,
    head: u64,
    blocks: Seq<FreeBlock>,
    at: int,
    payload: u64,
    size: u64,
) -> bool {
    &&& linked(words, head, blocks)
    &&& carvable(blocks, at, payload, size)
    &&& payload + size < blocks[at].end() ==> {
        &&& words.contains_key((payload + size) as u64)
        &&& words.contains_key((payload + size + 8) as u64)
    }
}

/// After a carve, a block that the carve left alone has the right header.
#[verifier::spinoff_prover]
pub proof fn lemma_carve_keeps_header(
    words: Map<u64, u64>,
    head: u64,
    blocks: Seq<FreeBlock>,
    at: int,
    payload: u64,
    size: u64,
    i: int,
)
    requires
        carvable_in(words, head, blocks, at, payload, size),
        0 <= i < blocks.len(),
        i != at,
    ensures
        ({
            let after = carved_words(words, blocks, at, payload, size);
            let block = blocks[i];
            &&& after.contains_key(block.start)
            &&& after.contains_key((block.start + 8) as u64)
            &&& after[block.start] == block.size
            &&& i == at - 1 && payload == blocks[at].start ==> after[(block.start + 8) as u64] == (
            if payload + size < blocks[at].end() {
                (payload + size) as u64
            } else {
                addr_at(blocks, at + 1)
            })
            &&& i != at - 1 || payload != blocks[at].start ==> after[(block.start + 8) as u64]
                == addr_at(blocks, i + 1)
        }),
{
    lemma_header_words(blocks, at);
    lemma_header_words(blocks, i);
    assert(header_at(words, blocks, i));
    assert(blocks[i].end() < blocks[at].start || blocks[at].end() < blocks[i].start);
    if at > 0 {
        lemma_header_words(blocks, at - 1);
        assert(i == at - 1 || blocks[i].end() < blocks[at - 1].start || blocks[at - 1].end()
            < blocks[i].start);
    }
}

/// After a carve, what is left of the carved block has the right headers.
#[verifier::spinoff_prover]
pub proof fn lemma_carve_writes_headers(
    words: Map<u64, u64>,
    head: u64,
    blocks: Seq<FreeBlock>,
    at: int,
    payload: u64,
    size: u64,
)
    requires
        carvable_in(words, head, blocks, at, payload, size),
    ensures
        ({
            let after = carved_words(words, blocks, at, payload, size);
            let block = blocks[at];
            let next = addr_at(blocks, at + 1);
            let rest = (payload + size) as u64;
            &&& block.start < payload ==> {
                &&& after.contains_key(block.start)
                &&& after.contains_key((block.start + 8) as u64)
                &&& after[block.start] == payload - block.start
                &&& after[(block.start + 8) as u64] == (if rest < block.end() { rest } else { next })
            }
            &&& rest < block.end() ==> {
                &&& after.contains_key(rest)
                &&& after.contains_key((rest + 8) as u64)
                &&& after[rest] == block.end() - rest
                &&& after[(rest + 8) as u64] == next
            }
        }),
{
    lemma_header_words(blocks, at);
    assert(header_at(words, blocks, at));
    if at > 0 {
        lemma_header_words(blocks, at - 1);
        assert(blocks[at].end() < blocks[at - 1].start || blocks[at - 1].end() < blocks[at].start);
    }
}

/// A byte that is not free is in no block.
pub proof fn lemma_not_covered(blocks: Seq<FreeBlock>, i: int, addr: int)
    requires
        0 <= i < blocks.len(),
        !covered(blocks, addr),
    ensures
        !blocks[i].covers(addr),
{
}

/// Carving changes nothing but free memory.
#[verifier::spinoff_prover]
pub proof fn lemma_carve_only_free(
    words: Map<u64, u64>,
    head: u64,
    blocks: Seq<FreeBlock>,
    at: int,
    payload: u64,
    size: u64,
)
    requires
        carvable_in(words, head, blocks, at, payload, size),
    ensures
        only_free_changed(words, carved_words(words, blocks, at, payload, size), blocks),
{
    let after = carved_words(words, blocks, at, payload, size);
    lemma_header_words(blocks, at);
    assert(header_at(words, blocks, at));
    if at > 0 {
        lemma_header_words(blocks, at - 1);
        assert(header_at(words, blocks, at - 1));
    }
    assert(after.dom() =~= words.dom());
    assert forall|addr: u64| !covered(blocks, addr as int) implies #[trigger] after[addr]
        == words[addr] by {
        lemma_not_covered(blocks, at, addr as int);
        if at > 0 {
            lemma_not_covered(blocks, at - 1, addr as int);
        }
    }
}

/// Carving leaves a linked list.
#[verifier::spinoff_prover]
pub proof fn lemma_carve_linked(
    words: Map<u64, u64>,
    head: u64,
    blocks: Seq<FreeBlock>,
    at: int,
    payload: u64,
    size: u64,
)
    requires
        carvable_in(words, head, blocks, at, payload, size),
    ensures
        linked(
            carved_words(words, blocks, at, payload, size),
            if blocks[at].start == payload && at == 0 {
                addr_at(carve(blocks, at, payload, size), 0)
            } else {
                head
            },
            carve(blocks, at, payload, size),
        ),
        addr_at(carve(blocks, at, payload, size), at) == (if blocks[at].start < payload {
            blocks[at].start
        } else if payload + size < blocks[at].end() {
            (payload + size) as u64
        } else {
            addr_at(blocks, at + 1)
        }),
{
    let new = carve(blocks, at, payload, size);
    let after = carved_words(words, blocks, at, payload, size);
    let f = front_of(blocks[at], payload).len() as int;
    let t = tail_of(blocks[at], payload + size).len() as int;
    lemma_carve_index(blocks, at, payload, size);
    lemma_carve_writes_headers(words, head, blocks, at, payload, size);
    if f == 0 && t == 0 && at + 1 < blocks.len() {
        assert(new[at] == blocks[at + 1]);
    }
    assert forall|i: int| 0 <= i < new.len() implies header_at(after, new, i) by {
        let o = origin(blocks, at, payload, size, i);
        if o != at {
            lemma_carve_keeps_header(words, head, blocks, at, payload, size, o);
            assert(new[i] == blocks[o]);
            if o < at - 1 {
                assert(new[i + 1] == blocks[o + 1]);
            } else if o > at && i + 1 < new.len() {
                assert(new[i + 1] == blocks[o + 1]);
            }
        } else if i == at + f + t - 1 && i + 1 < new.len() {
            assert(new[i + 1] == blocks[at + 1]);
        }
    }
}

/// What a partition says of one address.
#[verifier::spinoff_prover]
pub proof fn lemma_partition_at(
    region: FreeBlock,
    blocks: Seq<FreeBlock>,
    live: Map<u64, u64>,
    addr: int,
)
    requires
        partition(region, blocks, live),
    ensures
        region.covers(addr) <==> (covered(blocks, addr) || lent(live, addr)),
        covered(blocks, addr) ==> !lent(live, addr),
{
    reveal(partition);
}

/// Carving moves the payload's bytes from the free list to the allocations.
#[verifier::spinoff_prover]
pub proof fn lemma_partition_carve(
    region: FreeBlock,
    blocks: Seq<FreeBlock>,
    live: Map<u64, u64>,
    at: int,
    payload: u64,
    size: u64,
)
    requires
        partition(region, blocks, live),
        carvable(blocks, at, payload, size),
    ensures
        !live.contains_key(payload),
        partition(region, carve(blocks, at, payload, size), live.insert(payload, size)),
{
    reveal(partition);
    let new = carve(blocks, at, payload, size);
    let lent_now = live.insert(payload, size);
    lemma_carve(blocks, at, payload, size);
    assert(blocks[at].wf());
    assert forall|addr: int| payload <= addr < payload + size implies #[trigger] covered(
        blocks,
        addr,
    ) by {
        assert(blocks[at].covers(addr));
    }
    if live.contains_key(payload) {
        assert(allocation(live, payload).wf());
        assert(allocation(live, payload).covers(payload as int));
        assert(lent(live, payload as int));
        assert(covered(blocks, payload as int));
    }
    assert forall|other: u64| live.contains_key(other) implies #[trigger] allocation(
        lent_now,
        other,
    ) == allocation(live, other) by {}
    assert(allocation(lent_now, payload) == (FreeBlock { start: payload, size }));
    assert forall|addr: int| #[trigger] lent(lent_now, addr) <==> (lent(live, addr) || payload
        <= addr < payload + size) by {
        if lent(lent_now, addr) {
            let one = choose|one: u64|
                lent_now.contains_key(one) && #[trigger] allocation(lent_now, one).covers(addr);
            if one != payload {
                assert(allocation(live, one).covers(addr));
            }
        }
        if lent(live, addr) {
            let one = choose|one: u64|
                live.contains_key(one) && #[trigger] allocation(live, one).covers(addr);
            assert(allocation(lent_now, one).covers(addr));
        }
        if payload <= addr < payload + size {
            assert(allocation(lent_now, payload).covers(addr));
        }
    }
    assert forall|addr: int|
        region.covers(addr) <==> (#[trigger] covered(new, addr) || lent(lent_now, addr)) by {
        assert(lent(lent_now, addr) <==> (lent(live, addr) || payload <= addr < payload + size));
        lemma_partition_at(region, blocks, live, addr);
    }
    assert forall|addr: int| #[trigger] covered(new, addr) implies !lent(lent_now, addr) by {
        assert(lent(lent_now, addr) <==> (lent(live, addr) || payload <= addr < payload + size));
        assert(covered(blocks, addr));
    }
    assert forall|one: u64, two: u64, addr: int|
        lent_now.contains_key(one) && lent_now.contains_key(two) && #[trigger] allocation(
            lent_now,
            one,
        ).covers(addr) && #[trigger] allocation(lent_now, two).covers(addr) implies one == two by {
        if one != payload && two != payload {
            assert(allocation(live, one).covers(addr) && allocation(live, two).covers(addr));
        } else if one != two {
            let other = if one == payload {
                two
            } else {
                one
            };
            assert(allocation(live, other).covers(addr));
            assert(lent(live, addr));
            assert(covered(blocks, addr));
        }
    }
}

/// Where the words of a free block's span lie.
pub proof fn lemma_mapped_words(
    words: Map<u64, u64>,
    region: FreeBlock,
    blocks: Seq<FreeBlock>,
    live: Map<u64, u64>,
    i: int,
    addr: u64,
)
    requires
        partition(region, blocks, live),
        mapped(words, region),
        0 <= i < blocks.len(),
        blocks[i].covers(addr as int),
        addr % 8 == 0,
    ensures
        words.contains_key(addr),
{
    assert(covered(blocks, addr as int));
    lemma_partition_at(region, blocks, live, addr as int);
}

/// The memory once a span is given back: the header of the block that it
/// becomes or joins, and the link in front of a new block.
pub open spec fn released_words(
    words: Map<u64, u64>,
    blocks: Seq<FreeBlock>,
    start: u64,
    size: u64,
) -> Map<u64, u64> {
    let at = below(blocks, start);
    let (low, high, merged) = merge_of(blocks, start, size);
    let with_header = words.insert(merged.start, merged.size).insert(
        (merged.start + 8) as u64,
        addr_at(blocks, high),
    );
    if low == at && at > 0 {
        with_header.insert((blocks[at - 1].start + 8) as u64, start)
    } else {
        with_header
    }
}

/// A free list together with the memory that holds it.
#[verifier::ext_equal]
pub struct HeapState {
    pub blocks: Seq<FreeBlock>,
    pub words: Map<u64, u64>,
}

impl HeapState {
    /// A request of `size` bytes on the grid can be served.
    pub open spec fn serves(self, size: u64) -> bool {
        first_fit(self.blocks, size, GRAIN) < self.blocks.len()
    }

    /// Where a request of `size` bytes on the grid is served: at the start
    /// of the first block it fits into.
    pub open spec fn place(self, size: u64) -> u64 {
        addr_at(self.blocks, first_fit(self.blocks, size, GRAIN))
    }

    /// Once `size` bytes are handed out at [`HeapState::place`].
    #[verifier::opaque]
    pub open spec fn claimed(self, size: u64) -> HeapState {
        let at = first_fit(self.blocks, size, GRAIN);
        HeapState {
            blocks: carve(self.blocks, at, self.place(size), size),
            words: carved_words(self.words, self.blocks, at, self.place(size), size),
        }
    }

    /// Once the owner of the word at `addr` has written to it.
    pub open spec fn stored(self, addr: u64, value: u64) -> HeapState {
        HeapState { blocks: self.blocks, words: self.words.insert(addr, value) }
    }

    /// Once the `size` bytes at `payload` are given back.
    #[verifier::opaque]
    pub open spec fn given_back(self, payload: u64, size: u64) -> HeapState {
        HeapState {
            blocks: release(self.blocks, payload, size),
            words: released_words(self.words, self.blocks, payload, size),
        }
    }
}

/// What giving a span back needs of the memory.
pub open spec fn releasable_in(
    words: Map<u64, u64>,
    head: u64,
    blocks: Seq<FreeBlock>,
    start: u64,
    size: u64,
) -> bool {
    &&& linked(words, head, blocks)
    &&& releasable(blocks, start, size)
    &&& words.contains_key(start)
    &&& words.contains_key((start + 8) as u64)
}

/// After a span is given back, a block it did not join has the right
/// header.
#[verifier::spinoff_prover]
pub proof fn lemma_release_keeps_header(
    words: Map<u64, u64>,
    head: u64,
    blocks: Seq<FreeBlock>,
    start: u64,
    size: u64,
    i: int,
)
    requires
        releasable_in(words, head, blocks, start, size),
        0 <= i < blocks.len(),
        i < merge_of(blocks, start, size).0 || i >= merge_of(blocks, start, size).1,
    ensures
        ({
            let after = released_words(words, blocks, start, size);
            let at = below(blocks, start);
            let low = merge_of(blocks, start, size).0;
            &&& after.contains_key(blocks[i].start)
            &&& after.contains_key((blocks[i].start + 8) as u64)
            &&& after[blocks[i].start] == blocks[i].size
            &&& low == at && i == at - 1 ==> after[(blocks[i].start + 8) as u64] == start
            &&& !(low == at && i == at - 1) ==> after[(blocks[i].start + 8) as u64] == addr_at(
                blocks,
                i + 1,
            )
        }),
{
    lemma_merge(blocks, start, size);
    let at = below(blocks, start);
    let (low, high, merged) = merge_of(blocks, start, size);
    lemma_header_words(blocks, i);
    assert(header_at(words, blocks, i));
    assert(blocks[i].end() < merged.start || merged.end() < blocks[i].start);
    if at > 0 {
        lemma_header_words(blocks, at - 1);
        assert(header_at(words, blocks, at - 1));
        assert(i == at - 1 || blocks[i].end() < blocks[at - 1].start || blocks[at - 1].end()
            < blocks[i].start);
    }
}

/// After a span is given back, the block it is part of has the right
/// header.
#[verifier::spinoff_prover]
pub proof fn lemma_release_writes_header(
    words: Map<u64, u64>,
    head: u64,
    blocks: Seq<FreeBlock>,
    start: u64,
    size: u64,
)
    requires
        releasable_in(words, head, blocks, start, size),
    ensures
        ({
            let after = released_words(words, blocks, start, size);
            let (low, high, merged) = merge_of(blocks, start, size);
            &&& after.contains_key(merged.start)
            &&& after.contains_key((merged.start + 8) as u64)
            &&& after[merged.start] == merged.size
            &&& after[(merged.start + 8) as u64] == addr_at(blocks, high)
        }),
{
    lemma_merge(blocks, start, size);
    let at = below(blocks, start);
    let (low, high, merged) = merge_of(blocks, start, size);
    if at > 0 {
        lemma_header_words(blocks, at - 1);
        assert(header_at(words, blocks, at - 1));
        if low == at {
            assert(blocks[at - 1].end() < merged.start);
        }
    }
}

/// Giving a span back leaves a linked list.
#[verifier::spinoff_prover]
pub proof fn lemma_release_linked(
    words: Map<u64, u64>,
    head: u64,
    blocks: Seq<FreeBlock>,
    start: u64,
    size: u64,
)
    requires
        releasable_in(words, head, blocks, start, size),
    ensures
        linked(
            released_words(words, blocks, start, size),
            if below(blocks, start) == 0 { start } else { head },
            release(blocks, start, size),
        ),
{
    lemma_merge(blocks, start, size);
    lemma_release_writes_header(words, head, blocks, start, size);
    let at = below(blocks, start);
    let (low, high, merged) = merge_of(blocks, start, size);
    let new = release(blocks, start, size);
    let after = released_words(words, blocks, start, size);
    assert(new == splice(blocks, low, high, merged));
    assert(new[low] == merged);
    if high < blocks.len() {
        assert(new[low + 1] == blocks[high]);
    }
    if low > 0 {
        assert(new[0] == blocks[0]);
    }
    assert forall|i: int| 0 <= i < new.len() implies header_at(after, new, i) by {
        if i < low {
            lemma_release_keeps_header(words, head, blocks, start, size, i);
            assert(new[i] == blocks[i]);
            if i + 1 < low {
                assert(new[i + 1] == blocks[i + 1]);
            }
        } else if i > low {
            let o = i - low - 1 + high;
            lemma_release_keeps_header(words, head, blocks, start, size, o);
            assert(new[i] == blocks[o]);
            if i + 1 < new.len() {
                assert(new[i + 1] == blocks[o + 1]);
            }
        }
    }
}

/// Giving a span back changes nothing but memory that is free afterwards.
#[verifier::spinoff_prover]
pub proof fn lemma_release_only_free(
    words: Map<u64, u64>,
    head: u64,
    blocks: Seq<FreeBlock>,
    start: u64,
    size: u64,
)
    requires
        releasable_in(words, head, blocks, start, size),
    ensures
        only_free_changed(
            words,
            released_words(words, blocks, start, size),
            release(blocks, start, size),
        ),
{
    lemma_merge(blocks, start, size);
    lemma_release(blocks, start, size);
    let at = below(blocks, start);
    let (low, high, merged) = merge_of(blocks, start, size);
    let new = release(blocks, start, size);
    let after = released_words(words, blocks, start, size);
    if at > 0 {
        lemma_header_words(blocks, at - 1);
        assert(header_at(words, blocks, at - 1));
    }
    assert(after.dom() =~= words.dom());
    assert forall|addr: u64| !covered(new, addr as int) implies #[trigger] after[addr]
        == words[addr] by {
        assert(!covered(blocks, addr as int));
        if at > 0 {
            assert(!blocks[at - 1].covers(addr as int));
        }
    }
}

/// An allocation holds no free byte, and its words can be accessed.
pub proof fn lemma_live_releasable(
    words: Map<u64, u64>,
    region: FreeBlock,
    blocks: Seq<FreeBlock>,
    live: Map<u64, u64>,
    payload: u64,
)
    requires
        canonical(blocks),
        partition(region, blocks, live),
        mapped(words, region),
        live.contains_key(payload),
    ensures
        releasable(blocks, payload, live[payload]),
        words.contains_key(payload),
        words.contains_key((payload + 8) as u64),
{
    reveal(partition);
    let span = allocation(live, payload);
    assert(span.wf());
    assert forall|addr: int| payload <= addr < payload + live[payload] implies !covered(
        blocks,
        addr,
    ) by {
        assert(span.covers(addr));
        assert(lent(live, addr));
    }
    assert(span.covers(payload as int) && span.covers(payload + 8));
    assert(lent(live, payload as int) && lent(live, payload + 8));
    lemma_partition_at(region, blocks, live, payload as int);
    lemma_partition_at(region, blocks, live, payload + 8);
}

/// Giving an allocation back moves its bytes to the free list.
#[verifier::spinoff_prover]
pub proof fn lemma_partition_release(
    region: FreeBlock,
    blocks: Seq<FreeBlock>,
    live: Map<u64, u64>,
    payload: u64,
)
    requires
        partition(region, blocks, live),
        live.contains_key(payload),
        releasable(blocks, payload, live[payload]),
    ensures
        partition(region, release(blocks, payload, live[payload]), live.remove(payload)),
{
    reveal(partition);
    let size = live[payload];
    let new = release(blocks, payload, size);
    let rest = live.remove(payload);
    lemma_release(blocks, payload, size);
    assert forall|other: u64| rest.contains_key(other) implies #[trigger] allocation(rest, other)
        == allocation(live, other) by {}
    assert forall|addr: int| #[trigger] lent(rest, addr) <==> (lent(live, addr) && !(payload <= addr
        < payload + size)) by {
        if lent(rest, addr) {
            let one = choose|one: u64|
                rest.contains_key(one) && #[trigger] allocation(rest, one).covers(addr);
            assert(allocation(live, one).covers(addr));
            if payload <= addr < payload + size {
                assert(allocation(live, payload).covers(addr));
            }
        }
        if lent(live, addr) && !(payload <= addr < payload + size) {
            let one = choose|one: u64|
                live.contains_key(one) && #[trigger] allocation(live, one).covers(addr);
            assert(allocation(rest, one).covers(addr));
        }
    }
    assert forall|addr: int| payload <= addr < payload + size implies #[trigger] lent(live, addr) by {
        assert(allocation(live, payload).covers(addr));
    }
    assert forall|addr: int|
        region.covers(addr) <==> (#[trigger] covered(new, addr) || lent(rest, addr)) by {
        assert(lent(rest, addr) <==> (lent(live, addr) && !(payload <= addr < payload + size)));
        lemma_partition_at(region, blocks, live, addr);
    }
    assert forall|addr: int| #[trigger] covered(new, addr) implies !lent(rest, addr) by {
        assert(lent(rest, addr) <==> (lent(live, addr) && !(payload <= addr < payload + size)));
        lemma_partition_at(region, blocks, live, addr);
    }
    assert forall|one: u64, two: u64, addr: int|
        rest.contains_key(one) && rest.contains_key(two) && #[trigger] allocation(rest, one).covers(
            addr,
        ) && #[trigger] allocation(rest, two).covers(addr) implies one == two by {
        assert(allocation(live, one).covers(addr) && allocation(live, two).covers(addr));
    }
}

/// Outside the free blocks memory is as it was, and no word comes or goes.
pub proof fn memory_in_use_is_left_alone(
    before: Map<u64, u64>,
    after: Map<u64, u64>,
    blocks: Seq<FreeBlock>,
    region: FreeBlock,
    addr: u64,
)
    ensures
        only_free_changed(before, after, blocks) && (forall|i: int|
            0 <= i < blocks.len() ==> !((#[trigger] blocks[i]).start <= addr < blocks[i].start
                + blocks[i].size)) ==> after[addr] == before[addr],
        only_inside_changed(before, after, region) && !(region.start <= addr < region.start
            + region.size) ==> after[addr] == before[addr],
        only_free_changed(before, after, blocks) || only_inside_changed(before, after, region) ==> (
        after.contains_key(addr) <==> before.contains_key(addr)),
{
    if only_free_changed(before, after, blocks) || only_inside_changed(before, after, region) {
        assert(after.dom().contains(addr) <==> before.dom().contains(addr));
    }
}

/// A free block says in its own first two words how long it is and where the
/// next one starts, which is zero for the last; the list starts at the
/// lowest.
pub proof fn free_blocks_describe_themselves(
    words: Map<u64, u64>,
    head: u64,
    blocks: Seq<FreeBlock>,
    i: int,
)
    requires
        linked(words, head, blocks),
        0 <= i < blocks.len(),
    ensures
        head == blocks[0].start,
        words[blocks[i].start] == blocks[i].size,
        i + 1 < blocks.len() ==> words[(blocks[i].start + 8) as u64] == blocks[i + 1].start,
        i + 1 == blocks.len() ==> words[(blocks[i].start + 8) as u64] == 0,
{
    assert(header_at(words, blocks, i));
}

/// Every byte of the heap's region is either free or handed out, never both,
/// and no byte is handed out twice.
pub proof fn every_byte_has_one_owner(
    region: FreeBlock,
    blocks: Seq<FreeBlock>,
    live: Map<u64, u64>,
    one: u64,
    two: u64,
    addr: int,
)
    requires
        partition(region, blocks, live),
        live.contains_key(one),
        one <= addr < one + live[one],
    ensures
        region.start <= addr < region.start + region.size,
        !covered(blocks, addr),
        live.contains_key(two) && two <= addr < two + live[two] ==> one == two,
{
    reveal(partition);
    assert(allocation(live, one).covers(addr));
    assert(lent(live, addr));
    if live.contains_key(two) && two <= addr < two + live[two] {
        assert(allocation(live, two).covers(addr));
    }
    assert(covered(blocks, addr) ==> !lent(live, addr));
    assert(region.covers(addr) <==> (covered(blocks, addr) || lent(live, addr)));
}

/// What is not handed out of the region is free.
pub proof fn what_is_not_handed_out_is_free(
    region: FreeBlock,
    blocks: Seq<FreeBlock>,
    live: Map<u64, u64>,
    addr: int,
)
    requires
        partition(region, blocks, live),
        region.start <= addr < region.start + region.size,
        forall|payload: u64| #[trigger]
            live.contains_key(payload) ==> !(payload <= addr < payload + live[payload]),
    ensures
        covered(blocks, addr),
{
    reveal(partition);
    assert(!lent(live, addr));
    assert(region.covers(addr) <==> (covered(blocks, addr) || lent(live, addr)));
}

} // verus!
