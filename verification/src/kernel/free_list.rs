//! The mathematical model of the kernel heap's free list.
//!
//! A free list is a sequence of blocks in address order, none of which
//! touches the next. Such a list is determined by the set of bytes it
//! covers, so giving memory back in any order ends in the same list.

use crate::align::align_up;
use vstd::prelude::*;

verus! {

/// The granularity every block start and size is a multiple of: the size of
/// a block's header.
pub const GRAIN: u64 = 16;

/// One block of free memory.
#[derive(Clone, Copy, Debug, PartialEq, Eq, Structural)]
pub struct FreeBlock {
    pub start: u64,
    pub size: u64,
}

impl FreeBlock {
    /// One past the last byte.
    pub open spec fn end(self) -> int {
        self.start + self.size
    }

    /// The byte at `addr` belongs to this block.
    pub open spec fn covers(self, addr: int) -> bool {
        self.start <= addr < self.end()
    }

    /// The block lies on the grid and can hold its own header.
    pub open spec fn wf(self) -> bool {
        &&& self.start > 0
        &&& self.start % GRAIN == 0
        &&& self.size > 0
        &&& self.size % GRAIN == 0
        &&& self.end() <= u64::MAX
    }
}

/// Blocks on the grid, in address order, with a gap between any two.
pub open spec fn canonical(blocks: Seq<FreeBlock>) -> bool {
    &&& forall|i: int| 0 <= i < blocks.len() ==> (#[trigger] blocks[i]).wf()
    &&& forall|i: int, j: int|
        0 <= i < j < blocks.len() ==> (#[trigger] blocks[i]).end() < (#[trigger] blocks[j]).start
}

/// The byte at `addr` is free.
pub open spec fn covered(blocks: Seq<FreeBlock>, addr: int) -> bool {
    exists|i: int| 0 <= i < blocks.len() && (#[trigger] blocks[i]).covers(addr)
}

/// All free bytes together.
pub open spec fn total(blocks: Seq<FreeBlock>) -> int
    decreases blocks.len(),
{
    if blocks.len() == 0 {
        0
    } else {
        total(blocks.drop_last()) + blocks.last().size
    }
}

/// `size` bytes at a multiple of `align` fit into `block`.
pub open spec fn fits(block: FreeBlock, size: u64, align: u64) -> bool {
    align_up(block.start as int, align as int) + size <= block.end()
}

/// The first block that can serve a request, or the length of the list if
/// none can.
pub open spec fn first_fit(blocks: Seq<FreeBlock>, size: u64, align: u64) -> int
    decreases blocks.len(),
{
    if blocks.len() == 0 {
        0
    } else if fits(blocks[0], size, align) {
        0
    } else {
        1 + first_fit(blocks.drop_first(), size, align)
    }
}

/// What is left of `block` in front of `payload`.
pub open spec fn front_of(block: FreeBlock, payload: u64) -> Seq<FreeBlock> {
    if block.start < payload {
        seq![FreeBlock { start: block.start, size: (payload - block.start) as u64 }]
    } else {
        Seq::empty()
    }
}

/// What is left of `block` from `after` on.
pub open spec fn tail_of(block: FreeBlock, after: int) -> Seq<FreeBlock> {
    if after < block.end() {
        seq![FreeBlock { start: after as u64, size: (block.end() - after) as u64 }]
    } else {
        Seq::empty()
    }
}

/// The list once `size` bytes at `payload` are taken out of block `at`.
pub open spec fn carve(blocks: Seq<FreeBlock>, at: int, payload: u64, size: u64) -> Seq<FreeBlock> {
    blocks.take(at) + front_of(blocks[at], payload) + tail_of(blocks[at], payload + size)
        + blocks.skip(at + 1)
}

/// How many blocks lie below `addr`.
pub open spec fn below(blocks: Seq<FreeBlock>, addr: u64) -> int
    decreases blocks.len(),
{
    if blocks.len() == 0 {
        0
    } else if blocks[0].start < addr {
        1 + below(blocks.drop_first(), addr)
    } else {
        0
    }
}

/// A list in which `merged` stands for the blocks from `low` to `high`.
pub open spec fn splice(blocks: Seq<FreeBlock>, low: int, high: int, merged: FreeBlock) -> Seq<FreeBlock> {
    blocks.take(low) + seq![merged] + blocks.skip(high)
}

/// The block that a span given back becomes part of, and the blocks it
/// stands for.
pub open spec fn merge_of(blocks: Seq<FreeBlock>, start: u64, size: u64) -> (int, int, FreeBlock) {
    let at = below(blocks, start);
    let joins_next = at < blocks.len() && start + size == blocks[at].start;
    let joins_prev = at > 0 && blocks[at - 1].end() == start;
    let first = if joins_prev { blocks[at - 1].start } else { start };
    let end = if joins_next { blocks[at].end() } else { start + size };
    (
        if joins_prev { at - 1 } else { at },
        if joins_next { at + 1 } else { at },
        FreeBlock { start: first, size: (end - first) as u64 },
    )
}

/// The list once the bytes from `start` to `start + size` are given back:
/// they merge with a free neighbour on either side.
pub open spec fn release(blocks: Seq<FreeBlock>, start: u64, size: u64) -> Seq<FreeBlock> {
    let (low, high, merged) = merge_of(blocks, start, size);
    splice(blocks, low, high, merged)
}

/// `first_fit` is the first index that fits.
pub proof fn lemma_first_fit(blocks: Seq<FreeBlock>, size: u64, align: u64)
    ensures
        0 <= first_fit(blocks, size, align) <= blocks.len(),
        first_fit(blocks, size, align) < blocks.len() ==> fits(
            blocks[first_fit(blocks, size, align)],
            size,
            align,
        ),
        forall|i: int|
            0 <= i < first_fit(blocks, size, align) ==> !fits(#[trigger] blocks[i], size, align),
    decreases blocks.len(),
{
    if blocks.len() > 0 && !fits(blocks[0], size, align) {
        let rest = blocks.drop_first();
        lemma_first_fit(rest, size, align);
        assert forall|i: int| 0 <= i < first_fit(blocks, size, align) implies !fits(
            #[trigger] blocks[i],
            size,
            align,
        ) by {
            if i > 0 {
                assert(blocks[i] == rest[i - 1]);
            }
        }
    }
}

/// Any index with these two properties is `first_fit`.
pub proof fn lemma_first_fit_is(blocks: Seq<FreeBlock>, size: u64, align: u64, at: int)
    requires
        0 <= at <= blocks.len(),
        at < blocks.len() ==> fits(blocks[at], size, align),
        forall|i: int| 0 <= i < at ==> !fits(#[trigger] blocks[i], size, align),
    ensures
        first_fit(blocks, size, align) == at,
{
    lemma_first_fit(blocks, size, align);
    let found = first_fit(blocks, size, align);
    if found < at {
        assert(!fits(blocks[found], size, align));
    } else if at < found {
        assert(!fits(blocks[at], size, align));
    }
}

/// `below` splits an ordered list at `addr`.
pub proof fn lemma_below(blocks: Seq<FreeBlock>, addr: u64)
    requires
        canonical(blocks),
    ensures
        0 <= below(blocks, addr) <= blocks.len(),
        forall|i: int| 0 <= i < below(blocks, addr) ==> (#[trigger] blocks[i]).start < addr,
        forall|i: int|
            below(blocks, addr) <= i < blocks.len() ==> (#[trigger] blocks[i]).start >= addr,
    decreases blocks.len(),
{
    if blocks.len() > 0 {
        let rest = blocks.drop_first();
        if blocks[0].start < addr {
            assert(canonical(rest)) by {
                assert forall|i: int, j: int| 0 <= i < j < rest.len() implies (
                #[trigger] rest[i]).end() < (#[trigger] rest[j]).start by {
                    assert(blocks[i + 1].end() < blocks[j + 1].start);
                }
            }
            lemma_below(rest, addr);
            assert forall|i: int| 0 <= i < below(blocks, addr) implies (
            #[trigger] blocks[i]).start < addr by {
                if i > 0 {
                    assert(blocks[i] == rest[i - 1]);
                }
            }
            assert forall|i: int| below(blocks, addr) <= i < blocks.len() implies (
            #[trigger] blocks[i]).start >= addr by {
                assert(blocks[i] == rest[i - 1]);
            }
        } else {
            assert forall|i: int| 0 <= i < blocks.len() implies (
            #[trigger] blocks[i]).start >= addr by {
                if i > 0 {
                    assert(blocks[0].end() < blocks[i].start);
                }
            }
        }
    }
}

/// Any index with these two properties is `below`.
pub proof fn lemma_below_is(blocks: Seq<FreeBlock>, addr: u64, at: int)
    requires
        canonical(blocks),
        0 <= at <= blocks.len(),
        forall|i: int| 0 <= i < at ==> (#[trigger] blocks[i]).start < addr,
        at < blocks.len() ==> blocks[at].start >= addr,
    ensures
        below(blocks, addr) == at,
{
    lemma_below(blocks, addr);
    let found = below(blocks, addr);
    if found < at {
        assert(blocks[found].start < addr);
    } else if at < found {
        assert(blocks[at].start < addr);
    }
}

/// The total of a list put together from two.
pub proof fn lemma_total_add(left: Seq<FreeBlock>, right: Seq<FreeBlock>)
    ensures
        total(left + right) == total(left) + total(right),
    decreases right.len(),
{
    if right.len() == 0 {
        assert(left + right == left);
    } else {
        assert((left + right).drop_last() == left + right.drop_last());
        lemma_total_add(left, right.drop_last());
    }
}

/// The total of a one-block list.
pub proof fn lemma_total_one(block: FreeBlock)
    ensures
        total(seq![block]) == block.size,
{
    assert(seq![block].drop_last() == Seq::<FreeBlock>::empty());
    assert(total(Seq::<FreeBlock>::empty()) == 0);
}

/// A list's total is at least zero and fits below its last end.
pub proof fn lemma_total_bound(blocks: Seq<FreeBlock>)
    requires
        canonical(blocks),
    ensures
        0 <= total(blocks),
        blocks.len() > 0 ==> blocks[0].start + total(blocks) <= blocks.last().end(),
    decreases blocks.len(),
{
    if blocks.len() > 0 {
        let rest = blocks.drop_last();
        assert(canonical(rest)) by {
            assert forall|i: int, j: int| 0 <= i < j < rest.len() implies (
            #[trigger] rest[i]).end() < (#[trigger] rest[j]).start by {
                assert(blocks[i].end() < blocks[j].start);
            }
        }
        lemma_total_bound(rest);
        if rest.len() > 0 {
            assert(rest.last() == blocks[blocks.len() - 2]);
            assert(blocks[blocks.len() - 2].end() < blocks[blocks.len() - 1].start);
        }
    }
}

/// Splitting a list at one of its blocks.
pub proof fn lemma_split_at(blocks: Seq<FreeBlock>, at: int)
    requires
        0 <= at < blocks.len(),
    ensures
        blocks == blocks.take(at) + seq![blocks[at]] + blocks.skip(at + 1),
        total(blocks) == total(blocks.take(at)) + blocks[at].size + total(blocks.skip(at + 1)),
{
    assert(blocks =~= blocks.take(at) + seq![blocks[at]] + blocks.skip(at + 1));
    lemma_total_add(blocks.take(at), seq![blocks[at]]);
    lemma_total_add(blocks.take(at) + seq![blocks[at]], blocks.skip(at + 1));
    lemma_total_one(blocks[at]);
}

/// The payload is a whole number of grains inside block `at`.
pub open spec fn carvable(blocks: Seq<FreeBlock>, at: int, payload: u64, size: u64) -> bool {
    &&& canonical(blocks)
    &&& 0 <= at < blocks.len()
    &&& blocks[at].start <= payload
    &&& payload + size <= blocks[at].end()
    &&& payload % GRAIN == 0
    &&& size % GRAIN == 0
    &&& size > 0
}

/// Which block of the list block `i` of a carved list came from.
pub open spec fn origin(blocks: Seq<FreeBlock>, at: int, payload: u64, size: u64, i: int) -> int {
    let pieces = front_of(blocks[at], payload).len() + tail_of(blocks[at], payload + size).len();
    if i < at {
        i
    } else if i >= at + pieces {
        i - pieces + 1
    } else {
        at
    }
}

/// What a carved list looks like at each index.
pub proof fn lemma_carve_index(blocks: Seq<FreeBlock>, at: int, payload: u64, size: u64)
    requires
        carvable(blocks, at, payload, size),
    ensures
        ({
            let new = carve(blocks, at, payload, size);
            let f = front_of(blocks[at], payload).len() as int;
            let t = tail_of(blocks[at], payload + size).len() as int;
            &&& f == (if blocks[at].start < payload { 1int } else { 0 })
            &&& t == (if payload + size < blocks[at].end() { 1int } else { 0 })
            &&& new.len() == blocks.len() - 1 + f + t
            &&& forall|i: int| 0 <= i < at ==> #[trigger] new[i] == blocks[i]
            &&& forall|i: int|
                at + f + t <= i < new.len() ==> #[trigger] new[i] == blocks[i - f - t + 1]
            &&& f == 1 ==> new[at].start == blocks[at].start && new[at].end() == payload
            &&& t == 1 ==> new[at + f].start == payload + size && new[at + f].end()
                == blocks[at].end()
        }),
{
    let front = front_of(blocks[at], payload);
    let tail = tail_of(blocks[at], payload + size);
    let new = carve(blocks, at, payload, size);
    assert(blocks[at].wf());
    assert(front.len() == 1 ==> new[at] == front[0]);
    assert(tail.len() == 1 ==> new[at + front.len()] == tail[0]);
}

/// A carved list is canonical.
proof fn lemma_carve_canonical(blocks: Seq<FreeBlock>, at: int, payload: u64, size: u64)
    requires
        carvable(blocks, at, payload, size),
    ensures
        canonical(carve(blocks, at, payload, size)),
{
    lemma_carve_index(blocks, at, payload, size);
    let new = carve(blocks, at, payload, size);
    assert(blocks[at].wf());
    assert forall|i: int| 0 <= i < new.len() implies (#[trigger] new[i]).wf() by {
        assert(blocks[origin(blocks, at, payload, size, i)].wf());
    }
    assert forall|i: int, j: int| 0 <= i < j < new.len() implies (#[trigger] new[i]).end() < (
    #[trigger] new[j]).start by {
        let oi = origin(blocks, at, payload, size, i);
        let oj = origin(blocks, at, payload, size, j);
        assert(oi <= oj);
        if oi < oj {
            assert(blocks[oi].end() < blocks[oj].start);
        }
    }
}

/// A carved list covers what the list covered but for the payload.
proof fn lemma_carve_covers(blocks: Seq<FreeBlock>, at: int, payload: u64, size: u64, addr: int)
    requires
        carvable(blocks, at, payload, size),
    ensures
        covered(carve(blocks, at, payload, size), addr) <==> (covered(blocks, addr) && !(payload
            <= addr < payload + size)),
{
    lemma_carve_index(blocks, at, payload, size);
    let new = carve(blocks, at, payload, size);
    let f = front_of(blocks[at], payload).len() as int;
    let t = tail_of(blocks[at], payload + size).len() as int;
    if covered(new, addr) {
        let i = choose|i: int| 0 <= i < new.len() && (#[trigger] new[i]).covers(addr);
        let oi = origin(blocks, at, payload, size, i);
        assert(blocks[oi].covers(addr));
        if oi < at {
            assert(blocks[oi].end() < blocks[at].start);
        } else if oi > at {
            assert(blocks[at].end() < blocks[oi].start);
        }
    }
    if covered(blocks, addr) && !(payload <= addr < payload + size) {
        let i = choose|i: int| 0 <= i < blocks.len() && (#[trigger] blocks[i]).covers(addr);
        if i < at {
            assert(new[i].covers(addr));
        } else if i > at {
            assert(new[i + f + t - 1].covers(addr));
        } else if addr < payload {
            assert(new[at].covers(addr));
        } else {
            assert(new[at + f].covers(addr));
        }
    }
}

/// Carving lowers the total by exactly the payload's size.
proof fn lemma_carve_total(blocks: Seq<FreeBlock>, at: int, payload: u64, size: u64)
    requires
        carvable(blocks, at, payload, size),
    ensures
        total(carve(blocks, at, payload, size)) == total(blocks) - size,
{
    let front = front_of(blocks[at], payload);
    let tail = tail_of(blocks[at], payload + size);
    let low = blocks.take(at);
    let high = blocks.skip(at + 1);
    assert(blocks[at].wf());
    lemma_split_at(blocks, at);
    lemma_total_add(low, front);
    lemma_total_add(low + front, tail);
    lemma_total_add(low + front + tail, high);
    assert(total(Seq::<FreeBlock>::empty()) == 0);
    if blocks[at].start < payload {
        lemma_total_one(front[0]);
        assert(front =~= seq![front[0]]);
    }
    if payload + size < blocks[at].end() {
        lemma_total_one(tail[0]);
        assert(tail =~= seq![tail[0]]);
    }
}

/// Carving keeps the list canonical, takes away exactly the payload's
/// bytes, and lowers the total by exactly the payload's size.
pub proof fn lemma_carve(blocks: Seq<FreeBlock>, at: int, payload: u64, size: u64)
    requires
        carvable(blocks, at, payload, size),
    ensures
        canonical(carve(blocks, at, payload, size)),
        forall|addr: int|
            covered(carve(blocks, at, payload, size), addr) <==> (covered(blocks, addr) && !(payload
                <= addr < payload + size)),
        total(carve(blocks, at, payload, size)) == total(blocks) - size,
{
    lemma_carve_canonical(blocks, at, payload, size);
    assert forall|addr: int|
        covered(carve(blocks, at, payload, size), addr) <==> (covered(blocks, addr) && !(payload
            <= addr < payload + size)) by {
        lemma_carve_covers(blocks, at, payload, size, addr);
    }
    lemma_carve_total(blocks, at, payload, size);
}

/// The neighbours of a span that holds no free byte keep clear of it.
proof fn lemma_neighbours(blocks: Seq<FreeBlock>, start: u64, size: u64)
    requires
        canonical(blocks),
        size > 0,
        forall|addr: int| start <= addr < start + size ==> !covered(blocks, addr),
    ensures
        0 <= below(blocks, start) <= blocks.len(),
        forall|i: int|
            0 <= i < below(blocks, start) ==> (#[trigger] blocks[i]).end() <= start,
        forall|i: int|
            below(blocks, start) <= i < blocks.len() ==> (#[trigger] blocks[i]).start >= start
                + size,
{
    lemma_below(blocks, start);
    let at = below(blocks, start);
    assert forall|i: int| 0 <= i < at implies (#[trigger] blocks[i]).end() <= start by {
        if blocks[i].end() > start {
            assert(blocks[i].covers(start as int));
            assert(covered(blocks, start as int));
        }
    }
    assert forall|i: int| at <= i < blocks.len() implies (#[trigger] blocks[i]).start >= start
        + size by {
        if blocks[i].start < start + size {
            assert(blocks[i].covers(blocks[i].start as int));
            assert(covered(blocks, blocks[i].start as int));
        }
    }
}

/// Splicing in a block that keeps its distance leaves the list canonical.
proof fn lemma_splice(blocks: Seq<FreeBlock>, low: int, high: int, merged: FreeBlock)
    requires
        canonical(blocks),
        0 <= low <= high <= blocks.len(),
        merged.wf(),
        forall|i: int| 0 <= i < low ==> (#[trigger] blocks[i]).end() < merged.start,
        forall|i: int| high <= i < blocks.len() ==> merged.end() < (#[trigger] blocks[i]).start,
        forall|i: int, addr: int|
            low <= i < high && #[trigger] blocks[i].covers(addr) ==> merged.covers(addr),
    ensures
        canonical(splice(blocks, low, high, merged)),
        forall|addr: int|
            covered(splice(blocks, low, high, merged), addr) ==> covered(blocks, addr)
                || merged.covers(addr),
        forall|addr: int|
            covered(blocks, addr) || merged.covers(addr) ==> covered(
                splice(blocks, low, high, merged),
                addr,
            ),
{
    let new = splice(blocks, low, high, merged);
    assert forall|i: int| 0 <= i < low implies new[i] == blocks[i] by {}
    assert forall|i: int| low < i < new.len() implies new[i] == blocks[i - low - 1 + high] by {}
    assert(new[low] == merged);
    assert forall|i: int| 0 <= i < new.len() implies (#[trigger] new[i]).wf() by {
        if i < low {
            assert(blocks[i].wf());
        } else if i > low {
            assert(blocks[i - low - 1 + high].wf());
        }
    }
    assert forall|i: int, j: int| 0 <= i < j < new.len() implies (#[trigger] new[i]).end() < (
    #[trigger] new[j]).start by {
        let oi = if i < low {
            i
        } else {
            i - low - 1 + high
        };
        let oj = if j < low {
            j
        } else {
            j - low - 1 + high
        };
        if i != low && j != low {
            assert(blocks[oi].end() < blocks[oj].start);
        } else if j == low {
            assert(blocks[oi].end() < merged.start);
        } else {
            assert(merged.end() < blocks[oj].start);
        }
    }
    assert forall|addr: int| covered(new, addr) implies covered(blocks, addr) || merged.covers(
        addr,
    ) by {
        let i = choose|i: int| 0 <= i < new.len() && (#[trigger] new[i]).covers(addr);
        if i < low {
            assert(blocks[i].covers(addr));
        } else if i > low {
            assert(blocks[i - low - 1 + high].covers(addr));
        }
    }
    assert forall|addr: int| covered(blocks, addr) || merged.covers(addr) implies covered(
        new,
        addr,
    ) by {
        if merged.covers(addr) {
            assert(new[low].covers(addr));
        } else {
            let i = choose|i: int| 0 <= i < blocks.len() && (#[trigger] blocks[i]).covers(addr);
            if i < low {
                assert(new[i].covers(addr));
            } else if i >= high {
                assert(new[i + low + 1 - high].covers(addr));
            }
        }
    }
}

/// The span can be given back: it lies on the grid and none of it is free.
pub open spec fn releasable(blocks: Seq<FreeBlock>, start: u64, size: u64) -> bool {
    &&& canonical(blocks)
    &&& (FreeBlock { start, size }).wf()
    &&& forall|addr: int| start <= addr < start + size ==> !covered(blocks, addr)
}

/// The merged block keeps its distance from the blocks that stay.
pub proof fn lemma_merge(blocks: Seq<FreeBlock>, start: u64, size: u64)
    requires
        releasable(blocks, start, size),
    ensures
        ({
            let (low, high, merged) = merge_of(blocks, start, size);
            let at = below(blocks, start);
            &&& 0 <= low <= at <= high <= blocks.len()
            &&& merged.wf()
            &&& merged.start <= start
            &&& start + size <= merged.end()
            &&& forall|i: int| 0 <= i < low ==> (#[trigger] blocks[i]).end() < merged.start
            &&& forall|i: int| high <= i < blocks.len() ==> merged.end() < (
            #[trigger] blocks[i]).start
            &&& low < at ==> low == at - 1 && blocks[low].start == merged.start
                && blocks[low].end() == start
            &&& low == at ==> merged.start == start
            &&& at < high ==> high == at + 1 && blocks[at].start == start + size
                && blocks[at].end() == merged.end()
            &&& at == high ==> merged.end() == start + size
        }),
{
    lemma_neighbours(blocks, start, size);
    let at = below(blocks, start);
    let (low, high, merged) = merge_of(blocks, start, size);
    if low < at {
        assert(blocks[at - 1].wf());
    }
    if at < high {
        assert(blocks[at].wf());
    }
    assert forall|i: int| 0 <= i < low implies (#[trigger] blocks[i]).end() < merged.start by {
        if i < at - 1 {
            assert(blocks[i].end() < blocks[at - 1].start);
            assert(blocks[at - 1].end() <= start);
        }
    }
    assert forall|i: int| high <= i < blocks.len() implies merged.end() < (
    #[trigger] blocks[i]).start by {
        assert(blocks[at].start >= start + size);
        if i > at {
            assert(blocks[at].end() < blocks[i].start);
        }
    }
}

/// Giving a span back raises the total by exactly its size.
proof fn lemma_release_total(blocks: Seq<FreeBlock>, start: u64, size: u64)
    requires
        releasable(blocks, start, size),
    ensures
        total(release(blocks, start, size)) == total(blocks) + size,
{
    lemma_merge(blocks, start, size);
    let at = below(blocks, start);
    let (low, high, merged) = merge_of(blocks, start, size);
    lemma_splice_total(blocks, low, high, merged);
    let middle = blocks.subrange(low, high);
    assert(total(Seq::<FreeBlock>::empty()) == 0);
    if low < at && at < high {
        assert(middle =~= seq![blocks[at - 1]] + seq![blocks[at]]);
        lemma_total_add(seq![blocks[at - 1]], seq![blocks[at]]);
        lemma_total_one(blocks[at - 1]);
        lemma_total_one(blocks[at]);
    } else if low < at {
        assert(middle =~= seq![blocks[at - 1]]);
        lemma_total_one(blocks[at - 1]);
    } else if at < high {
        assert(middle =~= seq![blocks[at]]);
        lemma_total_one(blocks[at]);
    } else {
        assert(middle =~= Seq::<FreeBlock>::empty());
    }
}

/// Giving a span back keeps the list canonical, frees exactly the span's
/// bytes, and raises the total by exactly the span's size.
pub proof fn lemma_release(blocks: Seq<FreeBlock>, start: u64, size: u64)
    requires
        releasable(blocks, start, size),
    ensures
        canonical(release(blocks, start, size)),
        forall|addr: int|
            covered(release(blocks, start, size), addr) <==> (covered(blocks, addr) || start <= addr
                < start + size),
        total(release(blocks, start, size)) == total(blocks) + size,
{
    lemma_merge(blocks, start, size);
    let at = below(blocks, start);
    let (low, high, merged) = merge_of(blocks, start, size);
    let new = release(blocks, start, size);
    lemma_splice(blocks, low, high, merged);
    assert forall|addr: int| covered(new, addr) <==> (covered(blocks, addr) || start <= addr < start
        + size) by {
        if merged.covers(addr) && addr < start {
            assert(blocks[at - 1].covers(addr));
        }
        if merged.covers(addr) && addr >= start + size {
            assert(blocks[at].covers(addr));
        }
        if start <= addr < start + size {
            assert(merged.covers(addr));
        }
    }
    lemma_release_total(blocks, start, size);
}

/// The total of a spliced list.
proof fn lemma_splice_total(blocks: Seq<FreeBlock>, low: int, high: int, merged: FreeBlock)
    requires
        0 <= low <= high <= blocks.len(),
    ensures
        total(splice(blocks, low, high, merged)) == total(blocks) - total(
            blocks.subrange(low, high),
        ) + merged.size,
{
    let left = blocks.take(low);
    let right = blocks.skip(high);
    let middle = blocks.subrange(low, high);
    assert(blocks =~= left + middle + right);
    lemma_total_add(left, middle);
    lemma_total_add(left + middle, right);
    lemma_total_add(left, seq![merged]);
    lemma_total_add(left + seq![merged], right);
    lemma_total_one(merged);
}

/// A canonical list without its first block is canonical and covers what
/// the whole list covers past that block.
proof fn lemma_drop_first(blocks: Seq<FreeBlock>)
    requires
        canonical(blocks),
        blocks.len() > 0,
    ensures
        canonical(blocks.drop_first()),
        forall|addr: int|
            covered(blocks.drop_first(), addr) <==> (covered(blocks, addr) && addr
                >= blocks[0].end()),
        forall|addr: int| covered(blocks, addr) ==> addr >= blocks[0].start,
        forall|addr: int| blocks[0].covers(addr) ==> covered(blocks, addr),
        !covered(blocks, blocks[0].end()),
{
    let rest = blocks.drop_first();
    assert forall|i: int, j: int| 0 <= i < j < rest.len() implies (#[trigger] rest[i]).end() < (
    #[trigger] rest[j]).start by {
        assert(blocks[i + 1].end() < blocks[j + 1].start);
    }
    assert forall|addr: int| covered(rest, addr) <==> (covered(blocks, addr) && addr
        >= blocks[0].end()) by {
        if covered(rest, addr) {
            let i = choose|i: int| 0 <= i < rest.len() && (#[trigger] rest[i]).covers(addr);
            assert(blocks[i + 1].covers(addr));
            assert(blocks[0].end() < blocks[i + 1].start);
        }
        if covered(blocks, addr) && addr >= blocks[0].end() {
            let i = choose|i: int| 0 <= i < blocks.len() && (#[trigger] blocks[i]).covers(addr);
            assert(rest[i - 1].covers(addr));
        }
    }
    assert forall|addr: int| covered(blocks, addr) implies addr >= blocks[0].start by {
        let i = choose|i: int| 0 <= i < blocks.len() && (#[trigger] blocks[i]).covers(addr);
        if i > 0 {
            assert(blocks[0].end() < blocks[i].start);
        }
    }
    if covered(blocks, blocks[0].end()) {
        let i = choose|i: int|
            0 <= i < blocks.len() && (#[trigger] blocks[i]).covers(blocks[0].end());
        if i > 0 {
            assert(blocks[0].end() < blocks[i].start);
        }
    }
}

/// Two canonical free lists that cover the same bytes are the same list.
pub proof fn free_list_is_determined_by_its_bytes(left: Seq<FreeBlock>, right: Seq<FreeBlock>)
    requires
        canonical(left),
        canonical(right),
        forall|addr: int| covered(left, addr) <==> covered(right, addr),
    ensures
        left == right,
    decreases left.len(),
{
    if left.len() == 0 {
        if right.len() > 0 {
            assert(right[0].covers(right[0].start as int));
            assert(covered(right, right[0].start as int));
            assert(covered(left, right[0].start as int));
        }
        assert(left =~= right);
    } else {
        lemma_drop_first(left);
        assert(left[0].covers(left[0].start as int));
        assert(covered(right, left[0].start as int));
        assert(right.len() > 0);
        lemma_drop_first(right);
        assert(right[0].covers(right[0].start as int));
        assert(covered(left, right[0].start as int));
        assert(left[0].start == right[0].start);
        assert(!covered(left, left[0].end()));
        assert(!covered(right, right[0].end()));
        if left[0].end() < right[0].end() {
            assert(right[0].covers(left[0].end()));
        } else if right[0].end() < left[0].end() {
            assert(left[0].covers(right[0].end()));
        }
        assert(left[0] == right[0]);
        assert forall|addr: int| covered(left.drop_first(), addr) <==> covered(
            right.drop_first(),
            addr,
        ) by {
            assert(covered(left, addr) <==> covered(right, addr));
        }
        free_list_is_determined_by_its_bytes(left.drop_first(), right.drop_first());
        assert(left =~= seq![left[0]] + left.drop_first());
        assert(right =~= seq![right[0]] + right.drop_first());
    }
}

/// A list has no more blocks than free bytes.
pub proof fn lemma_len_bound(blocks: Seq<FreeBlock>)
    requires
        canonical(blocks),
    ensures
        blocks.len() <= total(blocks),
        total(blocks) <= u64::MAX,
    decreases blocks.len(),
{
    lemma_total_bound(blocks);
    if blocks.len() > 0 {
        let rest = blocks.drop_last();
        assert(canonical(rest)) by {
            assert forall|i: int, j: int| 0 <= i < j < rest.len() implies (
            #[trigger] rest[i]).end() < (#[trigger] rest[j]).start by {
                assert(blocks[i].end() < blocks[j].start);
            }
        }
        lemma_len_bound(rest);
        assert(blocks[blocks.len() - 1].wf());
        assert(blocks[0].wf());
    }
}

/// The total of the blocks up to and with block `i`.
pub proof fn lemma_total_take(blocks: Seq<FreeBlock>, i: int)
    requires
        canonical(blocks),
        0 <= i < blocks.len(),
    ensures
        total(blocks.take(i + 1)) == total(blocks.take(i)) + blocks[i].size,
        total(blocks.take(i + 1)) <= total(blocks),
{
    assert(blocks.take(i + 1).drop_last() == blocks.take(i));
    assert(blocks == blocks.take(i + 1) + blocks.skip(i + 1));
    lemma_total_add(blocks.take(i + 1), blocks.skip(i + 1));
    let rest = blocks.skip(i + 1);
    assert(canonical(rest)) by {
        assert forall|j: int| 0 <= j < rest.len() implies (#[trigger] rest[j]).wf() by {
            assert(blocks[j + i + 1].wf());
        }
        assert forall|j: int, k: int| 0 <= j < k < rest.len() implies (#[trigger] rest[j]).end() < (
        #[trigger] rest[k]).start by {
            assert(blocks[j + i + 1].end() < blocks[k + i + 1].start);
        }
    }
    lemma_total_bound(rest);
}

/// On the grid no sliver can arise: what a carve leaves in front of the
/// payload and behind it is nothing, or a whole block.
pub proof fn a_carve_leaves_no_sliver(blocks: Seq<FreeBlock>, at: int, payload: u64, size: u64)
    requires
        carvable(blocks, at, payload, size),
    ensures
        payload == blocks[at].start || payload - blocks[at].start >= GRAIN,
        payload + size == blocks[at].end() || blocks[at].end() - (payload + size) >= GRAIN,
{
    assert(blocks[at].wf());
}

/// Giving back what was just carved out restores the list exactly: splitting
/// and merging undo each other.
pub proof fn releasing_a_carve_restores_the_list(
    blocks: Seq<FreeBlock>,
    at: int,
    payload: u64,
    size: u64,
)
    requires
        carvable(blocks, at, payload, size),
    ensures
        release(carve(blocks, at, payload, size), payload, size) == blocks,
{
    let carved = carve(blocks, at, payload, size);
    lemma_carve(blocks, at, payload, size);
    assert(blocks[at].wf());
    lemma_release(carved, payload, size);
    assert forall|addr: int| payload <= addr < payload + size implies covered(blocks, addr) by {
        assert(blocks[at].covers(addr));
    }
    assert forall|addr: int|
        covered(release(carved, payload, size), addr) <==> covered(blocks, addr) by {
        assert(covered(carved, addr) <==> (covered(blocks, addr) && !(payload <= addr < payload
            + size)));
    }
    free_list_is_determined_by_its_bytes(release(carved, payload, size), blocks);
}

/// A span stays releasable when one apart from it is given back.
proof fn lemma_still_releasable(blocks: Seq<FreeBlock>, one: FreeBlock, two: FreeBlock)
    requires
        releasable(blocks, one.start, one.size),
        releasable(blocks, two.start, two.size),
        one.end() <= two.start || two.end() <= one.start,
    ensures
        releasable(release(blocks, one.start, one.size), two.start, two.size),
{
    lemma_release(blocks, one.start, one.size);
    let first = release(blocks, one.start, one.size);
    assert forall|addr: int| two.start <= addr < two.start + two.size implies !covered(
        first,
        addr,
    ) by {
        assert(!covered(blocks, addr));
    }
}

/// Two spans given back end in the same list, whichever goes first.
pub proof fn release_order_does_not_matter(
    blocks: Seq<FreeBlock>,
    one: FreeBlock,
    two: FreeBlock,
)
    requires
        releasable(blocks, one.start, one.size),
        releasable(blocks, two.start, two.size),
        one.end() <= two.start || two.end() <= one.start,
    ensures
        release(release(blocks, one.start, one.size), two.start, two.size) == release(
            release(blocks, two.start, two.size),
            one.start,
            one.size,
        ),
{
    let first = release(blocks, one.start, one.size);
    let second = release(blocks, two.start, two.size);
    lemma_release(blocks, one.start, one.size);
    lemma_release(blocks, two.start, two.size);
    lemma_still_releasable(blocks, one, two);
    lemma_still_releasable(blocks, two, one);
    lemma_release(first, two.start, two.size);
    lemma_release(second, one.start, one.size);
    let left = release(first, two.start, two.size);
    let right = release(second, one.start, one.size);
    assert forall|addr: int| covered(left, addr) <==> covered(right, addr) by {
        assert(covered(first, addr) <==> (covered(blocks, addr) || one.start <= addr < one.start
            + one.size));
        assert(covered(second, addr) <==> (covered(blocks, addr) || two.start <= addr < two.start
            + two.size));
    }
    free_list_is_determined_by_its_bytes(left, right);
}

/// Some block has at least `bytes` bytes, if any are asked for.
pub open spec fn has_room(blocks: Seq<FreeBlock>, bytes: int) -> bool {
    bytes <= 0 || exists|i: int| 0 <= i < blocks.len() && (#[trigger] blocks[i]).size >= bytes
}

/// A list with room for a request at the grid's own alignment serves it from
/// the start of a block.
pub proof fn lemma_room_fits(blocks: Seq<FreeBlock>, size: u64, bytes: int)
    requires
        canonical(blocks),
        has_room(blocks, bytes),
        0 < size <= bytes,
    ensures
        first_fit(blocks, size, GRAIN) < blocks.len(),
        align_up(blocks[first_fit(blocks, size, GRAIN)].start as int, GRAIN as int)
            == blocks[first_fit(blocks, size, GRAIN)].start,
{
    lemma_first_fit(blocks, size, GRAIN);
    let found = first_fit(blocks, size, GRAIN);
    let i = choose|i: int| 0 <= i < blocks.len() && (#[trigger] blocks[i]).size >= bytes;
    assert(blocks[i].wf());
    crate::align::lemma_align(blocks[i].start as int, GRAIN as int);
    assert(fits(blocks[i], size, GRAIN));
    if found < blocks.len() {
        assert(blocks[found].wf());
        crate::align::lemma_align(blocks[found].start as int, GRAIN as int);
    }
}

/// Carving the front of a block takes no more room than its size.
pub proof fn lemma_room_carve(blocks: Seq<FreeBlock>, at: int, size: u64, bytes: int)
    requires
        0 <= at < blocks.len(),
        carvable(blocks, at, blocks[at].start, size),
        has_room(blocks, bytes),
        0 < size <= bytes,
    ensures
        has_room(carve(blocks, at, blocks[at].start, size), bytes - size),
{
    let start = blocks[at].start;
    let new = carve(blocks, at, start, size);
    lemma_carve_index(blocks, at, start, size);
    assert(blocks[at].wf());
    let i = choose|i: int| 0 <= i < blocks.len() && (#[trigger] blocks[i]).size >= bytes;
    let t = tail_of(blocks[at], start + size).len() as int;
    if i < at {
        assert(new[i] == blocks[i]);
    } else if i == at {
        if size < bytes {
            assert(new[at].size >= bytes - size);
        }
    } else {
        assert(new[i + t - 1] == blocks[i]);
    }
}

/// Giving memory back takes no room.
pub proof fn lemma_room_release(blocks: Seq<FreeBlock>, start: u64, size: u64, bytes: int)
    requires
        releasable(blocks, start, size),
        has_room(blocks, bytes),
    ensures
        has_room(release(blocks, start, size), bytes),
{
    lemma_merge(blocks, start, size);
    let (low, high, merged) = merge_of(blocks, start, size);
    let new = release(blocks, start, size);
    if bytes > 0 {
        let i = choose|i: int| 0 <= i < blocks.len() && (#[trigger] blocks[i]).size >= bytes;
        if i < low {
            assert(new[i] == blocks[i]);
        } else if i >= high {
            assert(new[i - high + low + 1] == blocks[i]);
        } else {
            assert(new[low] == merged);
            assert(merged.size >= blocks[i].size);
        }
    }
}

/// A byte is free exactly if some block starts at or below it and ends above
/// it.
pub proof fn a_byte_is_free_in_its_block(blocks: Seq<FreeBlock>, i: int, addr: int)
    requires
        0 <= i < blocks.len(),
    ensures
        blocks[i].start <= addr < blocks[i].start + blocks[i].size ==> covered(blocks, addr),
        covered(blocks, addr) ==> exists|k: int|
            0 <= k < blocks.len() && (#[trigger] blocks[k]).start <= addr < blocks[k].start
                + blocks[k].size,
{
    if blocks[i].start <= addr < blocks[i].start + blocks[i].size {
        assert(blocks[i].covers(addr));
    }
    if covered(blocks, addr) {
        let k = choose|k: int| 0 <= k < blocks.len() && (#[trigger] blocks[k]).covers(addr);
        assert(blocks[k].start <= addr < blocks[k].start + blocks[k].size);
    }
}

/// The blocks of a list come in address order, and no two touch: free
/// neighbours are one block.
pub proof fn free_neighbours_are_one_block(blocks: Seq<FreeBlock>, i: int, j: int)
    requires
        canonical(blocks),
        0 <= i < j < blocks.len(),
    ensures
        blocks[i].start + blocks[i].size < blocks[j].start,
        blocks[i].start % 16 == 0 && blocks[i].size % 16 == 0 && blocks[i].size > 0,
{
    assert(blocks[i].wf());
}

/// Taking bytes out of a block takes out those, and no others, and giving
/// them back frees those, and no others.
pub proof fn exactly_the_span_changes_hands(
    blocks: Seq<FreeBlock>,
    at: int,
    payload: u64,
    size: u64,
    addr: int,
)
    ensures
        carvable(blocks, at, payload, size) ==> (covered(carve(blocks, at, payload, size), addr)
            <==> covered(blocks, addr) && !(payload <= addr < payload + size)),
        releasable(blocks, payload, size) ==> (covered(release(blocks, payload, size), addr) <==> (
        covered(blocks, addr) || payload <= addr < payload + size)),
{
    if carvable(blocks, at, payload, size) {
        lemma_carve(blocks, at, payload, size);
    }
    if releasable(blocks, payload, size) {
        lemma_release(blocks, payload, size);
    }
}

/// The free bytes of a list are the sizes of its blocks, added up.
pub proof fn free_bytes_add_up(left: Seq<FreeBlock>, block: FreeBlock, right: Seq<FreeBlock>)
    ensures
        total(Seq::<FreeBlock>::empty()) == 0,
        total(left + seq![block] + right) == total(left) + block.size + total(right),
{
    lemma_total_add(left, seq![block]);
    lemma_total_add(left + seq![block], right);
    lemma_total_one(block);
}

} // verus!
