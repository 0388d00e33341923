//! Physical frame allocator.
//!
//! Two sources, checked in this order: an intrusive stack of frames that
//! were freed, then a bump cursor walking the usable runs of the UEFI memory
//! map.
//!
//! The free stack stores each node *inside the free frame itself*, so the
//! allocator carries no side table: a free frame costs no bookkeeping. That
//! is sound only because the kernel runs on an identity mapping, which makes
//! a physical frame address directly writable.

use crate::boot_info::{usable_runs, FrameRun, MemoryRegion, UsableRegions, PAGE_SIZE};
use crate::kernel::frame_supply::{
    accessible, advanced, all_frames, first_run, frames_of, lemma_append, only_nodes_changed, paged, shrunk,
    sound,
};
use crate::ram::WordMemory;
use vstd::prelude::*;

verus! {

/// The frame allocator.
pub struct FrameAllocator<'a> {
    /// Runs the bump cursor has not reached yet.
    runs: UsableRegions<'a>,
    /// Next address in the current run that has not been handed out.
    cursor: u64,
    /// One past the last usable address in the current run.
    run_end: u64,
    /// The top of the free stack, or zero.
    free: u64,
    /// Frames handed out and not returned.
    in_use: u64,
    /// The free stack that the words in memory spell out, top first.
    stack: Ghost<Seq<u64>>,
    /// The frames handed out and not returned.
    live: Ghost<Set<u64>>,
}

/// How many frames a memory map holds.
pub open spec fn frame_count(runs: Seq<FrameRun>) -> int
    decreases runs.len(),
{
    if runs.len() == 0 {
        0
    } else {
        runs[0].frames + frame_count(runs.drop_first())
    }
}

impl<'a> FrameAllocator<'a> {
    /// The free stack, top first.
    pub closed spec fn stack(&self) -> Seq<u64> {
        self.stack@
    }

    /// The rest of the current run, then the runs not reached yet.
    pub closed spec fn pending(&self) -> Seq<FrameRun> {
        seq![
            FrameRun {
                start: self.cursor,
                frames: ((self.run_end - self.cursor) / PAGE_SIZE as int) as u64,
            },
        ] + self.runs@
    }

    /// The frames handed out and not returned.
    pub closed spec fn live(&self) -> Set<u64> {
        self.live@
    }

    /// The count of frames handed out and not returned.
    pub closed spec fn in_use(&self) -> u64 {
        self.in_use
    }

    /// The top of the free stack, or zero.
    pub closed spec fn head(&self) -> u64 {
        self.free
    }

    /// The free frames, in the order in which they will be handed out.
    pub open spec fn supply(&self) -> Seq<u64> {
        self.stack() + all_frames(self.pending())
    }

    /// The bump cursor stands on a page of its run.
    pub closed spec fn placed(&self) -> bool {
        &&& self.runs.wf()
        &&& self.cursor <= self.run_end
        &&& (self.run_end - self.cursor) % PAGE_SIZE as int == 0
    }

    /// Every frame is free or handed out but not both, the free stack is in
    /// memory, and the count is right.
    pub open spec fn wf(&self, words: Map<u64, u64>) -> bool {
        &&& self.placed()
        &&& forall|i: int| 0 <= i < self.pending().len() ==> paged(#[trigger] self.pending()[i])
        &&& sound(words, self.head(), self.stack(), all_frames(self.pending()), self.live())
        &&& self.live().finite()
        &&& self.in_use() == self.live().len()
        &&& self.live().len() + self.supply().len() <= u64::MAX
    }

    /// Put `addr` on top of the free stack.
    fn push_free<M: WordMemory>(&mut self, memory: &mut M, addr: u64)
        requires
            old(memory).words().contains_key(addr),
        ensures
            final(memory).words() == old(memory).words().insert(addr, old(self).head()),
            final(self).head() == addr,
            final(self).stack() == seq![addr] + old(self).stack(),
            final(self).pending() == old(self).pending(),
            final(self).placed() == old(self).placed(),
            final(self).live() == old(self).live(),
            final(self).in_use() == old(self).in_use(),
    {
        memory.write_word(addr, self.free);
        self.free = addr;
        self.stack = Ghost(seq![addr] + self.stack@);
    }

    /// Push what is left of the current run onto the free stack, one frame
    /// at a time.
    fn strand<M: WordMemory>(&mut self, memory: &mut M)
        requires
            old(self).wf(old(memory).words()),
        ensures
            final(self).wf(final(memory).words()),
            final(self).stack() == frames_of(old(self).pending()[0]).reverse()
                + old(self).stack(),
            final(self).pending() == shrunk(old(self).pending(), old(self).pending()[0].frames),
            final(self).live() == old(self).live(),
            only_nodes_changed(
                old(memory).words(),
                final(memory).words(),
                frames_of(old(self).pending()[0]),
            ),
    {
        let ghost pending = self.pending();
        let ghost stack = self.stack();
        let ghost words = memory.words();
        let ghost all = frames_of(pending[0]);
        let ghost mut done: u64 = 0;
        proof {
            assert(paged(pending[0]));
            assert(shrunk(pending, 0) =~= pending);
            assert(frames_of(FrameRun { start: pending[0].start, frames: 0 }).reverse() + stack
                =~= stack);
        }
        while self.run_end - self.cursor >= PAGE_SIZE
            invariant
                self.wf(memory.words()),
                pending == old(self).pending(),
                stack == old(self).stack(),
                words == old(memory).words(),
                pending.len() > 0,
                paged(pending[0]),
                all == frames_of(pending[0]),
                done <= pending[0].frames,
                self.pending() == shrunk(pending, done),
                self.stack() == frames_of(
                    FrameRun { start: pending[0].start, frames: done },
                ).reverse() + stack,
                self.live() == old(self).live(),
                only_nodes_changed(words, memory.words(), all),
            decreases self.run_end - self.cursor,
        {
            let stranded: u64 = self.cursor;
            let ghost here = self.pending();
            let ghost step = memory.words();
            let ghost head = self.head();
            let ghost top = self.stack();
            let ghost rest = all_frames(shrunk(here, 1));
            proof {
                assert(here[0].start == stranded);
                assert(here[0].frames >= 1);
                assert(paged(here[0]));
                crate::kernel::frame_supply::lemma_shrunk(here, 1);
                assert(frames_of(FrameRun { start: stranded, frames: 1 }) =~= seq![stranded]);
                crate::kernel::frame_supply::lemma_strand_one(
                    step,
                    head,
                    top,
                    stranded,
                    rest,
                    self.live(),
                );
            }
            self.cursor = self.cursor + PAGE_SIZE;
            assert(self.pending() =~= shrunk(here, 1));
            self.push_free(memory, stranded);
            proof {
                assert(shrunk(here, 1) =~= shrunk(pending, (done + 1) as u64));
                let before = FrameRun { start: pending[0].start, frames: done };
                let after = FrameRun { start: pending[0].start, frames: (done + 1) as u64 };
                assert(frames_of(after) =~= frames_of(before) + seq![stranded]);
                assert(frames_of(after).reverse() + stack =~= seq![stranded] + (frames_of(
                    before,
                ).reverse() + stack));
                assert(all[done as int] == stranded);
                assert(all.contains(stranded));
                assert(memory.words().dom() =~= words.dom());
                assert forall|i: int| 0 <= i < self.pending().len() implies paged(
                    #[trigger] self.pending()[i],
                ) by {
                    if i > 0 {
                        assert(self.pending()[i] == here[i]);
                    }
                }
                assert(top + all_frames(here) =~= top + seq![stranded] + rest);
                assert(self.supply().len() == (top + all_frames(here)).len());
                done = (done + 1) as u64;
            }
        }
        proof {
            assert(self.pending()[0].frames == 0);
            assert(done == pending[0].frames);
        }
    }

    /// Take `frames` contiguous frames from the bump cursor.
    ///
    /// When the current run is too small for the request, its remaining
    /// frames are pushed onto the free stack one at a time before moving on.
    /// Without that, a large contiguous request would silently strand every
    /// run tail it stepped over.
    fn bump<M: WordMemory>(&mut self, memory: &mut M, frames: u64) -> (addr: Option<u64>)
        requires
            old(self).wf(old(memory).words()),
        ensures
            final(self).placed(),
            ({
                let pending = old(self).pending();
                let at = first_run(pending, frames);
                match addr {
                    Some(addr) => {
                        &&& frames * PAGE_SIZE <= u64::MAX
                        &&& at < pending.len()
                        &&& addr == pending[at].start
                        &&& final(self).pending() == shrunk(pending.skip(at), frames)
                        &&& final(self).stack() == all_frames(pending.take(at)).reverse() + old(
                            self,
                        ).stack()
                        &&& sound(
                            final(memory).words(),
                            final(self).head(),
                            final(self).stack(),
                            all_frames(pending.skip(at)),
                            old(self).live(),
                        )
                        &&& only_nodes_changed(
                            old(memory).words(),
                            final(memory).words(),
                            all_frames(pending.take(at)),
                        )
                    },
                    None => {
                        &&& final(self).wf(final(memory).words())
                        &&& frames * PAGE_SIZE > u64::MAX ==> {
                            &&& *final(self) == *old(self)
                            &&& final(memory).words() == old(memory).words()
                        }
                        &&& frames * PAGE_SIZE <= u64::MAX ==> {
                            &&& at == pending.len()
                            &&& all_frames(final(self).pending()) == Seq::<u64>::empty()
                            &&& final(self).stack() == all_frames(pending).reverse() + old(
                                self,
                            ).stack()
                            &&& only_nodes_changed(
                                old(memory).words(),
                                final(memory).words(),
                                all_frames(pending),
                            )
                        }
                    },
                }
            }),
            final(self).live() == old(self).live(),
            final(self).in_use() == old(self).in_use(),
    {
        let wanted: u64 = match frames.checked_mul(PAGE_SIZE) {
            Some(wanted) => wanted,
            None => return None,
        };
        let ghost pending = self.pending();
        let ghost stack = self.stack();
        let ghost words = memory.words();
        let ghost mut at: int = 0;
        proof {
            assert(pending.skip(0) =~= pending);
            assert(pending.take(0) =~= Seq::<FrameRun>::empty());
            assert(all_frames(pending.take(0)) =~= Seq::<u64>::empty());
            assert(all_frames(pending.take(0)).reverse() + stack =~= stack);
        }
        loop
            invariant
                self.wf(memory.words()),
                pending == old(self).pending(),
                stack == old(self).stack(),
                words == old(memory).words(),
                wanted == frames * PAGE_SIZE,
                0 <= at < pending.len(),
                forall|i: int| 0 <= i < at ==> (#[trigger] pending[i]).frames < frames,
                forall|i: int| 0 <= i < pending.len() ==> paged(#[trigger] pending[i]),
                self.pending() == pending.skip(at),
                self.stack() == all_frames(pending.take(at)).reverse() + stack,
                self.live() == old(self).live(),
                self.in_use() == old(self).in_use(),
                only_nodes_changed(words, memory.words(), all_frames(pending.take(at))),
            decreases pending.len() - at,
        {
            let ghost here = self.pending();
            assert(here[0] == pending[at]);
            assert(paged(here[0]));
            if self.run_end - self.cursor >= wanted {
                let addr: u64 = self.cursor;
                proof {
                    crate::kernel::frame_supply::lemma_first_run_is(pending, frames, at);
                    crate::kernel::frame_supply::lemma_shrunk(here, frames);
                }
                self.cursor = self.cursor + wanted;
                assert(self.pending() =~= shrunk(here, frames));
                return Some(addr);
            }
            let ghost before = memory.words();
            let ghost top = self.stack();
            self.strand(memory);
            proof {
                let more = all_frames(pending.take(at + 1));
                let done = all_frames(pending.take(at));
                let run = frames_of(pending[at]);
                crate::kernel::frame_supply::lemma_take_one_more(pending, at);
                assert(more.reverse() + stack =~= run.reverse() + (done.reverse() + stack));
                lemma_append(done, run);
                assert(only_nodes_changed(words, memory.words(), more)) by {
                    assert forall|addr: u64| !more.contains(addr) implies #[trigger] memory.words()[addr]
                        == words[addr] by {
                        assert(memory.words()[addr] == before[addr]);
                    }
                }
                assert(self.pending() =~= shrunk(here, here[0].frames));
                assert(self.pending().drop_first() =~= pending.skip(at + 1));
                assert(self.runs@ =~= pending.skip(at + 1));
                crate::kernel::frame_supply::lemma_no_frames(seq![self.pending()[0]]);
                assert(self.pending() =~= seq![self.pending()[0]] + self.runs@);
                crate::kernel::frame_supply::lemma_split(self.pending(), 1);
                assert(self.pending().take(1) =~= seq![self.pending()[0]]);
                assert(self.pending().skip(1) =~= self.runs@);
                assert(all_frames(self.pending()) =~= all_frames(self.runs@));
            }
            let ghost stranded = *self;
            match self.runs.next() {
                Some(run) => {
                    proof {
                        assert(run == pending[at + 1]);
                        assert(paged(run));
                    }
                    self.cursor = run.start;
                    self.run_end = run.start + run.frames * PAGE_SIZE;
                    proof {
                        assert(self.pending() =~= pending.skip(at + 1));
                        assert forall|i: int| 0 <= i < self.pending().len() implies paged(
                            #[trigger] self.pending()[i],
                        ) by {
                            assert(self.pending()[i] == pending[at + 1 + i]);
                        }
                        at = at + 1;
                    }
                },
                None => {
                    proof {
                        assert(at + 1 == pending.len());
                        assert(pending.take(at + 1) =~= pending);
                        crate::kernel::frame_supply::lemma_first_run_is(
                            pending,
                            frames,
                            pending.len() as int,
                        );
                        assert(self.pending() =~= stranded.pending());
                        assert(all_frames(self.runs@) =~= Seq::<u64>::empty());
                    }
                    return None;
                },
            }
        }
    }

    /// Hand out one frame, or `None` when there is none left.
    fn allocate<M: WordMemory>(&mut self, memory: &mut M) -> (frame: Option<u64>)
        requires
            old(self).wf(old(memory).words()),
        ensures
            final(self).wf(final(memory).words()),
            final(memory).words() == old(memory).words(),
            took_first(*old(self), *final(self), frame),
    {
        let ghost words = memory.words();
        let ghost fresh = all_frames(self.pending());
        if self.free != 0 {
            let node: u64 = self.free;
            let ghost stack = self.stack();
            proof {
                crate::kernel::frame_supply::lemma_pop(words, node, stack, fresh, self.live());
                assert(self.supply().drop_first() =~= stack.drop_first() + fresh);
            }
            self.free = memory.read_word(node);
            self.in_use = self.in_use + 1;
            self.stack = Ghost(stack.drop_first());
            self.live = Ghost(self.live@.insert(node));
            return Some(node);
        }
        proof {
            if self.stack().len() > 0 {
                crate::kernel::frame_supply::lemma_pop(
                    words,
                    self.head(),
                    self.stack(),
                    fresh,
                    self.live(),
                );
            }
            assert(self.supply() =~= fresh);
        }
        let ghost pending = self.pending();
        let ghost at = first_run(pending, 1);
        proof {
            crate::kernel::frame_supply::lemma_first_run(pending, 1);
            crate::kernel::frame_supply::lemma_no_frames(pending.take(at));
            crate::kernel::frame_supply::lemma_split(pending, at);
            assert(fresh =~= all_frames(pending.skip(at)));
            assert(Seq::<u64>::empty().reverse() + self.stack() =~= Seq::<u64>::empty());
            if at < pending.len() {
                assert(paged(pending[at]));
                crate::kernel::frame_supply::lemma_shrunk(pending.skip(at), 1);
                assert(frames_of(FrameRun { start: pending[at].start, frames: 1 }) =~= seq![
                    pending[at].start,
                ]);
            } else {
                assert(pending.take(at) =~= pending);
            }
        }
        match self.bump(memory, 1) {
            Some(addr) => {
                proof {
                    assert(memory.words() =~= words);
                    let rest = all_frames(self.pending());
                    assert(fresh =~= seq![addr] + rest);
                    crate::kernel::frame_supply::lemma_hand_out(
                        words,
                        self.head(),
                        self.stack(),
                        seq![addr],
                        rest,
                        self.live(),
                    );
                    assert(seq![addr][0] == addr);
                    assert(seq![addr].contains(addr));
                    assert(self.live().union(seq![addr].to_set()) =~= self.live().insert(addr)) by {
                        assert forall|f: u64| seq![addr].to_set().contains(f) implies f == addr by {
                            assert(seq![addr].contains(f));
                        }
                    }
                    assert(fresh.drop_first() =~= rest);
                    assert(self.stack() + rest =~= rest);
                    assert forall|i: int| 0 <= i < self.pending().len() implies paged(
                        #[trigger] self.pending()[i],
                    ) by {
                        if i > 0 {
                            assert(self.pending()[i] == pending[at + i]);
                        }
                    }
                }
                self.in_use = self.in_use + 1;
                self.live = Ghost(self.live@.insert(addr));
                Some(addr)
            },
            None => {
                proof {
                    assert(memory.words() =~= words);
                    assert(self.supply() =~= Seq::<u64>::empty());
                    assert(fresh =~= Seq::<u64>::empty());
                }
                None
            },
        }
    }

    /// Take back a frame that was handed out.
    fn deallocate<M: WordMemory>(&mut self, memory: &mut M, addr: u64)
        requires
            old(self).wf(old(memory).words()),
            old(self).live().contains(addr),
        ensures
            final(self).wf(final(memory).words()),
            final(memory).words() == old(memory).words().insert(addr, old(self).head()),
            gave_back(*old(self), *final(self), addr),
    {
        let ghost fresh = all_frames(self.pending());
        let ghost stack = self.stack();
        proof {
            crate::kernel::frame_supply::lemma_give_back(
                memory.words(),
                self.head(),
                stack,
                fresh,
                self.live(),
                addr,
            );
            assert(seq![addr] + (stack + fresh) =~= (seq![addr] + stack) + fresh);
        }
        self.push_free(memory, addr);
        self.in_use = self.in_use - 1;
        self.live = Ghost(self.live@.remove(addr));
    }

    /// Hand out `frames` contiguous frames from the bump cursor.
    fn allocate_contiguous<M: WordMemory>(&mut self, memory: &mut M, frames: u64) -> (addr: Option<
        u64,
    >)
        requires
            old(self).wf(old(memory).words()),
        ensures
            final(self).wf(final(memory).words()),
            took_contiguous(*old(self), *final(self), frames, addr),
            only_nodes_changed(
                old(memory).words(),
                final(memory).words(),
                all_frames(old(self).pending()),
            ),
            only_nodes_changed(
                old(memory).words(),
                final(memory).words(),
                final(self).stack(),
            ),
    {
        let ghost words = memory.words();
        let ghost pending = self.pending();
        let ghost stack = self.stack();
        let ghost at = first_run(pending, frames);
        proof {
            crate::kernel::frame_supply::lemma_first_run(pending, frames);
            crate::kernel::frame_supply::lemma_split(pending, at);
            lemma_append(all_frames(pending.take(at)), all_frames(pending.skip(at)));
            if at < pending.len() {
                assert(paged(pending[at]));
                crate::kernel::frame_supply::lemma_shrunk(pending.skip(at), frames);
            } else {
                assert(pending.take(at) =~= pending);
            }
        }
        let bumped = self.bump(memory, frames);
        proof {
            let passed = if bumped is Some {
                all_frames(pending.take(at))
            } else {
                all_frames(pending)
            };
            lemma_append(passed.reverse(), stack);
            assert forall|a: u64| !self.stack().contains(a) implies #[trigger] memory.words()[a]
                == words[a] by {
                if passed.contains(a) {
                    let i = passed.index_of(a);
                    assert(passed.reverse()[passed.len() - 1 - i] == a);
                    assert(passed.reverse().contains(a));
                }
            }
        }
        match bumped {
            Some(addr) => {
                let ghost taken = frames_of(FrameRun { start: addr, frames });
                let ghost rest = all_frames(self.pending());
                proof {
                    crate::kernel::frame_supply::lemma_hand_out(
                        memory.words(),
                        self.head(),
                        self.stack(),
                        taken,
                        rest,
                        self.live(),
                    );
                    assert forall|i: int| 0 <= i < self.pending().len() implies paged(
                        #[trigger] self.pending()[i],
                    ) by {
                        if i > 0 {
                            assert(self.pending()[i] == pending[at + i]);
                        }
                    }
                    assert(only_nodes_changed(words, memory.words(), all_frames(pending))) by {
                        assert forall|a: u64|
                            !all_frames(pending).contains(a) implies #[trigger] memory.words()[a]
                            == words[a] by {
                            assert((all_frames(pending.take(at)) + all_frames(
                                pending.skip(at),
                            )).contains(a) == all_frames(pending).contains(a));
                        }
                    }
                }
                self.in_use = self.in_use + frames;
                self.live = Ghost(self.live@.union(taken.to_set()));
                Some(addr)
            },
            None => None,
        }
    }
}

/// The first frame of the supply was handed out, if there was one.
pub open spec fn took_first(
    before: FrameAllocator,
    after: FrameAllocator,
    frame: Option<u64>,
) -> bool {
    match frame {
        Some(frame) => {
            &&& before.supply().len() > 0
            &&& frame == before.supply()[0]
            &&& after.supply() == before.supply().drop_first()
            &&& if before.stack().len() > 0 {
                &&& after.stack() == before.stack().drop_first()
                &&& after.pending() == before.pending()
            } else {
                &&& after.stack() == before.stack()
                &&& after.pending() == shrunk(
                    before.pending().skip(first_run(before.pending(), 1)),
                    1,
                )
            }
            &&& after.live() == before.live().insert(frame)
            &&& after.in_use() == before.in_use() + 1
        },
        None => {
            &&& before.supply().len() == 0
            &&& after.supply() == before.supply()
            &&& after.live() == before.live()
            &&& after.in_use() == before.in_use()
        },
    }
}

/// The frame went to the front of the supply.
pub open spec fn gave_back(before: FrameAllocator, after: FrameAllocator, frame: u64) -> bool {
    &&& after.stack() == seq![frame] + before.stack()
    &&& after.pending() == before.pending()
    &&& after.supply() == seq![frame] + before.supply()
    &&& after.live() == before.live().remove(frame)
    &&& after.in_use() == before.in_use() - 1
}

/// The first run with enough frames was cut, and every frame of the runs in
/// front of it went onto the free stack. A request for more bytes than the
/// address space has changes nothing; one that no run can serve puts every
/// frame onto the stack.
pub open spec fn took_contiguous(
    before: FrameAllocator,
    after: FrameAllocator,
    frames: u64,
    addr: Option<u64>,
) -> bool {
    let pending = before.pending();
    let at = first_run(pending, frames);
    match addr {
        Some(addr) => {
            &&& frames * PAGE_SIZE <= u64::MAX
            &&& at < pending.len()
            &&& addr == pending[at].start
            &&& after.pending() == shrunk(pending.skip(at), frames)
            &&& after.stack() == all_frames(pending.take(at)).reverse() + before.stack()
            &&& after.live() == before.live().union(
                frames_of(FrameRun { start: addr, frames }).to_set(),
            )
            &&& after.in_use() == before.in_use() + frames
        },
        None if frames * PAGE_SIZE > u64::MAX => after == before,
        None => {
            &&& at == pending.len()
            &&& all_frames(after.pending()) == Seq::<u64>::empty()
            &&& after.stack() == all_frames(pending).reverse() + before.stack()
            &&& after.live() == before.live()
            &&& after.in_use() == before.in_use()
        },
    }
}

/// An allocator that nothing was taken from yet, over these runs.
pub open spec fn untouched(allocator: FrameAllocator, runs: Seq<FrameRun>) -> bool {
    &&& allocator.placed()
    &&& allocator.pending() == runs
    &&& allocator.stack() == Seq::<u64>::empty()
    &&& allocator.head() == 0
    &&& allocator.live() == Set::<u64>::empty()
    &&& allocator.in_use() == 0
}

/// No two runs share a frame.
pub open spec fn disjoint_runs(runs: Seq<FrameRun>) -> bool {
    forall|i: int, j: int|
        0 <= i < j < runs.len() ==> apart(#[trigger] runs[i], #[trigger] runs[j])
}

/// Every word of every run can be accessed.
pub open spec fn mapped_runs(words: Map<u64, u64>, runs: Seq<FrameRun>) -> bool {
    forall|i: int, addr: u64|
        0 <= i < runs.len() && (#[trigger] runs[i]).start <= addr < runs[i].start + runs[i].frames
            * PAGE_SIZE && addr % 8 == 0 ==> #[trigger] words.contains_key(addr)
}

/// The allocator in the slot, if there is one, is well formed.
pub open spec fn slot_wf(slot: Option<FrameAllocator>, words: Map<u64, u64>) -> bool {
    slot matches Some(allocator) ==> allocator.wf(words)
}

/// A map has as many frames as it says.
pub proof fn lemma_frame_count(runs: Seq<FrameRun>)
    ensures
        all_frames(runs).len() == frame_count(runs),
        frame_count(runs) >= 0,
    decreases runs.len(),
{
    if runs.len() > 0 {
        lemma_frame_count(runs.drop_first());
    }
}

/// A frame of a map belongs to one of its runs.
proof fn lemma_frame_of_a_run(runs: Seq<FrameRun>, frame: u64)
    requires
        all_frames(runs).contains(frame),
        forall|i: int| 0 <= i < runs.len() ==> paged(#[trigger] runs[i]),
    ensures
        exists|i: int|
            0 <= i < runs.len() && crate::boot_info::in_run(#[trigger] runs[i], frame as int),
    decreases runs.len(),
{
    if runs.len() > 0 {
        let rest = runs.drop_first();
        lemma_append(frames_of(runs[0]), all_frames(rest));
        if frames_of(runs[0]).contains(frame) {
            let k = frames_of(runs[0]).index_of(frame);
            assert(paged(runs[0]));
            assert(frame == runs[0].start + k * PAGE_SIZE);
            assert(crate::boot_info::in_run(runs[0], frame as int));
        } else {
            assert forall|i: int| 0 <= i < rest.len() implies paged(#[trigger] rest[i]) by {
                assert(paged(runs[i + 1]));
            }
            lemma_frame_of_a_run(rest, frame);
            let i = choose|i: int|
                0 <= i < rest.len() && crate::boot_info::in_run(#[trigger] rest[i], frame as int);
            assert(crate::boot_info::in_run(runs[i + 1], frame as int));
        }
    }
}

/// Disjoint runs hold no frame twice.
proof fn lemma_distinct_frames(runs: Seq<FrameRun>)
    requires
        disjoint_runs(runs),
        forall|i: int| 0 <= i < runs.len() ==> paged(#[trigger] runs[i]),
    ensures
        all_frames(runs).no_duplicates(),
    decreases runs.len(),
{
    if runs.len() > 0 {
        let rest = runs.drop_first();
        let first = frames_of(runs[0]);
        assert(paged(runs[0]));
        assert forall|i: int| 0 <= i < rest.len() implies paged(#[trigger] rest[i]) by {
            assert(paged(runs[i + 1]));
        }
        assert(disjoint_runs(rest)) by {
            assert forall|i: int, j: int| 0 <= i < j < rest.len() implies apart(
                #[trigger] rest[i],
                #[trigger] rest[j],
            ) by {
                assert(runs[i + 1] == rest[i] && runs[j + 1] == rest[j]);
            }
        }
        lemma_distinct_frames(rest);
        assert forall|i: int, j: int|
            0 <= i < first.len() && 0 <= j < all_frames(rest).len() implies first[i] != all_frames(
            rest,
        )[j] by {
            let frame = all_frames(rest)[j];
            assert(all_frames(rest).contains(frame));
            lemma_frame_of_a_run(rest, frame);
            let k = choose|k: int|
                0 <= k < rest.len() && crate::boot_info::in_run(#[trigger] rest[k], frame as int);
            assert(runs[k + 1] == rest[k]);
            assert(runs[0].start <= runs[0].start + i * PAGE_SIZE < runs[0].start + runs[0].frames
                * PAGE_SIZE);
        }
        assert(first.no_duplicates());
        vstd::seq_lib::lemma_no_dup_in_concat(first, all_frames(rest));
    }
}

/// An allocator seeded from a memory map whose regions do not overlap and
/// are mapped is well formed, and so hands out each frame of the map once.
pub proof fn a_seeded_allocator_is_well_formed(
    allocator: FrameAllocator,
    regions: Seq<MemoryRegion>,
    words: Map<u64, u64>,
)
    requires
        untouched(allocator, usable_runs(regions)),
        frame_count(usable_runs(regions)) <= u64::MAX,
        disjoint_runs(usable_runs(regions)),
        mapped_runs(words, usable_runs(regions)),
    ensures
        allocator.wf(words),
        allocator.supply() == all_frames(usable_runs(regions)),
{
    let runs = usable_runs(regions);
    let fresh = all_frames(runs);
    crate::boot_info::runs_are_well_formed(regions);
    assert forall|i: int| 0 <= i < runs.len() implies paged(#[trigger] runs[i]) by {
        assert(crate::boot_info::well_formed_run(runs[i]));
    }
    lemma_frame_count(runs);
    lemma_distinct_frames(runs);
    assert(allocator.supply() =~= fresh);
    assert forall|f: u64| fresh.contains(f) implies accessible(words, f) by {
        lemma_frame_of_a_run(runs, f);
        let i = choose|i: int|
            0 <= i < runs.len() && crate::boot_info::in_run(#[trigger] runs[i], f as int);
        assert(paged(runs[i]));
        let page = PAGE_SIZE as int;
        let offset = f - runs[i].start;
        assert(offset % page == 0);
        assert(offset + page <= runs[i].frames * page);
        assert forall|addr: u64| f <= addr < f + PAGE_SIZE && addr % 8 == 0 implies #[trigger] words.contains_key(
        addr) by {
            assert(runs[i].start <= addr < runs[i].start + runs[i].frames * PAGE_SIZE);
        }
    }
}

/// The supply holds no frame twice and none that is handed out, and every
/// frame in it is page aligned and not the null frame.
pub proof fn frames_are_distinct(allocator: FrameAllocator, words: Map<u64, u64>)
    requires
        allocator.wf(words),
    ensures
        allocator.supply().no_duplicates(),
        forall|f: u64| #[trigger] allocator.supply().contains(f) ==> !allocator.live().contains(f),
        forall|f: u64|
            #[trigger] allocator.supply().contains(f) ==> f % PAGE_SIZE == 0 && f != 0,
{
    let stack = allocator.stack();
    let fresh = all_frames(allocator.pending());
    lemma_append(stack, fresh);
    assert forall|i: int, j: int| 0 <= i < stack.len() && 0 <= j < fresh.len() implies stack[i]
        != fresh[j] by {
        assert(stack.contains(stack[i]));
        assert(fresh.contains(fresh[j]));
    }
    vstd::seq_lib::lemma_no_dup_in_concat(stack, fresh);
    assert forall|f: u64| #[trigger] allocator.supply().contains(f) implies f % PAGE_SIZE == 0 && f
        != 0 by {
        assert(accessible(words, f));
    }
}

/// The owners of frames may write to them: the allocator stays well formed
/// as long as the first words of the frames on its free stack stay.
pub proof fn allocator_survives_writes_elsewhere(
    allocator: FrameAllocator,
    before: Map<u64, u64>,
    after: Map<u64, u64>,
)
    requires
        allocator.wf(before),
        before.dom().subset_of(after.dom()),
        forall|f: u64| #[trigger] allocator.stack().contains(f) ==> after[f] == before[f],
    ensures
        allocator.wf(after),
{
    let stack = allocator.stack();
    assert forall|i: int| 0 <= i < stack.len() implies #[trigger] crate::kernel::frame_supply::node_at(
    after, stack, i) by {
        assert(crate::kernel::frame_supply::node_at(before, stack, i));
        assert(stack.contains(stack[i]));
    }
    let fresh = all_frames(allocator.pending());
    assert forall|f: u64|
        stack.contains(f) || fresh.contains(f) || allocator.live().contains(f) implies #[trigger] accessible(
    after, f) by {
        assert(accessible(before, f));
        assert forall|addr: u64| f <= addr < f + PAGE_SIZE && addr % 8 == 0 implies #[trigger] after.contains_key(
        addr) by {
            assert(before.contains_key(addr));
        }
    }
}

/// A frame that is given back is the next one handed out, and giving it back
/// and taking it again leaves the supply as it was.
pub proof fn a_freed_frame_is_handed_out_next(
    start: FrameAllocator,
    middle: FrameAllocator,
    end: FrameAllocator,
    freed: u64,
    frame: Option<u64>,
)
    requires
        gave_back(start, middle, freed),
        took_first(middle, end, frame),
    ensures
        frame == Some(freed),
        end.supply() == start.supply(),
{
    assert(middle.supply().drop_first() =~= start.supply());
}

/// No frame is lost or made: what is in the supply and what is handed out
/// always come to the same number.
pub proof fn frames_are_conserved(
    before: FrameAllocator,
    after: FrameAllocator,
    frame: Option<u64>,
    freed: u64,
)
    requires
        took_first(before, after, frame) || gave_back(before, after, freed),
    ensures
        after.supply().len() + after.in_use() == before.supply().len() + before.in_use(),
{
}

/// A contiguous request loses no frame: what is not handed out is still in
/// the supply, and nothing else is.
pub proof fn a_contiguous_request_strands_nothing(
    before: FrameAllocator,
    after: FrameAllocator,
    words: Map<u64, u64>,
    frames: u64,
    addr: Option<u64>,
    frame: u64,
)
    requires
        before.wf(words),
        took_contiguous(before, after, frames, addr),
    ensures
        after.supply().contains(frame) <==> (before.supply().contains(frame) && !(addr is Some
            && frames_of(FrameRun { start: addr->0, frames }).contains(frame))),
        after.supply().len() + after.in_use() == before.supply().len() + before.in_use(),
{
    let pending = before.pending();
    let stack = before.stack();
    let at = first_run(pending, frames);
    crate::kernel::frame_supply::lemma_first_run(pending, frames);
    let skipped = if addr is Some {
        all_frames(pending.take(at))
    } else {
        all_frames(pending)
    };
    assert(skipped.reverse().contains(frame) <==> skipped.contains(frame)) by {
        if skipped.contains(frame) {
            let i = skipped.index_of(frame);
            assert(skipped.reverse()[skipped.len() - 1 - i] == frame);
        }
        if skipped.reverse().contains(frame) {
            let i = skipped.reverse().index_of(frame);
            assert(skipped[skipped.len() - 1 - i] == frame);
        }
    }
    lemma_append(skipped.reverse(), stack);
    lemma_append(after.stack(), all_frames(after.pending()));
    lemma_append(stack, all_frames(pending));
    if addr is Some {
        let taken = frames_of(FrameRun { start: addr->0, frames });
        let rest = all_frames(after.pending());
        crate::kernel::frame_supply::lemma_split(pending, at);
        assert(paged(pending[at]));
        crate::kernel::frame_supply::lemma_shrunk(pending.skip(at), frames);
        lemma_append(skipped, taken + rest);
        lemma_append(taken, rest);
        if taken.contains(frame) {
            assert((taken + rest).contains(frame));
            assert(all_frames(pending).contains(frame));
        }
    }
}

/// No two regions of usable memory share a byte.
pub open spec fn disjoint_regions(regions: Seq<MemoryRegion>) -> bool {
    forall|i: int, j: int|
        0 <= i < j < regions.len() && (#[trigger] regions[i]).kind == MemoryRegion::CONVENTIONAL
            && (#[trigger] regions[j]).kind == MemoryRegion::CONVENTIONAL ==> {
            ||| regions[i].start + regions[i].pages * PAGE_SIZE <= regions[j].start
            ||| regions[j].start + regions[j].pages * PAGE_SIZE <= regions[i].start
        }
}

/// Every run of a map lies inside a region of usable memory of that map.
proof fn lemma_run_in_a_region(regions: Seq<MemoryRegion>, i: int)
    requires
        0 <= i < usable_runs(regions).len(),
    ensures
        exists|k: int|
            0 <= k < regions.len() && (#[trigger] regions[k]).kind == MemoryRegion::CONVENTIONAL
                && regions[k].start <= usable_runs(regions)[i].start && usable_runs(
                regions,
            )[i].start + usable_runs(regions)[i].frames * PAGE_SIZE <= regions[k].start
                + regions[k].pages * PAGE_SIZE,
    decreases regions.len(),
{
    let rest = regions.drop_first();
    crate::boot_info::run_is_well_formed(regions[0]);
    let first = crate::boot_info::run_of(regions[0]);
    if first is Some && i == 0 {
        assert(usable_runs(regions)[0] == first->0);
    } else {
        let j = if first is Some { i - 1 } else { i };
        assert(usable_runs(regions)[i] == usable_runs(rest)[j]);
        lemma_run_in_a_region(rest, j);
        let k = choose|k: int|
            0 <= k < rest.len() && (#[trigger] rest[k]).kind == MemoryRegion::CONVENTIONAL
                && rest[k].start <= usable_runs(rest)[j].start && usable_runs(rest)[j].start
                + usable_runs(rest)[j].frames * PAGE_SIZE <= rest[k].start + rest[k].pages
                * PAGE_SIZE;
        assert(regions[k + 1] == rest[k]);
    }
}

/// A memory map whose usable regions do not overlap, as the firmware
/// promises, has runs that do not overlap either.
pub proof fn disjoint_regions_give_disjoint_runs(regions: Seq<MemoryRegion>)
    requires
        disjoint_regions(regions),
    ensures
        disjoint_runs(usable_runs(regions)),
    decreases regions.len(),
{
    if regions.len() > 0 {
        let rest = regions.drop_first();
        let runs = usable_runs(regions);
        let others = usable_runs(rest);
        let first = crate::boot_info::run_of(regions[0]);
        assert(disjoint_regions(rest)) by {
            assert forall|i: int, j: int|
                0 <= i < j < rest.len() && (#[trigger] rest[i]).kind == MemoryRegion::CONVENTIONAL
                    && (#[trigger] rest[j]).kind == MemoryRegion::CONVENTIONAL implies {
                ||| rest[i].start + rest[i].pages * PAGE_SIZE <= rest[j].start
                ||| rest[j].start + rest[j].pages * PAGE_SIZE <= rest[i].start
            } by {
                assert(regions[i + 1] == rest[i] && regions[j + 1] == rest[j]);
            }
        }
        disjoint_regions_give_disjoint_runs(rest);
        crate::boot_info::run_is_well_formed(regions[0]);
        assert forall|i: int, j: int| 0 <= i < j < runs.len() implies apart(
            #[trigger] runs[i],
            #[trigger] runs[j],
        ) by {
            if first is Some {
                assert(runs[j] == others[j - 1]);
                if i > 0 {
                    assert(runs[i] == others[i - 1]);
                } else {
                    lemma_run_in_a_region(rest, j - 1);
                    let k = choose|k: int|
                        0 <= k < rest.len() && (#[trigger] rest[k]).kind
                            == MemoryRegion::CONVENTIONAL && rest[k].start <= others[j - 1].start
                            && others[j - 1].start + others[j - 1].frames * PAGE_SIZE
                            <= rest[k].start + rest[k].pages * PAGE_SIZE;
                    assert(regions[k + 1] == rest[k]);
                    assert(runs[0] == first->0);
                }
            } else {
                assert(runs[i] == others[i] && runs[j] == others[j]);
            }
        }
    }
}

/// A run's frames are its pages.
proof fn lemma_frames_are_pages(run: FrameRun, frame: u64)
    requires
        paged(run),
    ensures
        frames_of(run).contains(frame) <==> crate::boot_info::in_run(run, frame as int),
{
    if frames_of(run).contains(frame) {
        let k = frames_of(run).index_of(frame);
        assert(frame == run.start + k * PAGE_SIZE);
    }
    if crate::boot_info::in_run(run, frame as int) {
        let k = (frame - run.start) / PAGE_SIZE as int;
        assert(frame == run.start + k * PAGE_SIZE);
        assert(frames_of(run)[k] == frame);
    }
}

/// `frame` is a page of region `k`, which is usable memory inside the address
/// space.
pub open spec fn page_of_region(regions: Seq<MemoryRegion>, k: int, frame: u64) -> bool {
    &&& regions[k].kind == MemoryRegion::CONVENTIONAL
    &&& regions[k].start + regions[k].pages * PAGE_SIZE <= u64::MAX
    &&& crate::boot_info::holds_page(regions[k], frame as int)
}

/// The frames of a memory map are exactly the whole pages of its conventional
/// memory, but for the page at address zero: nothing that the firmware or
/// the bootloader marked otherwise is ever handed out.
pub proof fn the_frames_are_the_pages_of_conventional_memory(
    regions: Seq<MemoryRegion>,
    frame: u64,
)
    ensures
        all_frames(usable_runs(regions)).contains(frame) <==> (frame != 0 && exists|k: int|
            0 <= k < regions.len() && #[trigger] page_of_region(regions, k, frame)),
    decreases regions.len(),
{
    let runs = usable_runs(regions);
    if regions.len() == 0 {
        assert(runs.len() == 0);
    } else {
        let rest = regions.drop_first();
        let others = usable_runs(rest);
        let first = crate::boot_info::run_of(regions[0]);
        the_frames_are_the_pages_of_conventional_memory(rest, frame);
        crate::boot_info::run_is_well_formed(regions[0]);
        let here = page_of_region(regions, 0, frame);
        assert(here && frame != 0 <==> first is Some && crate::boot_info::in_run(
            first->0,
            frame as int,
        )) by {
            if regions[0].kind == MemoryRegion::CONVENTIONAL && regions[0].start + regions[0].pages
                * PAGE_SIZE <= u64::MAX {
                crate::boot_info::run_holds_the_pages_of_its_region(regions[0], frame as int);
            }
        }
        if first is Some {
            let run = first->0;
            assert(runs[0] == run);
            assert(runs.drop_first() =~= others);
            lemma_frames_are_pages(run, frame);
            lemma_append(frames_of(run), all_frames(others));
        }
        assert(all_frames(runs).contains(frame) <==> (here && frame != 0) || all_frames(
            others,
        ).contains(frame));
        if exists|k: int| 0 <= k < rest.len() && #[trigger] page_of_region(rest, k, frame) {
            let k = choose|k: int|
                0 <= k < rest.len() && #[trigger] page_of_region(rest, k, frame);
            assert(page_of_region(regions, k + 1, frame));
        }
        if exists|k: int| 0 <= k < regions.len() && #[trigger] page_of_region(regions, k, frame) {
            let k = choose|k: int|
                0 <= k < regions.len() && #[trigger] page_of_region(regions, k, frame);
            if k > 0 {
                assert(page_of_region(rest, k - 1, frame));
            }
        }
    }
}

/// Whether the frames of a memory map can be counted and no two of its runs
/// share a frame: what the allocator needs of a map it is seeded from.
pub fn map_is_sound(regions: &[MemoryRegion]) -> (sound: bool)
    ensures
        sound == (frame_count(usable_runs(regions@)) <= u64::MAX && disjoint_runs(
            usable_runs(regions@),
        )),
{
    let ghost all = usable_runs(regions@);
    let mut outer = UsableRegions::new(regions);
    let mut total: u64 = 0;
    let ghost mut i: int = 0;
    proof {
        crate::boot_info::runs_are_well_formed(regions@);
        assert(all.skip(0) =~= all);
    }
    loop
        invariant
            outer.wf(),
            all == usable_runs(regions@),
            0 <= i <= all.len(),
            outer@ == all.skip(i),
            total + frame_count(outer@) == frame_count(all),
            forall|k: int|
                0 <= k < all.len() ==> crate::boot_info::well_formed_run(#[trigger] all[k]),
            forall|a: int, b: int| 0 <= a < b < all.len() && a < i ==> apart(all[a], all[b]),
        ensures
            total == frame_count(all),
            forall|a: int, b: int| 0 <= a < b < all.len() ==> apart(all[a], all[b]),
        decreases all.len() - i,
    {
        proof {
            lemma_frame_count(outer@);
            lemma_frame_count(outer@.drop_first());
        }
        let run: FrameRun = match outer.next() {
            Some(run) => run,
            None => break,
        };
        proof {
            assert(run == all[i]);
            assert(all.skip(i).drop_first() =~= all.skip(i + 1));
        }
        total = match total.checked_add(run.frames) {
            Some(total) => total,
            None => {
                return false;
            },
        };
        assert(crate::boot_info::well_formed_run(all[i]));
        let end: u64 = run.start + run.frames * PAGE_SIZE;
        let mut inner = outer;
        let ghost mut j: int = i + 1;
        loop
            invariant
                inner.wf(),
                all == usable_runs(regions@),
                0 <= i < j <= all.len(),
                inner@ == all.skip(j),
                run == all[i],
                end == run.start + run.frames * PAGE_SIZE,
                forall|k: int|
                    0 <= k < all.len() ==> crate::boot_info::well_formed_run(#[trigger] all[k]),
                forall|b: int| i < b < j ==> apart(run, #[trigger] all[b]),
            ensures
                forall|b: int| i < b < all.len() ==> apart(run, #[trigger] all[b]),
            decreases all.len() - j,
        {
            let other: FrameRun = match inner.next() {
                Some(other) => other,
                None => break,
            };
            proof {
                assert(other == all[j]);
                assert(all.skip(j).drop_first() =~= all.skip(j + 1));
                assert(crate::boot_info::well_formed_run(all[j]));
            }
            if end > other.start && other.start + other.frames * PAGE_SIZE > run.start {
                assert(!apart(all[i], all[j]));
                return false;
            }
            proof {
                j = j + 1;
            }
        }
        proof {
            i = i + 1;
        }
    }
    true
}

/// Neither run reaches into the other.
pub open spec fn apart(one: FrameRun, two: FrameRun) -> bool {
    ||| one.start + one.frames * PAGE_SIZE <= two.start
    ||| two.start + two.frames * PAGE_SIZE <= one.start
}

/// Seed the allocator from the UEFI memory map.
///
/// Returns the total number of usable frames, or `0` if the map holds no
/// usable memory at all, which the caller must treat as fatal.
pub fn init<'a>(slot: &mut Option<FrameAllocator<'a>>, regions: &'a [MemoryRegion]) -> (total: u64)
    requires
        frame_count(usable_runs(regions@)) <= u64::MAX,
    ensures
        total == frame_count(usable_runs(regions@)),
        total == 0 ==> *final(slot) == *old(slot),
        total > 0 ==> (*final(slot) matches Some(allocator) && untouched(
            allocator,
            usable_runs(regions@),
        )),
{
    let ghost all = usable_runs(regions@);
    proof {
        crate::boot_info::runs_are_well_formed(regions@);
    }
    let mut count = UsableRegions::new(regions);
    let mut total: u64 = 0;
    loop
        invariant
            count.wf(),
            all == usable_runs(regions@),
            total + frame_count(count@) == frame_count(all),
            frame_count(all) <= u64::MAX,
        ensures
            total == frame_count(all),
        decreases count@.len(),
    {
        proof {
            lemma_frame_count(count@);
            lemma_frame_count(count@.drop_first());
        }
        match count.next() {
            Some(run) => {
                total = total + run.frames;
            },
            None => break,
        }
    }
    if total == 0 {
        return 0;
    }
    let mut runs = UsableRegions::new(regions);
    match runs.next() {
        Some(run) => {
            proof {
                assert(crate::boot_info::well_formed_run(all[0]));
            }
            let run_end: u64 = run.start + run.frames * PAGE_SIZE;
            let allocator = FrameAllocator {
                runs,
                cursor: run.start,
                run_end,
                free: 0,
                in_use: 0,
                stack: Ghost(Seq::empty()),
                live: Ghost(Set::empty()),
            };
            assert(allocator.pending() =~= all);
            *slot = Some(allocator);
            total
        },
        None => 0,
    }
}

/// Hand out one 4 KiB frame, or `None` when physical memory is exhausted or
/// the allocator was never seeded.
pub fn alloc_frame<'a, M: WordMemory>(
    slot: &mut Option<FrameAllocator<'a>>,
    memory: &mut M,
) -> (frame: Option<u64>)
    requires
        slot_wf(*old(slot), old(memory).words()),
    ensures
        slot_wf(*final(slot), final(memory).words()),
        final(memory).words() == old(memory).words(),
        match (*old(slot), *final(slot)) {
            (Some(before), Some(after)) => took_first(before, after, frame),
            (None, None) => frame is None,
            _ => false,
        },
{
    match slot {
        Some(allocator) => allocator.allocate(memory),
        None => None,
    }
}

/// Return a frame previously handed out.
pub fn dealloc_frame<'a, M: WordMemory>(
    slot: &mut Option<FrameAllocator<'a>>,
    memory: &mut M,
    addr: u64,
)
    requires
        slot_wf(*old(slot), old(memory).words()),
        *old(slot) matches Some(allocator) ==> allocator.live().contains(addr),
    ensures
        slot_wf(*final(slot), final(memory).words()),
        match (*old(slot), *final(slot)) {
            (Some(before), Some(after)) => {
                &&& gave_back(before, after, addr)
                &&& final(memory).words() == old(memory).words().insert(addr, before.head())
            },
            (None, None) => final(memory).words() == old(memory).words(),
            _ => false,
        },
{
    match slot {
        Some(allocator) => allocator.deallocate(memory, addr),
        None => {},
    }
}

/// Hand out `frames` *contiguous* frames, and the address of the first.
///
/// Served from the bump cursor only: a stack of single frames cannot promise
/// adjacency.
pub fn alloc_contiguous<'a, M: WordMemory>(
    slot: &mut Option<FrameAllocator<'a>>,
    memory: &mut M,
    frames: u64,
) -> (addr: Option<u64>)
    requires
        slot_wf(*old(slot), old(memory).words()),
    ensures
        slot_wf(*final(slot), final(memory).words()),
        match (*old(slot), *final(slot)) {
            (Some(before), Some(after)) => {
                &&& took_contiguous(before, after, frames, addr)
                &&& only_nodes_changed(
                    old(memory).words(),
                    final(memory).words(),
                    all_frames(before.pending()),
                )
                &&& only_nodes_changed(
                    old(memory).words(),
                    final(memory).words(),
                    after.stack(),
                )
            },
            (None, None) => addr is None && final(memory).words() == old(memory).words(),
            _ => false,
        },
{
    match slot {
        Some(allocator) => allocator.allocate_contiguous(memory, frames),
        None => None,
    }
}

/// Frames handed out and not returned; zero before the allocator is seeded.
pub fn frames_in_use(slot: &Option<FrameAllocator>) -> (count: u64)
    ensures
        count == (match *slot {
            Some(allocator) => allocator.in_use(),
            None => 0,
        }),
{
    match slot {
        Some(allocator) => allocator.in_use,
        None => 0,
    }
}

/// The frames that could still be handed out, in order; none before the
/// allocator is seeded.
pub open spec fn stock(slot: Option<FrameAllocator>) -> Seq<u64> {
    match slot {
        Some(allocator) => allocator.supply(),
        None => Seq::empty(),
    }
}

/// The frames handed out; none before the allocator is seeded.
pub open spec fn lent_frames(slot: Option<FrameAllocator>) -> Set<u64> {
    match slot {
        Some(allocator) => allocator.live(),
        None => Set::empty(),
    }
}

/// The first word of an accessible frame can be accessed.
proof fn lemma_node_is_mapped(words: Map<u64, u64>, frame: u64)
    requires
        accessible(words, frame),
    ensures
        words.contains_key(frame),
{
    assert(frame % 8 == 0);
}

/// Boot-time proof that both allocation paths work.
///
/// Returns the name of the violated invariant. On an allocator with at least
/// two free frames none is violated, and every frame is back in its place
/// afterwards.
#[verifier::spinoff_prover]
pub fn selftest<'a, M: WordMemory>(
    slot: &mut Option<FrameAllocator<'a>>,
    memory: &mut M,
) -> (outcome: Result<(), &'static str>)
    requires
        slot_wf(*old(slot), old(memory).words()),
    ensures
        slot_wf(*final(slot), final(memory).words()),
        only_nodes_changed(old(memory).words(), final(memory).words(), stock(*old(slot))),
        match outcome {
            Ok(()) => {
                &&& stock(*old(slot)).len() >= 2
                &&& stock(*final(slot)) == stock(*old(slot))
                &&& final(slot)->0.stack() == (if old(slot)->0.stack().len() >= 2 {
                    old(slot)->0.stack()
                } else {
                    stock(*old(slot)).take(2)
                })
                &&& final(slot)->0.pending() == advanced(
                    old(slot)->0.pending(),
                    if old(slot)->0.stack().len() >= 2 {
                        0
                    } else {
                        (2 - old(slot)->0.stack().len()) as nat
                    },
                )
                &&& lent_frames(*final(slot)) == lent_frames(*old(slot))
                &&& only_nodes_changed(
                    old(memory).words(),
                    final(memory).words(),
                    final(slot)->0.stack(),
                )
            },
            Err(why) if stock(*old(slot)).len() == 0 => {
                &&& why@ == "alloc_frame returned None on a fresh allocator"@
                &&& stock(*final(slot)) == stock(*old(slot))
                &&& lent_frames(*final(slot)) == lent_frames(*old(slot))
            },
            Err(why) => {
                &&& stock(*old(slot)).len() == 1
                &&& why@ == "alloc_frame returned None for the second of two frames"@
                &&& stock(*final(slot)) == Seq::<u64>::empty()
                &&& lent_frames(*final(slot)) == lent_frames(*old(slot)).insert(
                    stock(*old(slot))[0],
                )
            },
        },
{
    let ghost supply = stock(*slot);
    let ghost live = lent_frames(*slot);
    let ghost start = *slot;
    proof {
        if start is Some {
            frames_are_distinct(start->0, memory.words());
        }
    }
    let first: u64 = match alloc_frame(slot, memory) {
        Some(frame) => frame,
        None => return Err("alloc_frame returned None on a fresh allocator"),
    };
    let ghost taken = slot->0;
    let ghost words = memory.words();
    proof {
        lemma_node_is_mapped(words, first);
    }
    assert((seq![first] + taken.stack()).drop_first() =~= taken.stack());
    assert(supply.contains(first));
    assert(live.insert(first).remove(first) =~= live);
    assert(seq![first] + supply.drop_first() =~= supply);
    if first % PAGE_SIZE != 0 {
        return Err("allocated frame is not page aligned");
    }
    if first == 0 {
        return Err("allocated frame is the null frame");
    }
    // Freeing then reallocating must hand the same frame straight back:
    // that is the whole observable behaviour of the intrusive free stack.

    dealloc_frame(slot, memory, first);
    let again: u64 = match alloc_frame(slot, memory) {
        Some(frame) => frame,
        None => return Err("alloc_frame returned None after a dealloc"),
    };
    if again != first {
        return Err("a freed frame was not the next frame handed out");
    }
    dealloc_frame(slot, memory, again);

    // Two live allocations must be distinct, so a bump cursor that keeps
    // returning one address is caught rather than looking correct.
    let a: u64 = match alloc_frame(slot, memory) {
        Some(frame) => frame,
        None => return Err("alloc_frame returned None for the first of two frames"),
    };
    let b: u64 = match alloc_frame(slot, memory) {
        Some(frame) => frame,
        None => {
            assert(memory.words().dom() =~= words.dom());
            return Err("alloc_frame returned None for the second of two frames");
        },
    };
    proof {
        lemma_node_is_mapped(memory.words(), b);
        assert(memory.words().dom() =~= words.dom());
        assert(b == supply[1]);
        assert(supply.contains(b));
        assert(live.insert(a).insert(b).remove(b).remove(a) =~= live);
        assert(seq![b] + supply.drop_first().drop_first() =~= supply.drop_first());
    }
    if a == b {
        return Err("two consecutive allocations returned the same frame");
    }
    dealloc_frame(slot, memory, b);
    dealloc_frame(slot, memory, a);
    proof {
        reveal_with_fuel(advanced, 3);
        assert(memory.words().dom() =~= old(memory).words().dom());
        let stack = slot->0.stack();
        assert(stack[0] == a && stack[1] == b);
        assert(stack.contains(a) && stack.contains(b));
        if start->0.stack().len() >= 2 {
            assert(stack =~= start->0.stack());
        } else {
            assert(stack =~= supply.take(2));
        }
    }
    Ok(())
}

/// A request for one frame is refused only when none is left, and gets the
/// first of the supply: that frame moves from the supply to the frames
/// handed out, and nothing else does.
pub proof fn a_frame_is_handed_out_while_there_is_one(
    before: FrameAllocator,
    after: FrameAllocator,
    frame: Option<u64>,
)
    requires
        took_first(before, after, frame),
    ensures
        before.supply().len() > 0 ==> frame == Some(before.supply()[0]) && before.supply()
            == seq![before.supply()[0]] + after.supply() && after.live() == before.live().insert(
            before.supply()[0],
        ) && after.in_use() == before.in_use() + 1,
        before.supply().len() == 0 ==> frame is None && after.supply() == before.supply()
            && after.live() == before.live() && after.in_use() == before.in_use(),
{
    if before.supply().len() > 0 {
        assert(before.supply() =~= seq![before.supply()[0]] + after.supply());
    }
}

/// A frame given back moves from the frames handed out to the front of the
/// supply, and nothing else does.
pub proof fn a_frame_given_back_is_free_again(
    before: FrameAllocator,
    after: FrameAllocator,
    frame: u64,
)
    requires
        gave_back(before, after, frame),
    ensures
        after.supply().len() == before.supply().len() + 1,
        after.supply()[0] == frame,
        forall|i: int| 0 <= i < before.supply().len() ==> after.supply()[i + 1]
            == #[trigger] before.supply()[i],
        !after.live().contains(frame),
        forall|f: u64| f != frame ==> (#[trigger] after.live().contains(f) <==> before.live().contains(f)),
        after.in_use() + 1 == before.in_use(),
{
}

/// A request for contiguous frames is served if any run not yet reached holds
/// as many: at the start of the first one that does. Every frame from there
/// on, as many as were asked for, was free and is handed out.
#[verifier::spinoff_prover]
pub proof fn contiguous_frames_are_found_if_there_are_any(
    before: FrameAllocator,
    after: FrameAllocator,
    words: Map<u64, u64>,
    frames: u64,
    addr: Option<u64>,
    i: int,
    k: int,
)
    requires
        before.wf(words),
        took_contiguous(before, after, frames, addr),
        frames * 4096 < 0x1_0000_0000_0000_0000,
        0 <= i < before.pending().len(),
        before.pending()[i].frames >= frames,
        0 <= k < frames,
    ensures
        addr is Some,
        exists|r: int|
            0 <= r <= i && (#[trigger] before.pending()[r]).start == addr->0
                && before.pending()[r].frames >= frames,
        addr->0 + 4096 * k < 0x1_0000_0000_0000_0000,
        before.supply().contains((addr->0 + 4096 * k) as u64),
        after.live().contains((addr->0 + 4096 * k) as u64),
        !after.supply().contains((addr->0 + 4096 * k) as u64),
        after.in_use() == before.in_use() + frames,
{
    let pending = before.pending();
    let at = first_run(pending, frames);
    crate::kernel::frame_supply::the_first_run_that_holds_them_serves(pending, frames, i);
    crate::kernel::frame_supply::lemma_first_run(pending, frames);
    assert(addr is Some);
    assert(pending[at].start == addr->0);
    assert(paged(pending[at]));
    let run = FrameRun { start: addr->0, frames };
    let frame = (addr->0 + 4096 * k) as u64;
    assert(frames_of(run)[k] == frame);
    assert(frames_of(run).contains(frame));
    assert(frames_of(run).to_set().contains(frame));
    a_contiguous_request_strands_nothing(before, after, words, frames, addr, frame);
    assert(before.supply().contains(frame)) by {
        let all = frames_of(pending[at]);
        assert(all[k] == frame);
        assert(all.contains(frame));
        crate::kernel::frame_supply::lemma_take_one_more(pending, at);
        lemma_append(all_frames(pending.take(at)), all);
        crate::kernel::frame_supply::lemma_split(pending, at + 1);
        lemma_append(all_frames(pending.take(at + 1)), all_frames(pending.skip(at + 1)));
        lemma_append(before.stack(), all_frames(pending));
    }
}

/// Two runs that share a byte are not apart, so a map that counts a frame
/// twice is not taken for sound.
pub proof fn runs_that_share_a_byte_are_not_apart(one: FrameRun, two: FrameRun, addr: int)
    requires
        one.start <= addr < one.start + one.frames * 4096,
        two.start <= addr < two.start + two.frames * 4096,
    ensures
        !apart(one, two),
{
}

/// Runs of which one ends before the other starts are apart.
pub proof fn runs_one_after_the_other_are_apart(one: FrameRun, two: FrameRun)
    requires
        one.start + one.frames * 4096 <= two.start || two.start + two.frames * 4096 <= one.start,
    ensures
        apart(one, two),
{
}

/// The count of a map's frames is that of its runs, added up.
pub proof fn frame_counts_add_up(one: Seq<FrameRun>, run: FrameRun, two: Seq<FrameRun>)
    ensures
        frame_count(Seq::<FrameRun>::empty()) == 0,
        frame_count(one + seq![run] + two) == frame_count(one) + run.frames + frame_count(two),
{
    lemma_frame_count(one + seq![run] + two);
    lemma_frame_count(one);
    lemma_frame_count(two);
    lemma_frame_count(seq![run]);
    crate::kernel::frame_supply::frames_come_run_after_run(one + seq![run], two);
    crate::kernel::frame_supply::frames_come_run_after_run(one, seq![run]);
    reveal_with_fuel(frame_count, 2);
    assert(seq![run].drop_first() =~= Seq::<FrameRun>::empty());
}

/// A well-formed allocator has handed out as many frames as it counts, and
/// none of them is free.
pub proof fn frames_in_use_are_counted(allocator: FrameAllocator, words: Map<u64, u64>, frame: u64)
    requires
        allocator.wf(words),
    ensures
        allocator.live().finite(),
        allocator.in_use() == allocator.live().len(),
        allocator.live().contains(frame) ==> !allocator.supply().contains(frame),
{
    frames_are_distinct(allocator, words);
}

/// A freshly seeded allocator has every frame of its map to hand out, in
/// order, and none handed out.
pub proof fn a_fresh_allocator_has_the_whole_map(allocator: FrameAllocator, runs: Seq<FrameRun>)
    requires
        untouched(allocator, runs),
    ensures
        allocator.supply() == all_frames(runs),
        allocator.live() == Set::<u64>::empty(),
        allocator.in_use() == 0,
{
    assert(allocator.supply() =~= all_frames(runs));
}

/// A request for contiguous frames that is refused hands nothing out.
pub proof fn a_refused_contiguous_request_hands_nothing_out(
    before: FrameAllocator,
    after: FrameAllocator,
    frames: u64,
)
    requires
        took_contiguous(before, after, frames, None),
    ensures
        after.live() == before.live(),
        after.in_use() == before.in_use(),
        frames * 4096 < 0x1_0000_0000_0000_0000 ==> forall|i: int|
            0 <= i < before.pending().len() ==> (#[trigger] before.pending()[i]).frames < frames,
{
    crate::kernel::frame_supply::lemma_first_run(before.pending(), frames);
}

/// A request for contiguous frames that is served hands out those frames and
/// no others.
pub proof fn contiguous_frames_alone_are_handed_out(
    before: FrameAllocator,
    after: FrameAllocator,
    frames: u64,
    addr: u64,
    frame: u64,
)
    requires
        took_contiguous(before, after, frames, Some(addr)),
        addr + frames * 4096 < 0x1_0000_0000_0000_0000,
        !(addr <= frame < addr + frames * 4096),
    ensures
        after.live().contains(frame) <==> before.live().contains(frame),
{
    let taken = frames_of(FrameRun { start: addr, frames });
    if taken.to_set().contains(frame) {
        let k = taken.index_of(frame);
        assert(taken[k] == addr + k * 4096);
    }
}

/// No byte lies in two disjoint runs, and runs of which one always ends
/// before the other starts are disjoint.
pub proof fn disjoint_runs_share_no_byte(runs: Seq<FrameRun>, i: int, j: int, addr: int)
    ensures
        disjoint_runs(runs) && 0 <= i < runs.len() && 0 <= j < runs.len() && i != j
            && runs[i].start <= addr < runs[i].start + runs[i].frames * 4096 ==> !(runs[j].start
            <= addr < runs[j].start + runs[j].frames * 4096),
        (forall|a: int, b: int|
            0 <= a < b < runs.len() ==> (#[trigger] runs[a]).start + runs[a].frames * 4096 <= (
            #[trigger] runs[b]).start || runs[b].start + runs[b].frames * 4096 <= runs[a].start)
            ==> disjoint_runs(runs),
{
    if disjoint_runs(runs) && 0 <= i < runs.len() && 0 <= j < runs.len() && i != j {
        if i < j {
            assert(apart(runs[i], runs[j]));
        } else {
            assert(apart(runs[j], runs[i]));
        }
    }
}

/// Before the allocator is seeded there is nothing to hand out and nothing
/// handed out; after that it is what the allocator says.
pub proof fn the_slot_holds_what_its_allocator_holds(allocator: FrameAllocator)
    ensures
        stock(None::<FrameAllocator>) == Seq::<u64>::empty(),
        lent_frames(None::<FrameAllocator>) == Set::<u64>::empty(),
        stock(Some(allocator)) == allocator.stack() + all_frames(allocator.pending()),
        lent_frames(Some(allocator)) == allocator.live(),
{
}

} // verus!
