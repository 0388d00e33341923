//! The mathematical model of the frame allocator's stock of free frames.
//!
//! The stock is a stack of frames that were given back, then the frames of
//! the runs that the bump cursor has not passed yet, in address order within
//! each run. The stack lives in memory: the first word of each frame on it
//! holds the address of the next one, zero at the bottom.

use crate::boot_info::{FrameRun, PAGE_SIZE};
use vstd::prelude::*;

verus! {

/// The frames of one run, as their addresses, lowest first.
pub open spec fn frames_of(run: FrameRun) -> Seq<u64> {
    Seq::new(run.frames as nat, |i: int| (run.start + i * PAGE_SIZE) as u64)
}

/// The frames of all runs, run by run.
pub open spec fn all_frames(runs: Seq<FrameRun>) -> Seq<u64>
    decreases runs.len(),
{
    if runs.len() == 0 {
        Seq::empty()
    } else {
        frames_of(runs[0]) + all_frames(runs.drop_first())
    }
}

/// The runs once `frames` frames are taken off the front of the first.
pub open spec fn shrunk(runs: Seq<FrameRun>, frames: u64) -> Seq<FrameRun> {
    seq![
        FrameRun {
            start: (runs[0].start + frames * PAGE_SIZE) as u64,
            frames: (runs[0].frames - frames) as u64,
        },
    ] + runs.drop_first()
}

/// The first run with at least `frames` frames, or the number of runs if
/// none has that many.
pub open spec fn first_run(runs: Seq<FrameRun>, frames: u64) -> int
    decreases runs.len(),
{
    if runs.len() == 0 {
        0
    } else if runs[0].frames >= frames {
        0
    } else {
        1 + first_run(runs.drop_first(), frames)
    }
}

/// The runs once `frames` single frames are taken, one after the other.
pub open spec fn advanced(runs: Seq<FrameRun>, frames: nat) -> Seq<FrameRun>
    decreases frames,
{
    if frames == 0 {
        runs
    } else {
        advanced(shrunk(runs.skip(first_run(runs, 1)), 1), (frames - 1) as nat)
    }
}

/// A run, possibly an empty one, on the page grid.
pub open spec fn paged(run: FrameRun) -> bool {
    &&& run.start % PAGE_SIZE == 0
    &&& run.start >= PAGE_SIZE
    &&& run.start + run.frames * PAGE_SIZE <= u64::MAX
}

/// The frame at `frame` is page aligned, is not the null frame, and each of
/// its words can be accessed.
pub open spec fn accessible(words: Map<u64, u64>, frame: u64) -> bool {
    &&& frame % PAGE_SIZE == 0
    &&& frame > 0
    &&& frame + PAGE_SIZE <= u64::MAX
    &&& forall|addr: u64|
        frame <= addr < frame + PAGE_SIZE && addr % 8 == 0 ==> #[trigger] words.contains_key(addr)
}

/// Entry `i` of the stack, or zero past the bottom.
pub open spec fn entry_at(stack: Seq<u64>, i: int) -> u64 {
    if 0 <= i < stack.len() {
        stack[i]
    } else {
        0
    }
}

/// The node of entry `i` names the next entry.
pub open spec fn node_at(words: Map<u64, u64>, stack: Seq<u64>, i: int) -> bool {
    words[stack[i]] == entry_at(stack, i + 1)
}

/// The words in memory spell out this stack, with `head` on top.
pub open spec fn stacked(words: Map<u64, u64>, head: u64, stack: Seq<u64>) -> bool {
    &&& head == entry_at(stack, 0)
    &&& forall|i: int| 0 <= i < stack.len() ==> #[trigger] node_at(words, stack, i)
}

/// Every frame is in one place at most: on the stack, not yet reached, or
/// handed out. All of them can be accessed, and the stack is in memory.
pub open spec fn sound(
    words: Map<u64, u64>,
    head: u64,
    stack: Seq<u64>,
    fresh: Seq<u64>,
    live: Set<u64>,
) -> bool {
    &&& stacked(words, head, stack)
    &&& stack.no_duplicates()
    &&& fresh.no_duplicates()
    &&& forall|f: u64| #[trigger] stack.contains(f) ==> !fresh.contains(f) && !live.contains(f)
    &&& forall|f: u64| #[trigger] fresh.contains(f) ==> !live.contains(f)
    &&& forall|f: u64|
        stack.contains(f) || fresh.contains(f) || live.contains(f) ==> #[trigger] accessible(
            words,
            f,
        )
}

/// The memory differs at most in the first words of `frames`.
pub open spec fn only_nodes_changed(
    before: Map<u64, u64>,
    after: Map<u64, u64>,
    frames: Seq<u64>,
) -> bool {
    &&& after.dom() == before.dom()
    &&& forall|addr: u64| !frames.contains(addr) ==> #[trigger] after[addr] == before[addr]
}

/// The byte at `addr` belongs to one of `frames`.
pub open spec fn in_frames(frames: Seq<u64>, addr: u64) -> bool {
    exists|i: int| 0 <= i < frames.len() && #[trigger] frames[i] <= addr < frames[i] + PAGE_SIZE
}

/// The memory differs at most inside `frames`.
pub open spec fn only_frames_changed(
    before: Map<u64, u64>,
    after: Map<u64, u64>,
    frames: Seq<u64>,
) -> bool {
    &&& after.dom() == before.dom()
    &&& forall|addr: u64| !in_frames(frames, addr) ==> #[trigger] after[addr] == before[addr]
}

/// A change of first words is a change inside the frames.
pub proof fn lemma_nodes_are_in_frames(
    before: Map<u64, u64>,
    after: Map<u64, u64>,
    nodes: Seq<u64>,
    frames: Seq<u64>,
)
    requires
        only_nodes_changed(before, after, nodes),
        forall|f: u64| #[trigger] nodes.contains(f) ==> frames.contains(f),
    ensures
        only_frames_changed(before, after, frames),
{
    assert forall|addr: u64| !in_frames(frames, addr) implies #[trigger] after[addr]
        == before[addr] by {
        if nodes.contains(addr) {
            let i = frames.index_of(addr);
            assert(frames[i] <= addr < frames[i] + PAGE_SIZE);
        }
    }
}

/// `first_run` is the first index with enough frames.
pub proof fn lemma_first_run(runs: Seq<FrameRun>, frames: u64)
    ensures
        0 <= first_run(runs, frames) <= runs.len(),
        first_run(runs, frames) < runs.len() ==> runs[first_run(runs, frames)].frames >= frames,
        forall|i: int| 0 <= i < first_run(runs, frames) ==> (#[trigger] runs[i]).frames < frames,
    decreases runs.len(),
{
    if runs.len() > 0 && runs[0].frames < frames {
        let rest = runs.drop_first();
        lemma_first_run(rest, frames);
        assert forall|i: int| 0 <= i < first_run(runs, frames) implies (
        #[trigger] runs[i]).frames < frames by {
            if i > 0 {
                assert(runs[i] == rest[i - 1]);
            }
        }
    }
}

/// Any index with these two properties is `first_run`.
pub proof fn lemma_first_run_is(runs: Seq<FrameRun>, frames: u64, at: int)
    requires
        0 <= at <= runs.len(),
        at < runs.len() ==> runs[at].frames >= frames,
        forall|i: int| 0 <= i < at ==> (#[trigger] runs[i]).frames < frames,
    ensures
        first_run(runs, frames) == at,
{
    lemma_first_run(runs, frames);
    let found = first_run(runs, frames);
    if found < at {
        assert(runs[found].frames < frames);
    } else if at < found {
        assert(runs[at].frames < frames);
    }
}

/// Taking frames off the first run takes them off the front of all frames.
pub proof fn lemma_shrunk(runs: Seq<FrameRun>, frames: u64)
    requires
        runs.len() > 0,
        frames <= runs[0].frames,
        paged(runs[0]),
    ensures
        all_frames(runs) == frames_of(FrameRun { start: runs[0].start, frames }) + all_frames(
            shrunk(runs, frames),
        ),
        paged(shrunk(runs, frames)[0]),
{
    let small = shrunk(runs, frames);
    assert(small.drop_first() == runs.drop_first());
    let first = frames_of(FrameRun { start: runs[0].start, frames });
    let second = frames_of(small[0]);
    assert(frames_of(runs[0]) =~= first + second) by {
        assert forall|i: int| 0 <= i < runs[0].frames implies frames_of(runs[0])[i] == (first
            + second)[i] by {
            if i >= frames {
                let k: int = i - frames;
                assert((runs[0].start + frames * PAGE_SIZE) + k * PAGE_SIZE == runs[0].start + i
                    * PAGE_SIZE);
            }
        }
    }
    assert(first + second + all_frames(runs.drop_first()) =~= first + (second + all_frames(
        runs.drop_first(),
    )));
}

/// All frames, split between two runs.
pub proof fn lemma_split(runs: Seq<FrameRun>, at: int)
    requires
        0 <= at <= runs.len(),
    ensures
        all_frames(runs) == all_frames(runs.take(at)) + all_frames(runs.skip(at)),
    decreases at,
{
    if at == 0 {
        assert(runs.skip(0) == runs);
        assert(runs.take(0).len() == 0);
        assert(all_frames(runs) =~= all_frames(runs.take(0)) + all_frames(runs.skip(0)));
    } else {
        let rest = runs.drop_first();
        lemma_split(rest, at - 1);
        assert(runs.take(at).drop_first() == rest.take(at - 1));
        assert(rest.skip(at - 1) == runs.skip(at));
        assert(frames_of(runs[0]) + (all_frames(rest.take(at - 1)) + all_frames(runs.skip(at)))
            =~= frames_of(runs[0]) + all_frames(rest.take(at - 1)) + all_frames(runs.skip(at)));
    }
}

/// All frames of the runs up to and with run `at`.
pub proof fn lemma_take_one_more(runs: Seq<FrameRun>, at: int)
    requires
        0 <= at < runs.len(),
    ensures
        all_frames(runs.take(at + 1)) == all_frames(runs.take(at)) + frames_of(runs[at]),
{
    let more = runs.take(at + 1);
    lemma_split(more, at);
    assert(more.take(at) == runs.take(at));
    assert(more.skip(at) =~= seq![runs[at]]);
    reveal_with_fuel(all_frames, 2);
    assert(all_frames(seq![runs[at]]) =~= frames_of(runs[at]));
}

/// Runs without frames hold no frame.
pub proof fn lemma_no_frames(runs: Seq<FrameRun>)
    requires
        forall|i: int| 0 <= i < runs.len() ==> (#[trigger] runs[i]).frames == 0,
    ensures
        all_frames(runs) == Seq::<u64>::empty(),
    decreases runs.len(),
{
    if runs.len() > 0 {
        lemma_no_frames(runs.drop_first());
        assert(all_frames(runs) =~= Seq::<u64>::empty());
    }
}

/// What a sequence with one more element in front contains.
pub proof fn lemma_cons(first: u64, rest: Seq<u64>)
    ensures
        forall|f: u64|
            #[trigger] (seq![first] + rest).contains(f) <==> (f == first || rest.contains(f)),
        (seq![first] + rest).no_duplicates() <==> (rest.no_duplicates() && !rest.contains(first)),
{
    let all = seq![first] + rest;
    assert(all[0] == first);
    assert forall|f: u64| #[trigger] all.contains(f) <==> (f == first || rest.contains(f)) by {
        if all.contains(f) {
            let i = all.index_of(f);
            if i > 0 {
                assert(rest[i - 1] == f);
            }
        }
        if rest.contains(f) {
            let i = rest.index_of(f);
            assert(all[i + 1] == f);
        }
    }
    if all.no_duplicates() {
        assert forall|i: int, j: int| 0 <= i < rest.len() && 0 <= j < rest.len() && i != j implies rest[i]
            != rest[j] by {
            assert(all[i + 1] != all[j + 1]);
        }
        if rest.contains(first) {
            let i = rest.index_of(first);
            assert(all[i + 1] == first);
        }
    }
    if rest.no_duplicates() && !rest.contains(first) {
        assert forall|i: int, j: int| 0 <= i < all.len() && 0 <= j < all.len() && i != j implies all[i]
            != all[j] by {
            if i > 0 {
                assert(all[i] == rest[i - 1]);
            }
            if j > 0 {
                assert(all[j] == rest[j - 1]);
            }
        }
    }
}

/// A push leaves a stack in memory.
pub proof fn lemma_push(words: Map<u64, u64>, head: u64, stack: Seq<u64>, frame: u64)
    requires
        stacked(words, head, stack),
        !stack.contains(frame),
    ensures
        stacked(words.insert(frame, head), frame, seq![frame] + stack),
{
    let after = words.insert(frame, head);
    let new = seq![frame] + stack;
    assert forall|i: int| 0 <= i < new.len() implies #[trigger] node_at(after, new, i) by {
        if i > 0 {
            assert(node_at(words, stack, i - 1));
            assert(new[i] == stack[i - 1]);
            assert(stack.contains(stack[i - 1]));
            if i + 1 < new.len() {
                assert(new[i + 1] == stack[i]);
            }
        } else if stack.len() > 0 {
            assert(new[1] == stack[0]);
        }
    }
}

/// Moving the first frame not yet reached onto the stack.
pub proof fn lemma_strand_one(
    words: Map<u64, u64>,
    head: u64,
    stack: Seq<u64>,
    frame: u64,
    rest: Seq<u64>,
    live: Set<u64>,
)
    requires
        sound(words, head, stack, seq![frame] + rest, live),
    ensures
        sound(words.insert(frame, head), frame, seq![frame] + stack, rest, live),
        words.contains_key(frame),
{
    lemma_cons(frame, rest);
    lemma_cons(frame, stack);
    assert((seq![frame] + rest).contains(frame));
    assert(accessible(words, frame));
    assert(words.contains_key(frame)) by {
        assert(frame % 8 == 0);
    }
    lemma_push(words, head, stack, frame);
    let after = words.insert(frame, head);
    assert forall|f: u64| #[trigger] (seq![frame] + stack).contains(f) implies !rest.contains(f)
        && !live.contains(f) by {
        assert(stack.contains(f) ==> !(seq![frame] + rest).contains(f));
    }
    assert forall|f: u64| #[trigger] rest.contains(f) implies !live.contains(f) by {
        assert((seq![frame] + rest).contains(f));
    }
    assert forall|f: u64|
        (seq![frame] + stack).contains(f) || rest.contains(f) || live.contains(f) implies #[trigger] accessible(
        after,
        f,
    ) by {
        assert(accessible(words, f));
    }
}

/// Giving back a frame that was handed out.
pub proof fn lemma_give_back(
    words: Map<u64, u64>,
    head: u64,
    stack: Seq<u64>,
    fresh: Seq<u64>,
    live: Set<u64>,
    frame: u64,
)
    requires
        sound(words, head, stack, fresh, live),
        live.contains(frame),
    ensures
        sound(words.insert(frame, head), frame, seq![frame] + stack, fresh, live.remove(frame)),
        words.contains_key(frame),
{
    lemma_cons(frame, stack);
    assert(accessible(words, frame));
    assert(words.contains_key(frame)) by {
        assert(frame % 8 == 0);
    }
    lemma_push(words, head, stack, frame);
    let after = words.insert(frame, head);
    let rest = live.remove(frame);
    assert forall|f: u64|
        (seq![frame] + stack).contains(f) || fresh.contains(f) || rest.contains(f) implies #[trigger] accessible(
        after,
        f,
    ) by {
        assert(accessible(words, f));
    }
}

/// Taking the top frame off the stack.
pub proof fn lemma_pop(
    words: Map<u64, u64>,
    head: u64,
    stack: Seq<u64>,
    fresh: Seq<u64>,
    live: Set<u64>,
)
    requires
        sound(words, head, stack, fresh, live),
        stack.len() > 0,
    ensures
        head == stack[0],
        head > 0,
        words.contains_key(head),
        sound(words, words[head], stack.drop_first(), fresh, live.insert(head)),
        !live.contains(head),
{
    let rest = stack.drop_first();
    assert(seq![head] + rest =~= stack);
    lemma_cons(head, rest);
    assert(stack.contains(head));
    assert(accessible(words, head));
    assert(words.contains_key(head)) by {
        assert(head % 8 == 0);
    }
    assert(node_at(words, stack, 0));
    assert forall|i: int| 0 <= i < rest.len() implies #[trigger] node_at(words, rest, i) by {
        assert(node_at(words, stack, i + 1));
    }
    let lent = live.insert(head);
    assert forall|f: u64| #[trigger] rest.contains(f) implies !fresh.contains(f) && !lent.contains(
        f,
    ) by {
        assert(stack.contains(f));
    }
    assert forall|f: u64| #[trigger] fresh.contains(f) implies !lent.contains(f) by {}
    assert forall|f: u64| rest.contains(f) || fresh.contains(f) || lent.contains(f) implies #[trigger] accessible(
        words,
        f,
    ) by {}
}

/// What two sequences put together contain.
pub proof fn lemma_append(left: Seq<u64>, right: Seq<u64>)
    ensures
        forall|f: u64|
            #[trigger] (left + right).contains(f) <==> (left.contains(f) || right.contains(f)),
        (left + right).no_duplicates() ==> {
            &&& left.no_duplicates()
            &&& right.no_duplicates()
            &&& forall|f: u64| #[trigger] left.contains(f) ==> !right.contains(f)
        },
{
    let all = left + right;
    assert forall|f: u64| #[trigger] all.contains(f) <==> (left.contains(f) || right.contains(f)) by {
        if all.contains(f) {
            let i = all.index_of(f);
            if i < left.len() {
                assert(left[i] == f);
            } else {
                assert(right[i - left.len()] == f);
            }
        }
        if left.contains(f) {
            assert(all[left.index_of(f)] == f);
        }
        if right.contains(f) {
            assert(all[left.len() + right.index_of(f)] == f);
        }
    }
    if all.no_duplicates() {
        assert forall|i: int, j: int| 0 <= i < left.len() && 0 <= j < left.len() && i != j implies left[i]
            != left[j] by {
            assert(all[i] != all[j]);
        }
        assert forall|i: int, j: int|
            0 <= i < right.len() && 0 <= j < right.len() && i != j implies right[i] != right[j] by {
            assert(all[left.len() + i] != all[left.len() + j]);
        }
        assert forall|f: u64| #[trigger] left.contains(f) implies !right.contains(f) by {
            if right.contains(f) {
                assert(all[left.index_of(f)] == all[left.len() + right.index_of(f)]);
            }
        }
    }
}

/// Handing out the first frames not yet reached.
pub proof fn lemma_hand_out(
    words: Map<u64, u64>,
    head: u64,
    stack: Seq<u64>,
    taken: Seq<u64>,
    rest: Seq<u64>,
    live: Set<u64>,
)
    requires
        sound(words, head, stack, taken + rest, live),
        live.finite(),
    ensures
        sound(words, head, stack, rest, live.union(taken.to_set())),
        live.union(taken.to_set()).finite(),
        live.union(taken.to_set()).len() == live.len() + taken.len(),
{
    lemma_append(taken, rest);
    let lent = live.union(taken.to_set());
    assert forall|f: u64| stack.contains(f) || rest.contains(f) || lent.contains(f) implies #[trigger] accessible(
        words,
        f,
    ) by {
        if taken.contains(f) {
            assert((taken + rest).contains(f));
        }
        if rest.contains(f) {
            assert((taken + rest).contains(f));
        }
    }
    assert forall|f: u64| #[trigger] stack.contains(f) implies !rest.contains(f) && !lent.contains(
        f,
    ) by {
        assert(!(taken + rest).contains(f));
    }
    assert forall|f: u64| #[trigger] rest.contains(f) implies !lent.contains(f) by {
        assert((taken + rest).contains(f));
    }
    taken.unique_seq_to_set();
    assert(live.disjoint(taken.to_set())) by {
        assert forall|f: u64| live.contains(f) implies !taken.to_set().contains(f) by {
            if taken.contains(f) {
                assert((taken + rest).contains(f));
            }
        }
    }
    vstd::set_lib::lemma_set_disjoint_lens(live, taken.to_set());
}

/// The frames of a run are its pages, each 4096 bytes behind the one before.
pub proof fn the_frames_of_a_run_are_its_pages(run: FrameRun, i: int)
    requires
        run.start + run.frames * 4096 < 0x1_0000_0000_0000_0000,
        0 <= i < run.frames,
    ensures
        frames_of(run).len() == run.frames,
        frames_of(run)[i] == run.start + 4096 * i,
        all_frames(seq![run]) == frames_of(run),
{
    reveal_with_fuel(all_frames, 2);
    assert(seq![run].drop_first() =~= Seq::<FrameRun>::empty());
    assert(all_frames(seq![run]) =~= frames_of(run));
}

/// The frames of a map in two parts are those of the one and then those of
/// the other.
pub proof fn frames_come_run_after_run(one: Seq<FrameRun>, two: Seq<FrameRun>)
    ensures
        all_frames(one + two) == all_frames(one) + all_frames(two),
{
    lemma_split(one + two, one.len() as int);
    assert((one + two).take(one.len() as int) =~= one);
    assert((one + two).skip(one.len() as int) =~= two);
}

/// A request for contiguous frames goes to the first run that holds as many,
/// and finds one if there is any.
pub proof fn the_first_run_that_holds_them_serves(runs: Seq<FrameRun>, frames: u64, i: int)
    requires
        0 <= i < runs.len(),
    ensures
        runs[i].frames >= frames ==> first_run(runs, frames) <= i,
        i < first_run(runs, frames) ==> runs[i].frames < frames,
        i == first_run(runs, frames) ==> runs[i].frames >= frames,
        0 <= first_run(runs, frames) <= runs.len(),
{
    lemma_first_run(runs, frames);
}

/// Taking frames one by one takes them off the front of all frames, in
/// order.
pub proof fn single_frames_are_taken_in_order(runs: Seq<FrameRun>, taken: nat)
    requires
        forall|i: int| 0 <= i < runs.len() ==> paged(#[trigger] runs[i]),
        taken <= all_frames(runs).len(),
    ensures
        all_frames(advanced(runs, taken)) == all_frames(runs).skip(taken as int),
    decreases taken,
{
    if taken == 0 {
        assert(all_frames(runs).skip(0) =~= all_frames(runs));
    } else {
        let at = first_run(runs, 1);
        lemma_first_run(runs, 1);
        lemma_no_frames(runs.take(at));
        lemma_split(runs, at);
        if at == runs.len() {
            assert(runs.skip(at) =~= Seq::<FrameRun>::empty());
        }
        let here = runs.skip(at);
        assert(paged(here[0]));
        lemma_shrunk(here, 1);
        let next = shrunk(here, 1);
        let first = frames_of(FrameRun { start: here[0].start, frames: 1 });
        assert(all_frames(runs) =~= first + all_frames(next));
        assert forall|i: int| 0 <= i < next.len() implies paged(#[trigger] next[i]) by {
            if i > 0 {
                assert(next[i] == runs[at + i]);
            }
        }
        single_frames_are_taken_in_order(next, (taken - 1) as nat);
        assert(all_frames(runs).skip(taken as int) =~= all_frames(next).skip(taken - 1));
    }
}

/// Outside the frames memory is as it was, and where only their links may
/// change, all but the first word of each is; no word comes or goes.
pub proof fn memory_outside_the_frames_is_left_alone(
    before: Map<u64, u64>,
    after: Map<u64, u64>,
    frames: Seq<u64>,
    addr: u64,
)
    ensures
        only_nodes_changed(before, after, frames) && !frames.contains(addr) ==> after[addr]
            == before[addr],
        only_frames_changed(before, after, frames) && (forall|i: int|
            0 <= i < frames.len() ==> !(#[trigger] frames[i] <= addr < frames[i] + 4096))
            ==> after[addr] == before[addr],
        only_nodes_changed(before, after, frames) || only_frames_changed(before, after, frames)
            ==> (after.contains_key(addr) <==> before.contains_key(addr)),
{
    if only_nodes_changed(before, after, frames) || only_frames_changed(before, after, frames) {
        assert(after.dom().contains(addr) <==> before.dom().contains(addr));
    }
}

/// A free frame on the stack says in its first word which one comes next,
/// which is zero for the last, and the stack starts at its top.
pub proof fn free_frames_describe_themselves(
    words: Map<u64, u64>,
    head: u64,
    stack: Seq<u64>,
    fresh: Seq<u64>,
    live: Set<u64>,
    i: int,
)
    requires
        sound(words, head, stack, fresh, live),
        0 <= i < stack.len(),
    ensures
        head == stack[0],
        i + 1 < stack.len() ==> words[stack[i]] == stack[i + 1],
        i + 1 == stack.len() ==> words[stack[i]] == 0,
        !live.contains(stack[i]),
        !fresh.contains(stack[i]),
{
    assert(node_at(words, stack, i));
    assert(stack.contains(stack[i]));
}

} // verus!
