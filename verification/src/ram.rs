//! Word access to identity-mapped memory.
//!
//! The allocators keep their bookkeeping inside the memory they manage, so
//! they read and write it one 64-bit word at a time through this interface.
//! [`RamWindow`] is an ordinary buffer behind it; a kernel implements the
//! same two operations on physical memory.

use vstd::prelude::*;

verus! {

/// Memory made of 64-bit words, each found at its address.
pub trait WordMemory {
    /// The accessible words, by address. Unless an implementation says which
    /// they are, it vouches for none.
    open spec fn words(&self) -> Map<u64, u64> {
        Map::empty()
    }

    /// Read the word at `addr`.
    fn read_word(&self, addr: u64) -> (value: u64)
        requires
            self.words().contains_key(addr),
        ensures
            value == self.words()[addr],
    ;

    /// Replace the word at `addr` and no other.
    fn write_word(&mut self, addr: u64, value: u64)
        requires
            old(self).words().contains_key(addr),
        ensures
            final(self).words() == old(self).words().insert(addr, value),
    ;
}

/// A buffer of words that stands at a fixed address.
pub struct RamWindow {
    base: u64,
    cells: Vec<u64>,
}

impl RamWindow {
    /// Address of the first word.
    pub closed spec fn base(&self) -> u64 {
        self.base
    }

    /// The words in address order.
    pub closed spec fn cells(&self) -> Seq<u64> {
        self.cells@
    }

    /// A window of `count` zero words, the first of them at `base`.
    pub fn new(base: u64, count: usize) -> (window: Self)
        ensures
            window.base() == base,
            window.cells() == Seq::new(count as nat, |i: int| 0u64),
    {
        let mut cells: Vec<u64> = Vec::new();
        let mut i: usize = 0;
        while i < count
            invariant
                i <= count,
                cells@ == Seq::new(i as nat, |k: int| 0u64),
            decreases count - i,
        {
            cells.push(0);
            i += 1;
        }
        RamWindow { base, cells }
    }

    /// `addr` is the address of a word of this window.
    pub open spec fn holds(&self, addr: u64) -> bool {
        &&& self.base() <= addr
        &&& (addr - self.base()) % 8 == 0
        &&& (addr - self.base()) / 8 < self.cells().len()
    }
}

impl WordMemory for RamWindow {
    open spec fn words(&self) -> Map<u64, u64> {
        Map::new(
            |addr: u64| self.holds(addr),
            |addr: u64| self.cells()[(addr - self.base()) / 8],
        )
    }

    fn read_word(&self, addr: u64) -> (value: u64) {
        let index: u64 = (addr - self.base) / 8;
        assert(index < self.cells.len());
        self.cells[index as usize]
    }

    fn write_word(&mut self, addr: u64, value: u64) {
        let index: u64 = (addr - self.base) / 8;
        assert(index < self.cells.len());
        let ghost before = *self;
        self.cells[index as usize] = value;
        assert(self.words() =~= before.words().insert(addr, value)) by {
            assert forall|a: u64| before.holds(a) && a != addr implies (a - self.base()) / 8
                != index by {
                assert((a - self.base()) % 8 == 0);
            }
        }
    }
}

/// A window holds its words one after the other, eight bytes apart, and no
/// others.
pub proof fn a_window_holds_its_words(window: RamWindow, i: int, addr: u64)
    requires
        0 <= i < window.cells().len(),
        window.base() + 8 * i < 0x1_0000_0000_0000_0000,
    ensures
        window.words().contains_key((window.base() + 8 * i) as u64),
        window.words()[(window.base() + 8 * i) as u64] == window.cells()[i],
        window.words().contains_key(addr) ==> window.base() <= addr && addr < window.base() + 8
            * window.cells().len() && (addr - window.base()) % 8 == 0,
{
}

} // verus!
