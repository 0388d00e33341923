//! What an allocation asks for, and how it is rounded onto the heap's grid.

use crate::align::align_up;
use crate::kernel::free_list::GRAIN;
use vstd::prelude::*;

verus! {

/// A power of two, told by its bits.
pub open spec fn power_of_two(value: u64) -> bool {
    value != 0 && value & ((value - 1) as u64) == 0
}

/// What an allocation asks for.
#[derive(Clone, Copy, Debug, PartialEq, Eq, Structural)]
pub struct Layout {
    pub size: u64,
    pub align: u64,
}

impl Layout {
    /// The alignment is a power of two, and the size rounded up to it stays
    /// within half the address space.
    pub open spec fn valid(self) -> bool {
        &&& power_of_two(self.align)
        &&& self.size + self.align - 1 <= i64::MAX
    }

    /// The size rounded up onto the grid; at least one grain.
    pub open spec fn grid_size(self) -> u64 {
        align_up(if self.size < GRAIN { GRAIN as int } else { self.size as int }, GRAIN as int) as u64
    }

    /// The alignment raised onto the grid.
    pub open spec fn grid_align(self) -> u64 {
        if self.align < GRAIN { GRAIN } else { self.align }
    }

    /// The layout of `size` bytes at a multiple of `align`, if there is one.
    pub fn from_size_align(size: u64, align: u64) -> (layout: Option<Layout>)
        ensures
            layout == (if (Layout { size, align }).valid() {
                Some(Layout { size, align })
            } else {
                None
            }),
    {
        if align == 0 || align & (align - 1) != 0 {
            return None;
        }
        let limit: u64 = 0x7fff_ffff_ffff_ffff;
        if align - 1 > limit || size > limit - (align - 1) {
            return None;
        }
        Some(Layout { size, align })
    }
}

/// On the grid, a request is a whole number of grains and its alignment a
/// multiple of the grain.
pub proof fn lemma_on_grid(layout: Layout)
    requires
        layout.valid(),
    ensures
        layout.grid_size() % GRAIN == 0,
        layout.grid_size() >= GRAIN,
        layout.size <= layout.grid_size() < layout.size + 2 * GRAIN,
        layout.grid_size() == align_up(
            if layout.size < GRAIN { GRAIN as int } else { layout.size as int },
            GRAIN as int,
        ),
        layout.grid_align() % GRAIN == 0,
        layout.grid_align() >= GRAIN,
        power_of_two(layout.grid_align()),
{
    let floor = if layout.size < GRAIN {
        GRAIN as int
    } else {
        layout.size as int
    };
    crate::align::lemma_align(floor, GRAIN as int);
    let align = layout.align;
    assert(align != 0 && align & ((align - 1) as u64) == 0 && align >= 16 ==> align % 16 == 0)
        by (bit_vector);
    assert(16u64 & ((16u64 - 1) as u64) == 0) by (bit_vector);
}

/// Round a request up onto the grid, and raise its alignment onto it too.
pub fn normalise(layout: Layout) -> (request: (u64, u64))
    requires
        layout.valid(),
    ensures
        request.0 == layout.grid_size(),
        request.1 == layout.grid_align(),
{
    proof {
        lemma_on_grid(layout);
    }
    let floor: u64 = if layout.size < GRAIN {
        GRAIN
    } else {
        layout.size
    };
    let rest: u64 = floor % GRAIN;
    proof {
        crate::align::lemma_align(floor as int, GRAIN as int);
    }
    let size: u64 = if rest == 0 {
        floor
    } else {
        floor + (GRAIN - rest)
    };
    let align: u64 = if layout.align < GRAIN {
        GRAIN
    } else {
        layout.align
    };
    (size, align)
}

/// A multiple of an alignment on the grid is itself on the grid.
pub proof fn lemma_multiple_on_grid(value: u64, align: u64)
    requires
        align > 0,
        align % GRAIN == 0,
        value % align == 0,
    ensures
        value % GRAIN == 0,
{
    vstd::arithmetic::div_mod::lemma_fundamental_div_mod(value as int, align as int);
    vstd::arithmetic::div_mod::lemma_fundamental_div_mod(align as int, GRAIN as int);
    let v = value as int / align as int;
    let a = align as int / GRAIN as int;
    assert(value == GRAIN * (a * v)) by (nonlinear_arith)
        requires
            value == align * v,
            align == GRAIN * a,
    ;
    vstd::arithmetic::div_mod::lemma_mod_multiples_basic(a * v, GRAIN as int);
    vstd::arithmetic::mul::lemma_mul_is_commutative(GRAIN as int, a * v);
}

/// A payload at the raised alignment is at the requested one too.
pub proof fn lemma_payload_aligned(layout: Layout, payload: u64)
    requires
        layout.valid(),
        payload % layout.grid_align() == 0,
    ensures
        payload % layout.align == 0,
{
    let align = layout.align;
    if align < GRAIN {
        assert(align != 0 && align & ((align - 1) as u64) == 0 && align < 16 ==> align == 1 || align
            == 2 || align == 4 || align == 8) by (bit_vector);
        assert(layout.grid_align() == 16);
        assert(payload % 16 == 0);
        assert(payload % 1 == 0 && payload % 2 == 0 && payload % 4 == 0 && payload % 8 == 0);
    }
}

/// On the grid, a request takes a whole number of grains of 16 bytes that
/// holds it, at least one, and no smaller number would do; its alignment is
/// the one asked for, or that of the grid if it asks for less.
pub proof fn a_request_takes_the_least_room_on_the_grid(layout: Layout, room: int)
    requires
        layout.valid(),
    ensures
        layout.grid_size() % 16 == 0,
        layout.grid_size() >= 16,
        layout.grid_size() >= layout.size,
        room % 16 == 0 && room >= 16 && room >= layout.size ==> room >= layout.grid_size(),
        layout.align >= 16 ==> layout.grid_align() == layout.align,
        layout.align < 16 ==> layout.grid_align() == 16,
{
    lemma_on_grid(layout);
}

/// The alignments are the numbers with one bit set, and no others.
pub proof fn an_alignment_has_one_bit(align: u64, i: u64, j: u64)
    requires
        i < 64,
        j < 64,
    ensures
        power_of_two(1u64 << i),
        power_of_two(align) && align & (1u64 << i) != 0 && align & (1u64 << j) != 0 ==> i == j,
        align == 0 ==> !power_of_two(align),
{
    assert(i < 64 ==> 1u64 << i != 0 && (1u64 << i) & (((1u64 << i) - 1) as u64) == 0)
        by (bit_vector);
    assert(i < 64 && j < 64 && align != 0 && align & ((align - 1) as u64) == 0 && align & (1u64
        << i) != 0 && align & (1u64 << j) != 0 ==> i == j) by (bit_vector);
}

/// A size fits its alignment exactly if the bytes it may be moved up by to
/// reach a multiple keep it within half the address space.
pub proof fn a_layout_stays_in_half_the_address_space(layout: Layout)
    ensures
        layout.valid() <==> power_of_two(layout.align) && layout.size + (layout.align - 1)
            < 0x8000_0000_0000_0000,
{
}

} // verus!
