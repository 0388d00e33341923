//! Channel 0 of the 8253/8254 programmable interval timer.
//!
//! The chip counts down from a divisor at a fixed input frequency and raises
//! IRQ0 at zero. Choosing the divisor chooses the tick rate.

use crate::kernel::port::{sends, PortWrite};
use vstd::prelude::*;

verus! {

const CHANNEL0_DATA: u16 = 0x40;

const COMMAND: u16 = 0x43;

/// The input clock: 1.193182 MHz, a number inherited from the crystal of the
/// first PC.
pub const BASE_FREQUENCY: u32 = 1_193_182;

/// The lowest rate: below it the divisor no longer fits in the chip's 16-bit
/// counter.
pub const LOWEST_RATE: u32 = 19;

/// The divisor for a rate of `hz`.
pub open spec fn divisor(hz: u32) -> int {
    BASE_FREQUENCY as int / hz as int
}

/// Program channel 0 to raise IRQ0 at roughly `hz` times per second: the
/// writes to make, in order, once, with interrupts disabled.
///
/// Integer division truncates, so the real rate is slightly above `hz`.
pub fn init(hz: u32) -> (writes: [PortWrite; 3])
    requires
        LOWEST_RATE <= hz <= BASE_FREQUENCY,
    ensures
        writes@ == seq![
            // Channel 0, low byte then high byte, square wave, binary.
            sends(0x43, 0x36),
            sends(0x40, (divisor(hz) % 0x100) as u8),
            sends(0x40, (divisor(hz) / 0x100) as u8),
        ],
{
    proof {
        the_divisor_fits_and_gives_the_rate(hz);
    }
    let ticks: u32 = BASE_FREQUENCY / hz;
    let writes: [PortWrite; 3] = [
        PortWrite { port: COMMAND, value: 0x36 },
        PortWrite { port: CHANNEL0_DATA, value: (ticks % 0x100) as u8 },
        PortWrite { port: CHANNEL0_DATA, value: (ticks / 0x100) as u8 },
    ];
    assert(writes@ =~= seq![
        sends(0x43, 0x36),
        sends(0x40, (divisor(hz) % 0x100) as u8),
        sends(0x40, (divisor(hz) / 0x100) as u8),
    ]);
    writes
}

/// The divisor fits in the chip's counter and is not zero, and the rate it
/// gives is at least `hz`, where the next divisor would give less.
pub proof fn the_divisor_fits_and_gives_the_rate(hz: u32)
    requires
        LOWEST_RATE <= hz <= BASE_FREQUENCY,
    ensures
        1 <= divisor(hz) <= 0xffff,
        divisor(hz) * hz <= BASE_FREQUENCY < (divisor(hz) + 1) * hz,
{
    let base = BASE_FREQUENCY as int;
    let rate = hz as int;
    let d = divisor(hz);
    vstd::arithmetic::div_mod::lemma_fundamental_div_mod(base, rate);
    vstd::arithmetic::mul::lemma_mul_is_commutative(rate, d);
    let r = base % rate;
    assert((d + 1) * rate == d * rate + rate) by (nonlinear_arith);
    assert(1 <= d <= 0xffff) by (nonlinear_arith)
        requires
            19 <= rate <= base,
            base == 1_193_182,
            base == d * rate + r,
            0 <= r < rate,
    ;
}

/// The rate that the divisor gives is the closest at or above the one asked
/// for: one tick less per interval would be at least as fast, and one more
/// too slow.
pub proof fn no_other_divisor_comes_closer(hz: u32, other: int)
    requires
        LOWEST_RATE <= hz <= BASE_FREQUENCY,
        other > 0,
        other * hz <= 1_193_182,
    ensures
        other <= divisor(hz),
        divisor(hz) * hz <= 1_193_182,
{
    the_divisor_fits_and_gives_the_rate(hz);
    let d = divisor(hz);
    if other > d {
        assert(other * hz >= (d + 1) * hz) by (nonlinear_arith)
            requires
                other >= d + 1,
                hz > 0,
        ;
    }
}

/// Below the lowest rate the divisor would no longer fit in 16 bits.
pub proof fn slower_rates_do_not_fit(hz: u32)
    requires
        0 < hz < LOWEST_RATE,
    ensures
        divisor(hz) > 0xffff,
        1_193_182int / 0x1_0000 + 1 == LOWEST_RATE,
{
    let base = BASE_FREQUENCY as int;
    let rate = hz as int;
    let d = divisor(hz);
    vstd::arithmetic::div_mod::lemma_fundamental_div_mod(base, rate);
    let r = base % rate;
    assert(d > 0xffff) by (nonlinear_arith)
        requires
            0 < rate <= 18,
            base == 1_193_182,
            base == rate * d + r,
            0 <= r < rate,
    ;
}

} // verus!
