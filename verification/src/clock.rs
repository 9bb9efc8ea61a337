//! Frequencies of the SD bus and how a controller divides its reference clock.
use vstd::prelude::*;

use crate::registers::CLOCK_INTERNAL_ENABLE;
use crate::sdio::ClockSpeed;

verus! {

/// Bus frequency of each speed, in Hz.
pub open spec fn speed_hz(speed: ClockSpeed) -> u32 {
    match speed {
        ClockSpeed::Identification => 400_000,
        ClockSpeed::Default | ClockSpeed::Sdr12 => 25_000_000,
        ClockSpeed::HighSpeed | ClockSpeed::Sdr25 | ClockSpeed::Sdr50 | ClockSpeed::Ddr50 => {
            50_000_000
        },
        ClockSpeed::Sdr104 => 104_000_000,
        ClockSpeed::Hs200 => 200_000_000,
    }
}

/// Bus frequency of a speed, in Hz.
pub fn clock_hz_for_speed(speed: ClockSpeed) -> (hz: u32)
    ensures
        hz == speed_hz(speed),
{
    match speed {
        ClockSpeed::Identification => 400_000,
        ClockSpeed::Default | ClockSpeed::Sdr12 => 25_000_000,
        ClockSpeed::HighSpeed | ClockSpeed::Sdr25 => 50_000_000,
        ClockSpeed::Sdr50 | ClockSpeed::Ddr50 => 50_000_000,
        ClockSpeed::Sdr104 => 104_000_000,
        ClockSpeed::Hs200 => 200_000_000,
    }
}

/// Reference clock that the capabilities register states in MHz (bits 15:8), in
/// Hz.
pub open spec fn stated_base_hz(caps_low: u32) -> int {
    caps_low / 0x100 % 0x100 * 1_000_000
}

/// Reference clock that the capabilities register states, in Hz; 0 if it states
/// none.
pub fn base_clock_of(caps_low: u32) -> (hz: u32)
    ensures
        hz == stated_base_hz(caps_low),
{
    // SDHCI v3: bits 15..8 contain "Base Clock Frequency" in MHz.
    // SDHCI v2: bits 13..8 contain it, and the two bits above read as 0.
    let mhz: u32 = (caps_low / 0x100) % 0x100;
    mhz * 1_000_000
}

/// Largest divider that the 10-bit field holds.
pub const MAX_DIVIDER: u32 = 0x3FF;

/// Whether dividing the reference clock by `2 * n` brings it down to the target.
pub open spec fn slow_enough(base_hz: u32, target_hz: u32, n: u32) -> bool {
    base_hz as int / (2 * n) <= target_hz
}

/// `n` is the divider to use: the smallest that is slow enough, or 0, which
/// passes the reference clock through, where none is needed or none is enough.
pub open spec fn is_divider(base_hz: u32, target_hz: u32, n: u32) -> bool {
    if base_hz <= target_hz {
        n == 0
    } else {
        ||| {
            &&& 1 <= n <= MAX_DIVIDER
            &&& slow_enough(base_hz, target_hz, n)
            &&& forall|m: u32| 1 <= m < n ==> !#[trigger] slow_enough(base_hz, target_hz, m)
        }
        ||| {
            &&& n == 0
            &&& forall|m: u32|
                1 <= m <= MAX_DIVIDER ==> !#[trigger] slow_enough(base_hz, target_hz, m)
        }
    }
}

/// Picks the divider for a target frequency.
pub fn divider_for(base_hz: u32, target_hz: u32) -> (n: u32)
    ensures
        is_divider(base_hz, target_hz, n),
        n <= MAX_DIVIDER,
{
    if base_hz > target_hz {
        let mut n: u32 = 1;
        while n <= MAX_DIVIDER
            invariant
                1 <= n <= MAX_DIVIDER + 1,
                base_hz > target_hz,
                forall|m: u32| 1 <= m < n ==> !#[trigger] slow_enough(base_hz, target_hz, m),
            decreases MAX_DIVIDER + 1 - n,
        {
            if base_hz / (2 * n) <= target_hz {
                assert(slow_enough(base_hz, target_hz, n));
                return n;
            }
            assert(!slow_enough(base_hz, target_hz, n));
            n = n + 1;
        }
    }
    0
}

/// The clock control register that starts the internal clock with divider `n`:
/// bits 15:8 hold the divider's low 8 bits, bits 7:6 its upper 2 bits.
pub open spec fn control_word(n: u32) -> int {
    n % 0x100 * 0x100 + n / 0x100 * 0x40 + CLOCK_INTERNAL_ENABLE
}

/// `v` is the clock control register that starts the internal clock so that the
/// bus runs at the target frequency.
pub open spec fn is_control(base_hz: u32, target_hz: u32, v: u32) -> bool {
    exists|n: u32| #[trigger] is_divider(base_hz, target_hz, n) && v == control_word(n)
}

/// The clock control register that starts the internal clock so that the bus
/// runs at the target frequency.
pub fn clock_control_for(base_hz: u32, target_hz: u32) -> (v: u32)
    ensures
        is_control(base_hz, target_hz, v),
        v <= 0xFFFF,
{
    let n: u32 = divider_for(base_hz, target_hz);
    n % 0x100 * 0x100 + n / 0x100 * 0x40 + CLOCK_INTERNAL_ENABLE
}

/// There is only one divider to use.
pub proof fn divider_is_unique(base_hz: u32, target_hz: u32, a: u32, b: u32)
    requires
        is_divider(base_hz, target_hz, a),
        is_divider(base_hz, target_hz, b),
    ensures
        a == b,
{
    if a < b {
        assert(!slow_enough(base_hz, target_hz, a) || a == 0);
    } else if b < a {
        assert(!slow_enough(base_hz, target_hz, b) || b == 0);
    }
}

/// A reference clock that the largest divider brings down to the target never
/// runs the bus above the target.
pub proof fn bus_stays_below_target(base_hz: u32, target_hz: u32, n: u32)
    requires
        is_divider(base_hz, target_hz, n),
        slow_enough(base_hz, target_hz, MAX_DIVIDER),
    ensures
        if n == 0 {
            base_hz <= target_hz
        } else {
            base_hz as int / (2 * n) <= target_hz
        },
{
}

/// The divider can be read back from the clock control register.
pub proof fn control_word_keeps_divider(n: u32)
    requires
        n <= MAX_DIVIDER,
    ensures
        control_word(n) / 0x100 % 0x100 + control_word(n) / 0x40 % 4 * 0x100 == n,
        control_word(n) % 0x40 == CLOCK_INTERNAL_ENABLE,
{
}

/// Whatever reference clock a controller states, the bus of a card that is being
/// identified runs at 400 kHz at most.
pub proof fn identification_is_slow(caps_low: u32, n: u32)
    requires
        is_divider(stated_base_hz(caps_low) as u32, speed_hz(ClockSpeed::Identification), n),
    ensures
        if n == 0 {
            stated_base_hz(caps_low) <= 400_000
        } else {
            stated_base_hz(caps_low) / (2 * n) <= 400_000
        },
{
    let base = stated_base_hz(caps_low) as u32;
    assert(slow_enough(base, 400_000, MAX_DIVIDER)) by {
        assert(base as int / 2046 <= 400_000);
    }
}

} // verus!
