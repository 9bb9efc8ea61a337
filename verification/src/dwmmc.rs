//! Synopsys DesignWare Mobile Storage Host Controller (DW_mshc) backend.
//!
//! The same core is used in Rockchip RK33xx/RK35xx, Allwinner A-series, StarFive
//! JH7110, and a long tail of mid-range SoCs. The register file and the data
//! FIFO are the caller's to access; what the driver decides about them is here.
use vstd::prelude::*;

use crate::cmd::DataDirection;
use crate::error::HostError;
use crate::sdhci::{self, PendingData};
use crate::sdio::{ClockSpeed, SignalVoltage};

verus! {

/// What the driver of one DW_mshc has to remember between calls.
#[derive(Debug, PartialEq, Eq, Structural)]
pub struct DwMmc {
    pub base_addr: usize,
    pub pending_data: Option<PendingData>,
    /// Blocks of the current data phase that were not read yet
    pub data_blocks_remaining: u32,
    /// Index of the command that the current data phase belongs to
    pub data_cmd_index: u8,
}

impl DwMmc {
    /// What the driver remembers once one more block was read.
    pub open spec fn after_block(self) -> DwMmc {
        DwMmc {
            data_blocks_remaining: if self.data_blocks_remaining > 0 {
                (self.data_blocks_remaining - 1) as u32
            } else {
                0
            },
            ..self
        }
    }

    /// What the driver remembers once `n` more blocks were read.
    pub open spec fn after_blocks(self, n: nat) -> DwMmc
        decreases n,
    {
        if n == 0 {
            self
        } else {
            self.after_blocks((n - 1) as nat).after_block()
        }
    }

    /// Construct a new DwMmc over the given MMIO base address.
    pub fn new(base_addr: usize) -> (d: Self)
        ensures
            d == (DwMmc {
                base_addr,
                pending_data: None,
                data_blocks_remaining: 0,
                data_cmd_index: 0,
            }),
    {
        DwMmc { base_addr, pending_data: None, data_blocks_remaining: 0, data_cmd_index: 0 }
    }

    /// Whether the next block to be read is the last one of its data phase.
    pub fn is_last_block(&self) -> (b: bool)
        ensures
            b == (self.data_blocks_remaining <= 1),
    {
        self.data_blocks_remaining <= 1
    }

    /// Takes note of how reading a block went: a block that was read no longer
    /// remains.
    pub fn block_read(&mut self, result: Result<(), HostError>) -> (r: Result<(), HostError>)
        ensures
            r == result,
            *final(self) == (if result is Ok {
                old(self).after_block()
            } else {
                *old(self)
            }),
    {
        if result.is_ok() && self.data_blocks_remaining > 0 {
            self.data_blocks_remaining = self.data_blocks_remaining - 1;
        }
        result
    }

    /// BYTCNT carries both block size and count for the next data
    /// phase, so this hint changes nothing.
    pub fn set_block_count(&mut self, _count: u32) -> (r: Result<(), HostError>)
        ensures
            r is Ok,
            *final(self) == *old(self),
    {
        Ok(())
    }

    /// Record the shape of the data phase that the next command triggers.
    pub fn prepare_data_transfer(
        &mut self,
        direction: DataDirection,
        block_size: u32,
        block_count: u32,
    ) -> (r: Result<(), HostError>)
        ensures
            r is Ok,
            *final(self) == (DwMmc {
                pending_data: sdhci::pending_of(direction, block_size, block_count),
                data_blocks_remaining: if direction == DataDirection::NoData {
                    0
                } else {
                    block_count
                },
                ..*old(self)
            }),
    {
        if direction.is_none() {
            self.pending_data = None;
            self.data_blocks_remaining = 0;
        } else {
            self.pending_data = Some(PendingData { direction, block_size, block_count });
            self.data_blocks_remaining = block_count;
        }
        Ok(())
    }
}

/// The DDR bit of card 0 in the UHS register
pub fn ddr_mask_for_speed(speed: ClockSpeed) -> (m: u16)
    ensures
        m == (if speed == ClockSpeed::Ddr50 {
            1u16
        } else {
            0u16
        }),
{
    match speed {
        ClockSpeed::Ddr50 => 1,
        _ => 0,
    }
}

/// The 1.8 V bit of card 0 that a voltage stands for, if the controller has it.
pub open spec fn volt_bit(voltage: SignalVoltage) -> Result<u16, HostError> {
    match voltage {
        SignalVoltage::V330 => Ok(0),
        SignalVoltage::V180 => Ok(1),
        SignalVoltage::V120 => Err(HostError::UnsupportedCommand),
    }
}

/// The 1.8 V bit of card 0 in the UHS register
pub fn volt_mask_for_signal(voltage: SignalVoltage) -> (m: Result<u16, HostError>)
    ensures
        m == volt_bit(voltage),
{
    match voltage {
        SignalVoltage::V330 => Ok(0),
        SignalVoltage::V180 => Ok(1),
        SignalVoltage::V120 => Err(HostError::UnsupportedCommand),
    }
}

/// The two fields of the UHS register
#[derive(Debug, Clone, Copy, PartialEq, Eq, Structural)]
pub struct UhsBits {
    pub ddr: u16,
    pub volt: u16,
}

/// The UHS register after a change of speed
pub fn uhs_bits_after_speed(cur: UhsBits, speed: ClockSpeed) -> (next: UhsBits)
    ensures
        next == (UhsBits {
            ddr: if speed == ClockSpeed::Ddr50 {
                1
            } else {
                0
            },
            volt: cur.volt,
        }),
{
    UhsBits { ddr: ddr_mask_for_speed(speed), volt: cur.volt }
}

/// The UHS register after a change of signal voltage
pub fn uhs_bits_after_voltage(cur: UhsBits, voltage: SignalVoltage) -> (next: Result<
    UhsBits,
    HostError,
>)
    ensures
        next == (match volt_bit(voltage) {
            Ok(volt) => Ok(UhsBits { ddr: cur.ddr, volt }),
            Err(e) => Err(e),
        }),
{
    Ok(UhsBits { ddr: cur.ddr, volt: volt_mask_for_signal(voltage)? })
}

/// Of the blocks of a data phase, the driver takes the last one for the last, and
/// no other.
pub proof fn last_block_is_the_last(d: DwMmc, n: nat)
    requires
        n < d.data_blocks_remaining,
    ensures
        d.after_blocks(n).data_blocks_remaining == d.data_blocks_remaining - n,
        (d.after_blocks(n).data_blocks_remaining <= 1) == (n == d.data_blocks_remaining - 1),
    decreases n,
{
    if n > 0 {
        last_block_is_the_last(d, (n - 1) as nat);
    }
}

/// The 1.8 V bit is set for 1.8 V and clear for 3.3 V, and the controller refuses any
/// other voltage.
pub proof fn low_voltage_sets_the_bit(voltage: SignalVoltage)
    ensures
        match volt_bit(voltage) {
            Ok(b) => b <= 1 && (b == 1) == (voltage == SignalVoltage::V180) && (b == 0) == (voltage
                == SignalVoltage::V330),
            Err(e) => voltage == SignalVoltage::V120 && e == HostError::UnsupportedCommand,
        },
{
}

/// However many blocks are read, no count falls below zero, nothing but the count
/// changes, and each block takes one off until none remain.
pub proof fn reading_counts_down(d: DwMmc, n: nat)
    ensures
        d.after_blocks(n).data_blocks_remaining == (if n < d.data_blocks_remaining {
            d.data_blocks_remaining - n
        } else {
            0
        }),
        d.after_blocks(n).base_addr == d.base_addr,
        d.after_blocks(n).pending_data == d.pending_data,
        d.after_blocks(n).data_cmd_index == d.data_cmd_index,
    decreases n,
{
    if n > 0 {
        reading_counts_down(d, (n - 1) as nat);
    }
}

} // verus!
