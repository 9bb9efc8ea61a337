//! Registers of an SD Host Controller (SDHCI v3.x) and what their bits mean.
use vstd::prelude::*;

verus! {

/// A register that the driver uses.
#[derive(Debug, Clone, Copy, PartialEq, Eq, Structural)]
pub enum Reg {
    BlockSize,
    BlockCount,
    Argument,
    TransferMode,
    Command,
    /// The four words of a response, least significant first
    Response0,
    Response1,
    Response2,
    Response3,
    PresentState,
    HostControl1,
    PowerControl,
    ClockControl,
    TimeoutControl,
    SoftwareReset,
    NormalIntStatus,
    ErrorIntStatus,
    NormalIntStatusEnable,
    ErrorIntStatusEnable,
    NormalIntSignalEnable,
    ErrorIntSignalEnable,
    HostControl2,
    CapabilitiesLow,
    AdmaAddress,
}

/// Width of a register access
#[derive(Debug, Clone, Copy, PartialEq, Eq, Structural)]
pub enum Width {
    Bits8,
    Bits16,
    Bits32,
}

impl Reg {
    /// Distance of the register from the start of the register file, in bytes.
    pub open spec fn at(self) -> usize {
        match self {
            Reg::BlockSize => 0x04,
            Reg::BlockCount => 0x06,
            Reg::Argument => 0x08,
            Reg::TransferMode => 0x0C,
            Reg::Command => 0x0E,
            Reg::Response0 => 0x10,
            Reg::Response1 => 0x14,
            Reg::Response2 => 0x18,
            Reg::Response3 => 0x1C,
            Reg::PresentState => 0x24,
            Reg::HostControl1 => 0x28,
            Reg::PowerControl => 0x29,
            Reg::ClockControl => 0x2C,
            Reg::TimeoutControl => 0x2E,
            Reg::SoftwareReset => 0x2F,
            Reg::NormalIntStatus => 0x30,
            Reg::ErrorIntStatus => 0x32,
            Reg::NormalIntStatusEnable => 0x34,
            Reg::ErrorIntStatusEnable => 0x36,
            Reg::NormalIntSignalEnable => 0x38,
            Reg::ErrorIntSignalEnable => 0x3A,
            Reg::HostControl2 => 0x3E,
            Reg::CapabilitiesLow => 0x40,
            Reg::AdmaAddress => 0x58,
        }
    }

    /// The number of bytes that the register takes.
    pub open spec fn size(self) -> usize {
        match self {
            Reg::HostControl1 | Reg::PowerControl | Reg::TimeoutControl | Reg::SoftwareReset => 1,
            Reg::Argument
            | Reg::Response0
            | Reg::Response1
            | Reg::Response2
            | Reg::Response3
            | Reg::PresentState
            | Reg::CapabilitiesLow
            | Reg::AdmaAddress => 4,
            _ => 2,
        }
    }

    /// Distance of the register from the start of the register file, in bytes.
    pub fn offset(self) -> (o: usize)
        ensures
            o == self.at(),
    {
        match self {
            Reg::BlockSize => 0x04,
            Reg::BlockCount => 0x06,
            Reg::Argument => 0x08,
            Reg::TransferMode => 0x0C,
            Reg::Command => 0x0E,
            Reg::Response0 => 0x10,
            Reg::Response1 => 0x14,
            Reg::Response2 => 0x18,
            Reg::Response3 => 0x1C,
            Reg::PresentState => 0x24,
            Reg::HostControl1 => 0x28,
            Reg::PowerControl => 0x29,
            Reg::ClockControl => 0x2C,
            Reg::TimeoutControl => 0x2E,
            Reg::SoftwareReset => 0x2F,
            Reg::NormalIntStatus => 0x30,
            Reg::ErrorIntStatus => 0x32,
            Reg::NormalIntStatusEnable => 0x34,
            Reg::ErrorIntStatusEnable => 0x36,
            Reg::NormalIntSignalEnable => 0x38,
            Reg::ErrorIntSignalEnable => 0x3A,
            Reg::HostControl2 => 0x3E,
            Reg::CapabilitiesLow => 0x40,
            Reg::AdmaAddress => 0x58,
        }
    }

    /// The width in which the register is accessed.
    pub fn width(self) -> (w: Width)
        ensures
            w == (if self.size() == 1 {
                Width::Bits8
            } else if self.size() == 2 {
                Width::Bits16
            } else {
                Width::Bits32
            }),
    {
        match self {
            Reg::HostControl1 | Reg::PowerControl | Reg::TimeoutControl | Reg::SoftwareReset => {
                Width::Bits8
            },
            Reg::Argument
            | Reg::Response0
            | Reg::Response1
            | Reg::Response2
            | Reg::Response3
            | Reg::PresentState
            | Reg::CapabilitiesLow
            | Reg::AdmaAddress => Width::Bits32,
            _ => Width::Bits16,
        }
    }
}

/// No two registers share a byte.
pub proof fn registers_are_disjoint(a: Reg, b: Reg)
    requires
        a != b,
    ensures
        a.at() + a.size() <= b.at() || b.at() + b.size() <= a.at(),
{
}

/// Every register is aligned to its size.
pub proof fn registers_are_aligned(a: Reg)
    ensures
        a.at() % a.size() == 0,
{
    if a.size() == 1 {
        assert(a.at() % 1 == 0);
    } else if a.size() == 2 {
        assert(a.at() % 2 == 0);
    } else {
        assert(a.at() % 4 == 0);
    }
}

/// The registers lie in the file in one order: each begins where the
/// one before it ends, but for gaps of four bytes before the present state, of two
/// before the clock control and the second host control, and of twenty before the
/// ADMA address.
pub proof fn registers_follow_each_other()
    ensures
        Reg::BlockSize.at() == 0x04,
        Reg::BlockCount.at() == Reg::BlockSize.at() + Reg::BlockSize.size(),
        Reg::Argument.at() == Reg::BlockCount.at() + Reg::BlockCount.size(),
        Reg::TransferMode.at() == Reg::Argument.at() + Reg::Argument.size(),
        Reg::Command.at() == Reg::TransferMode.at() + Reg::TransferMode.size(),
        Reg::Response0.at() == Reg::Command.at() + Reg::Command.size(),
        Reg::Response1.at() == Reg::Response0.at() + Reg::Response0.size(),
        Reg::Response2.at() == Reg::Response1.at() + Reg::Response1.size(),
        Reg::Response3.at() == Reg::Response2.at() + Reg::Response2.size(),
        Reg::PresentState.at() == Reg::Response3.at() + Reg::Response3.size() + 4,
        Reg::HostControl1.at() == Reg::PresentState.at() + Reg::PresentState.size(),
        Reg::PowerControl.at() == Reg::HostControl1.at() + Reg::HostControl1.size(),
        Reg::ClockControl.at() == Reg::PowerControl.at() + Reg::PowerControl.size() + 2,
        Reg::TimeoutControl.at() == Reg::ClockControl.at() + Reg::ClockControl.size(),
        Reg::SoftwareReset.at() == Reg::TimeoutControl.at() + Reg::TimeoutControl.size(),
        Reg::NormalIntStatus.at() == Reg::SoftwareReset.at() + Reg::SoftwareReset.size(),
        Reg::ErrorIntStatus.at() == Reg::NormalIntStatus.at() + Reg::NormalIntStatus.size(),
        Reg::NormalIntStatusEnable.at() == Reg::ErrorIntStatus.at() + Reg::ErrorIntStatus.size(),
        Reg::ErrorIntStatusEnable.at() == Reg::NormalIntStatusEnable.at()
            + Reg::NormalIntStatusEnable.size(),
        Reg::NormalIntSignalEnable.at() == Reg::ErrorIntStatusEnable.at()
            + Reg::ErrorIntStatusEnable.size(),
        Reg::ErrorIntSignalEnable.at() == Reg::NormalIntSignalEnable.at()
            + Reg::NormalIntSignalEnable.size(),
        Reg::HostControl2.at() == Reg::ErrorIntSignalEnable.at() + Reg::ErrorIntSignalEnable.size()
            + 2,
        Reg::CapabilitiesLow.at() == Reg::HostControl2.at() + Reg::HostControl2.size(),
        Reg::CapabilitiesLow.size() == 4,
        Reg::AdmaAddress.at() == Reg::CapabilitiesLow.at() + Reg::CapabilitiesLow.size() + 20,
        Reg::AdmaAddress.size() == 4,
{
}

// Present state

pub const PRESENT_CMD_INHIBIT: u32 = 0x01;

pub const PRESENT_DAT_INHIBIT: u32 = 0x02;

// Software reset

pub const RESET_ALL: u32 = 0x01;

pub const RESET_CMD: u32 = 0x02;

pub const RESET_DAT: u32 = 0x04;

// Clock control

pub const CLOCK_INTERNAL_ENABLE: u32 = 0x01;

pub const CLOCK_INTERNAL_STABLE: u32 = 0x02;

pub const CLOCK_SD_ENABLE: u32 = 0x04;

// Power control

pub const POWER_ON: u32 = 0x01;

/// 3.3 V
pub const POWER_330: u8 = 0x0E;

/// 1.8 V
pub const POWER_180: u8 = 0x0A;

// Host control 1

pub const HOST_CTRL1_4BIT: u32 = 0x02;

pub const HOST_CTRL1_HIGH_SPEED: u32 = 0x04;

/// The field that selects a DMA engine
pub const HOST_CTRL1_DMA_SELECT: u32 = 0x18;

/// 32-bit ADMA2 in that field
pub const HOST_CTRL1_ADMA2_32: u32 = 0x10;

pub const HOST_CTRL1_8BIT: u32 = 0x20;

// Host control 2

pub const HOST_CTRL2_1V8_SIGNALING: u32 = 0x08;

pub const HOST_CTRL2_EXECUTE_TUNING: u32 = 0x40;

pub const HOST_CTRL2_SAMPLING_CLOCK_SELECT: u32 = 0x80;

// Normal interrupt status

pub const NORMAL_INT_CMD_COMPLETE: u32 = 0x0001;

pub const NORMAL_INT_XFER_COMPLETE: u32 = 0x0002;

pub const NORMAL_INT_ERROR: u32 = 0x8000;

pub const NORMAL_INT_CLEAR_ALL: u32 = 0xFFFF;

// Error interrupt status

/// Timeout on the command line or on a data line
pub const ERROR_INT_TIMEOUT: u32 = 0x0011;

/// CRC error on the command line or on a data line
pub const ERROR_INT_CRC: u32 = 0x0022;

/// Command timeout, CRC, end bit and index
pub const ERROR_INT_CMD_LINE_MASK: u32 = 0x000F;

/// Data timeout, CRC and end bit
pub const ERROR_INT_DATA_LINE_MASK: u32 = 0x0070;

pub const ERROR_INT_ADMA: u32 = 0x0200;

pub const ERROR_INT_CLEAR_ALL: u32 = 0xFFFF;

// Transfer mode

pub const XFER_MODE_DMA_ENABLE: u32 = 0x01;

pub const XFER_MODE_BLOCK_COUNT_ENABLE: u32 = 0x02;

pub const XFER_MODE_AUTO_CMD12: u32 = 0x04;

pub const XFER_MODE_READ: u32 = 0x10;

pub const XFER_MODE_MULTI_BLOCK: u32 = 0x20;

// Command

pub const CMD_RESP_LEN136: u32 = 0x01;

pub const CMD_RESP_LEN48: u32 = 0x02;

pub const CMD_RESP_LEN48_BUSY: u32 = 0x03;

pub const CMD_CRC_CHECK: u32 = 0x08;

pub const CMD_INDEX_CHECK: u32 = 0x10;

pub const CMD_DATA_PRESENT: u32 = 0x20;

} // verus!
