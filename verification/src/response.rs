//! Responses of a card and the registers that they carry.
use vstd::arithmetic::power2;
use vstd::prelude::*;

use crate::bits::{self, test_bit};
use crate::error::{CardError, Error, HostError};

verus! {

/// SD/MMC response types
#[derive(Debug, Clone, Copy, PartialEq, Eq, Structural)]
pub enum ResponseType {
    /// No response
    NoResponse,
    /// R1: Standard response (48-bit)
    R1,
    /// R1b: R1 with busy signal
    R1b,
    /// R2: CID/CSD register (136-bit)
    R2,
    /// R3: OCR register (48-bit)
    R3,
    /// R4: SDIO OCR (48-bit)
    R4,
    /// R5: SDIO RW (48-bit)
    R5,
    /// R6: Published RCA (48-bit, SD)
    R6,
    /// R7: Card interface condition (48-bit)
    R7,
}

/// Parsed response from the card
#[derive(Debug, Clone, Copy)]
pub enum Response {
    /// The command has no response
    NoResponse,
    R1(R1Response),
    R1b(R1Response),
    R2([u8; 16]),
    R3(OcrResponse),
    R4(SdioOcrResponse),
    R5(SdioRwResponse),
    R6(RcaResponse),
    R7(IfCondResponse),
}

/// R1: Standard response, which holds status bits
#[derive(Debug, Clone, Copy, PartialEq, Eq, Structural)]
pub struct R1Response {
    pub raw: u32,
}

/// The six error bits (24:19) of a card status word.
pub open spec fn status_error_bits(raw: u32) -> u8 {
    (raw / 0x8_0000 % 0x40) as u8
}

/// The card error that a group of error bits stands for.
pub open spec fn card_error_of(bits: u8) -> CardError {
    if bits == 0x04 {
        CardError::EraseSequence
    } else if bits == 0x08 {
        CardError::CommandCrcFailed
    } else if bits == 0x10 {
        CardError::IllegalCommand
    } else if bits == 0x20 {
        CardError::CardEccFailed
    } else if bits == 0x40 {
        CardError::AddressError
    } else if bits == 0 {
        CardError::ControllerError
    } else {
        CardError::Unknown(bits)
    }
}

/// The state that a state number stands for.
pub open spec fn card_state_of(n: int) -> CardState {
    if n == 0 {
        CardState::Idle
    } else if n == 1 {
        CardState::Ready
    } else if n == 2 {
        CardState::Identification
    } else if n == 3 {
        CardState::Standby
    } else if n == 4 {
        CardState::Transfer
    } else if n == 5 {
        CardState::SendingData
    } else if n == 6 {
        CardState::ReceiveData
    } else if n == 7 {
        CardState::Programming
    } else if n == 8 {
        CardState::Disconnect
    } else {
        CardState::Reserved(n as u8)
    }
}

impl R1Response {
    /// Reads a status word. A word with an error bit set is refused with the
    /// card error that the bits stand for; an SPI R1 byte never has one.
    pub fn from_raw(raw: u32) -> (r: Result<Self, Error>)
        ensures
            r == (if status_error_bits(raw) == 0 {
                Ok(R1Response { raw })
            } else {
                Err(Error::CardError(card_error_of(status_error_bits(raw))))
            }),
    {
        assert(((raw >> 19) & 0x3F) == raw / 0x8_0000 % 0x40) by (bit_vector);
        if raw > 0xFF {
            let err_bits: u8 = ((raw >> 19) & 0x3F) as u8;
            if err_bits != 0 {
                return Err(Error::CardError(decode_card_error(err_bits)));
            }
        }
        Ok(R1Response { raw })
    }

    /// Reads the status word of a native-mode response, as [`Self::from_raw`]
    /// does, for the host-controller path.
    pub fn from_native_raw(raw: u32) -> (r: Result<Self, HostError>)
        ensures
            r == (if status_error_bits(raw) == 0 {
                Ok(R1Response { raw })
            } else {
                Err(HostError::CardError(card_error_of(status_error_bits(raw))))
            }),
    {
        assert(((raw >> 19) & 0x3F) == raw / 0x8_0000 % 0x40) by (bit_vector);
        let err_bits: u8 = ((raw >> 19) & 0x3F) as u8;
        if err_bits != 0 {
            return Err(HostError::CardError(decode_card_error(err_bits)));
        }
        Ok(R1Response { raw })
    }

    /// Card is in idle state
    pub fn idle(&self) -> (b: bool)
        ensures
            b == bits::bit(self.raw, 0),
    {
        test_bit(self.raw, 0)
    }

    /// Erase reset
    pub fn erase_reset(&self) -> (b: bool)
        ensures
            b == bits::bit(self.raw, 1),
    {
        test_bit(self.raw, 1)
    }

    /// Illegal command
    pub fn illegal_command(&self) -> (b: bool)
        ensures
            b == bits::bit(self.raw, 2),
    {
        test_bit(self.raw, 2)
    }

    /// Command CRC failed
    pub fn command_crc_failed(&self) -> (b: bool)
        ensures
            b == bits::bit(self.raw, 3),
    {
        test_bit(self.raw, 3)
    }

    /// Current state of the card state machine (bits 12:15)
    pub fn current_state(&self) -> (s: CardState)
        ensures
            s == card_state_of((self.raw / 0x1000 % 0x10) as int),
    {
        let raw: u32 = self.raw;
        assert(((raw >> 12) & 0xF) == raw / 0x1000 % 0x10) by (bit_vector);
        match ((raw >> 12) & 0xF) as u8 {
            0 => CardState::Idle,
            1 => CardState::Ready,
            2 => CardState::Identification,
            3 => CardState::Standby,
            4 => CardState::Transfer,
            5 => CardState::SendingData,
            6 => CardState::ReceiveData,
            7 => CardState::Programming,
            8 => CardState::Disconnect,
            other => CardState::Reserved(other),
        }
    }

    /// Card is locked
    pub fn card_is_locked(&self) -> (b: bool)
        ensures
            b == bits::bit(self.raw, 19),
    {
        test_bit(self.raw, 19)
    }
}

/// Card state machine states
#[derive(Debug, Clone, Copy, PartialEq, Eq, Structural)]
pub enum CardState {
    Idle,
    Ready,
    Identification,
    Standby,
    Transfer,
    SendingData,
    ReceiveData,
    Programming,
    Disconnect,
    Reserved(u8),
}

/// OCR register (R3/CMD58 response)
#[derive(Debug, Clone, Copy, PartialEq, Eq, Structural)]
pub struct OcrResponse {
    pub raw: u32,
}

impl OcrResponse {
    pub fn from_raw(raw: u32) -> (r: Self)
        ensures
            r.raw == raw,
    {
        OcrResponse { raw }
    }

    /// Card power up status: true if card has completed power-up
    pub fn card_powered_up(&self) -> (b: bool)
        ensures
            b == bits::bit(self.raw, 31),
    {
        test_bit(self.raw, 31)
    }

    /// Card Capacity Status (CCS): true = SDHC/SDXC, false = SDSC
    pub fn ccs(&self) -> (b: bool)
        ensures
            b == bits::bit(self.raw, 30),
    {
        test_bit(self.raw, 30)
    }

    /// Supported voltage range (bits 23:0)
    pub fn voltage_window(&self) -> (w: u32)
        ensures
            w == self.raw % 0x100_0000,
    {
        let raw: u32 = self.raw;
        assert(raw & 0x00FF_FFFF == raw % 0x100_0000) by (bit_vector);
        raw & 0x00FF_FFFF
    }

    /// Supports 3.5-3.6V
    pub fn vdd_35_36(&self) -> (b: bool)
        ensures
            b == bits::bit(self.raw, 23),
    {
        test_bit(self.raw, 23)
    }

    /// Supports 3.4-3.5V
    pub fn vdd_34_35(&self) -> (b: bool)
        ensures
            b == bits::bit(self.raw, 22),
    {
        test_bit(self.raw, 22)
    }

    /// Supports 3.3-3.4V
    pub fn vdd_33_34(&self) -> (b: bool)
        ensures
            b == bits::bit(self.raw, 21),
    {
        test_bit(self.raw, 21)
    }

    /// Supports 3.2-3.3V
    pub fn vdd_32_33(&self) -> (b: bool)
        ensures
            b == bits::bit(self.raw, 20),
    {
        test_bit(self.raw, 20)
    }

    /// Supports some voltage in 2.7-3.6V (bits 23:15)
    pub fn supports_2v7_to_3v6(&self) -> (b: bool)
        ensures
            b == (exists|n: u32| 15 <= n <= 23 && bits::bit(self.raw, n)),
    {
        let raw: u32 = self.raw;
        let any: bool = raw & 0x00FF_8000 != 0;
        proof {
            assert(any == ((raw >> 15) & 1 == 1 || (raw >> 16) & 1 == 1 || (raw >> 17) & 1 == 1 || (
            raw >> 18) & 1 == 1 || (raw >> 19) & 1 == 1 || (raw >> 20) & 1 == 1 || (raw >> 21) & 1
                == 1 || (raw >> 22) & 1 == 1 || (raw >> 23) & 1 == 1)) by (bit_vector)
                requires
                    any == (raw & 0x00FF_8000 != 0),
            ;
            assert(any ==> bits::bit(raw, 15) || bits::bit(raw, 16) || bits::bit(raw, 17) || bits::bit(raw, 18) || bits::bit(
                raw,
                19,
            ) || bits::bit(raw, 20) || bits::bit(raw, 21) || bits::bit(raw, 22) || bits::bit(raw, 23));
        }
        any
    }

    /// UHS-II supported
    pub fn uhs2(&self) -> (b: bool)
        ensures
            b == bits::bit(self.raw, 29),
    {
        test_bit(self.raw, 29)
    }
}

/// R6: Published RCA response
#[derive(Debug, Clone, Copy, PartialEq, Eq, Structural)]
pub struct RcaResponse {
    pub raw: u32,
}

impl RcaResponse {
    pub fn from_raw(raw: u32) -> (r: Self)
        ensures
            r.raw == raw,
    {
        RcaResponse { raw }
    }

    /// Relative card address (bits 31:16)
    pub fn rca(&self) -> (a: u16)
        ensures
            a == self.raw / 0x1_0000,
    {
        let raw: u32 = self.raw;
        assert(((raw >> 16) & 0xFFFF) == raw / 0x1_0000 && raw / 0x1_0000 < 0x1_0000) by (bit_vector);
        ((raw >> 16) & 0xFFFF) as u16
    }

    /// Status bits (bits 15:0), a subset of the R1 status
    pub fn status(&self) -> (s: u16)
        ensures
            s == self.raw % 0x1_0000,
    {
        let raw: u32 = self.raw;
        assert(raw & 0xFFFF == raw % 0x1_0000) by (bit_vector);
        (raw & 0xFFFF) as u16
    }
}

/// R7: Interface condition response
#[derive(Debug, Clone, Copy, PartialEq, Eq, Structural)]
pub struct IfCondResponse {
    pub raw: u32,
}

impl IfCondResponse {
    pub fn from_raw(raw: u32) -> (r: Self)
        ensures
            r.raw == raw,
    {
        IfCondResponse { raw }
    }

    /// Whether the response echoes `voltage` and `pattern`.
    pub open spec fn echoes(self, voltage: u8, pattern: u8) -> bool {
        self.raw / 0x100 % 0x10 == voltage && self.raw % 0x100 == pattern
    }

    /// Supported voltage (bits 11:8)
    pub fn voltage(&self) -> (v: u8)
        ensures
            v == self.raw / 0x100 % 0x10,
    {
        let raw: u32 = self.raw;
        assert(((raw >> 8) & 0xF) == raw / 0x100 % 0x10) by (bit_vector);
        ((raw >> 8) & 0xF) as u8
    }

    /// Echo-back check pattern (bits 7:0)
    pub fn check_pattern(&self) -> (p: u8)
        ensures
            p == self.raw % 0x100,
    {
        let raw: u32 = self.raw;
        assert(raw & 0xFF == raw % 0x100) by (bit_vector);
        (raw & 0xFF) as u8
    }

    /// Verify response matches expected voltage and pattern
    pub fn verify(&self, voltage: u8, pattern: u8) -> (b: bool)
        ensures
            b == self.echoes(voltage, pattern),
    {
        self.voltage() == voltage && self.check_pattern() == pattern
    }
}

/// SDIO OCR (R4/CMD5 response)
#[derive(Debug, Clone, Copy, PartialEq, Eq, Structural)]
pub struct SdioOcrResponse {
    pub raw: u32,
}

impl SdioOcrResponse {
    pub fn from_raw(raw: u32) -> (r: Self)
        ensures
            r.raw == raw,
    {
        SdioOcrResponse { raw }
    }

    /// Number of I/O functions (bits 27:28)
    pub fn io_functions(&self) -> (n: u8)
        ensures
            n == self.raw / 0x800_0000 % 4,
    {
        let raw: u32 = self.raw;
        assert(((raw >> 27) & 0x3) == raw / 0x800_0000 % 4) by (bit_vector);
        ((raw >> 27) & 0x3) as u8
    }

    /// Memory present
    pub fn memory_present(&self) -> (b: bool)
        ensures
            b == bits::bit(self.raw, 27),
    {
        test_bit(self.raw, 27)
    }

    /// I/O ready
    pub fn io_ready(&self) -> (b: bool)
        ensures
            b == bits::bit(self.raw, 31),
    {
        test_bit(self.raw, 31)
    }
}

/// SDIO R5 response
#[derive(Debug, Clone, Copy, PartialEq, Eq, Structural)]
pub struct SdioRwResponse {
    pub raw: u32,
}

impl SdioRwResponse {
    pub fn from_raw(raw: u32) -> (r: Self)
        ensures
            r.raw == raw,
    {
        SdioRwResponse { raw }
    }

    /// Read/write data (bits 7:0)
    pub fn data(&self) -> (d: u8)
        ensures
            d == self.raw % 0x100,
    {
        let raw: u32 = self.raw;
        assert(raw & 0xFF == raw % 0x100) by (bit_vector);
        (raw & 0xFF) as u8
    }

    /// Response flags (bits 15:8)
    pub fn flags(&self) -> (f: u8)
        ensures
            f == self.raw / 0x100 % 0x100,
    {
        let raw: u32 = self.raw;
        assert(((raw >> 8) & 0xFF) == raw / 0x100 % 0x100) by (bit_vector);
        ((raw >> 8) & 0xFF) as u8
    }
}

fn decode_card_error(bits: u8) -> (e: CardError)
    ensures
        e == card_error_of(bits),
{
    match bits {
        0b0000_0100 => CardError::EraseSequence,
        0b0000_1000 => CardError::CommandCrcFailed,
        0b0001_0000 => CardError::IllegalCommand,
        0b0010_0000 => CardError::CardEccFailed,
        0b0100_0000 => CardError::AddressError,
        0b0000_0000 => CardError::ControllerError,
        v => CardError::Unknown(v),
    }
}

/// An R1 byte of the SPI bus is always readable, whatever it says.
pub proof fn spi_r1_byte_has_no_error_bits(raw: u8)
    ensures
        status_error_bits(raw as u32) == 0,
{
}

/// Card identification register, most significant byte first.
#[derive(Debug, Clone, Copy)]
pub struct CidResponse {
    pub raw: [u8; 16],
}

impl CidResponse {
    pub fn from_raw(raw: [u8; 16]) -> (r: Self)
        ensures
            r.raw == raw,
    {
        CidResponse { raw }
    }

    /// Manufacturer ID
    pub fn manufacturer_id(&self) -> (m: u8)
        ensures
            m == self.raw@[0],
    {
        self.raw[0]
    }

    /// Product name: five ASCII characters
    pub fn product_name(&self) -> (n: [u8; 5])
        ensures
            n@ == self.raw@.subrange(3, 8),
    {
        let n: [u8; 5] = [self.raw[3], self.raw[4], self.raw[5], self.raw[6], self.raw[7]];
        assert(n@ =~= self.raw@.subrange(3, 8));
        n
    }
}

/// Card-specific data register, most significant byte first.
#[derive(Debug, Clone, Copy)]
pub struct CsdResponse {
    pub raw: [u8; 16],
}

impl CsdResponse {
    /// Version of the register's layout: 0 for the first, 1 for the second.
    pub open spec fn structure(self) -> int {
        (self.raw@[0] / 64) as int
    }

    /// C_SIZE of the second layout: bits 69:48.
    pub open spec fn c_size_v2(self) -> int {
        self.raw@[7] % 64 * 0x1_0000 + self.raw@[8] * 0x100 + self.raw@[9]
    }

    /// C_SIZE of the first layout: bits 73:62.
    pub open spec fn c_size_v1(self) -> int {
        self.raw@[6] % 4 * 0x400 + self.raw@[7] * 4 + self.raw@[8] / 64
    }

    /// C_SIZE_MULT of the first layout: bits 49:47.
    pub open spec fn c_size_mult(self) -> int {
        self.raw@[9] % 4 * 2 + self.raw@[10] / 128
    }

    /// READ_BL_LEN, the logarithm of the block length: bits 83:80.
    pub open spec fn read_bl_len(self) -> int {
        (self.raw@[5] % 16) as int
    }

    /// User-data capacity in bytes, where the layout is a known one.
    pub open spec fn capacity_bytes(self) -> Option<int> {
        if self.structure() == 1 {
            Some((self.c_size_v2() + 1) * 512 * 1024)
        } else if self.structure() == 0 {
            Some(
                (self.c_size_v1() + 1) * power2::pow2(
                    (self.c_size_mult() + 2 + self.read_bl_len()) as nat,
                ) as int,
            )
        } else {
            None
        }
    }

    /// User-data capacity in 512-byte blocks, where the layout is a known one.
    pub open spec fn capacity(self) -> Option<u64> {
        match self.capacity_bytes() {
            Some(bytes) => Some((bytes / 512) as u64),
            None => None,
        }
    }

    pub fn from_raw(raw: [u8; 16]) -> (r: Self)
        ensures
            r.raw == raw,
    {
        CsdResponse { raw }
    }

    /// User-data capacity in 512-byte blocks.
    ///
    /// Returns `None` if the register's layout is not a known one.
    pub fn capacity_blocks(&self) -> (c: Option<u64>)
        ensures
            c == self.capacity(),
            c matches Some(blocks) ==> blocks == self.capacity_bytes()->0 / 512,
    {
        let structure: u8 = self.raw[0] / 64;
        if structure == 1 {
            let c_size: u64 = (self.raw[7] % 64) as u64 * 0x1_0000 + self.raw[8] as u64 * 0x100
                + self.raw[9] as u64;
            Some((c_size + 1) * 1024)
        } else if structure == 0 {
            let c_size: u64 = (self.raw[6] % 4) as u64 * 0x400 + self.raw[7] as u64 * 4 + (
            self.raw[8] / 64) as u64;
            let mult: u64 = (self.raw[9] % 4) as u64 * 2 + (self.raw[10] / 128) as u64;
            let read_bl_len: u64 = (self.raw[5] % 16) as u64;
            let shift: u64 = mult + 2 + read_bl_len;
            proof {
                power2::lemma2_to64();
                if shift < 24 {
                    power2::lemma_pow2_strictly_increases(shift as nat, 24);
                }
                assert((c_size + 1) * power2::pow2(shift as nat) <= 4096 * 0x100_0000) by (nonlinear_arith)
                    requires
                        0 <= c_size < 4096,
                        0 <= power2::pow2(shift as nat) <= 0x100_0000,
                ;
                vstd::bits::lemma_u64_shl_is_mul((c_size + 1) as u64, shift);
            }
            Some(((c_size + 1) << shift) / 512)
        } else {
            None
        }
    }
}

/// Status block that SWITCH_FUNC returns, most significant byte first.
#[derive(Debug, Clone, Copy)]
pub struct SwitchStatus {
    pub raw: [u8; 64],
}

impl SwitchStatus {
    /// The function that is active in group 1: bits 379:376.
    pub open spec fn group1(self) -> int {
        (self.raw@[16] % 16) as int
    }

    pub fn from_raw(raw: [u8; 64]) -> (r: Self)
        ensures
            r.raw == raw,
    {
        SwitchStatus { raw }
    }

    /// Whether the card runs at high speed
    pub fn high_speed_active(&self) -> (b: bool)
        ensures
            b == (self.group1() == 1),
    {
        self.raw[16] % 16 == 1
    }
}

} // verus!
