//! SD/MMC commands and their encoding.
use vstd::prelude::*;

use crate::bits::{self, to_be_bytes};
use crate::crc::{self, crc7_of};
use crate::response::ResponseType;

verus! {

/// Direction of the data phase that follows a command, if any.
#[derive(Debug, Clone, Copy, PartialEq, Eq, Structural)]
pub enum DataDirection {
    /// No data phase follows this command.
    NoData,
    /// The host reads data from the card after the command response.
    Read,
    /// The host writes data to the card after the command response.
    Write,
}

impl DataDirection {
    /// Returns true if this command has no data phase.
    pub fn is_none(self) -> (b: bool)
        ensures
            b == (self == DataDirection::NoData),
    {
        matches!(self, DataDirection::NoData)
    }
}

/// SD/MMC command definitions
#[derive(Debug, Clone, Copy, PartialEq, Eq, Structural)]
pub struct Command {
    pub cmd: u8,
    pub arg: u32,
    pub resp_type: ResponseType,
}

impl Command {
    /// The five bytes that the CRC of an SPI frame covers: the start bits and
    /// the six-bit command index, then the argument.
    pub open spec fn frame_head(self) -> Seq<u8> {
        seq![(0x40 + self.cmd % 0x40) as u8] + bits::be_bytes_of(self.arg)
    }

    /// The last byte of an SPI frame: the CRC-7 and the end bit.
    pub open spec fn frame_crc(self) -> u8 {
        (2 * crc::bits_value(crc::crc7_bits(crc::message_bits(self.frame_head()))) + 1) as u8
    }

    /// The six bytes of an SPI frame.
    pub open spec fn frame(self) -> Seq<u8> {
        self.frame_head().push(self.frame_crc())
    }

    pub fn new(cmd: u8, arg: u32, resp_type: ResponseType) -> (c: Self)
        ensures
            c == (Command { cmd, arg, resp_type }),
    {
        Command { cmd, arg, resp_type }
    }

    /// Return a copy of this command with `resp_type` overridden.
    ///
    /// Useful when the same command index has different response types depending
    /// on the transport (e.g. ACMD41 returns R3 in native mode but the OCR is
    /// not available in SPI mode where only an R1 byte is returned).
    pub fn with_resp_type(self, resp_type: ResponseType) -> (c: Self)
        ensures
            c == (Command { cmd: self.cmd, arg: self.arg, resp_type }),
    {
        Command { cmd: self.cmd, arg: self.arg, resp_type }
    }

    /// Command index
    pub fn index(&self) -> (i: u8)
        ensures
            i == self.cmd,
    {
        self.cmd
    }

    /// 32-bit argument
    pub fn argument(&self) -> (a: u32)
        ensures
            a == self.arg,
    {
        self.arg
    }

    /// Direction of the data phase that follows this command.
    ///
    /// Note: SDIO CMD53 carries its direction in the argument; this helper
    /// returns `NoData` for it. CMD6 is also returned as `NoData` because the
    /// same command index is reused for ACMD6 (SET_BUS_WIDTH, no data phase)
    /// and CMD6 SWITCH_FUNC (64-byte read). Drivers that issue SWITCH_FUNC
    /// inform the host explicitly.
    pub fn data_direction(&self) -> (d: DataDirection)
        ensures
            d == (if self.cmd == 17 || self.cmd == 18 {
                DataDirection::Read
            } else if self.cmd == 24 || self.cmd == 25 {
                DataDirection::Write
            } else {
                DataDirection::NoData
            }),
    {
        match self.cmd {
            17 | 18 => DataDirection::Read,
            24 | 25 => DataDirection::Write,
            _ => DataDirection::NoData,
        }
    }

    /// Size (in bytes) of the data block this command transfers, when the
    /// answer is unambiguous from the command index alone.
    ///
    /// Returns `None` for commands without a data phase, for commands whose
    /// block size depends on host configuration (e.g. CMD16-controlled
    /// SDSC blocks), and for indices that are reused across commands with
    /// different data shapes (e.g. CMD6).
    pub fn data_block_size(&self) -> (s: Option<u32>)
        ensures
            s == (if self.cmd == 17 || self.cmd == 18 || self.cmd == 24 || self.cmd == 25 {
                Some(512u32)
            } else {
                None
            }),
    {
        match self.cmd {
            17 | 18 | 24 | 25 => Some(512),
            _ => None,
        }
    }

    /// Compute the 7-bit CRC for SPI mode transmission, with the end bit
    /// below it
    pub fn crc7(&self) -> (crc: u8)
        ensures
            crc == self.frame_crc(),
            crc == 2 * crc::bits_value(crc::crc7_bits(crc::message_bits(self.frame_head()))) + 1,
    {
        let cmd: u8 = self.cmd;
        assert(0x40 | (cmd & 0x3F) == 0x40 + cmd % 0x40) by (bit_vector);
        let arg: [u8; 4] = to_be_bytes(self.arg);
        let head: [u8; 5] = [0x40 | (cmd & 0x3F), arg[0], arg[1], arg[2], arg[3]];
        assert(head@ =~= self.frame_head());
        let crc: u8 = crc7_of(&head);
        assert((crc << 1) | 1 == 2 * crc + 1) by (bit_vector)
            requires
                crc < 128,
        ;
        (crc << 1) | 1
    }

    /// Build the 6-byte SPI command packet
    pub fn to_spi_bytes(&self) -> (b: [u8; 6])
        ensures
            b@ == self.frame(),
    {
        let cmd: u8 = self.cmd;
        assert(0x40 | (cmd & 0x3F) == 0x40 + cmd % 0x40) by (bit_vector);
        let crc: u8 = self.crc7();
        let token: u8 = 0x40 | (cmd & 0x3F);
        let arg: [u8; 4] = to_be_bytes(self.arg);
        let b: [u8; 6] = [token, arg[0], arg[1], arg[2], arg[3], crc];
        assert(b@ =~= self.frame());
        b
    }
}

/// Argument that carries a 16-bit value in its upper half.
fn upper_half(v: u16) -> (arg: u32)
    ensures
        arg == v * 0x1_0000,
{
    (v as u32) * 0x1_0000
}

// Standard SD/MMC commands

/// CMD0: GO_IDLE_STATE, reset all cards to idle
pub fn cmd0() -> (c: Command)
    ensures
        c == (Command { cmd: 0, arg: 0, resp_type: ResponseType::NoResponse }),
{
    Command::new(0, 0, ResponseType::NoResponse)
}

/// CMD2: ALL_SEND_CID, request CID from all cards
pub fn cmd2() -> (c: Command)
    ensures
        c == (Command { cmd: 2, arg: 0, resp_type: ResponseType::R2 }),
{
    Command::new(2, 0, ResponseType::R2)
}

/// CMD3: SEND_RELATIVE_ADDR (SD)
pub fn cmd3_sd() -> (c: Command)
    ensures
        c == (Command { cmd: 3, arg: 0, resp_type: ResponseType::R6 }),
{
    Command::new(3, 0, ResponseType::R6)
}

/// CMD3 MMC variant: arg contains the desired RCA
pub fn cmd3_mmc(rca: u16) -> (c: Command)
    ensures
        c == (Command { cmd: 3, arg: (rca * 0x1_0000) as u32, resp_type: ResponseType::R1 }),
{
    Command::new(3, upper_half(rca), ResponseType::R1)
}

/// CMD4: SET_DSR, program driver stage register
pub fn cmd4(dsr: u16) -> (c: Command)
    ensures
        c == (Command { cmd: 4, arg: (dsr * 0x1_0000) as u32, resp_type: ResponseType::NoResponse }),
{
    Command::new(4, upper_half(dsr), ResponseType::NoResponse)
}

/// CMD6: SWITCH_FUNC, switch card function
pub fn cmd6(arg: u32) -> (c: Command)
    ensures
        c == (Command { cmd: 6, arg, resp_type: ResponseType::R1 }),
{
    Command::new(6, arg, ResponseType::R1)
}

/// The argument of a switch to high speed: whether to switch, and the functions of the
/// six groups.
pub open spec fn switch_argument(switch: bool) -> int {
    bits::digit(switch) * 0x8000_0000 + 0x00FF_FFF1
}

/// CMD6 helper: switch function group 1 to high speed (50 MHz, function 1).
///
/// The card responds with R1 followed by a 64-byte status data block. Use
/// `switch=true` to actually switch; `switch=false` to query support without
/// changing the configuration.
pub fn cmd6_high_speed(switch: bool) -> (c: Command)
    ensures
        c == (Command {
            cmd: 6,
            arg: switch_argument(switch) as u32,
            resp_type: ResponseType::R1,
        }),
{
    let mode: u32 = if switch {
        0x8000_0000
    } else {
        0
    };
    // groups 6..2 are 0xF (no change), group 1 = 1 (high speed)
    let groups: u32 = 0x00FF_FFF1;
    assert(mode | groups == mode + groups) by (bit_vector)
        requires
            mode == 0x8000_0000 || mode == 0,
            groups == 0x00FF_FFF1,
    ;
    Command::new(6, mode | groups, ResponseType::R1)
}

/// CMD7: SELECT/DESELECT CARD
pub fn cmd7(rca: u16) -> (c: Command)
    ensures
        c == (Command { cmd: 7, arg: (rca * 0x1_0000) as u32, resp_type: ResponseType::R1b }),
{
    Command::new(7, upper_half(rca), ResponseType::R1b)
}

/// The argument of an interface probe.
pub open spec fn probe_argument(voltage: u8, check_pattern: u8) -> int {
    voltage * 0x100 + check_pattern
}

/// CMD8: SEND_IF_COND, send interface condition (SD)
pub fn cmd8(voltage: u8, check_pattern: u8) -> (c: Command)
    ensures
        c == (Command {
            cmd: 8,
            arg: probe_argument(voltage, check_pattern) as u32,
            resp_type: ResponseType::R7,
        }),
{
    let v: u32 = voltage as u32;
    let p: u32 = check_pattern as u32;
    assert((v << 8) | p == v * 0x100 + p) by (bit_vector)
        requires
            v < 0x100,
            p < 0x100,
    ;
    Command::new(8, (v << 8) | p, ResponseType::R7)
}

/// CMD9: SEND_CSD, get CSD register
pub fn cmd9(rca: u16) -> (c: Command)
    ensures
        c == (Command { cmd: 9, arg: (rca * 0x1_0000) as u32, resp_type: ResponseType::R2 }),
{
    Command::new(9, upper_half(rca), ResponseType::R2)
}

/// CMD10: SEND_CID, get CID register
pub fn cmd10(rca: u16) -> (c: Command)
    ensures
        c == (Command { cmd: 10, arg: (rca * 0x1_0000) as u32, resp_type: ResponseType::R2 }),
{
    Command::new(10, upper_half(rca), ResponseType::R2)
}

/// CMD12: STOP_TRANSMISSION, stop read/write
pub fn cmd12() -> (c: Command)
    ensures
        c == (Command { cmd: 12, arg: 0, resp_type: ResponseType::R1b }),
{
    Command::new(12, 0, ResponseType::R1b)
}

/// CMD13: SEND_STATUS
pub fn cmd13(rca: u16) -> (c: Command)
    ensures
        c == (Command { cmd: 13, arg: (rca * 0x1_0000) as u32, resp_type: ResponseType::R1 }),
{
    Command::new(13, upper_half(rca), ResponseType::R1)
}

/// CMD16: SET_BLOCKLEN
pub fn cmd16(block_len: u32) -> (c: Command)
    ensures
        c == (Command { cmd: 16, arg: block_len, resp_type: ResponseType::R1 }),
{
    Command::new(16, block_len, ResponseType::R1)
}

/// CMD17: READ_SINGLE_BLOCK
pub fn cmd17(addr: u32) -> (c: Command)
    ensures
        c == (Command { cmd: 17, arg: addr, resp_type: ResponseType::R1 }),
{
    Command::new(17, addr, ResponseType::R1)
}

/// CMD18: READ_MULTIPLE_BLOCK
pub fn cmd18(addr: u32) -> (c: Command)
    ensures
        c == (Command { cmd: 18, arg: addr, resp_type: ResponseType::R1 }),
{
    Command::new(18, addr, ResponseType::R1)
}

/// CMD24: WRITE_BLOCK
pub fn cmd24(addr: u32) -> (c: Command)
    ensures
        c == (Command { cmd: 24, arg: addr, resp_type: ResponseType::R1 }),
{
    Command::new(24, addr, ResponseType::R1)
}

/// CMD25: WRITE_MULTIPLE_BLOCK
pub fn cmd25(addr: u32) -> (c: Command)
    ensures
        c == (Command { cmd: 25, arg: addr, resp_type: ResponseType::R1 }),
{
    Command::new(25, addr, ResponseType::R1)
}

/// CMD32: ERASE_WR_BLK_START
pub fn cmd32(addr: u32) -> (c: Command)
    ensures
        c == (Command { cmd: 32, arg: addr, resp_type: ResponseType::R1 }),
{
    Command::new(32, addr, ResponseType::R1)
}

/// CMD33: ERASE_WR_BLK_END
pub fn cmd33(addr: u32) -> (c: Command)
    ensures
        c == (Command { cmd: 33, arg: addr, resp_type: ResponseType::R1 }),
{
    Command::new(33, addr, ResponseType::R1)
}

/// CMD38: ERASE
pub fn cmd38() -> (c: Command)
    ensures
        c == (Command { cmd: 38, arg: 0, resp_type: ResponseType::R1b }),
{
    Command::new(38, 0, ResponseType::R1b)
}

/// The command that [`cmd41`] builds: HCS in bit 30, the voltage window in
/// bits 23:11.
pub open spec fn op_cond_command(hcs: bool, voltage_window: u32) -> Command {
    Command {
        cmd: 41,
        arg: (bits::digit(hcs) * 0x4000_0000 + voltage_window / 0x800 % 0x2000 * 0x800) as u32,
        resp_type: ResponseType::R3,
    }
}

/// CMD41: SD_SEND_OP_COND, send operating condition (SD only)
pub fn cmd41(hcs: bool, voltage_window: u32) -> (c: Command)
    ensures
        c == op_cond_command(hcs, voltage_window),
{
    let h: u32 = if hcs {
        0x4000_0000
    } else {
        0
    };
    assert(h | (voltage_window & 0x00FF_F800) == h + voltage_window / 0x800 % 0x2000 * 0x800)
        by (bit_vector)
        requires
            h == 0x4000_0000 || h == 0,
    ;
    Command::new(41, h | (voltage_window & 0x00FF_F800), ResponseType::R3)
}

/// CMD55: APP_CMD, next command is application-specific
pub fn cmd55(rca: u16) -> (c: Command)
    ensures
        c == (Command { cmd: 55, arg: (rca * 0x1_0000) as u32, resp_type: ResponseType::R1 }),
{
    Command::new(55, upper_half(rca), ResponseType::R1)
}

/// CMD58: READ_OCR, read OCR register
pub fn cmd58() -> (c: Command)
    ensures
        c == (Command { cmd: 58, arg: 0, resp_type: ResponseType::R3 }),
{
    Command::new(58, 0, ResponseType::R3)
}

// MMC specific

/// CMD1: SEND_OP_COND (MMC)
pub fn cmd1(voltage_window: u32) -> (c: Command)
    ensures
        c == (Command { cmd: 1, arg: voltage_window, resp_type: ResponseType::R3 }),
{
    Command::new(1, voltage_window, ResponseType::R3)
}

// SDIO specific commands

/// CMD5: IO_SEND_OP_COND (SDIO)
pub fn cmd5() -> (c: Command)
    ensures
        c == (Command { cmd: 5, arg: 0, resp_type: ResponseType::R4 }),
{
    Command::new(5, 0, ResponseType::R4)
}

/// The argument of a direct access to an SDIO register.
pub open spec fn direct_argument(write: bool, function: u8, raw: bool, addr: u32, data: u8) -> int {
    bits::digit(write) * 0x8000_0000 + function % 8 * 0x1000_0000 + bits::digit(raw) * 0x800_0000
        + addr % 0x2_0000 * 0x200 + data
}

/// CMD52: IO_RW_DIRECT
///
/// `addr` is a 17-bit SDIO register address (bits 25:9 of the command argument).
pub fn cmd52(write: bool, function: u8, raw: bool, addr: u32, data: u8) -> (c: Command)
    ensures
        c == (Command {
            cmd: 52,
            arg: direct_argument(write, function, raw, addr, data) as u32,
            resp_type: ResponseType::R5,
        }),
{
    let w: u32 = write as u32;
    let f: u32 = function as u32;
    let a: u32 = raw as u32;
    let d: u32 = data as u32;
    let arg: u32 = w << 31 | (f & 0x7) << 28 | a << 27 | (addr & 0x1_FFFF) << 9 | d;
    assert(arg == w * 0x8000_0000 + f % 8 * 0x1000_0000 + a * 0x800_0000 + addr % 0x2_0000 * 0x200
        + d) by (bit_vector)
        requires
            w <= 1,
            a <= 1,
            f < 0x100,
            d < 0x100,
            arg == w << 31 | (f & 0x7) << 28 | a << 27 | (addr & 0x1_FFFF) << 9 | d,
    ;
    Command::new(52, arg, ResponseType::R5)
}

/// The argument of an extended access to SDIO registers.
pub open spec fn extended_argument(
    write: bool,
    function: u8,
    block_mode: bool,
    addr: u32,
    op_code: bool,
    count: u16,
) -> int {
    bits::digit(write) * 0x8000_0000 + function % 8 * 0x1000_0000 + bits::digit(block_mode)
        * 0x800_0000 + bits::digit(op_code) * 0x400_0000 + addr % 0x2_0000 * 0x200 + count % 0x200
}

/// CMD53: IO_RW_EXTENDED
///
/// `addr` is a 17-bit SDIO register address (bits 25:9 of the command argument).
/// `count` is a 9-bit byte/block count (bits 8:0).
pub fn cmd53(
    write: bool,
    function: u8,
    block_mode: bool,
    addr: u32,
    op_code: bool,
    count: u16,
) -> (c: Command)
    ensures
        c == (Command {
            cmd: 53,
            arg: extended_argument(write, function, block_mode, addr, op_code, count) as u32,
            resp_type: ResponseType::R5,
        }),
{
    let w: u32 = write as u32;
    let f: u32 = function as u32;
    let m: u32 = block_mode as u32;
    let o: u32 = op_code as u32;
    let n: u32 = count as u32;
    let arg: u32 = w << 31 | (f & 0x7) << 28 | m << 27 | o << 26 | (addr & 0x1_FFFF) << 9 | (n
        & 0x1FF);
    assert(arg == w * 0x8000_0000 + f % 8 * 0x1000_0000 + m * 0x800_0000 + o * 0x400_0000 + addr
        % 0x2_0000 * 0x200 + n % 0x200) by (bit_vector)
        requires
            w <= 1,
            m <= 1,
            o <= 1,
            f < 0x100,
            n < 0x1_0000,
            arg == w << 31 | (f & 0x7) << 28 | m << 27 | o << 26 | (addr & 0x1_FFFF) << 9 | (n
                & 0x1FF),
    ;
    Command::new(53, arg, ResponseType::R5)
}

/// A frame stands for one index and one argument: no two commands with six-bit
/// indices share a frame.
pub proof fn frame_determines_command(a: Command, b: Command)
    requires
        a.cmd < 64,
        b.cmd < 64,
        a.frame() == b.frame(),
    ensures
        a.cmd == b.cmd,
        a.arg == b.arg,
{
    let x = a.frame();
    let y = b.frame();
    assert(x[0] == 0x40 + a.cmd && y[0] == 0x40 + b.cmd);
    assert forall|i: int| 0 <= i < 4 implies bits::be_bytes_of(a.arg)[i] == bits::be_bytes_of(
        b.arg,
    )[i] by {
        assert(x[i + 1] == bits::be_bytes_of(a.arg)[i]);
        assert(y[i + 1] == bits::be_bytes_of(b.arg)[i]);
    }
    bits::be_value_undoes_be_bytes(a.arg);
    bits::be_value_undoes_be_bytes(b.arg);
}

/// A receiver that divides a whole frame by the CRC polynomial, all but the end bit,
/// which is set, is left with no remainder.
#[verifier::rlimit(40)]
pub proof fn frame_passes_the_check(c: Command)
    ensures
        c.frame().len() == 6,
        c.frame()[5] % 2 == 1,
        crc::poly_rem(
            crc::message_bits(c.frame().take(5)) + crc::register_bits((c.frame()[5] / 2) as u8),
        ) == crc::zeros7(),
{
    let m = crc::message_bits(c.frame_head());
    let rest = crc::crc7_bits(m);
    crc::crc7_residue_is_zero(m);
    crc::lemma_seven_digits(rest);
    assert(c.frame().take(5) =~= c.frame_head());
    let v = (c.frame()[5] / 2) as u8;
    assert(v == crc::bits_value(rest));
    crc::lemma_register_value(v);
    crc::lemma_digits_are_unique(crc::register_bits(v), rest);
}

/// Dividing takes the upper part of a number off.
proof fn lemma_upper(upper: int, unit: int, lower: int)
    by (nonlinear_arith)
    requires
        unit > 0,
        0 <= lower < unit,
    ensures
        (upper * unit + lower) / unit == upper,
{
}

/// The fields of an SDIO argument: three flags, the function, the register, and nine
/// bits below.
#[verifier::rlimit(40)]
proof fn lemma_fields(arg: int, w: int, f: int, m: int, o: int, a: int, d: int)
    requires
        0 <= w < 2,
        0 <= f < 8,
        0 <= m < 2,
        0 <= o < 2,
        0 <= a < 0x2_0000,
        0 <= d < 0x200,
        arg == w * 0x8000_0000 + f * 0x1000_0000 + m * 0x800_0000 + o * 0x400_0000 + a * 0x200 + d,
    ensures
        0 <= arg <= u32::MAX,
        arg / 0x8000_0000 == w,
        arg / 0x1000_0000 % 8 == f,
        arg / 0x800_0000 % 2 == m,
        arg / 0x400_0000 % 2 == o,
        arg / 0x200 % 0x2_0000 == a,
        arg % 0x200 == d,
{
    lemma_upper(
        w,
        0x8000_0000,
        f * 0x1000_0000 + m * 0x800_0000 + o * 0x400_0000 + a * 0x200 + d,
    );
    lemma_upper(w * 8 + f, 0x1000_0000, m * 0x800_0000 + o * 0x400_0000 + a * 0x200 + d);
    lemma_upper(w * 16 + f * 2 + m, 0x800_0000, o * 0x400_0000 + a * 0x200 + d);
    lemma_upper(w * 32 + f * 4 + m * 2 + o, 0x400_0000, a * 0x200 + d);
    lemma_upper(w * 0x40_0000 + f * 0x8_0000 + m * 0x4_0000 + o * 0x2_0000 + a, 0x200, d);
    assert((w * 8 + f) % 8 == f);
    assert((w * 16 + f * 2 + m) % 2 == m);
    assert((w * 32 + f * 4 + m * 2 + o) % 2 == o);
    assert((w * 0x40_0000 + f * 0x8_0000 + m * 0x4_0000 + o * 0x2_0000 + a) % 0x2_0000 == a);
}

/// The argument of a direct access keeps each of its fields apart: whether it writes in
/// bit 31, the function in bits 30:28, whether the value is read back in bit 27, the
/// register in bits 25:9 and the value in bits 7:0.
#[verifier::rlimit(40)]
pub proof fn direct_argument_keeps_its_fields(
    write: bool,
    function: u8,
    raw: bool,
    addr: u32,
    data: u8,
)
    ensures
        ({
            let arg = direct_argument(write, function, raw, addr, data);
            &&& 0 <= arg <= u32::MAX
            &&& (arg / 0x8000_0000 == 1) == write
            &&& arg / 0x1000_0000 % 8 == function % 8
            &&& (arg / 0x800_0000 % 2 == 1) == raw
            &&& arg / 0x400_0000 % 2 == 0
            &&& arg / 0x200 % 0x2_0000 == addr % 0x2_0000
            &&& arg / 0x100 % 2 == 0
            &&& arg % 0x100 == data
        }),
{
    let arg = direct_argument(write, function, raw, addr, data);
    lemma_fields(
        arg,
        bits::digit(write),
        (function % 8) as int,
        bits::digit(raw),
        0,
        (addr % 0x2_0000) as int,
        data as int,
    );
    assert(arg / 0x100 == arg / 0x200 * 2 + arg % 0x200 / 0x100);
    assert(arg % 0x100 == arg % 0x200 % 0x100);
}

/// The argument of an extended access keeps each of its fields apart: whether it writes
/// in bit 31, the function in bits 30:28, whether it counts in blocks in bit 27, whether
/// the register goes up in bit 26, the register in bits 25:9 and the count in bits 8:0.
#[verifier::rlimit(40)]
pub proof fn extended_argument_keeps_its_fields(
    write: bool,
    function: u8,
    block_mode: bool,
    addr: u32,
    op_code: bool,
    count: u16,
)
    ensures
        ({
            let arg = extended_argument(write, function, block_mode, addr, op_code, count);
            &&& 0 <= arg <= u32::MAX
            &&& (arg / 0x8000_0000 == 1) == write
            &&& arg / 0x1000_0000 % 8 == function % 8
            &&& (arg / 0x800_0000 % 2 == 1) == block_mode
            &&& (arg / 0x400_0000 % 2 == 1) == op_code
            &&& arg / 0x200 % 0x2_0000 == addr % 0x2_0000
            &&& arg % 0x200 == count % 0x200
        }),
{
    lemma_fields(
        extended_argument(write, function, block_mode, addr, op_code, count),
        bits::digit(write),
        (function % 8) as int,
        bits::digit(block_mode),
        bits::digit(op_code),
        (addr % 0x2_0000) as int,
        (count % 0x200) as int,
    );
}

/// An interface probe carries its pattern in the low byte of its argument and the
/// voltage above that.
pub proof fn probe_argument_keeps_its_fields(voltage: u8, check_pattern: u8)
    ensures
        probe_argument(voltage, check_pattern) % 0x100 == check_pattern,
        probe_argument(voltage, check_pattern) / 0x100 == voltage,
{
}

/// Querying for high speed and switching to it differ in bit 31 alone; both name
/// function 1 in group 1 and leave the functions of the five other groups alone, which
/// is what 15 stands for.
#[verifier::rlimit(40)]
pub proof fn switch_argument_names_group_one(switch: bool)
    ensures
        switch_argument(true) - switch_argument(false) == 0x8000_0000,
        0 <= switch_argument(false) < 0x8000_0000,
        switch_argument(switch) % 16 == 1,
        forall|g: int|
            2 <= g <= 6 ==> #[trigger] group_in(switch_argument(switch), g) == 15,
        switch_argument(switch) / 0x100_0000 % 0x80 == 0,
{
    assert forall|g: int| 2 <= g <= 6 implies #[trigger] group_in(switch_argument(switch), g)
        == 15 by {
        if g == 2 {
        } else if g == 3 {
        } else if g == 4 {
        } else if g == 5 {
        }
    }
}

/// The function that a switch argument names in group `g`, four bits each from group 1
/// on.
pub open spec fn group_in(arg: int, g: int) -> int {
    if g == 1 {
        arg % 16
    } else if g == 2 {
        arg / 0x10 % 16
    } else if g == 3 {
        arg / 0x100 % 16
    } else if g == 4 {
        arg / 0x1000 % 16
    } else if g == 5 {
        arg / 0x1_0000 % 16
    } else {
        arg / 0x10_0000 % 16
    }
}

} // verus!
