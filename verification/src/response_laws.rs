//! What the registers and responses of a card say, field by field.
use vstd::arithmetic::div_mod;
use vstd::arithmetic::power2;
use vstd::prelude::*;

use crate::cmd;
use crate::common;
use crate::error::CardError;
use crate::response::{self, CardState, CsdResponse, IfCondResponse, SwitchStatus};

verus! {

/// The number that the first `n` bytes of a register make, most significant byte
/// first.
pub open spec fn register_value(raw: Seq<u8>, n: nat) -> int
    decreases n,
{
    if n == 0 {
        0
    } else {
        register_value(raw, (n - 1) as nat) * 0x100 + raw[n - 1]
    }
}

spec fn span(k: nat) -> int
    decreases k,
{
    if k == 0 {
        1
    } else {
        0x100 * span((k - 1) as nat)
    }
}

/// Dividing a register's number drops its last bytes.
#[verifier::rlimit(40)]
proof fn lemma_drop_bytes(raw: Seq<u8>, n: nat, k: nat)
    requires
        k <= n,
    ensures
        span(k) > 0,
        register_value(raw, n) >= 0,
        register_value(raw, n) / span(k) == register_value(raw, (n - k) as nat),
    decreases n, k,
{
    if n > 0 {
        lemma_drop_bytes(raw, (n - 1) as nat, 0);
    }
    if k > 0 {
        lemma_drop_bytes(raw, (n - 1) as nat, (k - 1) as nat);
        let v = register_value(raw, n);
        assert(v / 0x100 == register_value(raw, (n - 1) as nat));
        div_mod::lemma_div_denominator(v, 0x100, span((k - 1) as nat));
    } else {
        div_mod::lemma_div_basics(register_value(raw, n));
    }
}

#[verifier::rlimit(40)]
proof fn lemma_structure(b: Seq<u8>)
    ensures
        register_value(b, 16) / 0x4000_0000_0000_0000_0000_0000_0000_0000int % 4 == b[0] / 64,
{
    let v = register_value(b, 16);
    lemma_drop_bytes(b, 16, 15);
    assert(span(15) == 0x100_0000_0000_0000_0000_0000_0000_0000int) by {
        reveal_with_fuel(span, 16);
    }
    div_mod::lemma_div_denominator(v, span(15), 64);
    assert(register_value(b, 1) == b[0]) by {
        reveal_with_fuel(register_value, 2);
    }
}

#[verifier::rlimit(40)]
proof fn lemma_read_bl_len(b: Seq<u8>)
    ensures
        register_value(b, 16) / 0x1_0000_0000_0000_0000_0000int % 16 == b[5] % 16,
{
    lemma_drop_bytes(b, 16, 10);
    assert(span(10) == 0x1_0000_0000_0000_0000_0000int) by {
        reveal_with_fuel(span, 11);
    }
    assert(register_value(b, 6) == register_value(b, 5) * 0x100 + b[5]);
}

#[verifier::rlimit(40)]
proof fn lemma_c_size_v1(b: Seq<u8>)
    ensures
        register_value(b, 16) / 0x4000_0000_0000_0000int % 0x1000 == b[6] % 4 * 0x400 + b[7] * 4
            + b[8] / 64,
{
    let v = register_value(b, 16);
    lemma_drop_bytes(b, 16, 7);
    assert(span(7) == 0x100_0000_0000_0000int) by {
        reveal_with_fuel(span, 8);
    }
    div_mod::lemma_div_denominator(v, span(7), 64);
    assert(register_value(b, 9) == register_value(b, 6) * 0x100_0000 + b[6] * 0x1_0000 + b[7] * 0x100
        + b[8]) by {
        reveal_with_fuel(register_value, 4);
    }
}

#[verifier::rlimit(40)]
proof fn lemma_c_size_v2(b: Seq<u8>)
    ensures
        register_value(b, 16) / 0x1_0000_0000_0000int % 0x40_0000 == b[7] % 64 * 0x1_0000 + b[8]
            * 0x100 + b[9],
{
    lemma_drop_bytes(b, 16, 6);
    assert(span(6) == 0x1_0000_0000_0000int) by {
        reveal_with_fuel(span, 7);
    }
    assert(register_value(b, 10) == register_value(b, 7) * 0x100_0000 + b[7] * 0x1_0000 + b[8]
        * 0x100 + b[9]) by {
        reveal_with_fuel(register_value, 4);
    }
}

#[verifier::rlimit(40)]
proof fn lemma_c_size_mult(b: Seq<u8>)
    ensures
        register_value(b, 16) / 0x8000_0000_0000int % 8 == b[9] % 4 * 2 + b[10] / 128,
{
    let v = register_value(b, 16);
    lemma_drop_bytes(b, 16, 5);
    assert(span(5) == 0x100_0000_0000int) by {
        reveal_with_fuel(span, 6);
    }
    div_mod::lemma_div_denominator(v, span(5), 128);
    assert(register_value(b, 11) == register_value(b, 9) * 0x1_0000 + b[9] * 0x100 + b[10]) by {
        reveal_with_fuel(register_value, 3);
    }
}

/// Each field of the CSD register is where the register has it: counted from bit 0,
/// the last bit of the last byte, CSD_STRUCTURE is at 127:126, READ_BL_LEN at 83:80,
/// C_SIZE at 73:62 in the first layout and at 69:48 in the second, and C_SIZE_MULT at
/// 49:47.
#[verifier::rlimit(40)]
pub proof fn csd_fields_are_bits_of_the_register(csd: CsdResponse)
    ensures
        ({
            let v = register_value(csd.raw@, 16);
            &&& csd.structure() == v / 0x4000_0000_0000_0000_0000_0000_0000_0000int % 4
            &&& csd.read_bl_len() == v / 0x1_0000_0000_0000_0000_0000int % 16
            &&& csd.c_size_v1() == v / 0x4000_0000_0000_0000int % 0x1000
            &&& csd.c_size_v2() == v / 0x1_0000_0000_0000int % 0x40_0000
            &&& csd.c_size_mult() == v / 0x8000_0000_0000int % 8
        }),
{
    let b = csd.raw@;
    lemma_structure(b);
    lemma_read_bl_len(b);
    lemma_c_size_v1(b);
    lemma_c_size_v2(b);
    lemma_c_size_mult(b);
}

/// The capacity of a card is told by the 128 bits of its CSD register. In the first
/// layout it is `(C_SIZE + 1) * 2^(C_SIZE_MULT + 2) * 2^READ_BL_LEN` bytes, in the
/// second `(C_SIZE + 1) * 512` KiB, and no other layout tells it. It is reported in
/// whole blocks of 512 bytes.
#[verifier::rlimit(40)]
pub proof fn capacity_is_told_by_the_register(csd: CsdResponse)
    ensures
        ({
            let v = register_value(csd.raw@, 16);
            let layout = v / 0x4000_0000_0000_0000_0000_0000_0000_0000int % 4;
            let bl_len = v / 0x1_0000_0000_0000_0000_0000int % 16;
            let mult = v / 0x8000_0000_0000int % 8;
            let first = (v / 0x4000_0000_0000_0000int % 0x1000 + 1) * (power2::pow2(
                (mult + 2) as nat,
            ) * power2::pow2(bl_len as nat));
            let second = (v / 0x1_0000_0000_0000int % 0x40_0000 + 1) * 512 * 1024;
            &&& layout == 0 ==> (csd.capacity() matches Some(n) && n * 512 <= first < n * 512 + 512)
            &&& layout == 1 ==> (csd.capacity() matches Some(n) && n * 512 == second)
            &&& layout >= 2 ==> csd.capacity() is None
        }),
{
    csd_fields_are_bits_of_the_register(csd);
    if csd.structure() == 0 {
        let mult = csd.c_size_mult();
        let bl_len = csd.read_bl_len();
        power2::lemma_pow2_adds((mult + 2) as nat, bl_len as nat);
        lemma_capacity_fits(csd);
    }
}

proof fn lemma_capacity_fits(csd: CsdResponse)
    requires
        csd.structure() == 0,
    ensures
        0 <= csd.capacity_bytes()->0 <= 0x10_0000_0000,
{
    let shift = (csd.c_size_mult() + 2 + csd.read_bl_len()) as nat;
    power2::lemma2_to64();
    power2::lemma_pow2_pos(shift);
    if shift < 24 {
        power2::lemma_pow2_strictly_increases(shift, 24);
    }
    let c = csd.c_size_v1() + 1;
    let p = power2::pow2(shift) as int;
    assert(0 <= c * p <= 4096 * 0x100_0000) by (nonlinear_arith)
        requires
            0 <= c <= 4096,
            0 <= p <= 0x100_0000,
    ;
}

/// In the first layout, raising READ_BL_LEN by one doubles the capacity, and so does
/// raising C_SIZE_MULT by one, while C_SIZE stays as it is; READ_BL_LEN and
/// C_SIZE_MULT weigh the same.
#[verifier::rlimit(40)]
pub proof fn longer_blocks_hold_more(a: CsdResponse, b: CsdResponse)
    requires
        a.raw@[0] < 64,
        b.raw@[0] < 64,
        a.raw@[6] == b.raw@[6],
        a.raw@[7] == b.raw@[7],
        a.raw@[8] == b.raw@[8],
        a.raw@[5] % 16 + a.raw@[9] % 4 * 2 + a.raw@[10] / 128 + 1 == b.raw@[5] % 16 + b.raw@[9] % 4
            * 2 + b.raw@[10] / 128,
    ensures
        a.capacity_bytes() is Some,
        b.capacity_bytes() == Some(2 * a.capacity_bytes()->0),
        a.capacity() is Some,
        b.capacity() is Some,
        b.capacity()->0 / 2 == a.capacity()->0,
{
    let s = (a.c_size_mult() + 2 + a.read_bl_len()) as nat;
    assert(b.c_size_mult() + 2 + b.read_bl_len() == s + 1);
    power2::lemma_pow2_unfold((s + 1) as nat);
    let c = a.c_size_v1() + 1;
    let p = power2::pow2(s) as int;
    assert(c * (2 * p) == 2 * (c * p)) by (nonlinear_arith);
    lemma_capacity_fits(a);
    lemma_capacity_fits(b);
}

// Responses

/// A status word is free of errors exactly if bits 24:19 are clear; each error of its
/// own name stands for one of the bits 24:21 set alone, and whatever else is set is
/// reported as it is.
#[verifier::rlimit(40)]
pub proof fn status_errors_are_told_apart(raw: u32)
    ensures
        ({
            let b = response::status_error_bits(raw);
            let e = response::card_error_of(b);
            let m = raw & 0x01F8_0000;
            &&& (b == 0) == (m == 0)
            &&& (e == CardError::EraseSequence) == (m == 0x0020_0000)
            &&& (e == CardError::CommandCrcFailed) == (m == 0x0040_0000)
            &&& (e == CardError::IllegalCommand) == (m == 0x0080_0000)
            &&& (e == CardError::CardEccFailed) == (m == 0x0100_0000)
            &&& (m != 0 && m != 0x0020_0000 && m != 0x0040_0000 && m != 0x0080_0000 && m
                != 0x0100_0000) ==> (e matches CardError::Unknown(u) && u * 0x8_0000 == m)
        }),
{
    assert(raw & 0x01F8_0000 == (raw / 0x8_0000 % 0x40) * 0x8_0000) by (bit_vector);
}

/// No two groups of error bits are reported as the same error.
pub proof fn card_errors_differ(a: u8, b: u8)
    requires
        response::card_error_of(a) == response::card_error_of(b),
    ensures
        a == b,
{
}

/// The states of a card are numbered in the order in which a card goes through them,
/// and a number that stands for none of them is kept.
pub proof fn states_are_numbered(n: int)
    requires
        0 <= n < 16,
    ensures
        match response::card_state_of(n) {
            CardState::Idle => n == 0,
            CardState::Ready => n == 1,
            CardState::Identification => n == 2,
            CardState::Standby => n == 3,
            CardState::Transfer => n == 4,
            CardState::SendingData => n == 5,
            CardState::ReceiveData => n == 6,
            CardState::Programming => n == 7,
            CardState::Disconnect => n == 8,
            CardState::Reserved(k) => k == n && n > 8,
        },
{
}

/// A card echoes a probe exactly if the low twelve bits of its answer are those of the
/// probe's argument.
pub proof fn echo_repeats_the_argument(r: IfCondResponse, voltage: u8, pattern: u8)
    requires
        voltage < 16,
    ensures
        r.echoes(voltage, pattern) == (r.raw as int % 0x1000 == voltage * 0x100 + pattern),
{
}

/// ACMD41 asks for high capacity in bit 30 and for the voltages of the window in bits
/// 23:11, and no other bit is set.
pub proof fn op_cond_argument_is_the_request(hcs: bool, window: u32)
    ensures
        ({
            let arg = cmd::op_cond_command(hcs, window).arg;
            &&& (arg & 0x4000_0000 != 0) == hcs
            &&& arg & 0x00FF_F800 == window & 0x00FF_F800
            &&& arg & 0xBF00_07FF == 0
        }),
{
    let h: u32 = if hcs {
        0x4000_0000
    } else {
        0
    };
    let arg = cmd::op_cond_command(hcs, window).arg;
    assert(arg & 0x4000_0000 == h && arg & 0x00FF_F800 == window & 0x00FF_F800 && arg & 0xBF00_07FF
        == 0) by (bit_vector)
        requires
            arg == h + window / 0x800 % 0x2000 * 0x800,
            h == 0 || h == 0x4000_0000,
    ;
}

/// The function that is active in group 1 is the low half of byte 16, and nothing else
/// of the status block bears on it.
pub proof fn active_function_is_one_field(a: SwitchStatus, b: SwitchStatus)
    ensures
        (a.group1() == b.group1()) == (a.raw@[16] % 16 == b.raw@[16] % 16),
        a.raw@[16] % 16 == 0 ==> a.group1() == 0,
        b.raw@[16] % 16 == a.raw@[16] % 16 + 1 ==> b.group1() == a.group1() + 1,
{
}

// Addresses

/// Blocks are numbered from zero, and the arguments of neighbouring blocks differ by
/// one on a high-capacity card and by the 512 bytes of a block on any other. Every
/// block of a high-capacity card can be addressed, and those in the first 4 GiB of any
/// other.
pub proof fn neighbouring_blocks_are_a_block_apart(addr: u32, high_capacity: bool)
    ensures
        common::block_arg(0, high_capacity) == 0,
        addr < u32::MAX ==> common::block_arg((addr + 1) as u32, high_capacity)
            - common::block_arg(addr, high_capacity) == (if high_capacity {
            1int
        } else {
            512
        }),
        common::addressable(addr, high_capacity) == (high_capacity || (addr + 1) * 512
            <= 0x1_0000_0000),
{
}

} // verus!
