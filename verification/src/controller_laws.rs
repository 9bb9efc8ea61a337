//! What holds of every run of a controller operation, whatever the controller
//! answers: how it sets the controller up, how a command ends, and what a response
//! says.
use vstd::prelude::*;

use crate::bits;
use crate::clock;
use crate::cmd::{Command, DataDirection};
use crate::error::{ErrorContext, HostError, Phase};
use crate::program::{self, Action, Event, Op, Outcome};
use crate::register_laws;
use crate::registers::{self, Reg};
use crate::response::{Response, ResponseType};
use crate::response_laws;
use crate::sdhci::{self, PendingData};

verus! {

// Setting the controller up

/// The controller is told to report everything and to raise no interrupt, in four
/// writes.
pub proof fn everything_is_reported_and_nothing_raised(t: Seq<Event>, r: Outcome)
    requires
        program::performs(sdhci::interrupts_enabling(), t, r),
    ensures
        r is Ok,
        t.len() == 4,
        t[0].action == Action::Write(Reg::NormalIntStatusEnable, 0xFFFF),
        t[1].action == Action::Write(Reg::ErrorIntStatusEnable, 0xFFFF),
        t[2].action == Action::Write(Reg::NormalIntSignalEnable, 0),
        t[3].action == Action::Write(Reg::ErrorIntSignalEnable, 0),
{
    let ops = sdhci::interrupts_enabling();
    register_laws::lemma_write_first(ops, t, r, Reg::NormalIntStatusEnable, 0xFFFF);
    let u = t.skip(1);
    register_laws::lemma_write_first(ops.skip(1), u, r, Reg::ErrorIntStatusEnable, 0xFFFF);
    let v = u.skip(1);
    register_laws::lemma_write_first(ops.skip(1).skip(1), v, r, Reg::NormalIntSignalEnable, 0);
    let w = v.skip(1);
    register_laws::lemma_write_first(
        ops.skip(1).skip(1).skip(1),
        w,
        r,
        Reg::ErrorIntSignalEnable,
        0,
    );
    register_laws::lemma_nothing_left(ops.skip(1).skip(1).skip(1).skip(1), w.skip(1), r);
    assert(u[0] == t[1] && v[0] == t[2] && w[0] == t[3]);
}

/// Stopping the card's clock clears bit 2 of the clock control register and leaves
/// every other bit, the internal clock among them, as it was.
pub proof fn only_the_cards_clock_is_stopped(t: Seq<Event>, r: Outcome)
    requires
        program::performs(seq![sdhci::clock_gating()], t, r),
    ensures
        r is Ok,
        t.len() == 2,
        t[0].action == Action::Read(Reg::ClockControl),
        t[1].action matches Action::Write(Reg::ClockControl, v) && v & 0x04 == 0 && v & !0x04u32
            == t[0].reply & !0x04u32,
{
    let ops = seq![sdhci::clock_gating()];
    register_laws::lemma_update_first(ops, t, r, Reg::ClockControl, 4, 0);
    register_laws::lemma_nothing_left(ops.skip(1), t.skip(2), r);
    let x = t[0].reply;
    assert(((x & !4u32) | 0u32) & 0x04 == 0 && ((x & !4u32) | 0u32) & !0x04u32 == x & !0x04u32)
        by (bit_vector);
}

/// A clock that passes the reference clock through starts with no divider, and is let
/// out to the card only once the controller has reported it stable.
#[verifier::rlimit(40)]
pub proof fn undivided_clock_comes_up_stable(t: Seq<Event>, r: Outcome)
    requires
        program::performs(sdhci::clock_passing(), t, r),
    ensures
        t.len() >= 2,
        t[0].action matches Action::Write(Reg::ClockControl, v) && register_laws::divider_in(v) == 0
            && v % 0x40 == 1,
        match r {
            Ok(_) => {
                let n = t.len() - 3;
                &&& n >= 1
                &&& t[n].action == Action::Read(Reg::ClockControl)
                &&& t[n].reply & 0x02 != 0
                &&& t[n + 1].action == Action::Read(Reg::ClockControl)
                &&& t[n + 2].action == Action::Write(Reg::ClockControl, t[n + 1].reply | 0x04)
                &&& forall|i: int|
                    1 <= i < n ==> (#[trigger] t[i]).action == Action::Read(Reg::ClockControl)
                        && t[i].reply & 0x02 == 0
            },
            Err(e) => {
                &&& e == HostError::Timeout(ErrorContext { phase: Phase::Init, cmd: None })
                &&& t.len() == 1001
                &&& forall|i: int|
                    1 <= i < 1001 ==> (#[trigger] t[i]).action == Action::Read(Reg::ClockControl)
                        && t[i].reply & 0x02 == 0
            },
        },
{
    let ops = sdhci::clock_passing();
    register_laws::lemma_write_first(ops, t, r, Reg::ClockControl, 1);
    let u = t.skip(1);
    let error = HostError::Timeout(ErrorContext { phase: Phase::Init, cmd: None });
    let n = register_laws::lemma_wait_first(
        ops.skip(1),
        u,
        r,
        Reg::ClockControl,
        2,
        true,
        1000,
        error,
    );
    assert forall|i: int| 0 <= i < u.len() implies #[trigger] u[i] == t[i + 1] by {}
    assert forall|i: int| 1 <= i < t.len() implies #[trigger] t[i] == u[i - 1] by {}
    if u[n - 1].reply & 2 != 0 {
        let v = u.skip(n);
        let rest = ops.skip(1).skip(1);
        register_laws::lemma_update_first(rest, v, r, Reg::ClockControl, 0, 4);
        register_laws::lemma_nothing_left(rest.skip(1), v.skip(2), r);
        assert(v[0] == t[n + 1] && v[1] == t[n + 2]);
        let x = v[0].reply;
        assert((x & !0u32) | 4u32 == x | 0x04u32) by (bit_vector);
    }
}

/// A controller states its reference clock in MHz in the second byte of its
/// capabilities: one more there is one more MHz, and no other bit bears on it.
pub proof fn reference_clock_is_stated_in_mhz(a: u32, b: u32)
    ensures
        a / 0x100 % 0x100 == 0 ==> clock::stated_base_hz(a) == 0,
        a / 0x100 % 0x100 == b / 0x100 % 0x100 ==> clock::stated_base_hz(a)
            == clock::stated_base_hz(b),
        b / 0x100 % 0x100 == a / 0x100 % 0x100 + 1 ==> clock::stated_base_hz(b)
            == clock::stated_base_hz(a) + 1_000_000,
{
}

/// Each reset sets the bit of its own line and no other, reads it back until the
/// controller has cleared it, and is given up after a thousand reads.
pub proof fn each_line_has_its_reset_bit(t: Seq<Event>, r: Outcome)
    ensures
        program::performs(sdhci::resetting(registers::RESET_ALL, Phase::Init), t, r) ==> was_reset(
            0x01,
            Phase::Init,
            t,
            r,
        ),
        program::performs(sdhci::resetting(registers::RESET_CMD, Phase::CommandSend), t, r)
            ==> was_reset(0x02, Phase::CommandSend, t, r),
        program::performs(sdhci::resetting(registers::RESET_DAT, Phase::DataRead), t, r)
            ==> was_reset(0x04, Phase::DataRead, t, r),
{
    if program::performs(sdhci::resetting(registers::RESET_ALL, Phase::Init), t, r) {
        sdhci::reset_waits_for_the_bit(registers::RESET_ALL, Phase::Init, t, r);
    }
    if program::performs(sdhci::resetting(registers::RESET_CMD, Phase::CommandSend), t, r) {
        sdhci::reset_waits_for_the_bit(registers::RESET_CMD, Phase::CommandSend, t, r);
    }
    if program::performs(sdhci::resetting(registers::RESET_DAT, Phase::DataRead), t, r) {
        sdhci::reset_waits_for_the_bit(registers::RESET_DAT, Phase::DataRead, t, r);
    }
}

/// A reset by `bit`: the bit was written, and was read back until it was clear or a
/// thousand times.
pub open spec fn was_reset(bit: u32, phase: Phase, t: Seq<Event>, r: Outcome) -> bool {
    &&& 2 <= t.len() <= 1001
    &&& t[0].action == Action::Write(Reg::SoftwareReset, bit)
    &&& forall|i: int|
        0 < i < t.len() ==> (#[trigger] t[i]).action == Action::Read(Reg::SoftwareReset)
    &&& forall|i: int| 0 < i < t.len() - 1 ==> (#[trigger] t[i]).reply & bit != 0
    &&& match r {
        Ok(_) => t.last().reply & bit == 0,
        Err(e) => t.len() == 1001 && t.last().reply & bit != 0 && e == HostError::Timeout(
            ErrorContext { phase, cmd: None },
        ),
    }
}

/// Setting the power writes the byte once, with the bit that turns the power on.
pub proof fn power_is_turned_on(power_byte: u8, t: Seq<Event>, r: Outcome)
    requires
        program::performs(
            seq![Op::Write(Reg::PowerControl, power_byte as u32 | registers::POWER_ON)],
            t,
            r,
        ),
    ensures
        r is Ok,
        t.len() == 1,
        t[0].action matches Action::Write(Reg::PowerControl, v) && v == power_byte / 2 * 2 + 1,
{
    let v = power_byte as u32 | registers::POWER_ON;
    let ops = seq![Op::Write(Reg::PowerControl, v)];
    register_laws::lemma_write_first(ops, t, r, Reg::PowerControl, v);
    register_laws::lemma_nothing_left(ops.skip(1), t.skip(1), r);
    assert(power_byte as u32 | 1 == power_byte as u32 / 2 * 2 + 1) by (bit_vector);
}

/// A failure names where it arose: its phase, and its command where it concerns one.
pub proof fn failures_name_where_they_arose(phase: Phase, cmd: u8)
    ensures
        sdhci::about(phase, cmd).phase == phase,
        sdhci::about(phase, cmd).cmd == Some(cmd),
        sdhci::during(phase).phase == phase,
        sdhci::during(phase).cmd is None,
{
}

// The end of a command

/// The failure of a command that the bits of the error status stand for.
pub open spec fn flagged(status: u32, cmd: u8) -> HostError {
    let context = ErrorContext { phase: Phase::ResponseWait, cmd: Some(cmd) };
    if status & 0x0001 != 0 {
        HostError::Timeout(context)
    } else if status & 0x0002 != 0 {
        HostError::Crc(context)
    } else {
        HostError::BadResponse(context)
    }
}

/// A command fails by a timeout if the lines that it needs were never reported free,
/// and then nothing was written; as the error status says once that was read and
/// cleared; or by a timeout if the controller reported nothing.
#[verifier::rlimit(40)]
pub proof fn command_fails_as_reported(
    cmd: Command,
    data: Option<PendingData>,
    dma: bool,
    t: Seq<Event>,
    e: HostError,
)
    requires
        program::performs(sdhci::command_issuing(cmd, data, dma), t, Err(e)),
    ensures
        ({
            ||| {
                &&& t.len() == 1_000_000
                &&& forall|i: int|
                    0 <= i < t.len() ==> (#[trigger] t[i]).action == Action::Read(Reg::PresentState)
                        && t[i].reply & (if data is Some {
                        3u32
                    } else {
                        1u32
                    }) != 0
                &&& e == HostError::Timeout(
                    ErrorContext { phase: Phase::CommandSend, cmd: Some(cmd.cmd) },
                )
            }
            ||| {
                &&& t.len() > 2
                &&& t[t.len() - 3].action == Action::Read(Reg::NormalIntStatus)
                &&& t[t.len() - 3].reply & 0x0001 == 0
                &&& t[t.len() - 3].reply & 0x8000 != 0
                &&& t[t.len() - 2].action == Action::Read(Reg::ErrorIntStatus)
                &&& t.last().action == Action::Write(Reg::ErrorIntStatus, 0xFFFF)
                &&& e == flagged(t[t.len() - 2].reply, cmd.cmd)
            }
            ||| {
                &&& t.len() > 1_000_000
                &&& forall|i: int|
                    t.len() - 1_000_000 <= i < t.len() ==> (#[trigger] t[i]).action == Action::Read(
                        Reg::NormalIntStatus,
                    ) && t[i].reply & 0x0001 == 0 && t[i].reply & 0x8000 == 0
                &&& e == HostError::Timeout(
                    ErrorContext { phase: Phase::ResponseWait, cmd: Some(cmd.cmd) },
                )
            }
        }),
{
    let ops = sdhci::command_issuing(cmd, data, dma);
    let (done, n) = choose|done: int, n: int| #[trigger] program::broke(ops, done, n, t, e);
    let u = t.skip(n);
    lemma_what_can_fail(cmd, data, dma, done, u, e);
    if done == 0 {
        let kept = choose|k: Seq<u32>| #[trigger] program::ran(ops.take(0), t.take(n), k);
        assert(ops.take(0).len() == 0);
        assert(t.take(n).len() == 0);
        assert(u =~= t);
        lemma_lines_stay_busy(cmd, data is Some, t, e);
    } else {
        assert(n > 0) by {
            let kept = choose|k: Seq<u32>| #[trigger] program::ran(ops.take(done), t.take(n), k);
            lemma_some_event(ops, done, t.take(n), kept);
        }
        lemma_command_unsettled(cmd, u, e);
        assert forall|i: int| n <= i < t.len() implies #[trigger] t[i] == u[i - n] by {}
    }
}

/// Of the operations of a command only the wait for the lines and that for the
/// completion can fail.
#[verifier::rlimit(40)]
proof fn lemma_what_can_fail(
    cmd: Command,
    data: Option<PendingData>,
    dma: bool,
    k: int,
    t: Seq<Event>,
    e: HostError,
)
    requires
        0 <= k < sdhci::command_issuing(cmd, data, dma).len(),
        sdhci::command_issuing(cmd, data, dma)[k].does(t, Err(e)),
    ensures
        ({
            let ops = sdhci::command_issuing(cmd, data, dma);
            ||| k == 0 && ops[0] == sdhci::command_opening(cmd, data is Some)[0]
            ||| k > 0 && ops[k] == sdhci::command_sending(cmd, data is Some)[2]
        }),
{
    reveal(Op::does);
    let ops = sdhci::command_issuing(cmd, data, dma);
    let a = sdhci::command_opening(cmd, data is Some);
    let b = sdhci::data_shaping(data, dma);
    let c = sdhci::command_sending(cmd, data is Some);
    let d = sdhci::response_reading(cmd.resp_type);
    if k < 3 {
        assert(ops[k] == a[k]);
    } else if k < 3 + b.len() {
        assert(ops[k] == b[k - 3]);
    } else if k < 7 + b.len() {
        assert(ops[k] == c[k - 3 - b.len()]);
    } else {
        assert(ops[k] == d[k - 7 - b.len()]);
    }
}

/// Operations that were done have left events.
proof fn lemma_some_event(ops: Seq<Op>, done: int, t: Seq<Event>, kept: Seq<u32>)
    requires
        0 < done <= ops.len(),
        program::ran(ops.take(done), t, kept),
    ensures
        t.len() > 0,
{
    reveal(Op::does);
    let (n, k) = program::lemma_ran_splits(ops.take(done), t, kept);
}

proof fn lemma_lines_stay_busy(cmd: Command, has_data: bool, t: Seq<Event>, e: HostError)
    requires
        sdhci::command_opening(cmd, has_data)[0].does(t, Err(e)),
    ensures
        t.len() == 1_000_000,
        forall|i: int|
            0 <= i < t.len() ==> (#[trigger] t[i]).action == Action::Read(Reg::PresentState)
                && t[i].reply & (if has_data {
                3u32
            } else {
                1u32
            }) != 0,
        e == HostError::Timeout(ErrorContext { phase: Phase::CommandSend, cmd: Some(cmd.cmd) }),
{
    reveal(Op::does);
    assert(t.last() == t[t.len() - 1]);
}

#[verifier::rlimit(40)]
proof fn lemma_command_unsettled(cmd: Command, t: Seq<Event>, e: HostError)
    requires
        sdhci::command_sending(cmd, true)[2].does(t, Err(e)) || sdhci::command_sending(
            cmd,
            false,
        )[2].does(t, Err(e)),
    ensures
        ({
            ||| {
                &&& t.len() > 2
                &&& t[t.len() - 3].action == Action::Read(Reg::NormalIntStatus)
                &&& t[t.len() - 3].reply & 0x0001 == 0
                &&& t[t.len() - 3].reply & 0x8000 != 0
                &&& t[t.len() - 2].action == Action::Read(Reg::ErrorIntStatus)
                &&& t.last().action == Action::Write(Reg::ErrorIntStatus, 0xFFFF)
                &&& e == flagged(t[t.len() - 2].reply, cmd.cmd)
            }
            ||| {
                &&& t.len() == 1_000_000
                &&& forall|i: int|
                    0 <= i < t.len() ==> (#[trigger] t[i]).action == Action::Read(
                        Reg::NormalIntStatus,
                    ) && t[i].reply & 0x0001 == 0 && t[i].reply & 0x8000 == 0
                &&& e == HostError::Timeout(
                    ErrorContext { phase: Phase::ResponseWait, cmd: Some(cmd.cmd) },
                )
            }
        }),
{
    reveal(Op::does);
    let context = ErrorContext { phase: Phase::ResponseWait, cmd: Some(cmd.cmd) };
    assert(program::settles(1, 0x0F, context, false, t, Err(e)));
    if t.last().action == Action::Read(Reg::NormalIntStatus) {
        assert(program::watches(1, t));
        program::lemma_either(t.last().reply, 1, 0x8000);
        assert forall|i: int| 0 <= i < t.len() implies (#[trigger] t[i]).action == Action::Read(
            Reg::NormalIntStatus,
        ) && t[i].reply & 0x0001 == 0 && t[i].reply & 0x8000 == 0 by {
            program::lemma_either(t[i].reply, 1, 0x8000);
        }
    } else {
        let n = t.len() - 2;
        assert(program::watches(1, t.take(n)));
        assert(t.take(n)[n - 1] == t[n - 1]);
        let s = t[n].reply;
        assert((s & 0x0Fu32) & 0x11 == s & 0x01 && (s & 0x0Fu32) & 0x22 == s & 0x02 && (s & 0x0Fu32)
            & 0x70 == 0) by (bit_vector);
    }
}

/// `v` was written to `reg` before a command was.
pub open spec fn written_before_command(t: Seq<Event>, reg: Reg, v: u32) -> bool {
    exists|i: int, j: int|
        {
            &&& 0 <= i < j < t.len()
            &&& (#[trigger] t[i]).action == Action::Write(reg, v)
            &&& (#[trigger] t[j]).action matches Action::Write(Reg::Command, _)
        }
}

proof fn lemma_written(
    cmd: Command,
    data: Option<PendingData>,
    dma: bool,
    t: Seq<Event>,
    words: Seq<u32>,
    k: int,
    reg: Reg,
    v: u32,
)
    requires
        program::performs(sdhci::command_issuing(cmd, data, dma), t, Ok(words)),
        0 <= k < 4 + sdhci::data_shaping(data, dma).len(),
        sdhci::command_issuing(cmd, data, dma)[k] == Op::Write(reg, v),
    ensures
        written_before_command(t, reg, v),
{
    let ops = sdhci::command_issuing(cmd, data, dma);
    let l = 4 + sdhci::data_shaping(data, dma).len() as int;
    assert(ops[l] == sdhci::command_sending(cmd, data is Some)[1]);
    let (i, j) = program::success_writes_in_order(
        ops,
        t,
        words,
        k,
        l,
        reg,
        v,
        Reg::Command,
        sdhci::command_word(cmd, data is Some) as u32,
    );
    assert(t[i].action == Action::Write(reg, v));
    assert(t[j].action matches Action::Write(Reg::Command, _));
}

/// Before a command is sent, whatever earlier commands reported is cleared, its argument
/// is written, and its data phase is described: by a transfer mode of 0 where there is
/// none, and else by its block size, its number of blocks, its timeout and its transfer
/// mode.
#[verifier::rlimit(40)]
pub proof fn command_is_described_before_it_is_sent(
    cmd: Command,
    data: Option<PendingData>,
    dma: bool,
    t: Seq<Event>,
    words: Seq<u32>,
)
    requires
        program::performs(sdhci::command_issuing(cmd, data, dma), t, Ok(words)),
    ensures
        written_before_command(t, Reg::NormalIntStatus, 0xFFFF),
        written_before_command(t, Reg::ErrorIntStatus, 0xFFFF),
        written_before_command(t, Reg::Argument, cmd.arg),
        match data {
            None => written_before_command(t, Reg::TransferMode, 0),
            Some(d) => {
                &&& written_before_command(t, Reg::BlockSize, (d.block_size % 4096) as u32)
                &&& written_before_command(t, Reg::BlockCount, (d.block_count % 0x1_0000) as u32)
                &&& written_before_command(t, Reg::TimeoutControl, 0x0E)
                &&& exists|v: u32| #[trigger]
                    written_before_command(t, Reg::TransferMode, v) && v / 2 % 2 == 1
            },
        },
{
    let ops = sdhci::command_issuing(cmd, data, dma);
    let a = sdhci::command_opening(cmd, data is Some);
    let b = sdhci::data_shaping(data, dma);
    let c = sdhci::command_sending(cmd, data is Some);
    let l = b.len() as int;
    assert(ops[1] == a[1] && ops[2] == a[2] && ops[3] == b[0] && ops[3 + l] == c[0]);
    lemma_written(cmd, data, dma, t, words, 1, Reg::NormalIntStatus, 0xFFFF);
    lemma_written(cmd, data, dma, t, words, 2, Reg::ErrorIntStatus, 0xFFFF);
    lemma_written(cmd, data, dma, t, words, 3 + l, Reg::Argument, cmd.arg);
    match data {
        None => {
            lemma_written(cmd, data, dma, t, words, 3, Reg::TransferMode, 0);
        },
        Some(d) => {
            assert(ops[4] == b[1] && ops[5] == b[2] && ops[6] == b[3]);
            let size = (d.block_size % 4096) as u32;
            let count = (d.block_count % 0x1_0000) as u32;
            let mode = sdhci::transfer_mode(d, dma) as u32;
            lemma_written(cmd, data, dma, t, words, 3, Reg::BlockSize, size);
            lemma_written(cmd, data, dma, t, words, 4, Reg::BlockCount, count);
            lemma_written(cmd, data, dma, t, words, 5, Reg::TimeoutControl, 0x0E);
            lemma_written(cmd, data, dma, t, words, 6, Reg::TransferMode, mode);
            assert(mode / 2 % 2 == 1);
        },
    }
}

/// A command that succeeds was sent, was reported complete after that, and its
/// completion was then acknowledged.
#[verifier::rlimit(40)]
pub proof fn command_succeeds_when_complete(
    cmd: Command,
    data: Option<PendingData>,
    dma: bool,
    t: Seq<Event>,
    words: Seq<u32>,
) -> (w: (int, int, int))
    requires
        program::performs(sdhci::command_issuing(cmd, data, dma), t, Ok(words)),
    ensures
        0 <= w.0 < w.1 < w.2 < t.len(),
        t[w.0].action matches Action::Write(Reg::Command, v) && v / 0x100 == cmd.cmd,
        t[w.1].action == Action::Read(Reg::NormalIntStatus),
        t[w.1].reply & 0x0001 != 0,
        t[w.2].action == Action::Write(Reg::NormalIntStatus, 0x0001),
{
    let ops = sdhci::command_issuing(cmd, data, dma);
    let b = sdhci::data_shaping(data, dma);
    let c = sdhci::command_sending(cmd, data is Some);
    let k = 3 + b.len() as int;
    assert(ops[k + 1] == c[1] && ops[k + 2] == c[2] && ops[k + 3] == c[3]);
    let (u, v, before, _x) = program::lemma_ran_reaches(ops, t, words, k + 3);
    let s = t.take(u);
    let (p, q, sofar, kept) = program::lemma_ran_reaches(ops.take(k + 3), s, before, k + 2);
    let (m, n, _y, _z) = program::lemma_ran_reaches(ops.take(k + 3).take(k + 2), s.take(p), sofar, k + 1);
    lemma_sending_steps(cmd, data is Some, s.take(p).subrange(m, n), s.subrange(p, q), t.subrange(u, v));
    assert(s.take(p).subrange(m, n)[0] == t[m]);
    assert(s.subrange(p, q).last() == t[q - 1]);
    assert(t.subrange(u, v)[0] == t[u]);
    (m, q - 1, u)
}

proof fn lemma_sending_steps(
    cmd: Command,
    has_data: bool,
    first: Seq<Event>,
    second: Seq<Event>,
    third: Seq<Event>,
)
    requires
        exists|kept: Seq<u32>| #[trigger] sdhci::command_sending(cmd, has_data)[1].does(first, Ok(kept)),
        exists|kept: Seq<u32>| #[trigger] sdhci::command_sending(cmd, has_data)[2].does(second, Ok(kept)),
        exists|kept: Seq<u32>| #[trigger] sdhci::command_sending(cmd, has_data)[3].does(third, Ok(kept)),
    ensures
        first.len() == 1,
        first[0].action matches Action::Write(Reg::Command, v) && v / 0x100 == cmd.cmd,
        second.len() > 0,
        second.last().action == Action::Read(Reg::NormalIntStatus),
        second.last().reply & 0x0001 != 0,
        third.len() == 1,
        third[0].action == Action::Write(Reg::NormalIntStatus, 0x0001),
{
    reveal(Op::does);
    sdhci::command_word_keeps_the_index(cmd, has_data);
    let context = ErrorContext { phase: Phase::ResponseWait, cmd: Some(cmd.cmd) };
    let kept = choose|kept: Seq<u32>| #[trigger]
        sdhci::command_sending(cmd, has_data)[2].does(second, Ok(kept));
    assert(program::settles(1, 0x0F, context, false, second, Ok(kept)));
    assert(program::watches(1, second));
}

/// The command register says what response the card will give: none, one of 136 bits
/// for R2, one that the card may hold back for R1b, and one of 48 bits otherwise. The
/// CRC is checked of those that carry one, and the index of those that repeat it.
#[verifier::rlimit(40)]
pub proof fn command_register_says_what_is_expected(cmd: Command, has_data: bool)
    ensures
        ({
            let w = sdhci::command_word(cmd, has_data);
            let ty = cmd.resp_type;
            let bare = ty == ResponseType::NoResponse || ty == ResponseType::R3 || ty
                == ResponseType::R4;
            &&& w % 4 == (if ty == ResponseType::NoResponse {
                0int
            } else if ty == ResponseType::R2 {
                1
            } else if ty == ResponseType::R1b {
                3
            } else {
                2
            })
            &&& w / 4 % 2 == 0
            &&& w / 8 % 2 == bits::digit(!bare)
            &&& w / 16 % 2 == bits::digit(!bare && ty != ResponseType::R2)
            &&& w / 32 % 2 == bits::digit(has_data)
            &&& w / 64 % 4 == 0
            &&& w / 256 == cmd.cmd
        }),
{
}

// Responses

/// A response is what its words say. A status word with one of the bits 24:19 set is a
/// failure, and any other is handed on; the words of R3, R6 and R7 are handed on as they
/// are; R2 is the number that the four words make, the last word first, shifted up by
/// the byte of the CRC; and a command without a response has none.
#[verifier::rlimit(40)]
pub proof fn response_is_what_its_words_say(
    resp_type: ResponseType,
    words: Seq<u32>,
    r: Result<Response, HostError>,
)
    requires
        words.len() == sdhci::response_reading(resp_type).len(),
        sdhci::answers(resp_type, words, r),
    ensures
        match resp_type {
            ResponseType::NoResponse => r matches Ok(Response::NoResponse),
            ResponseType::R1 | ResponseType::R1b => if words[0] & 0x01F8_0000 == 0 {
                r matches Ok(Response::R1(x)) && x.raw == words[0]
            } else {
                r matches Err(HostError::CardError(_))
            },
            ResponseType::R2 => r matches Ok(Response::R2(raw)) && ({
                &&& raw@[15] == 0
                &&& raw@[0] * 0x1_0000 + raw@[1] * 0x100 + raw@[2] == words[3] % 0x100_0000
                &&& bits::be_value(raw@.subrange(3, 7)) == words[2]
                &&& bits::be_value(raw@.subrange(7, 11)) == words[1]
                &&& bits::be_value(raw@.subrange(11, 15)) == words[0]
            }),
            ResponseType::R3 => r matches Ok(Response::R3(x)) && x.raw == words[0],
            ResponseType::R6 => r matches Ok(Response::R6(x)) && x.raw == words[0],
            ResponseType::R7 => r matches Ok(Response::R7(x)) && x.raw == words[0],
            ResponseType::R4 | ResponseType::R5 => r matches Err(HostError::BadResponse(_)),
        },
{
    match resp_type {
        ResponseType::R1 | ResponseType::R1b => {
            response_laws::status_errors_are_told_apart(words[0]);
        },
        ResponseType::R2 => {
            lemma_r2_parts(words, r->Ok_0->R2_0@);
        },
        _ => {},
    }
}

/// A command that succeeds returns what the response registers answered at its end: the
/// first one for a short response; for R2 all four, of which the last holds the start of
/// the frame and the first its end.
#[verifier::rlimit(40)]
pub proof fn response_comes_from_the_registers(
    cmd: Command,
    data: Option<PendingData>,
    dma: bool,
    t: Seq<Event>,
    r: Result<Response, HostError>,
)
    requires
        sdhci::responds(sdhci::command_issuing(cmd, data, dma), t, cmd.resp_type, r),
    ensures
        match r {
            Ok(Response::NoResponse) => cmd.resp_type == ResponseType::NoResponse,
            Ok(Response::R1(x)) => (cmd.resp_type == ResponseType::R1 || cmd.resp_type
                == ResponseType::R1b) && last_read(t, 1, Reg::Response0) == x.raw && x.raw
                & 0x01F8_0000 == 0,
            Ok(Response::R3(x)) => cmd.resp_type == ResponseType::R3 && last_read(
                t,
                1,
                Reg::Response0,
            ) == x.raw,
            Ok(Response::R6(x)) => cmd.resp_type == ResponseType::R6 && last_read(
                t,
                1,
                Reg::Response0,
            ) == x.raw,
            Ok(Response::R7(x)) => cmd.resp_type == ResponseType::R7 && last_read(
                t,
                1,
                Reg::Response0,
            ) == x.raw,
            Ok(Response::R2(raw)) => {
                &&& cmd.resp_type == ResponseType::R2
                &&& last_read(t, 1, Reg::Response3) % 0x100_0000 == raw@[0] * 0x1_0000 + raw@[1]
                    * 0x100 + raw@[2]
                &&& last_read(t, 2, Reg::Response2) == raw@[3] * 0x100_0000 + raw@[4] * 0x1_0000
                    + raw@[5] * 0x100 + raw@[6]
                &&& last_read(t, 3, Reg::Response1) == raw@[7] * 0x100_0000 + raw@[8] * 0x1_0000
                    + raw@[9] * 0x100 + raw@[10]
                &&& last_read(t, 4, Reg::Response0) == raw@[11] * 0x100_0000 + raw@[12] * 0x1_0000
                    + raw@[13] * 0x100 + raw@[14]
                &&& raw@[15] == 0
            },
            Ok(_) => false,
            Err(e) => {
                ||| program::performs(sdhci::command_issuing(cmd, data, dma), t, Err(e))
                ||| e is CardError && (cmd.resp_type == ResponseType::R1 || cmd.resp_type
                    == ResponseType::R1b) && last_read(t, 1, Reg::Response0) >= 0 && t.last().reply
                    & 0x01F8_0000 != 0
                ||| e is BadResponse && (cmd.resp_type == ResponseType::R4 || cmd.resp_type
                    == ResponseType::R5)
            },
        },
{
    let ops = sdhci::command_issuing(cmd, data, dma);
    let o = choose|o: Outcome| #[trigger]
        program::performs(ops, t, o) && match o {
            Ok(words) => sdhci::answers(cmd.resp_type, words, r),
            Err(e) => r == Err::<Response, HostError>(e),
        };
    if let Ok(words) = o {
        register_laws::response_words_come_from_their_registers(cmd, data, dma, t, words);
        sdhci::lemma_issuing_keeps(cmd, data, dma);
        program::lemma_ran_keeps(ops, t, words);
        response_is_what_its_words_say(cmd.resp_type, words, r);
        if let Ok(Response::R2(raw)) = r {
            let x = raw@.subrange(3, 7);
            let y = raw@.subrange(7, 11);
            let z = raw@.subrange(11, 15);
            assert(x[0] == raw@[3] && x[1] == raw@[4] && x[2] == raw@[5] && x[3] == raw@[6]);
            assert(y[0] == raw@[7] && y[1] == raw@[8] && y[2] == raw@[9] && y[3] == raw@[10]);
            assert(z[0] == raw@[11] && z[1] == raw@[12] && z[2] == raw@[13] && z[3] == raw@[14]);
        }
    }
}

/// What the read of `reg` brought that is `n`th from the end; -1 if there is none.
pub open spec fn last_read(t: Seq<Event>, n: int, reg: Reg) -> int {
    if n <= t.len() && t[t.len() - n].action == Action::Read(reg) {
        t[t.len() - n].reply as int
    } else {
        -1
    }
}

#[verifier::rlimit(40)]
proof fn lemma_r2_parts(words: Seq<u32>, raw: Seq<u8>)
    requires
        words.len() == 4,
        raw == sdhci::r2_bytes(words),
    ensures
        raw.len() == 16,
        raw[15] == 0,
        raw[0] * 0x1_0000 + raw[1] * 0x100 + raw[2] == words[3] % 0x100_0000,
        bits::be_value(raw.subrange(3, 7)) == words[2],
        bits::be_value(raw.subrange(7, 11)) == words[1],
        bits::be_value(raw.subrange(11, 15)) == words[0],
{
    bits::be_value_undoes_be_bytes(words[0]);
    bits::be_value_undoes_be_bytes(words[1]);
    bits::be_value_undoes_be_bytes(words[2]);
    bits::be_value_undoes_be_bytes(words[3]);
    assert(raw.subrange(3, 7) =~= bits::be_bytes_of(words[2]));
    assert(raw.subrange(7, 11) =~= bits::be_bytes_of(words[1]));
    assert(raw.subrange(11, 15) =~= bits::be_bytes_of(words[0]));
    let b = bits::be_bytes_of(words[3]);
    assert(raw[0] == b[1] && raw[1] == b[2] && raw[2] == b[3]);
}

/// The data phase that is recorded for a command is the one that was announced, and
/// none where none was.
pub proof fn recorded_phase_is_the_announced_one(
    direction: DataDirection,
    block_size: u32,
    block_count: u32,
)
    ensures
        match sdhci::pending_of(direction, block_size, block_count) {
            Some(d) => direction != DataDirection::NoData && d.direction == direction
                && d.block_size == block_size && d.block_count == block_count,
            None => direction == DataDirection::NoData,
        },
{
}

} // verus!
