//! What holds of every run of a controller operation, whatever the controller
//! answers: which values reach which registers, and in which order.
use vstd::prelude::*;

use crate::adma;
use crate::bits;
use crate::clock;
use crate::cmd::{Command, DataDirection};
use crate::error::{ErrorContext, HostError, Phase};
use crate::program::{self, Action, Event, Op, Outcome};
use crate::registers::Reg;
use crate::response::ResponseType;
use crate::sdhci::{self, PendingData};
use crate::sdio::{BusWidth, ClockSpeed, SignalVoltage};

verus! {

/// The first operation of a program that cannot fail, and what follows it.
pub(crate) proof fn lemma_peel(ops: Seq<Op>, t: Seq<Event>, r: Outcome) -> (w: (int, Seq<u32>, Outcome))
    requires
        ops.len() > 0,
        program::performs(ops, t, r),
        ops[0] is Write || ops[0] is Keep || ops[0] is Update || ops[0] is Switch || ops[0] is Retune
            || ops[0] is ShapeTuning,
    ensures
        0 <= w.0 <= t.len(),
        ops[0].does(t.take(w.0), Ok(w.1)),
        program::performs(ops.skip(1), t.skip(w.0), w.2),
        r == program::follow(w.1, w.2),
{
    reveal(Op::does);
    program::operations_follow_each_other(ops, t, r);
    let n = choose|n: int| #[trigger] program::begins(ops, t, r, n);
    let (first, rest) = choose|first: Seq<u32>, rest: Outcome|
        {
            &&& ops[0].does(t.take(n), Ok(first))
            &&& program::performs(ops.skip(1), t.skip(n), rest)
            &&& r == #[trigger] program::follow(first, rest)
        };
    (n, first, rest)
}

/// A program that begins with an update reads the register and writes it back.
pub(crate) proof fn lemma_update_first(ops: Seq<Op>, t: Seq<Event>, r: Outcome, reg: Reg, clear: u32, set: u32)
    requires
        ops.len() > 0,
        program::performs(ops, t, r),
        ops[0] == (Op::Update { reg, clear, set }),
    ensures
        t.len() >= 2,
        t[0].action == Action::Read(reg),
        t[1].action == Action::Write(reg, (t[0].reply & !clear) | set),
        program::performs(ops.skip(1), t.skip(2), r),
{
    reveal(Op::does);
    let (n, first, rest) = lemma_peel(ops, t, r);
    assert(t.take(n)[0] == t[0] && t.take(n)[1] == t[1]);
    if let Ok(kept) = rest {
        assert(first + kept =~= kept);
    }
}

/// A program that begins with a plain write makes it first.
pub(crate) proof fn lemma_write_first(ops: Seq<Op>, t: Seq<Event>, r: Outcome, reg: Reg, v: u32)
    requires
        ops.len() > 0,
        program::performs(ops, t, r),
        ops[0] == Op::Write(reg, v),
    ensures
        t.len() >= 1,
        t[0].action == Action::Write(reg, v),
        program::performs(ops.skip(1), t.skip(1), r),
{
    reveal(Op::does);
    let (n, first, rest) = lemma_peel(ops, t, r);
    assert(t.take(n)[0] == t[0]);
    if let Ok(kept) = rest {
        assert(first + kept =~= kept);
    }
}

/// A program that begins with a wait reads until it ends, and goes on if it is met.
pub(crate) proof fn lemma_wait_first(
    ops: Seq<Op>,
    t: Seq<Event>,
    r: Outcome,
    reg: Reg,
    mask: u32,
    set: bool,
    limit: u32,
    error: HostError,
) -> (n: int)
    requires
        ops.len() > 0,
        program::performs(ops, t, r),
        ops[0] == (Op::Await { reg, mask, until_set: set, limit, error }),
    ensures
        0 < n <= t.len(),
        n <= limit,
        forall|i: int| 0 <= i < n ==> (#[trigger] t[i]).action == Action::Read(reg),
        forall|i: int| 0 <= i < n - 1 ==> ((#[trigger] t[i]).reply & mask != 0) != set,
        if (t[n - 1].reply & mask != 0) == set {
            program::performs(ops.skip(1), t.skip(n), r)
        } else {
            n == limit && n == t.len() && r == Err::<Seq<u32>, HostError>(error)
        },
{
    reveal(Op::does);
    program::operations_follow_each_other(ops, t, r);
    let n = choose|n: int| #[trigger] program::begins(ops, t, r, n);
    assert(t.take(t.len() as int) =~= t);
    let polls = t.take(n);
    assert forall|i: int| 0 <= i < n implies #[trigger] t[i] == polls[i] by {}
    if n == t.len() && r is Err && ops[0].does(t, r) {
        assert(polls.last() == t[n - 1]);
    } else {
        let (first, rest) = choose|first: Seq<u32>, rest: Outcome|
            {
                &&& ops[0].does(t.take(n), Ok(first))
                &&& program::performs(ops.skip(1), t.skip(n), rest)
                &&& r == #[trigger] program::follow(first, rest)
            };
        assert(polls.last() == t[n - 1]);
        if let Ok(kept) = rest {
            assert(first + kept =~= kept);
        }
    }
    n
}

/// A program that is over.
pub(crate) proof fn lemma_nothing_left(ops: Seq<Op>, t: Seq<Event>, r: Outcome)
    requires
        ops.len() == 0,
        program::performs(ops, t, r),
    ensures
        t.len() == 0,
        r == Ok::<Seq<u32>, HostError>(Seq::empty()),
{
    if let Ok(kept) = r {
        assert(kept =~= Seq::empty());
    }
}

// Commands

/// What a command with a data phase may write: the block size and the number of
/// blocks as far as the registers hold them, the direction, whether there is more
/// than one block and whether DMA moves them, the longest timeout, the argument and
/// the index.
pub open spec fn tells_the_phase(phase: PendingData, dma: bool, cmd: Command, a: Action) -> bool {
    match a {
        Action::Write(Reg::BlockSize, v) => v == phase.block_size % 4096,
        Action::Write(Reg::BlockCount, v) => v == phase.block_count % 0x1_0000,
        Action::Write(Reg::TransferMode, v) => {
            &&& v < 0x40
            &&& v % 2 == bits::digit(dma)
            &&& v / 2 % 2 == 1
            &&& v / 4 % 2 == bits::digit(phase.block_count > 1)
            &&& v / 8 % 2 == 0
            &&& v / 16 % 2 == bits::digit(phase.direction == DataDirection::Read)
            &&& v / 32 % 2 == bits::digit(phase.block_count > 1)
        },
        Action::Write(Reg::TimeoutControl, v) => v == 0x0E,
        Action::Write(Reg::Argument, v) => v == cmd.arg,
        Action::Write(Reg::Command, v) => v / 0x100 == cmd.cmd && v / 0x20 % 2 == 1,
        _ => true,
    }
}

/// The bits of the transfer mode are those of the data phase.
proof fn lemma_mode_bits(d: PendingData, dma: bool, cmd: Command)
    ensures
        tells_the_phase(
            d,
            dma,
            cmd,
            Action::Write(Reg::TransferMode, sdhci::transfer_mode(d, dma) as u32),
        ),
{
}

/// The operations that shape a data phase and send a command tell the phase.
proof fn lemma_operations_tell(d: PendingData, dma: bool, cmd: Command, k: int, a: Action)
    requires
        0 <= k < sdhci::command_issuing(cmd, Some(d), dma).len(),
        sdhci::command_issuing(cmd, Some(d), dma)[k].may(a),
    ensures
        tells_the_phase(d, dma, cmd, a),
{
    let ops = sdhci::command_issuing(cmd, Some(d), dma);
    let opening = sdhci::command_opening(cmd, true);
    let shaping = sdhci::data_shaping(Some(d), dma);
    let sending = sdhci::command_sending(cmd, true);
    let reading = sdhci::response_reading(cmd.resp_type);
    if k < 3 {
        assert(ops[k] == opening[k]);
    } else if k < 7 {
        lemma_mode_bits(d, dma, cmd);
        assert(ops[k] == shaping[k - 3]);
    } else if k < 11 {
        assert(ops[k] == sending[k - 7]);
    } else {
        assert(ops[k] == reading[k - 11]);
    }
}

/// A command whose data phase was announced tells the controller that very phase,
/// and a command that succeeds has told it the block size before it was sent.
#[verifier::rlimit(40)]
pub proof fn announced_data_phase_reaches_the_controller(
    direction: DataDirection,
    block_size: u32,
    block_count: u32,
    cmd: Command,
    dma: bool,
    t: Seq<Event>,
    r: Outcome,
)
    requires
        direction != DataDirection::NoData,
        program::performs(
            sdhci::command_issuing(
                cmd,
                sdhci::pending_of(direction, block_size, block_count),
                dma,
            ),
            t,
            r,
        ),
    ensures
        forall|i: int|
            0 <= i < t.len() ==> tells_the_phase(
                PendingData { direction, block_size, block_count },
                dma,
                cmd,
                (#[trigger] t[i]).action,
            ),
        r is Ok ==> exists|i: int, j: int|
            {
                &&& 0 <= i < j < t.len()
                &&& (#[trigger] t[i]).action == Action::Write(
                    Reg::BlockSize,
                    (block_size % 4096) as u32,
                )
                &&& (#[trigger] t[j]).action matches Action::Write(Reg::Command, _)
            },
{
    let d = PendingData { direction, block_size, block_count };
    let ops = sdhci::command_issuing(cmd, Some(d), dma);
    assert forall|i: int| 0 <= i < t.len() implies tells_the_phase(
        d,
        dma,
        cmd,
        (#[trigger] t[i]).action,
    ) by {
        let k = program::accesses_are_the_operations_own(ops, t, r, i);
        lemma_operations_tell(d, dma, cmd, k, t[i].action);
    }
    if let Ok(kept) = r {
        lemma_size_before_command(d, cmd, dma, t, kept);
    }
}

proof fn lemma_size_before_command(
    d: PendingData,
    cmd: Command,
    dma: bool,
    t: Seq<Event>,
    kept: Seq<u32>,
)
    requires
        program::performs(sdhci::command_issuing(cmd, Some(d), dma), t, Ok(kept)),
    ensures
        exists|i: int, j: int|
            {
                &&& 0 <= i < j < t.len()
                &&& (#[trigger] t[i]).action == Action::Write(
                    Reg::BlockSize,
                    (d.block_size % 4096) as u32,
                )
                &&& (#[trigger] t[j]).action matches Action::Write(Reg::Command, _)
            },
{
    let ops = sdhci::command_issuing(cmd, Some(d), dma);
    let shaping = sdhci::data_shaping(Some(d), dma);
    let sending = sdhci::command_sending(cmd, true);
    assert(ops[3] == shaping[0]);
    assert(ops[8] == sending[1]);
    let (x, y) = program::success_writes_in_order(
        ops,
        t,
        kept,
        3,
        8,
        Reg::BlockSize,
        (d.block_size % 4096) as u32,
        Reg::Command,
        sdhci::command_word(cmd, true) as u32,
    );
    assert(t[y].action matches Action::Write(Reg::Command, _));
}

/// Blocks of different sizes are announced to the controller as different.
pub proof fn different_block_sizes_stay_different(
    a: PendingData,
    b: PendingData,
    cmd: Command,
    dma: bool,
    t: Seq<Event>,
    u: Seq<Event>,
    r: Outcome,
    q: Outcome,
    i: int,
    j: int,
)
    requires
        a.direction != DataDirection::NoData,
        b.direction != DataDirection::NoData,
        a.block_size < 4096,
        b.block_size < 4096,
        a.block_size != b.block_size,
        program::performs(sdhci::command_issuing(cmd, Some(a), dma), t, r),
        program::performs(sdhci::command_issuing(cmd, Some(b), dma), u, q),
        0 <= i < t.len(),
        0 <= j < u.len(),
        t[i].action matches Action::Write(Reg::BlockSize, _),
        u[j].action matches Action::Write(Reg::BlockSize, _),
    ensures
        t[i].action != u[j].action,
{
    announced_data_phase_reaches_the_controller(
        a.direction,
        a.block_size,
        a.block_count,
        cmd,
        dma,
        t,
        r,
    );
    announced_data_phase_reaches_the_controller(
        b.direction,
        b.block_size,
        b.block_count,
        cmd,
        dma,
        u,
        q,
    );
    assert(tells_the_phase(a, dma, cmd, t[i].action));
    assert(tells_the_phase(b, dma, cmd, u[j].action));
}

/// A command without an announced data phase has the controller move nothing: the
/// transfer mode is 0, no block is described and the command says that no data
/// follows.
pub proof fn command_without_data_moves_none(
    block_size: u32,
    block_count: u32,
    cmd: Command,
    dma: bool,
    t: Seq<Event>,
    r: Outcome,
)
    requires
        program::performs(
            sdhci::command_issuing(
                cmd,
                sdhci::pending_of(DataDirection::NoData, block_size, block_count),
                dma,
            ),
            t,
            r,
        ),
    ensures
        forall|i: int| #![trigger t[i]]
            0 <= i < t.len() ==> {
                &&& !(t[i].action matches Action::Write(Reg::BlockSize, _))
                &&& !(t[i].action matches Action::Write(Reg::BlockCount, _))
                &&& (t[i].action matches Action::Write(Reg::TransferMode, v) ==> v == 0)
                &&& (t[i].action matches Action::Write(Reg::Argument, v) ==> v == cmd.arg)
                &&& (t[i].action matches Action::Write(Reg::Command, v) ==> v / 0x100 == cmd.cmd
                    && v / 0x20 % 2 == 0)
            },
{
    let data = sdhci::pending_of(DataDirection::NoData, block_size, block_count);
    let ops = sdhci::command_issuing(cmd, data, dma);
    let a = sdhci::command_opening(cmd, false);
    let b = sdhci::data_shaping(data, dma);
    let c = sdhci::command_sending(cmd, false);
    let d = sdhci::response_reading(cmd.resp_type);
    assert forall|i: int| #![trigger t[i]] 0 <= i < t.len() implies {
        &&& !(t[i].action matches Action::Write(Reg::BlockSize, _))
        &&& !(t[i].action matches Action::Write(Reg::BlockCount, _))
        &&& (t[i].action matches Action::Write(Reg::TransferMode, v) ==> v == 0)
        &&& (t[i].action matches Action::Write(Reg::Argument, v) ==> v == cmd.arg)
        &&& (t[i].action matches Action::Write(Reg::Command, v) ==> v / 0x100 == cmd.cmd && v
            / 0x20 % 2 == 0)
    } by {
        let k = program::accesses_are_the_operations_own(ops, t, r, i);
        if k < 3 {
            assert(ops[k] == a[k]);
        } else if k < 4 {
            assert(ops[k] == b[k - 3]);
        } else if k < 8 {
            assert(ops[k] == c[k - 4]);
        } else {
            assert(ops[k] == d[k - 8]);
        }
    }
}

/// The words of a response are what the response registers answered at the end of
/// the command, the first register's word first.
#[verifier::rlimit(40)]
pub proof fn response_words_come_from_their_registers(
    cmd: Command,
    data: Option<PendingData>,
    dma: bool,
    t: Seq<Event>,
    words: Seq<u32>,
)
    requires
        program::performs(sdhci::command_issuing(cmd, data, dma), t, Ok(words)),
    ensures
        cmd.resp_type == ResponseType::R2 ==> {
            let n = t.len() - 4;
            &&& n >= 0
            &&& words == seq![t[n].reply, t[n + 1].reply, t[n + 2].reply, t[n + 3].reply]
            &&& t[n].action == Action::Read(Reg::Response0)
            &&& t[n + 1].action == Action::Read(Reg::Response1)
            &&& t[n + 2].action == Action::Read(Reg::Response2)
            &&& t[n + 3].action == Action::Read(Reg::Response3)
        },
        cmd.resp_type == ResponseType::R1 || cmd.resp_type == ResponseType::R1b || cmd.resp_type
            == ResponseType::R3 || cmd.resp_type == ResponseType::R6 || cmd.resp_type
            == ResponseType::R7 ==> {
            &&& t.len() > 0
            &&& words == seq![t.last().reply]
            &&& t.last().action == Action::Read(Reg::Response0)
        },
{
    let ops = sdhci::command_issuing(cmd, data, dma);
    let head = sdhci::command_opening(cmd, data is Some) + sdhci::data_shaping(data, dma)
        + sdhci::command_sending(cmd, data is Some);
    let reads = sdhci::response_reading(cmd.resp_type);
    assert(ops =~= head + reads);
    lemma_head_keeps_nothing(cmd, data, dma);
    if cmd.resp_type == ResponseType::R2 {
        let l = ops.len() as int;
        assert(ops.last() == reads[3]);
        lemma_last_kept(ops, t, words);
        let ops3 = ops.drop_last();
        let t3 = t.drop_last();
        let w3 = words.drop_last();
        assert(ops3.last() == reads[2]);
        lemma_last_kept(ops3, t3, w3);
        let ops2 = ops3.drop_last();
        let t2 = t3.drop_last();
        let w2 = w3.drop_last();
        assert(ops2.last() == reads[1]);
        lemma_last_kept(ops2, t2, w2);
        let ops1 = ops2.drop_last();
        let t1 = t2.drop_last();
        let w1 = w2.drop_last();
        assert(ops1.last() == reads[0]);
        lemma_last_kept(ops1, t1, w1);
        assert(ops1.drop_last() =~= head);
        program::lemma_ran_keeps(head, t1.drop_last(), w1.drop_last());
        let n = t.len() - 4;
        assert(words =~= seq![t[n].reply, t[n + 1].reply, t[n + 2].reply, t[n + 3].reply]);
    } else if reads.len() == 1 {
        assert(ops.last() == reads[0]);
        lemma_last_kept(ops, t, words);
        assert(ops.drop_last() =~= head);
        program::lemma_ran_keeps(head, t.drop_last(), words.drop_last());
        assert(words =~= seq![t.last().reply]);
    }
}

/// Up to its response a command keeps nothing.
proof fn lemma_head_keeps_nothing(cmd: Command, data: Option<PendingData>, dma: bool)
    ensures
        program::keeps(
            sdhci::command_opening(cmd, data is Some) + sdhci::data_shaping(data, dma)
                + sdhci::command_sending(cmd, data is Some),
        ) == 0,
{
    let a = sdhci::command_opening(cmd, data is Some);
    let b = sdhci::data_shaping(data, dma);
    let c = sdhci::command_sending(cmd, data is Some);
    reveal_with_fuel(program::keeps, 6);
    program::lemma_keeps_of_both(a, b);
    program::lemma_keeps_of_both(a + b, c);
}

/// A program that ended with a kept read made it last and kept its word last.
proof fn lemma_last_kept(ops: Seq<Op>, t: Seq<Event>, kept: Seq<u32>)
    requires
        program::ran(ops, t, kept),
        ops.len() > 0,
        ops.last() is Keep,
    ensures
        t.len() > 0,
        kept.len() > 0,
        t.last().action == Action::Read(ops.last()->Keep_0),
        kept.last() == t.last().reply,
        program::ran(ops.drop_last(), t.drop_last(), kept.drop_last()),
{
    reveal(Op::does);
    let (n, k) = program::lemma_ran_splits(ops, t, kept);
    assert(t.skip(n)[0] == t[n]);
    program::lemma_done_keeps(ops.last(), t.skip(n), kept.skip(k));
    assert(kept.skip(k)[0] == kept[k]);
    assert(t.take(n) =~= t.drop_last());
    assert(kept.take(k) =~= kept.drop_last());
}

// Clock and timing

/// The timing of the controller fits the frequency that it is set to: the
/// high-speed bit is set exactly for frequencies above 25 MHz. The other bits of
/// the register stay as they are, and nothing writes it again.
pub proof fn timing_fits_the_frequency(
    speed: ClockSpeed,
    external_clock: bool,
    t: Seq<Event>,
    r: Outcome,
)
    requires
        program::performs(sdhci::speed_setting(speed, external_clock), t, r),
    ensures
        t.len() >= 2,
        t[0].action == Action::Read(Reg::HostControl1),
        t[1].action matches Action::Write(Reg::HostControl1, v) && (v & 0x04 != 0) == (
        clock::speed_hz(speed) > 25_000_000) && v & !0x04u32 == t[0].reply & !0x04u32,
        forall|i: int|
            2 <= i < t.len() ==> !((#[trigger] t[i]).action matches Action::Write(
                Reg::HostControl1,
                _,
            )),
{
    let ops = sdhci::speed_setting(speed, external_clock);
    let rest = if external_clock {
        seq![sdhci::clock_gating(), Op::Retune(clock::speed_hz(speed))] + sdhci::clock_passing()
    } else {
        seq![Op::Divide { target_hz: clock::speed_hz(speed) }] + sdhci::clock_rising()
    };
    let clear: u32 = ops[0]->Update_clear;
    let set: u32 = ops[0]->Update_set;
    lemma_update_first(ops, t, r, Reg::HostControl1, clear, set);
    let x = t[0].reply;
    assert(((x & !0x04u32) | 0u32) & 0x04 == 0 && ((x & !0x04u32) | 0u32) & !0x04u32 == x & !0x04u32
        && ((x & !0u32) | 0x04u32) & 0x04 != 0 && ((x & !0u32) | 0x04u32) & !0x04u32 == x
        & !0x04u32) by (bit_vector);
    assert(ops.skip(1) =~= rest);
    assert forall|i: int| 2 <= i < t.len() implies !((#[trigger] t[i]).action matches Action::Write(
        Reg::HostControl1,
        _,
    )) by {
        assert(t.skip(2)[i - 2] == t[i]);
        let k = program::accesses_are_the_operations_own(rest, t.skip(2), r, i - 2);
    }
}

/// Where the platform sets the frequency, it is asked for that of the speed, once,
/// while the card sees no clock.
pub proof fn platform_retunes_behind_a_stopped_clock(speed: ClockSpeed, t: Seq<Event>, kept: Seq<u32>)
    requires
        program::performs(sdhci::speed_setting(speed, true), t, Ok(kept)),
    ensures
        t.len() > 5,
        t[3].action matches Action::Write(Reg::ClockControl, v) && v & 0x04 == 0,
        t[4].action == Action::Retune(clock::speed_hz(speed)),
        t.last().action matches Action::Write(Reg::ClockControl, v) && v & 0x04 != 0,
{
    reveal(Op::does);
    let r = Ok::<Seq<u32>, HostError>(kept);
    let ops = sdhci::speed_setting(speed, true);
    lemma_update_first(ops, t, r, Reg::HostControl1, ops[0]->Update_clear, ops[0]->Update_set);
    let u = t.skip(2);
    lemma_update_first(ops.skip(1), u, r, Reg::ClockControl, 4, 0);
    let v = u.skip(2);
    assert(u[1] == t[3]);
    let (n, first, rest) = lemma_peel(ops.skip(1).skip(1), v, r);
    assert(v.take(n)[0] == v[0] && v[0] == t[4]);
    let (n, k) = program::lemma_ran_splits(ops, t, kept);
    let last = t.skip(n);
    assert(last[1] == t.last());
    let x = t[2].reply;
    let y = last[0].reply;
    assert(((x & !0x04u32) | 0u32) & 0x04 == 0 && ((y & !0u32) | 0x04u32) & 0x04 != 0)
        by (bit_vector);
}

/// The divider that a clock control register holds.
pub open spec fn divider_in(control: u32) -> int {
    control / 0x100 % 0x100 + control / 0x40 % 4 * 0x100
}

/// The clock control register that is written for a target starts the internal
/// clock and nothing else, divides no more than is needed to come down to the
/// target, and divides enough wherever the field can hold a divider that does.
#[verifier::rlimit(40)]
pub proof fn control_register_meets_the_target(base_hz: u32, target_hz: u32, v: u32)
    requires
        clock::is_control(base_hz, target_hz, v),
    ensures
        v < 0x1_0000,
        v % 0x40 == 1,
        divider_in(v) > 0 ==> base_hz > target_hz && base_hz as int / (2 * divider_in(v))
            <= target_hz,
        divider_in(v) > 1 ==> base_hz as int / (2 * (divider_in(v) - 1)) > target_hz,
        divider_in(v) == 0 ==> base_hz <= target_hz || base_hz as int / 2046 > target_hz,
{
    let n = choose|n: u32| #[trigger]
        clock::is_divider(base_hz, target_hz, n) && v == clock::control_word(n);
    assert(divider_in(v) == n);
    if n > 1 {
        assert(!clock::slow_enough(base_hz, target_hz, (n - 1) as u32));
    }
    if n == 0 && base_hz > target_hz {
        assert(!clock::slow_enough(base_hz, target_hz, clock::MAX_DIVIDER));
    }
}

/// Where the controller divides its own reference clock, the divider that it is
/// given brings the stated reference down to the frequency of the speed.
#[verifier::rlimit(40)]
pub proof fn speed_is_reached_by_dividing(speed: ClockSpeed, t: Seq<Event>, r: Outcome)
    requires
        program::performs(sdhci::speed_setting(speed, false), t, r),
    ensures
        t.len() >= 3,
        t[2].action == Action::Read(Reg::CapabilitiesLow),
        ({
            let base = t[2].reply / 0x100 % 0x100 * 1_000_000;
            if base == 0 {
                &&& t.len() == 3
                &&& r == Err::<Seq<u32>, HostError>(
                    HostError::BadResponse(ErrorContext { phase: Phase::Init, cmd: None }),
                )
            } else {
                &&& t.len() > 4
                &&& t[3].action == Action::Write(Reg::ClockControl, 0)
                &&& t[4].action matches Action::Write(Reg::ClockControl, v) && (divider_in(v) > 0
                    ==> base / (2 * divider_in(v)) <= clock::speed_hz(speed)) && (divider_in(v) == 0
                    ==> base <= clock::speed_hz(speed) || base / 2046 > clock::speed_hz(speed))
            }
        }),
{
    reveal(Op::does);
    let ops = sdhci::speed_setting(speed, false);
    lemma_update_first(ops, t, r, Reg::HostControl1, ops[0]->Update_clear, ops[0]->Update_set);
    let u = t.skip(2);
    let rest = ops.skip(1);
    program::operations_follow_each_other(rest, u, r);
    let n = choose|n: int| #[trigger] program::begins(rest, u, r, n);
    assert(u[0] == t[2]);
    if n == u.len() && r is Err && rest[0].does(u, r) {
        assert(u.len() == 1);
    } else {
        let (first, more) = choose|first: Seq<u32>, more: Outcome|
            {
                &&& rest[0].does(u.take(n), Ok(first))
                &&& program::performs(rest.skip(1), u.skip(n), more)
                &&& r == #[trigger] program::follow(first, more)
            };
        assert(u.take(n)[0] == u[0] && u.take(n)[1] == t[3] && u.take(n)[2] == t[4]);
        let v = t[4].action->Write_1;
        control_register_meets_the_target(
            clock::stated_base_hz(t[2].reply) as u32,
            clock::speed_hz(speed),
            v,
        );
    }
}

/// A clock that is brought up for a target is stopped first, gets a divider for
/// the target, and is let out to the card only once the controller has reported it
/// stable.
#[verifier::rlimit(40)]
pub proof fn clock_comes_up_stable(control: u32, t: Seq<Event>, r: Outcome)
    requires
        program::performs(sdhci::clock_starting(control), t, r),
    ensures
        t.len() > 2,
        t[0].action == Action::Write(Reg::ClockControl, 0),
        t[1].action == Action::Write(Reg::ClockControl, control),
        forall|i: int|
            2 <= i < t.len() && (#[trigger] t[i]).action is Write ==> exists|j: int|
                2 <= j < i && (#[trigger] t[j]).action == Action::Read(Reg::ClockControl)
                    && t[j].reply & 0x02 != 0,
        r is Ok ==> (t.last().action matches Action::Write(Reg::ClockControl, v) && v & 0x04 != 0),
        r is Err ==> r == Err::<Seq<u32>, HostError>(
            HostError::Timeout(ErrorContext { phase: Phase::Init, cmd: None }),
        ) && t.len() == 1002,
{
    let ops = sdhci::clock_starting(control);
    lemma_write_first(ops, t, r, Reg::ClockControl, 0);
    let u = t.skip(1);
    lemma_write_first(ops.skip(1), u, r, Reg::ClockControl, control);
    assert(u[0] == t[1]);
    let v = u.skip(1);
    let tail = ops.skip(1).skip(1);
    assert(tail =~= sdhci::clock_rising());
    assert forall|i: int| 0 <= i < v.len() implies #[trigger] v[i] == t[i + 2] by {}
    let k = lemma_wait_first(
        tail,
        v,
        r,
        Reg::ClockControl,
        2,
        true,
        1000,
        HostError::Timeout(ErrorContext { phase: Phase::Init, cmd: None }),
    );
    assert forall|i: int| 2 <= i < k + 2 implies !((#[trigger] t[i]).action is Write) by {
        assert(v[i - 2] == t[i]);
    }
    assert(t[k + 1] == v[k - 1]);
    if t[k + 1].reply & 2 != 0 {
        let w = v.skip(k);
        lemma_update_first(tail.skip(1), w, r, Reg::ClockControl, 0, 4);
        lemma_nothing_left(tail.skip(1).skip(1), w.skip(2), r);
        assert(w[1] == t.last());
        let y = w[0].reply;
        assert(((y & !0u32) | 0x04u32) & 0x04 != 0) by (bit_vector);
    }
}

// Bus width and signal voltage

/// The bus width that is set is the one that was asked for, and nothing else of the
/// register changes; eight lines are refused without a write.
pub proof fn bus_width_is_set_alone(width: BusWidth, t: Seq<Event>, r: Outcome)
    requires
        program::performs(sdhci::width_setting(width), t, r),
    ensures
        t.len() >= 1,
        t[0].action == Action::Read(Reg::HostControl1),
        if width == BusWidth::Bit8 {
            t.len() == 1 && r == Err::<Seq<u32>, HostError>(HostError::UnsupportedCommand)
        } else {
            &&& t.len() == 2
            &&& r is Ok
            &&& t[1].action matches Action::Write(Reg::HostControl1, v) && (v & 0x02 != 0) == (width
                == BusWidth::Bit4) && v & 0x20 == 0 && v & !0x22u32 == t[0].reply & !0x22u32
        },
{
    reveal(Op::does);
    sdhci::lemma_single(sdhci::width_setting(width), t, r);
    let x = t[0].reply;
    assert(((x & !0x22u32) | 0u32) & 0x02 == 0 && ((x & !0x22u32) | 0u32) & 0x20 == 0 && ((x
        & !0x22u32) | 0u32) & !0x22u32 == x & !0x22u32 && ((x & !0x22u32) | 2u32) & 0x02 != 0 && ((x
        & !0x22u32) | 2u32) & 0x20 == 0 && ((x & !0x22u32) | 2u32) & !0x22u32 == x & !0x22u32)
        by (bit_vector);
}

/// A switch of the signal voltage stops the clock, selects the voltage in the power
/// register and in host control 2, of which nothing else changes, and lets the clock
/// out again; 1.2 V is refused with nothing but the clock changed.
#[verifier::rlimit(40)]
pub proof fn voltage_switch_is_made_behind_a_stopped_clock(
    voltage: SignalVoltage,
    t: Seq<Event>,
    r: Outcome,
)
    requires
        program::performs(sdhci::voltage_switching(voltage), t, r),
    ensures
        t.len() >= 3,
        t[1].action matches Action::Write(Reg::ClockControl, v) && v & 0x04 == 0 && v & !0x04u32
            == t[0].reply & !0x04u32,
        t[2].action == Action::Read(Reg::HostControl2),
        if voltage == SignalVoltage::V120 {
            t.len() == 3 && r == Err::<Seq<u32>, HostError>(HostError::UnsupportedCommand)
        } else {
            &&& t.len() == 7
            &&& r is Ok
            &&& t[3].action == Action::Write(
                Reg::PowerControl,
                if voltage == SignalVoltage::V180 {
                    0x0B
                } else {
                    0x0F
                },
            )
            &&& t[4].action matches Action::Write(Reg::HostControl2, v) && (v & 0x08 != 0) == (
            voltage == SignalVoltage::V180) && v & !0x08u32 == t[2].reply & !0x08u32
            &&& t[6].action matches Action::Write(Reg::ClockControl, v) && v & 0x04 != 0
        },
{
    reveal(Op::does);
    let ops = sdhci::voltage_switching(voltage);
    lemma_update_first(ops, t, r, Reg::ClockControl, 4, 0);
    let x = t[0].reply;
    assert(((x & !0x04u32) | 0u32) & 0x04 == 0 && ((x & !0x04u32) | 0u32) & !0x04u32 == x
        & !0x04u32) by (bit_vector);
    let u = t.skip(2);
    assert(u[0] == t[2]);
    let rest = ops.skip(1);
    if voltage == SignalVoltage::V120 {
        sdhci::lemma_single(rest, u, r);
    } else {
        let (n, first, more) = lemma_peel(rest, u, r);
        assert(u.take(n)[1] == t[3] && u.take(n)[2] == t[4] && u.take(n)[0] == u[0]);
        let v = u.skip(3);
        sdhci::lemma_single(rest.skip(1), v, more);
        assert(v[0] == t[5] && v[1] == t[6]);
        let y = t[2].reply;
        let z = t[5].reply;
        assert(((y & !0x08u32) | 0u32) & 0x08 == 0 && ((y & !0x08u32) | 0u32) & !0x08u32 == y
            & !0x08u32 && ((y & !0u32) | 8u32) & 0x08 != 0 && ((y & !0u32) | 8u32) & !0x08u32 == y
            & !0x08u32 && ((z & !0u32) | 4u32) & 0x04 != 0) by (bit_vector);
    }
}

// Tuning

/// A tuning run describes a block of 128 bytes if it tunes for eMMC on eight lines
/// and of 64 bytes otherwise, starts the controller's sweep, succeeds only if the
/// controller has ended the sweep with a sampling point, and calls off a sweep that
/// does not end.
#[verifier::rlimit(40)]
pub proof fn tuning_ends_with_a_sampling_point(cmd: u8, t: Seq<Event>, r: Outcome)
    requires
        cmd == 19 || cmd == 21,
        program::performs(sdhci::tuning(cmd), t, r),
    ensures
        t.len() > 0,
        cmd == 21 ==> t[0].action == Action::Read(Reg::HostControl1),
        forall|i: int|
            0 <= i < t.len() ==> ((#[trigger] t[i]).action matches Action::Write(Reg::BlockSize, v)
                ==> v == (if cmd == 21 && t[0].reply & 0x20 != 0 {
                128u32
            } else {
                64u32
            })),
        exists|i: int|
            0 <= i < t.len() - 1 && ((#[trigger] t[i]).action matches Action::Write(
                Reg::HostControl2,
                v,
            ) && v & 0x40 != 0),
        match r {
            Ok(_) => {
                &&& t.last().action == Action::Read(Reg::HostControl2)
                &&& t.last().reply & 0x40 == 0
                &&& t.last().reply & 0x80 != 0
            },
            Err(HostError::BadResponse(c)) => {
                &&& c == (ErrorContext { phase: Phase::Init, cmd: Some(cmd) })
                &&& t.last().action == Action::Read(Reg::HostControl2)
                &&& t.last().reply & 0x40 == 0
                &&& t.last().reply & 0x80 == 0
            },
            Err(HostError::Timeout(c)) => {
                &&& c == (ErrorContext { phase: Phase::Init, cmd: Some(cmd) })
                &&& t.last().action matches Action::Write(Reg::HostControl2, v) && v & 0x40 == 0
            },
            Err(_) => false,
        },
{
    let ops = sdhci::tuning(cmd);
    let n = lemma_tuning_shape(cmd, t, r);
    let u = t.skip(n);
    let o1 = ops.skip(1);
    lemma_write_first(o1, u, r, Reg::BlockCount, 1);
    let u2 = u.skip(1);
    let o2 = o1.skip(1);
    lemma_write_first(o2, u2, r, Reg::TimeoutControl, 0x0E);
    let u3 = u2.skip(1);
    let o3 = o2.skip(1);
    lemma_write_first(o3, u3, r, Reg::TransferMode, 0x12);
    let u4 = u3.skip(1);
    let o4 = o3.skip(1);
    lemma_update_first(o4, u4, r, Reg::HostControl2, 0, 0x40);
    let u5 = u4.skip(2);
    let o5 = o4.skip(1);
    assert(o5 =~= seq![Op::Sweep { cmd }]);
    sdhci::lemma_single(o5, u5, r);
    lemma_sweep_end(cmd, u5, r);
    assert(u5.last() == t.last());
    assert(u4[1] == t[n + 4]);
    let x = u4[0].reply;
    let z = if u5.len() > 1 { u5[u5.len() - 2].reply } else { 0 };
    assert(((x & !0u32) | 0x40u32) & 0x40 != 0 && (z & !0x40u32) & 0x40 == 0) by (bit_vector);
    assert forall|i: int| 0 <= i < t.len() implies ((#[trigger] t[i]).action matches Action::Write(
        Reg::BlockSize,
        v,
    ) ==> v == (if cmd == 21 && t[0].reply & 0x20 != 0 {
        128u32
    } else {
        64u32
    })) by {
        if i >= n {
            assert(u[i - n] == t[i]);
            let k = program::accesses_are_the_operations_own(o1, u, r, i - n);
        }
    }
}

/// How a tuning run describes its block.
proof fn lemma_tuning_shape(cmd: u8, t: Seq<Event>, r: Outcome) -> (n: int)
    requires
        cmd == 19 || cmd == 21,
        program::performs(sdhci::tuning(cmd), t, r),
    ensures
        1 <= n <= 2,
        n <= t.len(),
        program::performs(sdhci::tuning(cmd).skip(1), t.skip(n), r),
        cmd == 21 ==> t[0].action == Action::Read(Reg::HostControl1),
        forall|i: int|
            0 <= i < n ==> ((#[trigger] t[i]).action matches Action::Write(Reg::BlockSize, v) ==> v
                == (if cmd == 21 && t[0].reply & 0x20 != 0 {
                128u32
            } else {
                64u32
            })),
{
    reveal(Op::does);
    let (n, first, rest) = lemma_peel(sdhci::tuning(cmd), t, r);
    assert forall|i: int| 0 <= i < n implies #[trigger] t[i] == t.take(n)[i] by {}
    if let Ok(kept) = rest {
        assert(first + kept =~= kept);
    }
    n
}

/// How a sweep ends.
proof fn lemma_sweep_end(cmd: u8, t: Seq<Event>, r: Outcome)
    requires
        (Op::Sweep { cmd }).does(t, r),
    ensures
        t.len() > 0,
        match r {
            Ok(_) => {
                &&& t.last().action == Action::Read(Reg::HostControl2)
                &&& t.last().reply & 0x40 == 0
                &&& t.last().reply & 0x80 != 0
            },
            Err(HostError::BadResponse(c)) => {
                &&& c == (ErrorContext { phase: Phase::Init, cmd: Some(cmd) })
                &&& t.last().action == Action::Read(Reg::HostControl2)
                &&& t.last().reply & 0x40 == 0
                &&& t.last().reply & 0x80 == 0
            },
            Err(HostError::Timeout(c)) => {
                &&& c == (ErrorContext { phase: Phase::Init, cmd: Some(cmd) })
                &&& t.len() > 1
                &&& t.last().action == Action::Write(
                    Reg::HostControl2,
                    t[t.len() - 2].reply & !0x40u32,
                )
            },
            Err(_) => false,
        },
{
    reveal(Op::does);
}

// The end of a data phase

/// A data phase succeeds only if the controller reported the transfer complete,
/// which is then acknowledged. It fails as the error status says, bit by bit, once
/// that was read and cleared, or by a timeout if the controller reported nothing.
pub proof fn data_phase_ends_as_reported(
    context: ErrorContext,
    adma: bool,
    t: Seq<Event>,
    r: Outcome,
)
    requires
        program::performs(sdhci::data_finishing(context, adma), t, r),
    ensures
        t.len() >= 2,
        match r {
            Ok(_) => {
                &&& t[t.len() - 2].action == Action::Read(Reg::NormalIntStatus)
                &&& t[t.len() - 2].reply & 0x0002 != 0
                &&& t.last().action == Action::Write(Reg::NormalIntStatus, 0x0002)
            },
            Err(e) => {
                ||| {
                    &&& t.last().action == Action::Write(Reg::ErrorIntStatus, 0xFFFF)
                    &&& t[t.len() - 2].action == Action::Read(Reg::ErrorIntStatus)
                    &&& e == reported(t[t.len() - 2].reply, context, adma)
                }
                ||| {
                    &&& t.len() == 1_000_000
                    &&& forall|i: int|
                        0 <= i < t.len() ==> (#[trigger] t[i]).action == Action::Read(
                            Reg::NormalIntStatus,
                        ) && t[i].reply & 0x0002 == 0 && t[i].reply & 0x8000 == 0
                    &&& e == HostError::Timeout(context)
                }
            },
        },
{
    let ops = sdhci::data_finishing(context, adma);
    lemma_settle_first(ops, t, r, context, adma);
}

/// The failure of a data phase that the bits of the error status stand for.
pub open spec fn reported(status: u32, context: ErrorContext, adma: bool) -> HostError {
    if adma && status & 0x0200 != 0 {
        HostError::Misaligned
    } else if status & 0x0010 != 0 {
        HostError::Timeout(context)
    } else if status & 0x0020 != 0 {
        HostError::Crc(context)
    } else if status & 0x0040 != 0 {
        HostError::ReadError(context)
    } else {
        HostError::BadResponse(context)
    }
}

#[verifier::rlimit(40)]
proof fn lemma_settle_first(
    ops: Seq<Op>,
    t: Seq<Event>,
    r: Outcome,
    context: ErrorContext,
    adma: bool,
)
    requires
        ops == sdhci::data_finishing(context, adma),
        program::performs(ops, t, r),
    ensures
        t.len() >= 2,
        match r {
            Ok(_) => {
                &&& t[t.len() - 2].action == Action::Read(Reg::NormalIntStatus)
                &&& t[t.len() - 2].reply & 0x0002 != 0
                &&& t.last().action == Action::Write(Reg::NormalIntStatus, 0x0002)
            },
            Err(e) => {
                ||| {
                    &&& t.last().action == Action::Write(Reg::ErrorIntStatus, 0xFFFF)
                    &&& t[t.len() - 2].action == Action::Read(Reg::ErrorIntStatus)
                    &&& e == reported(t[t.len() - 2].reply, context, adma)
                }
                ||| {
                    &&& t.len() == 1_000_000
                    &&& forall|i: int|
                        0 <= i < t.len() ==> (#[trigger] t[i]).action == Action::Read(
                            Reg::NormalIntStatus,
                        ) && t[i].reply & 0x0002 == 0 && t[i].reply & 0x8000 == 0
                    &&& e == HostError::Timeout(context)
                }
            },
        },
{
    reveal(Op::does);
    program::operations_follow_each_other(ops, t, r);
    let n = choose|n: int| #[trigger] program::begins(ops, t, r, n);
    if n == t.len() && r is Err && ops[0].does(t, r) {
        if t.last().action == Action::Read(Reg::NormalIntStatus) {
            program::lemma_either(t.last().reply, 2, 0x8000);
            assert(t.len() == 1_000_000);
            assert forall|i: int| 0 <= i < t.len() implies (#[trigger] t[i]).action == Action::Read(
                Reg::NormalIntStatus,
            ) && t[i].reply & 0x0002 == 0 && t[i].reply & 0x8000 == 0 by {
                program::lemma_either(t[i].reply, 2, 0x8000);
            }
        } else {
            let s = t[t.len() - 2].reply;
            assert((s & 0x70u32) & 0x11 == s & 0x10 && (s & 0x70u32) & 0x22 == s & 0x20 && ((s
                & 0x70u32) & 0x70 != 0) == (s & 0x10 != 0 || s & 0x20 != 0 || s & 0x40 != 0))
                by (bit_vector);
        }
    } else {
        let (first, rest) = choose|first: Seq<u32>, rest: Outcome|
            {
                &&& ops[0].does(t.take(n), Ok(first))
                &&& program::performs(ops.skip(1), t.skip(n), rest)
                &&& r == #[trigger] program::follow(first, rest)
            };
        let last = t.skip(n);
        let seen = t.take(n);
        assert(ops[0] == (Op::Settle { done: 2, errors: 0x70, context, adma }));
        assert(program::settles(2, 0x70, context, adma, seen, Ok(first)));
        assert(program::watches(2, seen));
        assert(seen.last() == t[n - 1]);
        sdhci::lemma_single(ops.skip(1), last, rest);
        assert(ops.skip(1)[0] == Op::Write(Reg::NormalIntStatus, 2));
        assert(last[0] == t.last());
    }
}

/// A DMA transfer selects the 32-bit ADMA2 engine and no other bit, and points it to
/// the table, before anything is waited for.
#[verifier::rlimit(40)]
pub proof fn engine_is_pointed_to_the_table(table_bus: u32, phase: Phase, t: Seq<Event>, r: Outcome)
    requires
        program::performs(adma::dma_moving(table_bus, phase), t, r),
    ensures
        t.len() > 3,
        t[0].action == Action::Read(Reg::HostControl1),
        t[1].action matches Action::Write(Reg::HostControl1, v) && v & 0x18 == 0x10 && v & !0x18u32
            == t[0].reply & !0x18u32,
        t[2].action == Action::Write(Reg::AdmaAddress, table_bus),
        r is Ok ==> t[t.len() - 2].action == Action::Read(Reg::NormalIntStatus) && t[t.len()
            - 2].reply & 0x0002 != 0,
{
    let ops = adma::dma_moving(table_bus, phase);
    lemma_update_first(ops, t, r, Reg::HostControl1, 0x18, 0x10);
    let x = t[0].reply;
    assert(((x & !0x18u32) | 0x10u32) & 0x18 == 0x10 && ((x & !0x18u32) | 0x10u32) & !0x18u32 == x
        & !0x18u32) by (bit_vector);
    let u = t.skip(2);
    lemma_write_first(ops.skip(1), u, r, Reg::AdmaAddress, table_bus);
    assert(u[0] == t[2]);
    let v = u.skip(1);
    assert(ops.skip(1).skip(1) =~= sdhci::data_finishing(sdhci::about(phase, 0), true));
    data_phase_ends_as_reported(sdhci::about(phase, 0), true, v, r);
    assert(v[v.len() - 2] == t[t.len() - 2]);
}

} // verus!
