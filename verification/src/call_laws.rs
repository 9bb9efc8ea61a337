//! What a card driver asks of its host controller, call by call.
use vstd::prelude::*;

use crate::bits;
use crate::calls::{self, HostCall, Request};
use crate::cmd::{Command, DataDirection};
use crate::error::{ErrorContext, HostError, Phase};
use crate::response::{CidResponse, CsdResponse, OcrResponse, Response, ResponseType};
use crate::sdio::{BusWidth, CardInfo, ClockSpeed, InitStep, PowerUp, SdioHost, SdioSdmmc};

verus! {

/// Call `i` sent the command `index` with `arg`, to be answered by `resp_type`.
pub open spec fn sent(
    t: Seq<HostCall>,
    i: int,
    index: u8,
    arg: u32,
    resp_type: ResponseType,
) -> bool {
    &&& 0 <= i < t.len()
    &&& t[i].request() == Request::Command(Command { cmd: index, arg, resp_type })
}

/// Call `i` asked for `q`.
pub open spec fn asked_for(t: Seq<HostCall>, i: int, q: Request) -> bool {
    0 <= i < t.len() && t[i].request() == q
}

/// A run makes its calls in order, so that each was made where the run came so far.
proof fn lemma_asked(asked: Seq<Request>, t: Seq<HostCall>, i: int)
    requires
        calls::is_run(asked, t),
        0 <= i < asked.len(),
        i < t.len() || calls::run_result(t) is Ok,
    ensures
        asked_for(t, i, asked[i]),
        calls::run_result(t) is Ok ==> t.len() == asked.len() && t[i].outcome() is Ok,
{
    if calls::run_result(t) is Ok {
        calls::success_is_complete(asked, t);
    }
}

// Moving data

/// Reading one block announces one block of 512 bytes to be read, sends CMD17 with the
/// block's argument, and reads 512 bytes: what is announced is what is moved.
pub proof fn one_block_is_announced_and_read(arg: u32, t: Seq<HostCall>)
    requires
        calls::is_run(
            calls::one_block(DataDirection::Read, calls::r1(17, arg), Request::Read(512, 512)),
            t,
        ),
    ensures
        1 <= t.len() <= 3,
        asked_for(t, 0, Request::Prepare(DataDirection::Read, 512, 1)),
        t.len() > 1 ==> sent(t, 1, 17, arg, ResponseType::R1),
        t.len() > 2 ==> asked_for(t, 2, Request::Read(512, 512)),
        calls::run_result(t) is Ok ==> t.len() == 3,
{
    let asked = calls::one_block(DataDirection::Read, calls::r1(17, arg), Request::Read(512, 512));
    lemma_asked(asked, t, 0);
    if t.len() > 1 {
        lemma_asked(asked, t, 1);
    }
    if t.len() > 2 {
        lemma_asked(asked, t, 2);
    }
}

/// Writing one block announces one block of 512 bytes to be written, sends CMD24 with
/// the block's argument, and writes the bytes of the block.
pub proof fn one_block_is_announced_and_written(arg: u32, data: Seq<u8>, t: Seq<HostCall>)
    requires
        data.len() == 512,
        calls::is_run(
            calls::one_block(DataDirection::Write, calls::r1(24, arg), Request::Write(data, 512)),
            t,
        ),
    ensures
        1 <= t.len() <= 3,
        asked_for(t, 0, Request::Prepare(DataDirection::Write, 512, 1)),
        t.len() > 1 ==> sent(t, 1, 24, arg, ResponseType::R1),
        t.len() > 2 ==> asked_for(t, 2, Request::Write(data, 512)),
        calls::run_result(t) is Ok ==> t.len() == 3,
{
    let asked = calls::one_block(
        DataDirection::Write,
        calls::r1(24, arg),
        Request::Write(data, 512),
    );
    lemma_asked(asked, t, 0);
    if t.len() > 1 {
        lemma_asked(asked, t, 1);
    }
    if t.len() > 2 {
        lemma_asked(asked, t, 2);
    }
}

/// Reading many blocks announces as many blocks of 512 bytes as are then read, sends
/// CMD18 with the argument of the first, and sends CMD12 after the last. The blocks
/// that arrive are what the reads that succeeded brought, in their order.
#[verifier::rlimit(40)]
pub proof fn many_blocks_are_announced_and_read(arg: u32, count: u32, t: Seq<HostCall>)
    requires
        calls::is_run(
            calls::many_blocks(
                DataDirection::Read,
                count,
                calls::r1(18, arg),
                calls::block_reads(count as nat),
            ),
            t,
        ),
    ensures
        1 <= t.len() <= count + 4,
        asked_for(t, 0, Request::Prepare(DataDirection::Read, 512, count)),
        t.len() > 1 ==> asked_for(t, 1, Request::BlockCount(count)),
        t.len() > 2 ==> sent(t, 2, 18, arg, ResponseType::R1),
        forall|i: int|
            3 <= i < t.len() && i < 3 + count ==> (#[trigger] t[i]).request() == Request::Read(
                512,
                512,
            ),
        t.len() == count + 4 ==> sent(t, count + 3, 12, 0, ResponseType::R1b),
        calls::run_result(t) is Ok ==> t.len() == count + 4,
        forall|j: int|
            0 <= j < calls::arrived(t).len() ==> #[trigger] calls::arrived(t)[j] == t[3 + j].data(),
        forall|i: int|
            3 <= i < 3 + count ==> (i < calls::arrived(t).len() + 3) == (i < t.len() && (
            #[trigger] t[i]).outcome() is Ok),
        calls::arrived(t).len() <= count,
{
    let moved = calls::block_reads(count as nat);
    let asked = calls::many_blocks(DataDirection::Read, count, calls::r1(18, arg), moved);
    assert(asked.len() == count + 4);
    lemma_asked(asked, t, 0);
    if t.len() > 1 {
        lemma_asked(asked, t, 1);
    }
    if t.len() > 2 {
        lemma_asked(asked, t, 2);
    }
    assert forall|i: int| 3 <= i < t.len() && i < 3 + count implies (#[trigger] t[i]).request()
        == Request::Read(512, 512) by {
        lemma_asked(asked, t, i);
        assert(asked[i] == moved[i - 3]);
    }
    if t.len() == count + 4 {
        lemma_asked(asked, t, count + 3);
        assert(asked[count + 3] == calls::stop());
    }
    if calls::run_result(t) is Ok {
        calls::success_is_complete(asked, t);
    }
    assert forall|i: int| 3 <= i < 3 + count implies (i < calls::arrived(t).len() + 3) == (i
        < t.len() && (#[trigger] t[i]).outcome() is Ok) by {
        if i == t.len() - 1 {
            assert(t[i] == t.last());
        }
    }
}

/// Writing many blocks announces as many blocks of 512 bytes as are then written, sends
/// CMD25 with the argument of the first, writes the blocks in the order of the slice,
/// and sends CMD12 after the last.
pub proof fn many_blocks_are_announced_and_written(
    arg: u32,
    blocks: Seq<[u8; 512]>,
    t: Seq<HostCall>,
)
    requires
        blocks.len() <= u32::MAX,
        calls::is_run(
            calls::many_blocks(
                DataDirection::Write,
                blocks.len() as u32,
                calls::r1(25, arg),
                calls::block_writes(blocks),
            ),
            t,
        ),
    ensures
        1 <= t.len() <= blocks.len() + 4,
        t[0].request() matches Request::Prepare(d, size, count) && d == DataDirection::Write && size
            == 512 && count == blocks.len(),
        t.len() > 1 ==> (t[1].request() matches Request::BlockCount(count) && count
            == blocks.len()),
        t.len() > 2 ==> sent(t, 2, 25, arg, ResponseType::R1),
        forall|j: int|
            0 <= j < blocks.len() && 3 + j < t.len() ==> t[3 + j].request() == Request::Write(
                #[trigger] blocks[j]@,
                512,
            ),
        t.len() == blocks.len() + 4 ==> sent(
            t,
            (blocks.len() + 3) as int,
            12,
            0,
            ResponseType::R1b,
        ),
        calls::run_result(t) is Ok ==> t.len() == blocks.len() + 4,
{
    let n = blocks.len() as int;
    let moved = calls::block_writes(blocks);
    let asked = calls::many_blocks(DataDirection::Write, n as u32, calls::r1(25, arg), moved);
    assert(asked.len() == n + 4);
    lemma_asked(asked, t, 0);
    if t.len() > 1 {
        lemma_asked(asked, t, 1);
    }
    if t.len() > 2 {
        lemma_asked(asked, t, 2);
    }
    assert forall|j: int| 0 <= j < n && 3 + j < t.len() implies t[3 + j].request()
        == Request::Write(#[trigger] blocks[j]@, 512) by {
        lemma_asked(asked, t, 3 + j);
        assert(asked[3 + j] == moved[j]);
    }
    if t.len() == n + 4 {
        lemma_asked(asked, t, n + 3);
        assert(asked[n + 3] == calls::stop());
    }
    if calls::run_result(t) is Ok {
        calls::success_is_complete(asked, t);
    }
}

/// Erasing marks the first block with CMD32 and the last with CMD33 before CMD38 erases
/// what lies between, and announces no data.
pub proof fn erased_range_is_marked_first(first: u32, last: u32, t: Seq<HostCall>)
    requires
        calls::is_run(calls::erasing(first, last), t),
    ensures
        1 <= t.len() <= 4,
        asked_for(t, 0, Request::Prepare(DataDirection::NoData, 0, 0)),
        t.len() > 1 ==> sent(t, 1, 32, first, ResponseType::R1),
        t.len() > 2 ==> sent(t, 2, 33, last, ResponseType::R1),
        t.len() > 3 ==> sent(t, 3, 38, 0, ResponseType::R1b),
        calls::run_result(t) is Ok ==> t.len() == 4,
{
    let asked = calls::erasing(first, last);
    lemma_asked(asked, t, 0);
    if t.len() > 1 {
        lemma_asked(asked, t, 1);
    }
    if t.len() > 2 {
        lemma_asked(asked, t, 2);
    }
    if t.len() > 3 {
        lemma_asked(asked, t, 3);
    }
}

/// Switching a function announces one block of the 64 bytes that are then read.
pub proof fn switch_status_is_announced_and_read(c: Command, t: Seq<HostCall>)
    requires
        calls::is_run(calls::switching(c), t),
    ensures
        1 <= t.len() <= 3,
        asked_for(t, 0, Request::Prepare(DataDirection::Read, 64, 1)),
        t.len() > 1 ==> sent(t, 1, c.cmd, c.arg, c.resp_type),
        t.len() > 2 ==> asked_for(t, 2, Request::Read(64, 64)),
        calls::run_result(t) is Ok ==> t.len() == 3,
{
    let asked = calls::switching(c);
    lemma_asked(asked, t, 0);
    if t.len() > 1 {
        lemma_asked(asked, t, 1);
    }
    if t.len() > 2 {
        lemma_asked(asked, t, 2);
    }
}

/// The card and the host agree on the number of lines: CMD55 goes to the card's
/// address, ACMD6 says 2 for four lines and 0 for one, and the host is then given the
/// same width. Neither is told of eight lines.
pub proof fn card_and_host_agree_on_the_width(rca: u16, width: BusWidth, t: Seq<HostCall>)
    requires
        calls::is_run(seq![calls::no_data()] + calls::widening(rca, width), t),
    ensures
        1 <= t.len() <= 4,
        asked_for(t, 0, Request::Prepare(DataDirection::NoData, 0, 0)),
        t.len() > 1 ==> sent(t, 1, 55, (rca * 65_536) as u32, ResponseType::R1),
        t.len() > 2 ==> width != BusWidth::Bit8 && sent(
            t,
            2,
            6,
            if width == BusWidth::Bit4 {
                2u32
            } else {
                0u32
            },
            ResponseType::R1,
        ),
        t.len() > 3 ==> asked_for(t, 3, Request::Width(width)),
        calls::run_result(t) is Ok ==> t.len() == (if width == BusWidth::Bit8 {
            2int
        } else {
            4
        }),
{
    let rest = calls::widening(rca, width);
    let asked = seq![calls::no_data()] + rest;
    lemma_asked(asked, t, 0);
    if t.len() > 1 {
        lemma_asked(asked, t, 1);
        assert(asked[1] == rest[0]);
    }
    if t.len() > 2 {
        lemma_asked(asked, t, 2);
        assert(asked[2] == rest[1]);
    }
    if t.len() > 3 {
        lemma_asked(asked, t, 3);
        assert(asked[3] == rest[2]);
    }
}

// Initialization

/// A poll sends CMD55 to address zero and ACMD41, which asks for the voltages of
/// 0xFF8000 and, of a card of version 2, for high capacity. It ends in a wait, ten
/// milliseconds longer, only where the card says that it is still powering up and less
/// than a second has passed; where a second has passed, in a timeout.
#[verifier::rlimit(40)]
pub proof fn poll_waits_for_power_up(
    sd_v2: bool,
    elapsed_ms: u32,
    t: Seq<HostCall>,
    r: Result<InitStep, HostError>,
)
    requires
        calls::polls(sd_v2, elapsed_ms, t, r),
    ensures
        t.len() >= 1,
        sent(t, 0, 55, 0, ResponseType::R1),
        t.len() > 1 ==> sent(
            t,
            1,
            41,
            if sd_v2 {
                0x40FF_8000u32
            } else {
                0x00FF_8000u32
            },
            ResponseType::R3,
        ),
        r matches Ok(InitStep::Wait(w)) ==> t.len() == 2 && elapsed_ms < 1000 && w.elapsed_ms
            == elapsed_ms + 10 && w.sd_v2 == sd_v2 && (t[1].response() matches Response::R3(ocr)
            && ocr.raw < 0x8000_0000),
        t.len() == 2 && t[1].outcome() is Ok && (t[1].response() matches Response::R3(ocr)
            && ocr.raw < 0x8000_0000) ==> (if elapsed_ms < 1000 {
            r matches Ok(InitStep::Wait(_))
        } else {
            r == Err::<InitStep, HostError>(
                HostError::Timeout(ErrorContext { phase: Phase::Init, cmd: Some(41) }),
            )
        }),
        t.len() == 2 && t[1].outcome() is Ok && !(t[1].response() is R3) ==> r == Err::<
            InitStep,
            HostError,
        >(HostError::BadResponse(ErrorContext { phase: Phase::Init, cmd: Some(41) })),
        t.len() > 2 ==> (t[1].response() matches Response::R3(ocr) && ocr.raw >= 0x8000_0000),
{
    let n = if t.len() < 2 { t.len() as int } else { 2 };
    let u = t.take(n);
    let asked = calls::polling(sd_v2);
    lemma_asked(asked, u, 0);
    assert(u[0] == t[0]);
    if t.len() > 1 {
        lemma_asked(asked, u, 1);
        assert(u[1] == t[1]);
    }
    if let Response::R3(ocr) = t[1].response() {
        bits::lemma_low_and_high_bits(ocr.raw);
    }
}

/// A card that is reported ready has said that it is powered up; its identity, its
/// address and its capacity are those that it gave in answer to CMD2, CMD3 and CMD9; it
/// was selected with CMD7 and given four lines under that address; and then the bus
/// was brought to default speed. No call of all these failed.
#[verifier::rlimit(40)]
pub proof fn ready_card_told_what_is_reported(
    sd_v2: bool,
    elapsed_ms: u32,
    t: Seq<HostCall>,
    info: CardInfo,
)
    requires
        calls::polls(sd_v2, elapsed_ms, t, Ok(InitStep::Ready(info))),
    ensures
        t.len() == 10,
        forall|i: int| 0 <= i < 10 ==> (#[trigger] t[i]).outcome() is Ok,
        info.sd_v2 == sd_v2,
        t[1].response() matches Response::R3(ocr) && ocr.raw == info.ocr && ocr.raw >= 0x8000_0000
            && info.high_capacity == (ocr.raw / 0x4000_0000 % 2 == 1),
        sent(t, 2, 2, 0, ResponseType::R2),
        match t[2].response() {
            Response::R2(raw) => info.cid == Some(CidResponse { raw }),
            _ => info.cid is None,
        },
        sent(t, 3, 3, 0, ResponseType::R6),
        t[3].response() matches Response::R6(a) && info.rca == a.raw / 65_536,
        sent(t, 4, 9, (info.rca * 65_536) as u32, ResponseType::R2),
        match t[4].response() {
            Response::R2(raw) => info.capacity_blocks == (CsdResponse { raw }).capacity(),
            _ => info.capacity_blocks is None,
        },
        sent(t, 5, 7, (info.rca * 65_536) as u32, ResponseType::R1b),
        sent(t, 6, 55, (info.rca * 65_536) as u32, ResponseType::R1),
        sent(t, 7, 6, 2, ResponseType::R1),
        asked_for(t, 8, Request::Width(BusWidth::Bit4)),
        asked_for(t, 9, Request::Clock(ClockSpeed::Default)),
{
    calls::ready_card_was_selected_by_its_address(sd_v2, elapsed_ms, t, info);
    let u = t.skip(2);
    assert(u.take(2)[0] == t[2] && u.take(2)[1] == t[3] && u[2] == t[4]);
    lemma_asked(calls::identifying(), u.take(2), 0);
    lemma_asked(calls::identifying(), u.take(2), 1);
    if let Response::R3(ocr) = t[1].response() {
        bits::lemma_low_and_high_bits(ocr.raw);
    }
}

/// Initialization announces no data, resets the card with CMD0 and probes it with CMD8.
/// The card is taken for one of version 2 exactly if it answers CMD8 with a word whose
/// low twelve bits are those of the argument; it is then polled.
#[verifier::rlimit(40)]
pub proof fn initialization_probes_the_card(t: Seq<HostCall>, r: Result<InitStep, HostError>)
    requires
        calls::starts(t, r),
    ensures
        t.len() >= 1,
        asked_for(t, 0, Request::Prepare(DataDirection::NoData, 0, 0)),
        t.len() > 1 ==> sent(t, 1, 0, 0, ResponseType::NoResponse),
        t.len() > 2 ==> sent(t, 2, 8, 0x1AA, ResponseType::R7),
        t.len() > 3 ==> calls::polls(
            t[2].response() matches Response::R7(c) && c.raw % 0x1000 == 0x1AA,
            0,
            t.skip(3),
            r,
        ),
        t.len() <= 3 ==> r is Err && r->Err_0 == t.last().outcome()->Err_0 && t.last().outcome()
            is Err,
{
    let n = if t.len() < 3 { t.len() as int } else { 3 };
    let u = t.take(n);
    let asked = calls::probing();
    lemma_asked(asked, u, 0);
    assert(u[0] == t[0]);
    if t.len() > 1 {
        lemma_asked(asked, u, 1);
        assert(u[1] == t[1]);
    }
    if t.len() > 2 {
        lemma_asked(asked, u, 2);
        assert(u[2] == t[2]);
    }
    assert(u.last() == t[n - 1]);
    if t.len() > 3 {
        if calls::run_result(u) is Ok {
            lemma_echo(t[2].response());
        }
    } else if calls::run_result(u) is Ok {
        let v = t.skip(3);
        assert(v.len() == 0);
    }
}

proof fn lemma_echo(answer: Response)
    ensures
        calls::is_v2(answer) == (answer matches Response::R7(c) && c.raw % 0x1000 == 0x1AA),
{
}

/// A driver that has initialized a card goes by what it reports: the card's address,
/// its class, and four lines.
#[verifier::rlimit(40)]
pub proof fn driver_goes_by_its_report<H: SdioHost>(
    before: SdioSdmmc<H>,
    after: SdioSdmmc<H>,
    wait: PowerUp,
    info: CardInfo,
)
    requires
        ({
            let t = after.calls_since(before);
            let r = Ok::<InitStep, HostError>(InitStep::Ready(info));
            ||| calls::starts(t, r) && after.knows(before, 3, r)
            ||| calls::resumes(wait, t, r) && after.knows(before, 1, r)
        }),
    ensures
        after.rca == info.rca,
        after.high_capacity == info.high_capacity,
        after.bus_width == BusWidth::Bit4,
{
    let t = after.calls_since(before);
    let r = Ok::<InitStep, HostError>(InitStep::Ready(info));
    if calls::starts(t, r) && after.knows(before, 3, r) {
        let sd_v2 = calls::is_v2(t[2].response());
        ready_card_told_what_is_reported(sd_v2, 0, t.skip(3), info);
        assert(t.skip(3)[1] == t[4]);
        lemma_class_of(t[4].response());
    } else {
        ready_card_told_what_is_reported(wait.sd_v2, wait.elapsed_ms, t.skip(1), info);
        assert(t.skip(1)[1] == t[2]);
        lemma_class_of(t[2].response());
    }
}

proof fn lemma_class_of(answer: Response)
    ensures
        answer matches Response::R3(ocr) ==> bits::bit(ocr.raw, 30) == (ocr.raw / 0x4000_0000 % 2
            == 1),
{
    if let Response::R3(ocr) = answer {
        bits::lemma_low_and_high_bits(ocr.raw);
    }
}

/// A driver that has not got so far keeps what it knew: its card's address until a card
/// is ready, the card's class until the card was selected, and the lines until the host
/// was given four.
pub proof fn driver_keeps_what_it_knew<H: SdioHost>(
    before: SdioSdmmc<H>,
    after: SdioSdmmc<H>,
    n: int,
    r: Result<InitStep, HostError>,
)
    requires
        n == 1 || n == 3,
        after.knows(before, n, r),
        !(r matches Ok(InitStep::Ready(_))),
    ensures
        after.rca == before.rca,
        after.calls_since(before).len() <= n + 9 ==> after.bus_width == before.bus_width,
        after.calls_since(before).len() > n + 9 ==> after.bus_width == BusWidth::Bit4,
        after.calls_since(before).len() <= n + 6 ==> after.high_capacity == before.high_capacity,
        after.calls_since(before).len() > n + 6 ==> (after.calls_since(before)[n
            + 1].response() matches Response::R3(ocr) ==> after.high_capacity == (ocr.raw
            / 0x4000_0000 % 2 == 1)),
{
    lemma_class_of(after.calls_since(before)[n + 1].response());
}

/// A poll fails with the failure of the call that was made last; or it made no call that
/// failed, and the card answered ACMD41 or CMD3 with another response than the one that
/// it owes, or is still powering up after a second. It fails for no other reason.
#[verifier::rlimit(40)]
pub proof fn poll_fails_for_a_reason(
    sd_v2: bool,
    elapsed_ms: u32,
    t: Seq<HostCall>,
    e: HostError,
)
    requires
        calls::polls(sd_v2, elapsed_ms, t, Err(e)),
    ensures
        1 <= t.len() <= 10,
        ({
            ||| t.last().outcome() == Err::<(), HostError>(e)
            ||| t.len() == 2 && !(t[1].response() is R3) && e == HostError::BadResponse(
                ErrorContext { phase: Phase::Init, cmd: Some(41) },
            )
            ||| t.len() == 2 && elapsed_ms >= 1000 && (t[1].response() matches Response::R3(ocr)
                && ocr.raw < 0x8000_0000) && e == HostError::Timeout(
                ErrorContext { phase: Phase::Init, cmd: Some(41) },
            )
            ||| t.len() == 4 && !(t[3].response() is R6) && e == HostError::BadResponse(
                ErrorContext { phase: Phase::Init, cmd: Some(3) },
            )
        }),
{
    let n = if t.len() < 2 { t.len() as int } else { 2 };
    let u = t.take(n);
    if calls::run_result(u) is Ok {
        assert(u.len() == 2);
        assert(u[1] == t[1]);
        if let Response::R3(ocr) = t[1].response() {
            bits::lemma_low_and_high_bits(ocr.raw);
            if bits::bit(ocr.raw, 31) {
                lemma_identification_fails(sd_v2, ocr, t.skip(2), e);
                let v = t.skip(2);
                assert(v.last() == t.last());
                if v.len() > 1 {
                    assert(v[1] == t[3]);
                }
            }
        }
    } else {
        assert(u.last() == t[n - 1]);
    }
}

proof fn lemma_identification_fails(
    sd_v2: bool,
    ocr: OcrResponse,
    v: Seq<HostCall>,
    e: HostError,
)
    requires
        calls::identifies(sd_v2, ocr, v, Err(e)),
    ensures
        1 <= v.len() <= 8,
        ({
            ||| v.last().outcome() == Err::<(), HostError>(e)
            ||| v.len() == 2 && !(v[1].response() is R6) && e == HostError::BadResponse(
                ErrorContext { phase: Phase::Init, cmd: Some(3) },
            )
        }),
{
    let n = if v.len() < 2 { v.len() as int } else { 2 };
    let u = v.take(n);
    if calls::run_result(u) is Ok {
        assert(u.len() == 2);
        if v[1].response() is R6 {
            let w = v.skip(2);
            assert(calls::selecting(calls::rca_in(v[1].response())).len() == 6);
            if w.len() > 0 {
                assert(w.last() == v.last());
            }
        }
    } else {
        assert(u.last() == v[n - 1]);
    }
}

} // verus!
