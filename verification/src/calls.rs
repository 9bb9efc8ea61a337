//! What a card driver asks of its host controller, and which calls each card
//! transaction makes.
//!
//! A transaction is described by a relation between the calls that it made, in
//! order, and what it returned. Every call counts, so a relation says both what
//! was asked and what each reply led to.
use vstd::prelude::*;

use crate::bits;
use crate::cmd::{self, Command, DataDirection};
use crate::error::{ErrorContext, HostError, Phase};
use crate::response::{
    CidResponse, CsdResponse, IfCondResponse, OcrResponse, RcaResponse, Response, ResponseType,
};
use crate::sdio::{BusWidth, CardInfo, ClockSpeed, InitStep, PowerUp};

verus! {

/// One thing asked of a host controller.
pub enum Request {
    /// Send a command
    Command(Command),
    /// Read this many bytes from the data bus, in blocks of this size
    Read(nat, u32),
    /// Write bytes to the data bus, in blocks of this size
    Write(Seq<u8>, u32),
    /// Use this many data lines
    Width(BusWidth),
    /// Run the bus at this speed
    Clock(ClockSpeed),
    /// Expect this many blocks
    BlockCount(u32),
    /// Expect a data phase: its direction, block size and block count
    Prepare(DataDirection, u32, u32),
}

/// One call of a host controller: what was asked and what came back.
pub enum HostCall {
    Command(Command, Result<Response, HostError>),
    /// A read of the data bus: the block size, what the buffer holds afterwards
    /// and the outcome
    Read(u32, Seq<u8>, Result<(), HostError>),
    /// Any other request and its outcome
    Plain(Request, Result<(), HostError>),
}

impl HostCall {
    pub open spec fn request(self) -> Request {
        match self {
            HostCall::Command(c, _) => Request::Command(c),
            HostCall::Read(size, data, _) => Request::Read(data.len(), size),
            HostCall::Plain(q, _) => q,
        }
    }

    /// Whether the call succeeded, and its error where it did not.
    pub open spec fn outcome(self) -> Result<(), HostError> {
        match self {
            HostCall::Command(_, r) => match r {
                Ok(_) => Ok(()),
                Err(e) => Err(e),
            },
            HostCall::Read(_, _, r) => r,
            HostCall::Plain(_, r) => r,
        }
    }

    /// The response to a command that succeeded.
    pub open spec fn response(self) -> Response {
        match self {
            HostCall::Command(_, r) => r->Ok_0,
            _ => Response::NoResponse,
        }
    }

    /// What a read left in the buffer.
    pub open spec fn data(self) -> Seq<u8> {
        match self {
            HostCall::Read(_, data, _) => data,
            _ => Seq::empty(),
        }
    }
}

/// The later history continues the earlier one.
pub open spec fn continues(before: Seq<HostCall>, after: Seq<HostCall>) -> bool {
    &&& before.len() <= after.len()
    &&& after.take(before.len() as int) =~= before
}

/// The calls that a history has beyond an earlier one.
pub open spec fn since(before: Seq<HostCall>, after: Seq<HostCall>) -> Seq<HostCall> {
    after.skip(before.len() as int)
}

/// One more call.
pub proof fn lemma_since_push(a: Seq<HostCall>, b: Seq<HostCall>, x: HostCall)
    requires
        continues(a, b),
    ensures
        continues(a, b.push(x)),
        since(a, b.push(x)) == since(a, b).push(x),
{
    assert(b.push(x).take(a.len() as int) =~= b.take(a.len() as int));
    assert(since(a, b.push(x)) =~= since(a, b).push(x));
}

/// Two stretches of history join.
pub proof fn lemma_since_splits(a: Seq<HostCall>, b: Seq<HostCall>, c: Seq<HostCall>)
    requires
        continues(a, b),
        continues(b, c),
    ensures
        continues(a, c),
        since(a, c).len() == since(a, b).len() + since(b, c).len(),
        since(a, c).take(since(a, b).len() as int) == since(a, b),
        since(a, c).skip(since(a, b).len() as int) == since(b, c),
{
    assert(c.take(a.len() as int) =~= b.take(a.len() as int));
    assert forall|i: int| 0 <= i < b.len() implies c[i] == b[i] by {
        assert(c.take(b.len() as int)[i] == c[i]);
    }
    assert(since(a, c).take(since(a, b).len() as int) =~= since(a, b));
    assert(since(a, c).skip(since(a, b).len() as int) =~= since(b, c));
}

/// The calls that make `asked`, in order, up to the first that fails.
pub open spec fn is_run(asked: Seq<Request>, t: Seq<HostCall>) -> bool {
    &&& t.len() <= asked.len()
    &&& forall|i: int| 0 <= i < t.len() ==> (#[trigger] t[i]).request() == asked[i]
    &&& forall|i: int| 0 <= i < t.len() - 1 ==> (#[trigger] t[i]).outcome() is Ok
    &&& t.len() < asked.len() ==> t.len() > 0 && t.last().outcome() is Err
}

/// What such calls end with: the error that stopped them, if one did.
pub open spec fn run_result(t: Seq<HostCall>) -> Result<(), HostError> {
    if t.len() > 0 {
        t.last().outcome()
    } else {
        Ok(())
    }
}

/// The calls made so far asked for the first of `asked`, and none failed.
pub open spec fn underway(asked: Seq<Request>, t: Seq<HostCall>) -> bool {
    &&& t.len() <= asked.len()
    &&& forall|i: int| 0 <= i < t.len() ==> (#[trigger] t[i]).request() == asked[i]
    &&& forall|i: int| 0 <= i < t.len() ==> (#[trigger] t[i]).outcome() is Ok
}

/// One call more brings a run further or ends it.
pub proof fn lemma_run_grows(asked: Seq<Request>, t: Seq<HostCall>, x: HostCall)
    requires
        underway(asked, t),
        t.len() < asked.len(),
        x.request() == asked[t.len() as int],
    ensures
        match x.outcome() {
            Ok(_) => underway(asked, t.push(x)),
            Err(e) => is_run(asked, t.push(x)) && run_result(t.push(x)) == Err::<(), HostError>(e),
        },
{
    let u = t.push(x);
    assert forall|i: int| 0 <= i < u.len() implies (#[trigger] u[i]).request() == asked[i] by {
        if i < t.len() {
            assert(u[i] == t[i]);
        }
    }
    assert forall|i: int| 0 <= i < t.len() implies (#[trigger] u[i]).outcome() is Ok by {
        assert(u[i] == t[i]);
    }
}

// Commands

/// A command that carries a relative card address.
pub open spec fn addressed(index: u8, rca: u16, resp_type: ResponseType) -> Request {
    Request::Command(Command { cmd: index, arg: (rca * 0x1_0000) as u32, resp_type })
}

/// A command that is answered by R1.
pub open spec fn r1(index: u8, arg: u32) -> Request {
    Request::Command(Command { cmd: index, arg, resp_type: ResponseType::R1 })
}

/// STOP_TRANSMISSION
pub open spec fn stop() -> Request {
    Request::Command(Command { cmd: 12, arg: 0, resp_type: ResponseType::R1b })
}

/// Clear a hint that an earlier transaction may have left behind, before commands
/// without a data phase.
pub open spec fn no_data() -> Request {
    Request::Prepare(DataDirection::NoData, 0, 0)
}

// Initialization

/// Reset the card and probe it for version 2.
pub open spec fn probing() -> Seq<Request> {
    seq![
        no_data(),
        Request::Command(Command { cmd: 0, arg: 0, resp_type: ResponseType::NoResponse }),
        Request::Command(Command { cmd: 8, arg: 0x1AA, resp_type: ResponseType::R7 }),
    ]
}

/// Whether the answer to SEND_IF_COND is that of a version 2 card.
pub open spec fn is_v2(answer: Response) -> bool {
    answer matches Response::R7(c) && c.echoes(0x01, 0xAA)
}

/// Ask once whether the card has powered up.
pub open spec fn polling(sd_v2: bool) -> Seq<Request> {
    seq![r1(55, 0), Request::Command(cmd::op_cond_command(sd_v2, 0xFF8000))]
}

/// The address in the answer to SEND_RELATIVE_ADDR.
pub open spec fn rca_in(answer: Response) -> u16 {
    match answer {
        Response::R6(a) => (a.raw / 0x1_0000) as u16,
        _ => 0,
    }
}

/// Give the data bus `width` lines, on the card and on the host.
pub open spec fn widening(rca: u16, width: BusWidth) -> Seq<Request> {
    if width == BusWidth::Bit8 {
        seq![addressed(55, rca, ResponseType::R1)]
    } else {
        seq![
            addressed(55, rca, ResponseType::R1),
            r1(
                6,
                if width == BusWidth::Bit4 {
                    2
                } else {
                    0
                },
            ),
            Request::Width(width),
        ]
    }
}

/// Ask a powered-up card for its identity and its address.
pub open spec fn identifying() -> Seq<Request> {
    seq![
        Request::Command(Command { cmd: 2, arg: 0, resp_type: ResponseType::R2 }),
        Request::Command(Command { cmd: 3, arg: 0, resp_type: ResponseType::R6 }),
    ]
}

/// Ask the card at `rca` for its capacity, select it, give it four lines and bring
/// the bus to default speed.
pub open spec fn selecting(rca: u16) -> Seq<Request> {
    seq![addressed(9, rca, ResponseType::R2), addressed(7, rca, ResponseType::R1b)] + widening(
        rca,
        BusWidth::Bit4,
    ) + seq![Request::Clock(ClockSpeed::Default)]
}

/// The capacity that the answer to SEND_CSD states.
pub open spec fn capacity_in(answer: Response) -> Option<u64> {
    match answer {
        Response::R2(raw) => (CsdResponse { raw }).capacity(),
        _ => None,
    }
}

/// What initialization reports, from the answers to ALL_SEND_CID,
/// SEND_RELATIVE_ADDR and SEND_CSD.
pub open spec fn card_info(
    sd_v2: bool,
    ocr: OcrResponse,
    cid: Response,
    rca: u16,
    csd: Response,
) -> CardInfo {
    CardInfo {
        sd_v2,
        high_capacity: bits::bit(ocr.raw, 30),
        ocr: ocr.raw,
        rca,
        capacity_blocks: capacity_in(csd),
        cid: match cid {
            Response::R2(raw) => Some(CidResponse { raw }),
            _ => None,
        },
    }
}

/// The last leg of initialization: the card is powered up.
pub open spec fn identifies(
    sd_v2: bool,
    ocr: OcrResponse,
    t: Seq<HostCall>,
    r: Result<InitStep, HostError>,
) -> bool {
    let n = if t.len() < 2 { t.len() as int } else { 2 };
    &&& is_run(identifying(), t.take(n))
    &&& match run_result(t.take(n)) {
        Err(e) => t.len() == n && r == Err::<InitStep, HostError>(e),
        Ok(_) => if t[1].response() is R6 {
            let rca = rca_in(t[1].response());
            &&& is_run(selecting(rca), t.skip(2))
            &&& match run_result(t.skip(2)) {
                Err(e) => r == Err::<InitStep, HostError>(e),
                Ok(_) => r == Ok::<InitStep, HostError>(
                    InitStep::Ready(card_info(sd_v2, ocr, t[0].response(), rca, t[2].response())),
                ),
            }
        } else {
            t.len() == 2 && r == Err::<InitStep, HostError>(
                HostError::BadResponse(ErrorContext { phase: Phase::Init, cmd: Some(3) }),
            )
        },
    }
}

/// Whether the card is taken for a high-capacity one after the calls `t`, which
/// polled it from call `n` on: its own word counts once it was selected.
pub open spec fn class_after(t: Seq<HostCall>, n: int, before: bool) -> bool {
    if t.len() > n + 6 {
        match t[n + 1].response() {
            Response::R3(ocr) => bits::bit(ocr.raw, 30),
            _ => before,
        }
    } else {
        before
    }
}

/// The number of data lines in use after the calls `t`, which polled the card from
/// call `n` on: four once the host has widened its bus.
pub open spec fn width_after(t: Seq<HostCall>, n: int, before: BusWidth) -> BusWidth {
    if t.len() > n + 9 {
        BusWidth::Bit4
    } else {
        before
    }
}

/// A poll of a card that may still be powering up, after a wait of `elapsed_ms`
/// altogether, and what follows at once.
pub open spec fn polls(
    sd_v2: bool,
    elapsed_ms: u32,
    t: Seq<HostCall>,
    r: Result<InitStep, HostError>,
) -> bool {
    let n = if t.len() < 2 { t.len() as int } else { 2 };
    &&& is_run(polling(sd_v2), t.take(n))
    &&& match run_result(t.take(n)) {
        Err(e) => t.len() == n && r == Err::<InitStep, HostError>(e),
        Ok(_) => match t[1].response() {
            Response::R3(ocr) => if bits::bit(ocr.raw, 31) {
                identifies(sd_v2, ocr, t.skip(2), r)
            } else {
                &&& t.len() == 2
                &&& r == (if elapsed_ms >= 1000 {
                    Err::<InitStep, HostError>(
                        HostError::Timeout(ErrorContext { phase: Phase::Init, cmd: Some(41) }),
                    )
                } else {
                    Ok(InitStep::Wait(PowerUp { sd_v2, elapsed_ms: (elapsed_ms + 10) as u32 }))
                })
            },
            _ => t.len() == 2 && r == Err::<InitStep, HostError>(
                HostError::BadResponse(ErrorContext { phase: Phase::Init, cmd: Some(41) }),
            ),
        },
    }
}

/// Initialization up to the first wait.
pub open spec fn starts(t: Seq<HostCall>, r: Result<InitStep, HostError>) -> bool {
    let n = if t.len() < 3 { t.len() as int } else { 3 };
    &&& is_run(probing(), t.take(n))
    &&& match run_result(t.take(n)) {
        Err(e) => t.len() == n && r == Err::<InitStep, HostError>(e),
        Ok(_) => polls(is_v2(t[2].response()), 0, t.skip(3), r),
    }
}

/// Initialization from one wait up to the next.
pub open spec fn resumes(w: PowerUp, t: Seq<HostCall>, r: Result<InitStep, HostError>) -> bool {
    let n = if t.len() < 1 { t.len() as int } else { 1 };
    &&& is_run(seq![no_data()], t.take(n))
    &&& match run_result(t.take(n)) {
        Err(e) => t.len() == n && r == Err::<InitStep, HostError>(e),
        Ok(_) => polls(w.sd_v2, w.elapsed_ms, t.skip(1), r),
    }
}

// Data

/// Announce one block, ask for it and move it.
pub open spec fn one_block(direction: DataDirection, command: Request, moved: Request) -> Seq<Request> {
    seq![Request::Prepare(direction, 512, 1), command, moved]
}

/// Announce blocks, ask for them, move them one by one and stop.
pub open spec fn many_blocks(
    direction: DataDirection,
    count: u32,
    command: Request,
    moved: Seq<Request>,
) -> Seq<Request> {
    seq![Request::Prepare(direction, 512, count), Request::BlockCount(count), command] + moved
        + seq![stop()]
}

/// Mark the first and the last block of a range and erase it.
pub open spec fn erasing(first: u32, last: u32) -> Seq<Request> {
    seq![
        no_data(),
        r1(32, first),
        r1(33, last),
        Request::Command(Command { cmd: 38, arg: 0, resp_type: ResponseType::R1b }),
    ]
}

/// Announce a status block, ask for a function and read the block.
pub open spec fn switching(command: Command) -> Seq<Request> {
    seq![
        Request::Prepare(DataDirection::Read, 64, 1),
        Request::Command(command),
        Request::Read(64, 64),
    ]
}

/// Reads of `n` blocks.
pub open spec fn block_reads(n: nat) -> Seq<Request> {
    Seq::new(n, |i: int| Request::Read(512, 512))
}

/// The blocks that arrived in the calls of a multi-block read: those of its reads,
/// but for the last call, which is the stop or one that failed.
pub open spec fn arrived(t: Seq<HostCall>) -> Seq<Seq<u8>> {
    Seq::new(
        if t.len() > 3 {
            (t.len() - 4) as nat
        } else {
            0
        },
        |j: int| t[3 + j].data(),
    )
}

/// Writes of the given blocks.
pub open spec fn block_writes(blocks: Seq<[u8; 512]>) -> Seq<Request> {
    Seq::new(blocks.len(), |i: int| Request::Write(blocks[i]@, 512))
}

// Laws

/// Nothing is asked of the host after a call that failed, and the failure is what
/// the transaction returns.
pub proof fn nothing_follows_a_failure(asked: Seq<Request>, t: Seq<HostCall>, i: int, e: HostError)
    requires
        is_run(asked, t),
        0 <= i < t.len(),
        t[i].outcome() == Err::<(), HostError>(e),
    ensures
        i == t.len() - 1,
        run_result(t) == Err::<(), HostError>(e),
{
}

/// A transaction that succeeds has asked for all that it asks for.
pub proof fn success_is_complete(asked: Seq<Request>, t: Seq<HostCall>)
    requires
        is_run(asked, t),
        run_result(t) is Ok,
    ensures
        t.len() == asked.len(),
        forall|i: int| 0 <= i < t.len() ==> (#[trigger] t[i]).outcome() is Ok,
{
    assert forall|i: int| 0 <= i < t.len() implies (#[trigger] t[i]).outcome() is Ok by {
        if i == t.len() - 1 {
            assert(t[i] == t.last());
        }
    }
}

/// A card that is reported ready has said that it is powered up, and was asked
/// for its capacity, selected and widened under the address that it published; then
/// the bus was brought to default speed.
pub proof fn ready_card_was_selected_by_its_address(
    sd_v2: bool,
    elapsed_ms: u32,
    t: Seq<HostCall>,
    info: CardInfo,
)
    requires
        polls(sd_v2, elapsed_ms, t, Ok(InitStep::Ready(info))),
    ensures
        t.len() == 10,
        t[1].response() matches Response::R3(ocr) && bits::bit(ocr.raw, 31) && ocr.raw == info.ocr,
        t[3].response() matches Response::R6(a) && info.rca == a.raw / 0x1_0000,
        t[4].request() == addressed(9, info.rca, ResponseType::R2),
        t[5].request() == addressed(7, info.rca, ResponseType::R1b),
        t[6].request() == addressed(55, info.rca, ResponseType::R1),
        t[7].request() == r1(6, 2),
        t[8].request() == Request::Width(BusWidth::Bit4),
        t[9].request() == Request::Clock(ClockSpeed::Default),
        forall|i: int| 0 <= i < 10 ==> (#[trigger] t[i]).outcome() is Ok,
{
    let u = t.skip(2);
    let v = u.skip(2);
    success_is_complete(polling(sd_v2), t.take(2));
    success_is_complete(identifying(), u.take(2));
    success_is_complete(selecting(info.rca), v);
    assert forall|i: int| 0 <= i < 10 implies (#[trigger] t[i]).outcome() is Ok by {
        if i < 2 {
            assert(t.take(2)[i] == t[i]);
        } else if i < 4 {
            assert(u.take(2)[i - 2] == t[i]);
        } else {
            assert(v[i - 4] == t[i]);
        }
    }
    assert(v[0] == t[4] && v[1] == t[5] && v[2] == t[6] && v[3] == t[7] && v[4] == t[8] && v[5]
        == t[9]);
}

/// Initialization can begin with the wait `w`.
pub open spec fn can_wait_first(w: PowerUp) -> bool {
    exists|t: Seq<HostCall>| #[trigger] starts(t, Ok(InitStep::Wait(w)))
}

/// After the wait `w` initialization can come to the wait `next`.
pub open spec fn can_wait_again(w: PowerUp, next: PowerUp) -> bool {
    exists|t: Seq<HostCall>| #[trigger] resumes(w, t, Ok(InitStep::Wait(next)))
}

/// The waits of one initialization: each follows the one before it.
pub open spec fn are_waits(ws: Seq<PowerUp>) -> bool {
    &&& ws.len() > 0 ==> can_wait_first(ws[0])
    &&& forall|i: int| 0 < i < ws.len() ==> can_wait_again(ws[i - 1], #[trigger] ws[i])
}

/// A card is waited for no more than a hundred times, ten milliseconds each, and
/// the time that a wait states is that of all waits up to it.
pub proof fn waits_for_power_up_are_bounded(ws: Seq<PowerUp>)
    requires
        are_waits(ws),
    ensures
        ws.len() <= 100,
        forall|i: int| 0 <= i < ws.len() ==> (#[trigger] ws[i]).elapsed_ms == 10 * (i + 1),
    decreases ws.len(),
{
    if ws.len() > 0 {
        let before = ws.drop_last();
        let last = ws.len() - 1;
        assert forall|i: int| 0 < i < before.len() implies can_wait_again(
            before[i - 1],
            #[trigger] before[i],
        ) by {
            assert(before[i] == ws[i] && before[i - 1] == ws[i - 1]);
        }
        waits_for_power_up_are_bounded(before);
        if last > 0 {
            assert(before[last - 1] == ws[last - 1]);
            assert(can_wait_again(ws[last - 1], ws[last]));
        }
        assert forall|i: int| 0 <= i < ws.len() implies (#[trigger] ws[i]).elapsed_ms == 10 * (i
            + 1) by {
            if i < last {
                assert(before[i] == ws[i]);
            }
        }
    }
}

/// What a step of initialization returns follows from its calls alone.
pub proof fn initialization_is_determined(
    t: Seq<HostCall>,
    a: Result<InitStep, HostError>,
    b: Result<InitStep, HostError>,
)
    requires
        starts(t, a),
        starts(t, b),
    ensures
        a == b,
{
}

/// An address comes back from the argument of the commands that carry it.
pub proof fn address_survives_a_command(rca: u16, index: u8, resp_type: ResponseType)
    ensures
        addressed(index, rca, resp_type) matches Request::Command(c) && rca_in(
            Response::R6(RcaResponse { raw: c.arg }),
        ) == rca,
{
}

/// A card that echoes the probe is one of version 2.
pub proof fn echo_is_recognized()
    ensures
        probing()[2] matches Request::Command(c) && is_v2(
            Response::R7(IfCondResponse { raw: c.arg }),
        ),
{
}

} // verus!
