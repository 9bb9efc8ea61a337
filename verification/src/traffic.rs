//! What passes over an SPI bus, and which traffic each card transaction makes.
//!
//! A transaction is described by a relation between the exchanges that it
//! made, in order, and what it returned. Every exchange counts, so a relation
//! says both what was sent and what each reply led to.
use vstd::prelude::*;

use crate::bits;
use crate::cmd::{self, Command};
use crate::error::Error;
use crate::spi::CardInfo;
use crate::response::{
    CsdResponse, IfCondResponse, OcrResponse, R1Response, Response, ResponseType,
};

verus! {

/// One byte sent and what came back.
pub struct Exchange {
    pub tx: u8,
    pub rx: Result<u8, Error>,
}

/// The later history continues the earlier one.
pub open spec fn continues(before: Seq<Exchange>, after: Seq<Exchange>) -> bool {
    &&& before.len() <= after.len()
    &&& after.take(before.len() as int) =~= before
}

/// The exchanges that a history has beyond an earlier one.
pub open spec fn since(before: Seq<Exchange>, after: Seq<Exchange>) -> Seq<Exchange> {
    after.skip(before.len() as int)
}

/// Two stretches of history join.
pub proof fn lemma_since_splits(a: Seq<Exchange>, b: Seq<Exchange>, c: Seq<Exchange>)
    requires
        continues(a, b),
        continues(b, c),
    ensures
        continues(a, c),
        since(a, c).len() == since(a, b).len() + since(b, c).len(),
        since(a, c).take(since(a, b).len() as int) == since(a, b),
        since(a, c).skip(since(a, b).len() as int) == since(b, c),
        since(a, c) == since(a, b) + since(b, c),
{
    assert(c.take(a.len() as int) =~= b.take(a.len() as int));
    assert forall|i: int| 0 <= i < b.len() implies c[i] == b[i] by {
        assert(c.take(b.len() as int)[i] == c[i]);
    }
    assert(since(a, c).take(since(a, b).len() as int) =~= since(a, b));
    assert(since(a, c).skip(since(a, b).len() as int) =~= since(b, c));
    assert(since(a, c) =~= since(a, b) + since(b, c));
}

/// One more exchange.
pub proof fn lemma_since_push(a: Seq<Exchange>, b: Seq<Exchange>, x: Exchange)
    requires
        continues(a, b),
    ensures
        continues(a, b.push(x)),
        since(a, b.push(x)) == since(a, b).push(x),
{
    assert(b.push(x).take(a.len() as int) =~= b.take(a.len() as int));
    assert(since(a, b.push(x)) =~= since(a, b).push(x));
}

// Sending a fixed string of bytes

/// The traffic of sending `out`: its bytes in order, up to the first bus error.
pub open spec fn is_run(out: Seq<u8>, t: Seq<Exchange>) -> bool {
    &&& t.len() <= out.len()
    &&& forall|i: int| 0 <= i < t.len() ==> (#[trigger] t[i]).tx == out[i]
    &&& forall|i: int| 0 <= i < t.len() - 1 ==> (#[trigger] t[i]).rx is Ok
    &&& t.len() < out.len() ==> t.len() > 0 && t.last().rx is Err
}

/// What sending ends with: the bus error that stopped it, if one did.
pub open spec fn run_result(t: Seq<Exchange>) -> Result<(), Error> {
    if t.len() > 0 {
        match t.last().rx {
            Ok(_) => Ok(()),
            Err(e) => Err(e),
        }
    } else {
        Ok(())
    }
}

/// The bytes that came back in traffic without a bus error.
pub open spec fn replies(t: Seq<Exchange>) -> Seq<u8> {
    Seq::new(t.len(), |i: int| t[i].rx->Ok_0)
}

/// `buf` with the bytes that came back, up to a bus error, laid over its start.
pub open spec fn overlay(buf: Seq<u8>, t: Seq<Exchange>) -> Seq<u8> {
    Seq::new(
        buf.len(),
        |i: int| if i < t.len() && t[i].rx is Ok { t[i].rx->Ok_0 } else { buf[i] },
    )
}

/// `n` idle bytes, which clock `n` bytes out of the card.
pub open spec fn filler(n: nat) -> Seq<u8> {
    Seq::new(n, |i: int| 0xFFu8)
}

// Polling

/// Whether a reply ends a poll: an idle byte where one is awaited, any other
/// byte where an answer is.
pub open spec fn ends_poll(idle: bool, b: u8) -> bool {
    (b == 0xFF) == idle
}

/// The traffic of a poll: idle bytes are sent until a reply ends it, the bus
/// fails or `limit` bytes were sent.
pub open spec fn is_poll(limit: nat, idle: bool, t: Seq<Exchange>) -> bool {
    &&& t.len() <= limit
    &&& forall|i: int| 0 <= i < t.len() ==> (#[trigger] t[i]).tx == 0xFF
    &&& forall|i: int|
        0 <= i < t.len() - 1 ==> ((#[trigger] t[i]).rx matches Ok(b) && !ends_poll(idle, b))
    &&& t.len() < limit ==> t.len() > 0 && (t.last().rx matches Ok(b) ==> ends_poll(idle, b))
}

/// What a poll ends with: the reply that ended it, the bus error, or a timeout.
pub open spec fn poll_result(idle: bool, t: Seq<Exchange>) -> Result<u8, Error> {
    if t.len() == 0 {
        Err(Error::Timeout)
    } else {
        match t.last().rx {
            Ok(b) => if ends_poll(idle, b) {
                Ok(b)
            } else {
                Err(Error::Timeout)
            },
            Err(e) => Err(e),
        }
    }
}

/// Polls that wait for an answer give up after this many bytes.
pub open spec fn answer_limit() -> nat {
    100
}

/// Polls that wait for a busy card give up after this many bytes.
pub open spec fn busy_limit() -> nat {
    500_000
}

/// Polls that wait for a data token give up after this many bytes.
pub open spec fn token_limit() -> nat {
    10_000
}

/// The traffic of waiting for the card to release the bus.
pub open spec fn is_busy_wait(t: Seq<Exchange>) -> bool {
    is_poll(busy_limit(), true, t)
}

/// What waiting for the card ends with.
pub open spec fn busy_result(t: Seq<Exchange>) -> Result<(), Error> {
    match poll_result(true, t) {
        Ok(_) => Ok(()),
        Err(e) => Err(e),
    }
}

// Commands

/// A register of 16 bytes from the card, led by the start token.
///
/// A token other than the start token is a read error; nothing follows it.
pub open spec fn reads_register(t: Seq<Exchange>, r: Result<Response, Error>) -> bool {
    exists|n: int|
        {
            &&& 0 <= n <= t.len()
            &&& is_poll(token_limit(), false, #[trigger] t.take(n))
            &&& match poll_result(false, t.take(n)) {
                Ok(token) => if token == 0xFE {
                    &&& is_run(filler(16), t.skip(n))
                    &&& match run_result(t.skip(n)) {
                        Ok(_) => r matches Ok(Response::R2(b)) && b@ == replies(t.skip(n)),
                        Err(e) => r == Err::<Response, Error>(e),
                    }
                } else {
                    n == t.len() && r == Err::<Response, Error>(Error::ReadError)
                },
                Err(e) => n == t.len() && r == Err::<Response, Error>(e),
            }
        }
}

/// What follows the R1 byte of a response.
pub open spec fn payload(
    kind: ResponseType,
    r1: R1Response,
    t: Seq<Exchange>,
    r: Result<Response, Error>,
) -> bool {
    match kind {
        ResponseType::R1b => {
            &&& is_busy_wait(t)
            &&& r == (match busy_result(t) {
                Ok(_) => Ok(Response::R1b(r1)),
                Err(e) => Err(e),
            })
        },
        ResponseType::R2 => if r1.raw != 0 {
            t.len() == 0 && r == Ok::<Response, Error>(Response::R1(r1))
        } else {
            reads_register(t, r)
        },
        ResponseType::R3 => {
            &&& is_run(filler(4), t)
            &&& r == (match run_result(t) {
                Ok(_) => Ok(
                    Response::R3(OcrResponse { raw: bits::be_value(replies(t)) as u32 }),
                ),
                Err(e) => Err(e),
            })
        },
        ResponseType::R7 => if bits::bit(r1.raw, 2) {
            t.len() == 0 && r == Ok::<Response, Error>(Response::R1(r1))
        } else {
            &&& is_run(filler(4), t)
            &&& r == (match run_result(t) {
                Ok(_) => Ok(
                    Response::R7(IfCondResponse { raw: bits::be_value(replies(t)) as u32 }),
                ),
                Err(e) => Err(e),
            })
        },
        _ => t.len() == 0 && r == Ok::<Response, Error>(Response::R1(r1)),
    }
}

/// A response: an R1 byte is awaited, and what follows depends on the kind.
pub open spec fn answers(
    kind: ResponseType,
    t: Seq<Exchange>,
    r: Result<Response, Error>,
) -> bool {
    exists|n: int|
        {
            &&& 0 <= n <= t.len()
            &&& is_poll(answer_limit(), false, #[trigger] t.take(n))
            &&& match poll_result(false, t.take(n)) {
                Ok(b) => payload(kind, R1Response { raw: b as u32 }, t.skip(n), r),
                Err(e) => n == t.len() && r == Err::<Response, Error>(e),
            }
        }
}

/// Length of the part of `t` in which `n` bytes are sent.
pub open spec fn head(n: nat, t: Seq<Exchange>) -> int {
    if t.len() < n {
        t.len() as int
    } else {
        n as int
    }
}

/// A command: its frame is sent, then the response is collected.
pub open spec fn commands(c: Command, t: Seq<Exchange>, r: Result<Response, Error>) -> bool {
    let k = head(6, t);
    &&& is_run(c.frame(), t.take(k))
    &&& match run_result(t.take(k)) {
        Ok(_) => answers(c.resp_type, t.skip(k), r),
        Err(e) => k == t.len() && r == Err::<Response, Error>(e),
    }
}

/// The R1 status in a response; any other response is a bad one.
pub open spec fn status_of(r: Result<Response, Error>) -> Result<R1Response, Error> {
    match r {
        Ok(Response::R1(r1)) => Ok(r1),
        Ok(Response::R1b(r1)) => Ok(r1),
        Ok(_) => Err(Error::BadResponse),
        Err(e) => Err(e),
    }
}

/// A command of which only the R1 status matters.
pub open spec fn acknowledges(c: Command, t: Seq<Exchange>, r: Result<R1Response, Error>) -> bool {
    exists|full: Result<Response, Error>| #[trigger] commands(c, t, full) && r == status_of(full)
}

// Initialization

/// What the driver knows about the card.
pub struct CardMode {
    pub sd_v2: bool,
    pub high_capacity: bool,
}

/// A command that is answered by an R1 status.
pub open spec fn r1_command(index: u8, arg: u32) -> Command {
    Command { cmd: index, arg, resp_type: ResponseType::R1 }
}

/// GO_IDLE_STATE
pub open spec fn reset_command() -> Command {
    Command { cmd: 0, arg: 0, resp_type: ResponseType::NoResponse }
}

/// SEND_IF_COND with 2.7-3.6 V and the pattern 0xAA
pub open spec fn interface_command() -> Command {
    Command { cmd: 8, arg: 0x1AA, resp_type: ResponseType::R7 }
}

/// READ_OCR
pub open spec fn ocr_command() -> Command {
    Command { cmd: 58, arg: 0, resp_type: ResponseType::R3 }
}

/// SEND_CSD
pub open spec fn csd_command() -> Command {
    Command { cmd: 9, arg: 0, resp_type: ResponseType::R2 }
}

/// STOP_TRANSMISSION
pub open spec fn stop_command() -> Command {
    Command { cmd: 12, arg: 0, resp_type: ResponseType::R1b }
}

/// What the answer to the interface probe says: the card is of version 2 if it
/// echoes the probe, and not if it does not know the command or stays silent.
pub open spec fn probe_result(r: Result<Response, Error>) -> Result<bool, Error> {
    match r {
        Ok(Response::R7(resp)) => Ok(resp.echoes(0x01, 0xAA)),
        Ok(Response::R1(r1)) => if bits::bit(r1.raw, 2) {
            Ok(false)
        } else {
            Err(Error::BadResponse)
        },
        Ok(_) => Err(Error::BadResponse),
        Err(Error::Timeout) => Ok(false),
        Err(e) => Err(e),
    }
}

/// The interface probe.
pub open spec fn probes(t: Seq<Exchange>, r: Result<bool, Error>) -> bool {
    exists|full: Result<Response, Error>| #[trigger]
        commands(interface_command(), t, full) && r == probe_result(full)
}

/// ACMD41 as it is sent over SPI, where only an R1 byte comes back.
pub open spec fn spi_op_cond(sd_v2: bool) -> Command {
    Command { resp_type: ResponseType::R1, ..cmd::op_cond_command(sd_v2, 0xFF8000) }
}

/// Whether an answer to ACMD41 says that the card has left the idle state.
pub open spec fn left_idle(r: Result<Response, Error>) -> Result<bool, Error> {
    match r {
        Ok(Response::R1(r1)) => Ok(!bits::bit(r1.raw, 0)),
        Ok(_) => Err(Error::BadResponse),
        Err(e) => Err(e),
    }
}

/// One attempt to start the card: CMD55, then ACMD41.
pub open spec fn start_round(sd_v2: bool, t: Seq<Exchange>, r: Result<bool, Error>) -> bool {
    exists|n: int, ack: Result<R1Response, Error>|
        {
            &&& 0 <= n <= t.len()
            &&& #[trigger] acknowledges(r1_command(55, 0), t.take(n), ack)
            &&& match ack {
                Ok(_) => exists|full: Result<Response, Error>| #[trigger]
                    commands(spi_op_cond(sd_v2), t.skip(n), full) && r == left_idle(full),
                Err(e) => n == t.len() && r == Err::<bool, Error>(e),
            }
        }
}

/// `rounds` attempts after each of which the card is still idle.
pub open spec fn still_idle(rounds: nat, sd_v2: bool, t: Seq<Exchange>) -> bool
    decreases rounds,
{
    if rounds == 0 {
        t.len() == 0
    } else {
        exists|n: int|
            {
                &&& 0 <= n <= t.len()
                &&& still_idle((rounds - 1) as nat, sd_v2, #[trigger] t.take(n))
                &&& start_round(sd_v2, t.skip(n), Ok(false))
            }
    }
}

/// The card is given this many attempts to start.
pub open spec fn start_limit() -> nat {
    1000
}

/// Waiting for the card to start: attempts until one finds it out of the idle
/// state, one fails or all are used up.
pub open spec fn starts(sd_v2: bool, t: Seq<Exchange>, r: Result<(), Error>) -> bool {
    exists|rounds: nat, n: int|
        {
            &&& rounds <= start_limit()
            &&& 0 <= n <= t.len()
            &&& #[trigger] still_idle(rounds, sd_v2, t.take(n))
            &&& if rounds == start_limit() {
                n == t.len() && r == Err::<(), Error>(Error::Timeout)
            } else {
                exists|last: Result<bool, Error>|
                    {
                        &&& #[trigger] start_round(sd_v2, t.skip(n), last)
                        &&& match last {
                            Ok(out) => out && r == Ok::<(), Error>(()),
                            Err(e) => r == Err::<(), Error>(e),
                        }
                    }
            }
        }
}

/// Reading the OCR register.
pub open spec fn reads_ocr(t: Seq<Exchange>, r: Result<OcrResponse, Error>) -> bool {
    exists|full: Result<Response, Error>| #[trigger]
        commands(ocr_command(), t, full) && r == (match full {
            Ok(Response::R3(ocr)) => Ok(ocr),
            Ok(_) => Err(Error::BadResponse),
            Err(e) => Err(e),
        })
}

/// What the answer to SEND_CSD says of the capacity: nothing if no register came.
pub open spec fn capacity_in(r: Result<Response, Error>) -> Option<u64> {
    match r {
        Ok(Response::R2(raw)) => (CsdResponse { raw }).capacity(),
        _ => None,
    }
}

/// Reading the capacity from the CSD register.
pub open spec fn reads_capacity(t: Seq<Exchange>, capacity: Option<u64>) -> bool {
    exists|full: Result<Response, Error>| #[trigger]
        commands(csd_command(), t, full) && capacity == capacity_in(full)
}

/// Initialization, from the CSD on: all that was found out is reported, with the
/// capacity or without it.
pub open spec fn init_from_csd(
    mode: CardMode,
    ocr: OcrResponse,
    t: Seq<Exchange>,
    r: Result<CardInfo, Error>,
) -> bool {
    exists|capacity_blocks: Option<u64>| #[trigger]
        reads_capacity(t, capacity_blocks) && r == Ok::<CardInfo, Error>(
            CardInfo {
                sd_v2: mode.sd_v2,
                high_capacity: mode.high_capacity,
                ocr: ocr.raw,
                capacity_blocks,
            },
        )
}

/// What the driver knows about the card once it has read the OCR.
pub open spec fn mode_after(mode: CardMode, ocr: OcrResponse) -> CardMode {
    CardMode { sd_v2: mode.sd_v2, high_capacity: bits::bit(ocr.raw, 30) }
}

/// Initialization, from the OCR on: its capacity bit is taken over.
pub open spec fn init_from_ocr(
    mode: CardMode,
    t: Seq<Exchange>,
    after: CardMode,
    r: Result<CardInfo, Error>,
) -> bool {
    exists|n: int, ocr: Result<OcrResponse, Error>|
        {
            &&& 0 <= n <= t.len()
            &&& #[trigger] reads_ocr(t.take(n), ocr)
            &&& match ocr {
                Ok(o) => {
                    &&& after == mode_after(mode, o)
                    &&& init_from_csd(mode_after(mode, o), o, t.skip(n), r)
                },
                Err(e) => n == t.len() && after == mode && r == Err::<CardInfo, Error>(e),
            }
        }
}

/// Initialization, from the wait for the card on.
pub open spec fn init_from_start(
    mode: CardMode,
    t: Seq<Exchange>,
    after: CardMode,
    r: Result<CardInfo, Error>,
) -> bool {
    exists|n: int, started: Result<(), Error>|
        {
            &&& 0 <= n <= t.len()
            &&& #[trigger] starts(mode.sd_v2, t.take(n), started)
            &&& match started {
                Ok(_) => init_from_ocr(mode, t.skip(n), after, r),
                Err(e) => n == t.len() && after == mode && r == Err::<CardInfo, Error>(e),
            }
        }
}

/// Initialization, from the interface probe on: its outcome is taken over.
pub open spec fn init_from_probe(
    mode: CardMode,
    t: Seq<Exchange>,
    after: CardMode,
    r: Result<CardInfo, Error>,
) -> bool {
    exists|n: int, sd_v2: Result<bool, Error>|
        {
            &&& 0 <= n <= t.len()
            &&& #[trigger] probes(t.take(n), sd_v2)
            &&& match sd_v2 {
                Ok(v2) => init_from_start(
                    CardMode { sd_v2: v2, high_capacity: mode.high_capacity },
                    t.skip(n),
                    after,
                    r,
                ),
                Err(e) => n == t.len() && after == mode && r == Err::<CardInfo, Error>(e),
            }
        }
}

/// Initialization, from the reset command on.
pub open spec fn init_from_reset(
    mode: CardMode,
    t: Seq<Exchange>,
    after: CardMode,
    r: Result<CardInfo, Error>,
) -> bool {
    exists|n: int, ack: Result<R1Response, Error>|
        {
            &&& 0 <= n <= t.len()
            &&& #[trigger] acknowledges(reset_command(), t.take(n), ack)
            &&& match ack {
                Ok(_) => init_from_probe(mode, t.skip(n), after, r),
                Err(e) => n == t.len() && after == mode && r == Err::<CardInfo, Error>(e),
            }
        }
}

/// Initialization: eighty clock cycles, CMD0, CMD8, CMD55/ACMD41 until the
/// card has started, CMD58, CMD9. It ends at the first step that fails, but does
/// without the capacity that CMD9 asks for.
pub open spec fn initializes(
    mode: CardMode,
    t: Seq<Exchange>,
    after: CardMode,
    r: Result<CardInfo, Error>,
) -> bool {
    let k = head(10, t);
    &&& is_run(filler(10), t.take(k))
    &&& match run_result(t.take(k)) {
        Ok(_) => init_from_reset(mode, t.skip(k), after, r),
        Err(e) => k == t.len() && after == mode && r == Err::<CardInfo, Error>(e),
    }
}

// Reading blocks

/// One data block from the card: a start token, 512 bytes, two CRC bytes.
///
/// `before` and `after` are the receiving buffer. A token other than the start
/// token is a read error; nothing follows it.
pub open spec fn reads_block(
    t: Seq<Exchange>,
    before: Seq<u8>,
    after: Seq<u8>,
    r: Result<(), Error>,
) -> bool {
    exists|n: int|
        {
            &&& 0 <= n <= t.len()
            &&& is_poll(token_limit(), false, #[trigger] t.take(n))
            &&& match poll_result(false, t.take(n)) {
                Ok(b) => if b == 0xFE {
                    &&& is_run(filler(514), t.skip(n))
                    &&& after == overlay(before, t.skip(n))
                    &&& r == run_result(t.skip(n))
                } else {
                    n == t.len() && after == before && r == Err::<(), Error>(Error::ReadError)
                },
                Err(e) => n == t.len() && after == before && r == Err::<(), Error>(e),
            }
        }
}

/// Reading the block whose address argument is `arg`: CMD17, then the block.
pub open spec fn reads_single(
    arg: u32,
    t: Seq<Exchange>,
    before: Seq<u8>,
    after: Seq<u8>,
    r: Result<(), Error>,
) -> bool {
    exists|n: int, ack: Result<R1Response, Error>|
        {
            &&& 0 <= n <= t.len()
            &&& #[trigger] acknowledges(r1_command(17, arg), t.take(n), ack)
            &&& match ack {
                Ok(_) => reads_block(t.skip(n), before, after, r),
                Err(e) => n == t.len() && after == before && r == Err::<(), Error>(e),
            }
        }
}

/// One data block arrives whole, and `data` is what it holds.
pub open spec fn delivers(t: Seq<Exchange>, data: Seq<u8>) -> bool {
    data.len() == 512 && reads_block(t, data, data, Ok(()))
}

/// A block read without a failure arrives whole.
pub proof fn lemma_delivered(t: Seq<Exchange>, before: Seq<u8>, after: Seq<u8>)
    requires
        before.len() == 512,
        reads_block(t, before, after, Ok(())),
    ensures
        delivers(t, after),
{
    let n = choose|n: int|
        {
            &&& 0 <= n <= t.len()
            &&& is_poll(token_limit(), false, #[trigger] t.take(n))
            &&& match poll_result(false, t.take(n)) {
                Ok(b) => if b == 0xFE {
                    &&& is_run(filler(514), t.skip(n))
                    &&& after == overlay(before, t.skip(n))
                    &&& Ok::<(), Error>(()) == run_result(t.skip(n))
                } else {
                    false
                },
                Err(e) => false,
            }
        };
    assert(overlay(after, t.skip(n)) =~= after);
}

/// Data blocks that arrive one after the other.
pub open spec fn delivers_all(t: Seq<Exchange>, blocks: Seq<Seq<u8>>) -> bool
    decreases blocks.len(),
{
    if blocks.len() == 0 {
        t.len() == 0
    } else {
        exists|n: int|
            {
                &&& 0 <= n <= t.len()
                &&& delivers_all(#[trigger] t.take(n), blocks.drop_last())
                &&& delivers(t.skip(n), blocks.last())
            }
    }
}

/// A data block that does not arrive whole.
pub open spec fn loses_block(t: Seq<Exchange>, e: Error) -> bool {
    exists|before: Seq<u8>, after: Seq<u8>|
        before.len() == 512 && #[trigger] reads_block(t, before, after, Err(e))
}

/// The end of a multi-block read: CMD12, then the card releases the bus.
pub open spec fn stops_read(t: Seq<Exchange>, r: Result<(), Error>) -> bool {
    exists|n: int, ack: Result<R1Response, Error>|
        {
            &&& 0 <= n <= t.len()
            &&& #[trigger] acknowledges(stop_command(), t.take(n), ack)
            &&& match ack {
                Ok(_) => is_busy_wait(t.skip(n)) && r == busy_result(t.skip(n)),
                Err(e) => n == t.len() && r == Err::<(), Error>(e),
            }
        }
}

/// The data phase of a multi-block read of `count` blocks, of which `blocks`
/// arrive: all of them, and the read is stopped; or fewer, and the next fails.
pub open spec fn streams(
    count: nat,
    blocks: Seq<Seq<u8>>,
    t: Seq<Exchange>,
    r: Result<(), Error>,
) -> bool {
    exists|n: int|
        {
            &&& 0 <= n <= t.len()
            &&& delivers_all(#[trigger] t.take(n), blocks)
            &&& blocks.len() <= count
            &&& if blocks.len() == count {
                stops_read(t.skip(n), r)
            } else {
                r matches Err(e) && loses_block(t.skip(n), e)
            }
        }
}

/// A multi-block read: CMD18, then the data phase.
pub open spec fn reads_many(
    arg: u32,
    count: nat,
    blocks: Seq<Seq<u8>>,
    t: Seq<Exchange>,
    r: Result<(), Error>,
) -> bool {
    exists|n: int, ack: Result<R1Response, Error>|
        {
            &&& 0 <= n <= t.len()
            &&& #[trigger] acknowledges(r1_command(18, arg), t.take(n), ack)
            &&& match ack {
                Ok(_) => streams(count, blocks, t.skip(n), r),
                Err(e) => n == t.len() && blocks.len() == 0 && r == Err::<(), Error>(e),
            }
        }
}

// Writing blocks

/// The card's answer to a block: a data response, whose low five bits are 5
/// if it takes the block, then the wait while it is busy.
pub open spec fn takes_block(t: Seq<Exchange>, r: Result<(), Error>) -> bool {
    exists|n: int|
        {
            &&& 0 <= n <= t.len()
            &&& is_poll(answer_limit(), false, #[trigger] t.take(n))
            &&& match poll_result(false, t.take(n)) {
                Ok(b) => if b % 0x20 == 5 {
                    is_busy_wait(t.skip(n)) && r == busy_result(t.skip(n))
                } else {
                    n == t.len() && r == Err::<(), Error>(Error::WriteError)
                },
                Err(e) => n == t.len() && r == Err::<(), Error>(e),
            }
        }
}

/// One data block to the card: a token, the data, two bytes in place of a CRC.
pub open spec fn writes_block(
    token: u8,
    data: Seq<u8>,
    t: Seq<Exchange>,
    r: Result<(), Error>,
) -> bool {
    let out = seq![token] + data + filler(2);
    let k = head(out.len(), t);
    &&& is_run(out, t.take(k))
    &&& match run_result(t.take(k)) {
        Ok(_) => takes_block(t.skip(k), r),
        Err(e) => k == t.len() && r == Err::<(), Error>(e),
    }
}

/// Writing the block whose address argument is `arg`: CMD24, then the block.
pub open spec fn writes_single(
    arg: u32,
    data: Seq<u8>,
    t: Seq<Exchange>,
    r: Result<(), Error>,
) -> bool {
    exists|n: int, ack: Result<R1Response, Error>|
        {
            &&& 0 <= n <= t.len()
            &&& #[trigger] acknowledges(r1_command(24, arg), t.take(n), ack)
            &&& match ack {
                Ok(_) => writes_block(0xFE, data, t.skip(n), r),
                Err(e) => n == t.len() && r == Err::<(), Error>(e),
            }
        }
}

/// Blocks of a multi-block write that the card takes one after the other.
pub open spec fn takes_all(blocks: Seq<[u8; 512]>, t: Seq<Exchange>) -> bool
    decreases blocks.len(),
{
    if blocks.len() == 0 {
        t.len() == 0
    } else {
        exists|n: int|
            {
                &&& 0 <= n <= t.len()
                &&& takes_all(blocks.drop_last(), #[trigger] t.take(n))
                &&& writes_block(0xFC, blocks.last()@, t.skip(n), Ok(()))
            }
    }
}

/// The end of a multi-block write: the stop token, eight clock cycles, then
/// the wait while the card is busy.
pub open spec fn stops_write(t: Seq<Exchange>, r: Result<(), Error>) -> bool {
    let k = head(2, t);
    &&& is_run(seq![0xFDu8, 0xFFu8], t.take(k))
    &&& match run_result(t.take(k)) {
        Ok(_) => is_busy_wait(t.skip(k)) && r == busy_result(t.skip(k)),
        Err(e) => k == t.len() && r == Err::<(), Error>(e),
    }
}

/// The data phase of a multi-block write: every block is taken, and the write
/// is stopped; or the first that is not ends it.
pub open spec fn sends_all(
    blocks: Seq<[u8; 512]>,
    t: Seq<Exchange>,
    r: Result<(), Error>,
) -> bool {
    exists|taken: int, n: int|
        {
            &&& 0 <= taken <= blocks.len()
            &&& 0 <= n <= t.len()
            &&& #[trigger] takes_all(blocks.take(taken), t.take(n))
            &&& if taken == blocks.len() {
                stops_write(t.skip(n), r)
            } else {
                r is Err && writes_block(0xFC, blocks[taken]@, t.skip(n), r)
            }
        }
}

/// A multi-block write: CMD25, then the data phase.
pub open spec fn writes_many(
    arg: u32,
    blocks: Seq<[u8; 512]>,
    t: Seq<Exchange>,
    r: Result<(), Error>,
) -> bool {
    exists|n: int, ack: Result<R1Response, Error>|
        {
            &&& 0 <= n <= t.len()
            &&& #[trigger] acknowledges(r1_command(25, arg), t.take(n), ack)
            &&& match ack {
                Ok(_) => sends_all(blocks, t.skip(n), r),
                Err(e) => n == t.len() && r == Err::<(), Error>(e),
            }
        }
}

} // verus!
