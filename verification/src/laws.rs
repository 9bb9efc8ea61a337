//! What holds of every transaction of a driver, whatever the card answers.
use vstd::prelude::*;

use crate::bits;
use crate::cmd::Command;
use crate::error::Error;
use crate::replay;
use crate::response::{R1Response, Response, ResponseType};
use crate::spi::CardInfo;
use crate::traffic::{self, CardMode, Exchange};

verus! {

// SPI: what a transaction moves

/// A block that was read is what the card sent after the start token, byte for
/// byte.
#[verifier::rlimit(40)]
pub proof fn read_gives_what_the_card_sent(
    arg: u32,
    t: Seq<Exchange>,
    before: Seq<u8>,
    after: Seq<u8>,
)
    requires
        before.len() == 512,
        traffic::reads_single(arg, t, before, after, Ok(())),
    ensures
        t.len() >= 515,
        t[t.len() - 515].rx == Ok::<u8, Error>(0xFE),
        after.len() == 512,
        forall|i: int|
            0 <= i < 512 ==> t[t.len() - 514 + i].rx == Ok::<u8, Error>(#[trigger] after[i]),
{
    let c = traffic::r1_command(17, arg);
    let (n, ack) = choose|n: int, ack: Result<R1Response, Error>|
        {
            &&& 0 <= n <= t.len()
            &&& #[trigger] traffic::acknowledges(c, t.take(n), ack)
            &&& match ack {
                Ok(_) => traffic::reads_block(t.skip(n), before, after, Ok(())),
                Err(e) => n == t.len() && after == before && Ok::<(), Error>(()) == Err::<
                    (),
                    Error,
                >(e),
            }
        };
    let u = t.skip(n);
    let k = replay::lemma_block_token(u, before, after, Ok(()));
    let data = u.skip(k);
    assert(u.take(k).last() == u[k - 1]);
    assert(u[k - 1] == t[n + k - 1]);
    assert(data.len() == 514);
    assert forall|i: int| 0 <= i < 512 implies t[t.len() - 514 + i].rx == Ok::<u8, Error>(
        #[trigger] after[i],
    ) by {
        assert(data[i] == t[n + k + i]);
        assert(data[i].rx is Ok);
    }
}

/// A block that was written went out after the start token, byte for byte.
#[verifier::rlimit(40)]
pub proof fn write_sends_the_block(arg: u32, data: Seq<u8>, t: Seq<Exchange>)
    requires
        traffic::writes_single(arg, data, t, Ok(())),
    ensures
        exists|n: int|
            {
                &&& 0 <= n
                &&& n + 1 + data.len() < t.len()
                &&& (#[trigger] t[n]).tx == 0xFE
                &&& t.subrange(n + 1, n + 1 + data.len()).map_values(|x: Exchange| x.tx) == data
            },
{
    let c = traffic::r1_command(24, arg);
    let (n, ack) = choose|n: int, ack: Result<R1Response, Error>|
        {
            &&& 0 <= n <= t.len()
            &&& #[trigger] traffic::acknowledges(c, t.take(n), ack)
            &&& match ack {
                Ok(_) => traffic::writes_block(0xFE, data, t.skip(n), Ok(())),
                Err(e) => n == t.len() && Ok::<(), Error>(()) == Err::<(), Error>(e),
            }
        };
    let u = t.skip(n);
    let out = seq![0xFEu8] + data + traffic::filler(2);
    let k = traffic::head(out.len(), u);
    assert(u.take(k).len() == out.len());
    assert(u.take(k)[0] == t[n]);
    assert(t[n].tx == out[0]);
    let sent = t.subrange(n + 1, n + 1 + data.len()).map_values(|x: Exchange| x.tx);
    assert forall|i: int| 0 <= i < data.len() implies sent[i] == data[i] by {
        assert(u.take(k)[i + 1] == t[n + 1 + i]);
        assert(out[i + 1] == data[i]);
    }
    assert(sent =~= data);
    let m = replay::lemma_data_response(u.skip(k), Ok(()));
}

/// `data` is what the card sent after a start token, from exchange `n` on.
pub open spec fn sent_by_card(t: Seq<Exchange>, n: int, data: Seq<u8>) -> bool {
    &&& 0 <= n
    &&& n + data.len() < t.len()
    &&& t[n].rx == Ok::<u8, Error>(0xFE)
    &&& forall|i: int|
        0 <= i < data.len() ==> t[n + 1 + i].rx == Ok::<u8, Error>(#[trigger] data[i])
}

/// The card sent `data` after some start token.
pub open spec fn came_from_card(t: Seq<Exchange>, data: Seq<u8>) -> bool {
    exists|n: int| sent_by_card(t, n, data)
}

/// Every block that a multi-block read hands over is what the card sent after a
/// start token, byte for byte, and a read that succeeds hands over as many blocks
/// as it was asked for.
#[verifier::rlimit(40)]
pub proof fn multi_read_gives_what_the_card_sent(
    arg: u32,
    count: nat,
    blocks: Seq<Seq<u8>>,
    t: Seq<Exchange>,
    r: Result<(), Error>,
)
    requires
        traffic::reads_many(arg, count, blocks, t, r),
    ensures
        blocks.len() <= count,
        r is Ok ==> blocks.len() == count,
        forall|j: int|
            0 <= j < blocks.len() ==> (#[trigger] blocks[j]).len() == 512
                && came_from_card(t, blocks[j]),
{
    let c = traffic::r1_command(18, arg);
    let (n, ack) = choose|n: int, ack: Result<R1Response, Error>|
        {
            &&& 0 <= n <= t.len()
            &&& #[trigger] traffic::acknowledges(c, t.take(n), ack)
            &&& match ack {
                Ok(_) => traffic::streams(count, blocks, t.skip(n), r),
                Err(e) => n == t.len() && blocks.len() == 0 && r == Err::<(), Error>(e),
            }
        };
    if ack is Ok {
        let u = t.skip(n);
        let k = replay::lemma_stream_parts(count, blocks, u, r);
        assert forall|j: int| 0 <= j < blocks.len() implies (#[trigger] blocks[j]).len() == 512
            && came_from_card(t, blocks[j]) by {
            let data = blocks[j];
            let w = replay::lemma_block_within(u.take(k), blocks, j);
            let v = u.take(k).skip(w.0).take(w.1 - w.0);
            let a = replay::lemma_block_token(v, data, data, Ok(()));
            let body = v.skip(a);
            assert(v.take(a).last() == v[a - 1]);
            let m = n + w.0 + a - 1;
            assert(v[a - 1] == t[m]);
            assert forall|i: int| 0 <= i < 512 implies t[m + 1 + i].rx == Ok::<u8, Error>(
                #[trigger] data[i],
            ) by {
                assert(body[i] == t[m + 1 + i]);
                assert(body[i].rx is Ok);
                assert(traffic::overlay(data, body)[i] == body[i].rx->Ok_0);
            }
            assert(sent_by_card(t, m, data));
        }
    }
}

/// `data` went out after the token of a multi-block write, from exchange `n` on.
pub open spec fn sent_to_card(t: Seq<Exchange>, n: int, data: Seq<u8>) -> bool {
    &&& 0 <= n
    &&& n + data.len() < t.len()
    &&& t[n].tx == 0xFC
    &&& forall|i: int| 0 <= i < data.len() ==> t[n + 1 + i].tx == #[trigger] data[i]
}

/// `data` went out after some token of a multi-block write.
pub open spec fn went_to_card(t: Seq<Exchange>, data: Seq<u8>) -> bool {
    exists|n: int| sent_to_card(t, n, data)
}

/// A multi-block write that succeeds has sent every block, byte for byte.
#[verifier::rlimit(40)]
pub proof fn multi_write_sends_every_block(arg: u32, blocks: Seq<[u8; 512]>, t: Seq<Exchange>)
    requires
        traffic::writes_many(arg, blocks, t, Ok(())),
    ensures
        forall|j: int|
            0 <= j < blocks.len() ==> went_to_card(t, (#[trigger] blocks[j])@),
{
    let c = traffic::r1_command(25, arg);
    let (n, ack) = choose|n: int, ack: Result<R1Response, Error>|
        {
            &&& 0 <= n <= t.len()
            &&& #[trigger] traffic::acknowledges(c, t.take(n), ack)
            &&& match ack {
                Ok(_) => traffic::sends_all(blocks, t.skip(n), Ok(())),
                Err(e) => n == t.len() && Ok::<(), Error>(()) == Err::<(), Error>(e),
            }
        };
    let u = t.skip(n);
    let (taken, k) = replay::lemma_sent_parts(blocks, u, Ok(()));
    assert(blocks.take(taken) =~= blocks);
    assert forall|j: int| 0 <= j < blocks.len() implies went_to_card(
        t,
        (#[trigger] blocks[j])@,
    ) by {
        let data = blocks[j]@;
        let w = replay::lemma_taken_within(blocks, u.take(k), j);
        let v = u.take(k).skip(w.0).take(w.1 - w.0);
        let out = seq![0xFCu8] + data + traffic::filler(2);
        let h = traffic::head(out.len(), v);
        let sent = v.take(h);
        let m = n + w.0;
        assert(sent.len() == out.len());
        assert(sent[0] == t[m] && out[0] == 0xFC);
        assert forall|i: int| 0 <= i < data.len() implies t[m + 1 + i].tx == #[trigger] data[i] by {
            assert(sent[i + 1] == t[m + 1 + i]);
            assert(out[i + 1] == data[i]);
        }
        assert(sent_to_card(t, m, data));
    }
}

// SPI: what initialization finds out

/// The driver goes by what initialization reports, and its report of the
/// capacity is that of the OCR.
#[verifier::rlimit(40)]
pub proof fn init_reports_what_the_driver_goes_by(
    mode: CardMode,
    t: Seq<Exchange>,
    after: CardMode,
    info: CardInfo,
)
    requires
        traffic::initializes(mode, t, after, Ok(info)),
    ensures
        after == (CardMode { sd_v2: info.sd_v2, high_capacity: info.high_capacity }),
        info.high_capacity == bits::bit(info.ocr, 30),
{
    let r = Ok::<CardInfo, Error>(info);
    let u = t.skip(traffic::head(10, t));
    let (n, ack) = choose|n: int, ack: Result<R1Response, Error>|
        {
            &&& 0 <= n <= u.len()
            &&& #[trigger] traffic::acknowledges(traffic::reset_command(), u.take(n), ack)
            &&& match ack {
                Ok(_) => traffic::init_from_probe(mode, u.skip(n), after, r),
                Err(e) => n == u.len() && after == mode && r == Err::<CardInfo, Error>(e),
            }
        };
    let u = u.skip(n);
    let (n, v2) = choose|n: int, v2: Result<bool, Error>|
        {
            &&& 0 <= n <= u.len()
            &&& #[trigger] traffic::probes(u.take(n), v2)
            &&& match v2 {
                Ok(v2) => traffic::init_from_start(
                    CardMode { sd_v2: v2, high_capacity: mode.high_capacity },
                    u.skip(n),
                    after,
                    r,
                ),
                Err(e) => n == u.len() && after == mode && r == Err::<CardInfo, Error>(e),
            }
        };
    let u = u.skip(n);
    let probed = CardMode { sd_v2: v2->Ok_0, high_capacity: mode.high_capacity };
    let (n, started) = choose|n: int, started: Result<(), Error>|
        {
            &&& 0 <= n <= u.len()
            &&& #[trigger] traffic::starts(probed.sd_v2, u.take(n), started)
            &&& match started {
                Ok(_) => traffic::init_from_ocr(probed, u.skip(n), after, r),
                Err(e) => n == u.len() && after == probed && r == Err::<CardInfo, Error>(e),
            }
        };
    let u = u.skip(n);
    let (n, ocr) = replay::lemma_ocr_parts(probed, u, after, r);
    let full = replay::lemma_csd_answer(after, ocr->Ok_0, u.skip(n), r);
}

// SPI: how long a transaction takes

/// A command takes its frame, an R1 byte that is not long in coming, and what the
/// kind of response brings.
proof fn lemma_command_length(c: Command, t: Seq<Exchange>, r: Result<Response, Error>)
    requires
        traffic::commands(c, t, r),
    ensures
        t.len() <= 106 + (match c.resp_type {
            ResponseType::R1b => 500_000int,
            ResponseType::R2 => 10_016,
            ResponseType::R3 | ResponseType::R7 => 4,
            _ => 0,
        }),
{
    let k = traffic::head(6, t);
    if traffic::run_result(t.take(k)) is Ok {
        let u = t.skip(k);
        let n = choose|n: int|
            {
                &&& 0 <= n <= u.len()
                &&& traffic::is_poll(traffic::answer_limit(), false, #[trigger] u.take(n))
                &&& match traffic::poll_result(false, u.take(n)) {
                    Ok(b) => traffic::payload(
                        c.resp_type,
                        R1Response { raw: b as u32 },
                        u.skip(n),
                        r,
                    ),
                    Err(e) => n == u.len() && r == Err::<Response, Error>(e),
                }
            };
    }
}

proof fn lemma_acknowledgement_length(c: Command, t: Seq<Exchange>, r: Result<R1Response, Error>)
    requires
        traffic::acknowledges(c, t, r),
        c.resp_type == ResponseType::R1 || c.resp_type == ResponseType::NoResponse,
    ensures
        t.len() <= 106,
{
    let full = choose|full: Result<Response, Error>| #[trigger]
        traffic::commands(c, t, full) && r == traffic::status_of(full);
    lemma_command_length(c, t, full);
}

/// Reading a block ends, whatever the card does.
pub proof fn read_ends(
    arg: u32,
    t: Seq<Exchange>,
    before: Seq<u8>,
    after: Seq<u8>,
    r: Result<(), Error>,
)
    requires
        traffic::reads_single(arg, t, before, after, r),
    ensures
        t.len() <= 10_620,
{
    let c = traffic::r1_command(17, arg);
    let (n, ack) = choose|n: int, ack: Result<R1Response, Error>|
        {
            &&& 0 <= n <= t.len()
            &&& #[trigger] traffic::acknowledges(c, t.take(n), ack)
            &&& match ack {
                Ok(_) => traffic::reads_block(t.skip(n), before, after, r),
                Err(e) => n == t.len() && after == before && r == Err::<(), Error>(e),
            }
        };
    lemma_acknowledgement_length(c, t.take(n), ack);
    if ack is Ok {
        let k = replay::lemma_block_token(t.skip(n), before, after, r);
    }
}

/// Writing a block ends, whatever the card does.
pub proof fn write_ends(arg: u32, data: Seq<u8>, t: Seq<Exchange>, r: Result<(), Error>)
    requires
        data.len() == 512,
        traffic::writes_single(arg, data, t, r),
    ensures
        t.len() <= 500_721,
{
    let c = traffic::r1_command(24, arg);
    let (n, ack) = choose|n: int, ack: Result<R1Response, Error>|
        {
            &&& 0 <= n <= t.len()
            &&& #[trigger] traffic::acknowledges(c, t.take(n), ack)
            &&& match ack {
                Ok(_) => traffic::writes_block(0xFE, data, t.skip(n), r),
                Err(e) => n == t.len() && r == Err::<(), Error>(e),
            }
        };
    lemma_acknowledgement_length(c, t.take(n), ack);
    if ack is Ok {
        let u = t.skip(n);
        let out = seq![0xFEu8] + data + traffic::filler(2);
        let k = traffic::head(out.len(), u);
        if traffic::run_result(u.take(k)) is Ok {
            let m = replay::lemma_data_response(u.skip(k), r);
        }
    }
}

proof fn lemma_round_length(sd_v2: bool, t: Seq<Exchange>, r: Result<bool, Error>)
    requires
        traffic::start_round(sd_v2, t, r),
    ensures
        t.len() <= 212,
{
    let (n, ack, full) = replay::lemma_round_parts(sd_v2, t, r);
    lemma_acknowledgement_length(traffic::r1_command(55, 0), t.take(n), ack);
    if ack is Ok {
        lemma_command_length(traffic::spi_op_cond(sd_v2), t.skip(n), full);
    }
}

proof fn lemma_rounds_length(rounds: nat, sd_v2: bool, t: Seq<Exchange>)
    requires
        traffic::still_idle(rounds, sd_v2, t),
    ensures
        t.len() <= 212 * rounds,
    decreases rounds,
{
    if rounds > 0 {
        let n = replay::lemma_last_round(rounds, sd_v2, t);
        lemma_rounds_length((rounds - 1) as nat, sd_v2, t.take(n));
        lemma_round_length(sd_v2, t.skip(n), Ok(false));
    }
}

/// Initialization ends, whatever the card does.
pub proof fn init_ends(
    mode: CardMode,
    t: Seq<Exchange>,
    after: CardMode,
    r: Result<CardInfo, Error>,
)
    requires
        traffic::initializes(mode, t, after, r),
    ensures
        t.len() <= 222_458,
{
    if traffic::run_result(t.take(traffic::head(10, t))) is Ok {
        let u = t.skip(traffic::head(10, t));
        let (n, ack) = choose|n: int, ack: Result<R1Response, Error>|
            {
                &&& 0 <= n <= u.len()
                &&& #[trigger] traffic::acknowledges(traffic::reset_command(), u.take(n), ack)
                &&& match ack {
                    Ok(_) => traffic::init_from_probe(mode, u.skip(n), after, r),
                    Err(e) => n == u.len() && after == mode && r == Err::<CardInfo, Error>(e),
                }
            };
        lemma_acknowledgement_length(traffic::reset_command(), u.take(n), ack);
        if ack is Ok {
            lemma_probed_length(mode, u.skip(n), after, r);
        }
    }
}

proof fn lemma_probed_length(
    mode: CardMode,
    t: Seq<Exchange>,
    after: CardMode,
    r: Result<CardInfo, Error>,
)
    requires
        traffic::init_from_probe(mode, t, after, r),
    ensures
        t.len() <= 222_342,
{
    let (n, v2) = choose|n: int, v2: Result<bool, Error>|
        {
            &&& 0 <= n <= t.len()
            &&& #[trigger] traffic::probes(t.take(n), v2)
            &&& match v2 {
                Ok(v2) => traffic::init_from_start(
                    CardMode { sd_v2: v2, high_capacity: mode.high_capacity },
                    t.skip(n),
                    after,
                    r,
                ),
                Err(e) => n == t.len() && after == mode && r == Err::<CardInfo, Error>(e),
            }
        };
    let full = choose|full: Result<Response, Error>| #[trigger]
        traffic::commands(traffic::interface_command(), t.take(n), full) && v2
            == traffic::probe_result(full);
    lemma_command_length(traffic::interface_command(), t.take(n), full);
    if let Ok(sd_v2) = v2 {
        let probed = CardMode { sd_v2, high_capacity: mode.high_capacity };
        lemma_started_length(probed, t.skip(n), after, r);
    }
}

proof fn lemma_started_length(
    mode: CardMode,
    t: Seq<Exchange>,
    after: CardMode,
    r: Result<CardInfo, Error>,
)
    requires
        traffic::init_from_start(mode, t, after, r),
    ensures
        t.len() <= 222_232,
{
    let (n, started) = choose|n: int, started: Result<(), Error>|
        {
            &&& 0 <= n <= t.len()
            &&& #[trigger] traffic::starts(mode.sd_v2, t.take(n), started)
            &&& match started {
                Ok(_) => traffic::init_from_ocr(mode, t.skip(n), after, r),
                Err(e) => n == t.len() && after == mode && r == Err::<CardInfo, Error>(e),
            }
        };
    let u = t.take(n);
    let (rounds, k, last) = replay::lemma_start_parts(mode.sd_v2, u, started);
    lemma_rounds_length(rounds, mode.sd_v2, u.take(k));
    if rounds < traffic::start_limit() {
        lemma_round_length(mode.sd_v2, u.skip(k), last);
    }
    if started is Ok {
        let v = t.skip(n);
        let (k, ocr) = replay::lemma_ocr_parts(mode, v, after, r);
        let full = choose|full: Result<Response, Error>| #[trigger]
            traffic::commands(traffic::ocr_command(), v.take(k), full) && ocr == (match full {
                Ok(Response::R3(ocr)) => Ok(ocr),
                Ok(_) => Err(Error::BadResponse),
                Err(e) => Err(e),
            });
        lemma_command_length(traffic::ocr_command(), v.take(k), full);
        if let Ok(o) = ocr {
            let csd = replay::lemma_csd_answer(after, o, v.skip(k), r);
            lemma_command_length(traffic::csd_command(), v.skip(k), csd);
        }
    }
}

} // verus!
