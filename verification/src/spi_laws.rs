//! What goes over an SPI bus, byte by byte, in the transactions of a driver.
use vstd::prelude::*;

use crate::bits;
use crate::cmd::Command;
use crate::crc;
use crate::error::Error;
use crate::replay;
use crate::response::{
    CsdResponse, IfCondResponse, OcrResponse, R1Response, Response, ResponseType,
};
use crate::spi::CardInfo;
use crate::traffic::{self, CardMode, Exchange};

verus! {

/// The six bytes that were sent from exchange `i` on are those of command `index`
/// with the argument `arg`, whose most significant byte goes first.
pub open spec fn frame_sent(t: Seq<Exchange>, i: int, index: int, arg: u32) -> bool {
    &&& 0 <= i
    &&& i + 6 <= t.len()
    &&& t[i].tx == 0x40 + index
    &&& t[i + 1].tx * 0x100_0000 + t[i + 2].tx * 0x1_0000 + t[i + 3].tx * 0x100 + t[i + 4].tx == arg
    &&& t[i + 5].tx % 2 == 1
}

/// The exchanges from `lo` up to `hi` sent and brought nothing but idle bytes.
pub open spec fn silent(t: Seq<Exchange>, lo: int, hi: int) -> bool {
    &&& 0 <= lo <= hi <= t.len()
    &&& forall|i: int|
        lo <= i < hi ==> (#[trigger] t[i]).tx == 0xFF && t[i].rx == Ok::<u8, Error>(0xFF)
}

/// The exchanges from `lo` up to `hi` sent idle bytes and brought others.
pub open spec fn busy(t: Seq<Exchange>, lo: int, hi: int) -> bool {
    &&& 0 <= lo <= hi <= t.len()
    &&& forall|i: int|
        lo <= i < hi ==> (#[trigger] t[i]).tx == 0xFF && (t[i].rx matches Ok(b) && b != 0xFF)
}

/// A byte that is not idle came at exchange `a`, after nothing but idle bytes since
/// exchange `lo`.
pub open spec fn answered(t: Seq<Exchange>, lo: int, a: int, b: u8) -> bool {
    &&& lo <= a < t.len()
    &&& t[a].tx == 0xFF
    &&& t[a].rx == Ok::<u8, Error>(b)
    &&& b != 0xFF
    &&& silent(t, lo, a)
}

/// A poll for an answer, read off its exchanges.
#[verifier::rlimit(40)]
proof fn lemma_answer_poll(limit: nat, t: Seq<Exchange>, lo: int, hi: int)
    requires
        0 <= lo <= hi <= t.len(),
        limit > 0,
        traffic::is_poll(limit, false, t.subrange(lo, hi)),
    ensures
        match traffic::poll_result(false, t.subrange(lo, hi)) {
            Ok(b) => hi > lo && hi - lo <= limit && answered(t, lo, hi - 1, b),
            Err(e) => (hi > lo && t[hi - 1].rx == Err::<u8, Error>(e)) || (e == Error::Timeout && hi
                - lo == limit && silent(t, lo, hi)),
        },
{
    let u = t.subrange(lo, hi);
    assert forall|i: int| lo <= i < hi implies (#[trigger] t[i]) == u[i - lo] by {}
    if hi > lo {
        assert(u.last() == t[hi - 1]);
        assert(silent(t, lo, hi - 1));
    }
}

/// A wait for a busy card, read off its exchanges.
#[verifier::rlimit(40)]
proof fn lemma_busy_wait(t: Seq<Exchange>, lo: int, hi: int)
    requires
        0 <= lo <= hi <= t.len(),
        traffic::is_busy_wait(t.subrange(lo, hi)),
    ensures
        match traffic::busy_result(t.subrange(lo, hi)) {
            Ok(_) => hi > lo && silent(t, hi - 1, hi) && busy(t, lo, hi - 1),
            Err(e) => (hi > lo && t[hi - 1].rx == Err::<u8, Error>(e)) || (e == Error::Timeout && hi
                - lo == 500_000 && busy(t, lo, hi)),
        },
{
    let u = t.subrange(lo, hi);
    assert forall|i: int| lo <= i < hi implies (#[trigger] t[i]) == u[i - lo] by {}
    if hi > lo {
        assert(u.last() == t[hi - 1]);
        assert(busy(t, lo, hi - 1));
    }
}

/// A command frame, read off its exchanges.
#[verifier::rlimit(40)]
proof fn lemma_frame(c: Command, t: Seq<Exchange>, lo: int)
    requires
        c.cmd < 64,
        0 <= lo,
        lo + 6 <= t.len(),
        traffic::is_run(c.frame(), t.subrange(lo, lo + 6)),
    ensures
        frame_sent(t, lo, c.cmd as int, c.arg),
{
    let u = t.subrange(lo, lo + 6);
    let f = c.frame();
    let h = c.frame_head();
    bits::be_value_undoes_be_bytes(c.arg);
    assert forall|i: int| 0 <= i < 6 implies t[lo + i].tx == #[trigger] f[i] by {
        assert(u[i] == t[lo + i]);
    }
    let b = bits::be_bytes_of(c.arg);
    assert(f[0] == h[0] && f[1] == b[0] && f[2] == b[1] && f[3] == b[2] && f[4] == b[3]);
    assert(f[5] == c.frame_crc());
    lemma_crc_is_odd(c);
}

proof fn lemma_crc_is_odd(c: Command)
    ensures
        c.frame_crc() % 2 == 1,
{
    let m = crc::message_bits(c.frame_head());
    crc::crc7_residue_is_zero(m);
    crc::lemma_seven_digits(crc::crc7_bits(m));
}

/// The start of a command: its frame went out, and its R1 byte came or did not.
///
/// `hi` is where the R1 byte, or what came in its place, ends.
pub open spec fn command_opens(
    t: Seq<Exchange>,
    lo: int,
    hi: int,
    index: int,
    arg: u32,
    r1: Result<u8, Error>,
) -> bool {
    &&& 0 <= lo < hi <= t.len()
    &&& match r1 {
        Ok(b) => frame_sent(t, lo, index, arg) && lo + 6 < hi <= lo + 106 && answered(
            t,
            lo + 6,
            hi - 1,
            b,
        ),
        Err(e) => {
            ||| t[hi - 1].rx == Err::<u8, Error>(e)
            ||| e == Error::Timeout && hi == lo + 106 && frame_sent(t, lo, index, arg) && silent(
                t,
                lo + 6,
                hi,
            )
        },
    }
    &&& hi >= lo + 6 ==> frame_sent(t, lo, index, arg)
}

/// A command, read off its exchanges up to the R1 byte.
#[verifier::rlimit(40)]
proof fn lemma_command(
    c: Command,
    t: Seq<Exchange>,
    lo: int,
    hi: int,
    r: Result<Response, Error>,
) -> (w: (int, Result<u8, Error>))
    requires
        c.cmd < 64,
        0 <= lo <= hi <= t.len(),
        traffic::commands(c, t.subrange(lo, hi), r),
    ensures
        command_opens(t, lo, w.0, c.cmd as int, c.arg, w.1),
        w.0 <= hi,
        match w.1 {
            Ok(b) => traffic::payload(
                c.resp_type,
                R1Response { raw: b as u32 },
                t.subrange(w.0, hi),
                r,
            ),
            Err(e) => w.0 == hi && r == Err::<Response, Error>(e),
        },
{
    let u = t.subrange(lo, hi);
    let k = traffic::head(6, u);
    assert(u.take(k) =~= t.subrange(lo, lo + k));
    assert(u.skip(k) =~= t.subrange(lo + k, hi));
    let f = t.subrange(lo, lo + k);
    assert(c.frame().len() == 6);
    match traffic::run_result(f) {
        Ok(_) => {
            assert(k == 6);
            lemma_frame(c, t, lo);
            let v = u.skip(k);
            let n = choose|n: int|
                {
                    &&& 0 <= n <= v.len()
                    &&& traffic::is_poll(traffic::answer_limit(), false, #[trigger] v.take(n))
                    &&& match traffic::poll_result(false, v.take(n)) {
                        Ok(b) => traffic::payload(
                            c.resp_type,
                            R1Response { raw: b as u32 },
                            v.skip(n),
                            r,
                        ),
                        Err(e) => n == v.len() && r == Err::<Response, Error>(e),
                    }
                };
            assert(v.take(n) =~= t.subrange(lo + 6, lo + 6 + n));
            assert(v.skip(n) =~= t.subrange(lo + 6 + n, hi));
            lemma_answer_poll(100, t, lo + 6, lo + 6 + n);
            (lo + 6 + n, traffic::poll_result(false, v.take(n)))
        },
        Err(e) => {
            assert(f.last() == t[lo + k - 1]);
            if k == 6 {
                lemma_frame(c, t, lo);
            }
            (hi, Err(e))
        },
    }
}

/// A command that is answered by an R1 status, read off its exchanges.
#[verifier::rlimit(40)]
proof fn lemma_r1_command(
    index: u8,
    arg: u32,
    t: Seq<Exchange>,
    lo: int,
    hi: int,
    ack: Result<R1Response, Error>,
) -> (r1: Result<u8, Error>)
    requires
        index < 64,
        0 <= lo <= hi <= t.len(),
        traffic::acknowledges(traffic::r1_command(index, arg), t.subrange(lo, hi), ack),
    ensures
        command_opens(t, lo, hi, index as int, arg, r1),
        match r1 {
            Ok(b) => ack == Ok::<R1Response, Error>(R1Response { raw: b as u32 }),
            Err(e) => ack == Err::<R1Response, Error>(e),
        },
{
    let c = traffic::r1_command(index, arg);
    let full = choose|full: Result<Response, Error>| #[trigger]
        traffic::commands(c, t.subrange(lo, hi), full) && ack == traffic::status_of(full);
    let w = lemma_command(c, t, lo, hi, full);
    w.1
}

// Reading and writing one block

/// Reading a block sends CMD17 with the block's argument before anything else. It
/// fails with the error of the bus, with a timeout once the card has been silent for
/// a hundred bytes after the command or for ten thousand before the block, or with a
/// read error at a byte that is no start token; and it fails for no other reason.
#[verifier::rlimit(40)]
pub proof fn read_fails_for_a_reason(
    arg: u32,
    t: Seq<Exchange>,
    before: Seq<u8>,
    after: Seq<u8>,
    r: Result<(), Error>,
)
    requires
        traffic::reads_single(arg, t, before, after, r),
    ensures
        t.len() >= 6 ==> frame_sent(t, 0, 17, arg),
        match r {
            Ok(_) => {
                let n = t.len() - 515;
                &&& t.last().rx is Ok
                &&& exists|a: int, b: u8|
                    6 <= a <= 105 && #[trigger] answered(t, 6, a, b) && answered(t, a + 1, n, 0xFE)
                &&& forall|i: int| n < i < t.len() ==> (#[trigger] t[i]).tx == 0xFF
            },
            Err(e) => t.len() > 0 && ({
                ||| t.last().rx == Err::<u8, Error>(e)
                ||| e == Error::Timeout && t.len() == 106 && silent(t, 6, 106)
                ||| e == Error::Timeout && silent(t, t.len() - 10_000, t.len() as int)
                ||| e == Error::ReadError && (t.last().rx matches Ok(b) && b != 0xFE && b != 0xFF)
            }),
        },
{
    let c = traffic::r1_command(17, arg);
    let (n, ack) = choose|n: int, ack: Result<R1Response, Error>|
        {
            &&& 0 <= n <= t.len()
            &&& #[trigger] traffic::acknowledges(c, t.take(n), ack)
            &&& match ack {
                Ok(_) => traffic::reads_block(t.skip(n), before, after, r),
                Err(e) => n == t.len() && after == before && r == Err::<(), Error>(e),
            }
        };
    assert(t.take(n) =~= t.subrange(0, n));
    let r1 = lemma_r1_command(17, arg, t, 0, n, ack);
    if let Ok(b) = r1 {
        assert(t.skip(n) =~= t.subrange(n, t.len() as int));
        lemma_block_ends(t, n, t.len() as int, before, after, r);
        assert(answered(t, 6, n - 1, b));
    }
}

/// The end of a data block from the card.
#[verifier::rlimit(40)]
proof fn lemma_block_ends(
    t: Seq<Exchange>,
    lo: int,
    hi: int,
    before: Seq<u8>,
    after: Seq<u8>,
    r: Result<(), Error>,
)
    requires
        0 <= lo <= hi <= t.len(),
        traffic::reads_block(t.subrange(lo, hi), before, after, r),
    ensures
        hi > lo,
        match r {
            Ok(_) => hi - lo >= 515 && t[hi - 1].rx is Ok && answered(t, lo, hi - 515, 0xFE) && (
            forall|i: int| hi - 514 <= i < hi ==> (#[trigger] t[i]).tx == 0xFF) && (before.len()
                == 512 ==> after.len() == 512 && forall|i: int|
                0 <= i < 512 ==> t[hi - 514 + i].rx == Ok::<u8, Error>(#[trigger] after[i])),
            Err(e) => {
                ||| t[hi - 1].rx == Err::<u8, Error>(e)
                ||| e == Error::Timeout && hi - lo == 10_000 && silent(t, lo, hi)
                ||| e == Error::ReadError && (t[hi - 1].rx matches Ok(b) && b != 0xFE && b != 0xFF)
                    && silent(t, lo, hi - 1)
            },
        },
{
    let u = t.subrange(lo, hi);
    let k = replay::lemma_block_token(u, before, after, r);
    assert(u.take(k) =~= t.subrange(lo, lo + k));
    assert(u.skip(k) =~= t.subrange(lo + k, hi));
    lemma_answer_poll(10_000, t, lo, lo + k);
    if traffic::poll_result(false, u.take(k)) == Ok::<u8, Error>(0xFE) {
        let d = u.skip(k);
        assert(d.len() > 0 && d.last() == t[hi - 1]);
        if r is Ok {
            assert(d.len() == 514);
            assert forall|i: int| hi - 514 <= i < hi implies (#[trigger] t[i]).tx == 0xFF by {
                assert(d[i - (hi - 514)] == t[i]);
            }
            if before.len() == 512 {
                assert forall|i: int| 0 <= i < 512 implies t[hi - 514 + i].rx == Ok::<u8, Error>(
                    #[trigger] after[i],
                ) by {
                    assert(d[i] == t[hi - 514 + i]);
                    assert(d[i].rx is Ok);
                }
            }
        }
    }
}

/// The card took a block that was sent to it from exchange `lo` on and that it was
/// done with before exchange `hi`: the token and the data went out, the card's first
/// answer after them ends in the bits 00101, and it has released the bus.
#[verifier::opaque]
pub open spec fn block_taken(t: Seq<Exchange>, lo: int, hi: int, token: u8, data: Seq<u8>) -> bool {
    &&& 0 <= lo
    &&& lo + data.len() + 4 < hi <= t.len()
    &&& t[lo].tx == token
    &&& forall|i: int| 0 <= i < data.len() ==> t[lo + 1 + i].tx == #[trigger] data[i]
    &&& t[lo + 1 + data.len()].tx == 0xFF
    &&& t[lo + 2 + data.len()].tx == 0xFF
    &&& exists|a: int, b: u8|
        a < hi - 1 && b % 32 == 5 && #[trigger] answered(t, lo + data.len() + 3, a, b) && busy(
            t,
            a + 1,
            hi - 1,
        )
    &&& silent(t, hi - 1, hi)
}

/// The end of a data block to the card.
#[verifier::rlimit(40)]
proof fn lemma_sending_ends(
    token: u8,
    data: Seq<u8>,
    t: Seq<Exchange>,
    lo: int,
    hi: int,
    r: Result<(), Error>,
)
    requires
        0 <= lo <= hi <= t.len(),
        traffic::writes_block(token, data, t.subrange(lo, hi), r),
    ensures
        hi > lo,
        match r {
            Ok(_) => lo + data.len() + 5 <= hi && block_taken(t, lo, hi, token, data),
            Err(e) => {
                ||| t[hi - 1].rx == Err::<u8, Error>(e)
                ||| e == Error::Timeout && hi - 100 >= lo && silent(t, hi - 100, hi)
                ||| e == Error::Timeout && hi - 500_000 >= lo && busy(t, hi - 500_000, hi)
                ||| e == Error::WriteError && (t[hi - 1].rx matches Ok(b) && b % 32 != 5 && b
                    != 0xFF)
            },
        },
{
    reveal(block_taken);
    let u = t.subrange(lo, hi);
    let out = seq![token] + data + traffic::filler(2);
    let k = traffic::head(out.len(), u);
    assert(u.take(k) =~= t.subrange(lo, lo + k));
    assert(u.skip(k) =~= t.subrange(lo + k, hi));
    let f = u.take(k);
    assert(f.last() == t[lo + k - 1]);
    if traffic::run_result(f) is Ok {
        assert(k == data.len() + 3);
        let v = u.skip(k);
        let m = replay::lemma_data_response(v, r);
        assert(v.take(m) =~= t.subrange(lo + k, lo + k + m));
        assert(v.skip(m) =~= t.subrange(lo + k + m, hi));
        lemma_answer_poll(100, t, lo + k, lo + k + m);
        if let Ok(b) = traffic::poll_result(false, v.take(m)) {
            if b % 0x20 == 5 {
                lemma_busy_wait(t, lo + k + m, hi);
                if r is Ok {
                    assert(answered(t, lo + data.len() + 3, lo + k + m - 1, b));
                    assert(f[0] == t[lo] && out[0] == token);
                    assert forall|i: int| 0 <= i < data.len() implies t[lo + 1 + i].tx
                        == #[trigger] data[i] by {
                        assert(f[i + 1] == t[lo + 1 + i] && out[i + 1] == data[i]);
                    }
                    let n = data.len() as int;
                    assert(f[n + 1] == t[lo + 1 + n] && out[n + 1] == 0xFF);
                    assert(f[n + 2] == t[lo + 2 + n] && out[n + 2] == 0xFF);
                }
            }
        }
    }
}

/// Writing a block sends CMD24 with the block's argument, and, once the card has
/// answered, the block behind the token 0xFE. It succeeds if the card takes the block
/// and releases the bus. It fails with the error of the bus, with a timeout once the
/// card has been silent for a hundred bytes or busy for half a million, or with a
/// write error at an answer that does not take the block; and it fails for no other
/// reason.
#[verifier::rlimit(40)]
pub proof fn write_fails_for_a_reason(arg: u32, data: Seq<u8>, t: Seq<Exchange>, r: Result<(), Error>)
    requires
        traffic::writes_single(arg, data, t, r),
    ensures
        t.len() >= 6 ==> frame_sent(t, 0, 24, arg),
        match r {
            Ok(_) => exists|lo: int, b: u8|
                7 <= lo <= 106 && #[trigger] answered(t, 6, lo - 1, b) && block_taken(
                    t,
                    lo,
                    t.len() as int,
                    0xFE,
                    data,
                ),
            Err(e) => t.len() > 0 && ({
                ||| t.last().rx == Err::<u8, Error>(e)
                ||| e == Error::Timeout && silent(t, t.len() - 100, t.len() as int)
                ||| e == Error::Timeout && busy(t, t.len() - 500_000, t.len() as int)
                ||| e == Error::WriteError && (t.last().rx matches Ok(b) && b % 32 != 5 && b
                    != 0xFF)
            }),
        },
{
    let c = traffic::r1_command(24, arg);
    let (n, ack) = choose|n: int, ack: Result<R1Response, Error>|
        {
            &&& 0 <= n <= t.len()
            &&& #[trigger] traffic::acknowledges(c, t.take(n), ack)
            &&& match ack {
                Ok(_) => traffic::writes_block(0xFE, data, t.skip(n), r),
                Err(e) => n == t.len() && r == Err::<(), Error>(e),
            }
        };
    assert(t.take(n) =~= t.subrange(0, n));
    let r1 = lemma_r1_command(24, arg, t, 0, n, ack);
    if let Ok(b) = r1 {
        assert(t.skip(n) =~= t.subrange(n, t.len() as int));
        lemma_sending_ends(0xFE, data, t, n, t.len() as int, r);
        assert(answered(t, 6, n - 1, b));
    }
}

// Writing many blocks

/// The blocks that the card took, from exchange `lo` on, in the order in which they
/// were given: `p` holds where each begins, and where the last one ends.
#[verifier::rlimit(40)]
proof fn lemma_taken_in_order(blocks: Seq<[u8; 512]>, t: Seq<Exchange>, lo: int, hi: int) -> (p: Seq<
    int,
>)
    requires
        0 <= lo <= hi <= t.len(),
        traffic::takes_all(blocks, t.subrange(lo, hi)),
    ensures
        p.len() == blocks.len() + 1,
        p[0] == lo,
        p.last() == hi,
        forall|j: int|
            0 <= j < blocks.len() ==> p[j] + 517 <= p[j + 1] && block_taken(
                t,
                #[trigger] p[j],
                p[j + 1],
                0xFC,
                blocks[j]@,
            ),
    decreases blocks.len(),
{
    let u = t.subrange(lo, hi);
    if blocks.len() == 0 {
        seq![lo]
    } else {
        let n = replay::lemma_last_taken(blocks, u);
        assert(u.take(n) =~= t.subrange(lo, lo + n));
        assert(u.skip(n) =~= t.subrange(lo + n, hi));
        let q = lemma_taken_in_order(blocks.drop_last(), t, lo, lo + n);
        lemma_sending_ends(0xFC, blocks.last()@, t, lo + n, hi, Ok(()));
        let p = q.push(hi);
        assert forall|j: int| 0 <= j < blocks.len() implies p[j] + 517 <= p[j + 1] && block_taken(
            t,
            #[trigger] p[j],
            p[j + 1],
            0xFC,
            blocks[j]@,
        ) by {
            if j < blocks.len() - 1 {
                assert(q[j] == p[j] && q[j + 1] == p[j + 1]);
                assert(blocks.drop_last()[j] == blocks[j]);
            } else {
                assert(p[j] == q.last());
            }
        }
        p
    }
}

/// The command of a multi-block write, and what follows it.
#[verifier::rlimit(40)]
proof fn lemma_write_command(
    arg: u32,
    blocks: Seq<[u8; 512]>,
    t: Seq<Exchange>,
    r: Result<(), Error>,
) -> (w: (int, Result<u8, Error>))
    requires
        traffic::writes_many(arg, blocks, t, r),
    ensures
        0 < w.0 <= t.len(),
        command_opens(t, 0, w.0, 25, arg, w.1),
        match w.1 {
            Ok(_) => traffic::sends_all(blocks, t.skip(w.0), r),
            Err(e) => w.0 == t.len() && r == Err::<(), Error>(e),
        },
{
    let c = traffic::r1_command(25, arg);
    let (n, ack) = choose|n: int, ack: Result<R1Response, Error>|
        {
            &&& 0 <= n <= t.len()
            &&& #[trigger] traffic::acknowledges(c, t.take(n), ack)
            &&& match ack {
                Ok(_) => traffic::sends_all(blocks, t.skip(n), r),
                Err(e) => n == t.len() && r == Err::<(), Error>(e),
            }
        };
    assert(t.take(n) =~= t.subrange(0, n));
    let r1 = lemma_r1_command(25, arg, t, 0, n, ack);
    (n, r1)
}

/// The end of a multi-block write.
#[verifier::rlimit(40)]
proof fn lemma_write_stops(t: Seq<Exchange>, lo: int, hi: int, r: Result<(), Error>)
    requires
        0 <= lo <= hi <= t.len(),
        traffic::stops_write(t.subrange(lo, hi), r),
    ensures
        hi > lo,
        match r {
            Ok(_) => lo + 2 < hi && t[lo].tx == 0xFD && t[lo + 1].tx == 0xFF && busy(
                t,
                lo + 2,
                hi - 1,
            ) && silent(t, hi - 1, hi),
            Err(e) => {
                ||| t[hi - 1].rx == Err::<u8, Error>(e)
                ||| e == Error::Timeout && hi - 500_000 >= lo && busy(t, hi - 500_000, hi)
            },
        },
{
    let v = t.subrange(lo, hi);
    let h = traffic::head(2, v);
    assert(v.take(h).last() == t[lo + h - 1]);
    if traffic::run_result(v.take(h)) is Ok {
        assert(v.take(h)[0] == t[lo] && v.take(h)[1] == t[lo + 1]);
        assert(v.skip(h) =~= t.subrange(lo + 2, hi));
        lemma_busy_wait(t, lo + 2, hi);
    }
}

/// A multi-block write that succeeds sends CMD25 with the argument of the first
/// block, then the blocks in the order of the slice, each behind its own token 0xFC
/// and each taken by the card before the next one is sent, then the token 0xFD; and
/// it ends when the card releases the bus. `p` holds where the blocks begin, one
/// after the other, and where the last one ends.
#[verifier::rlimit(40)]
pub proof fn multi_write_keeps_the_order(arg: u32, blocks: Seq<[u8; 512]>, t: Seq<Exchange>) -> (p:
    Seq<int>)
    requires
        traffic::writes_many(arg, blocks, t, Ok(())),
    ensures
        frame_sent(t, 0, 25, arg),
        p.len() == blocks.len() + 1,
        7 <= p[0] <= 106,
        forall|j: int|
            0 <= j < blocks.len() ==> p[j] + 517 <= p[j + 1] && block_taken(
                t,
                #[trigger] p[j],
                p[j + 1],
                0xFC,
                blocks[j]@,
            ),
        p.last() + 2 < t.len(),
        t[p.last()].tx == 0xFD,
        t[p.last() + 1].tx == 0xFF,
        busy(t, p.last() + 2, t.len() - 1),
        silent(t, t.len() - 1, t.len() as int),
{
    let (n, r1) = lemma_write_command(arg, blocks, t, Ok(()));
    let u = t.skip(n);
    let (taken, k) = replay::lemma_sent_parts(blocks, u, Ok(()));
    assert(blocks.take(taken) =~= blocks);
    assert(u.take(k) =~= t.subrange(n, n + k));
    assert(u.skip(k) =~= t.subrange(n + k, t.len() as int));
    lemma_write_stops(t, n + k, t.len() as int, Ok(()));
    lemma_taken_in_order(blocks, t, n, n + k)
}

/// The card has let the driver wait for too long: it was silent for a hundred bytes or
/// busy for half a million.
pub open spec fn out_of_patience(t: Seq<Exchange>) -> bool {
    ||| silent(t, t.len() - 100, t.len() as int)
    ||| busy(t, t.len() - 500_000, t.len() as int)
}

/// Why the data phase of a multi-block write fails after `taken` of its blocks.
#[verifier::rlimit(40)]
proof fn lemma_sending_fails(
    blocks: Seq<[u8; 512]>,
    taken: int,
    t: Seq<Exchange>,
    lo: int,
    e: Error,
)
    requires
        0 <= taken <= blocks.len(),
        0 <= lo <= t.len(),
        if taken == blocks.len() {
            traffic::stops_write(t.subrange(lo, t.len() as int), Err(e))
        } else {
            traffic::writes_block(0xFC, blocks[taken]@, t.subrange(lo, t.len() as int), Err(e))
        },
    ensures
        t.len() > 0,
        ({
            ||| t.last().rx == Err::<u8, Error>(e)
            ||| e == Error::Timeout && out_of_patience(t)
            ||| e == Error::WriteError && taken < blocks.len() && (t.last().rx matches Ok(b) && b
                % 32 != 5 && b != 0xFF)
        }),
{
    if taken == blocks.len() {
        lemma_write_stops(t, lo, t.len() as int, Err(e));
    } else {
        lemma_sending_ends(0xFC, blocks[taken]@, t, lo, t.len() as int, Err(e));
    }
}

/// The data phase of a multi-block write that fails.
#[verifier::rlimit(40)]
proof fn lemma_broken_write(blocks: Seq<[u8; 512]>, t: Seq<Exchange>, n: int, e: Error) -> (p: Seq<
    int,
>)
    requires
        0 <= n <= t.len(),
        traffic::sends_all(blocks, t.skip(n), Err(e)),
    ensures
        1 <= p.len() <= blocks.len() + 1,
        forall|j: int|
            0 <= j < p.len() - 1 ==> p[j] + 517 <= p[j + 1] && block_taken(
                t,
                #[trigger] p[j],
                p[j + 1],
                0xFC,
                blocks[j]@,
            ),
        p.last() <= t.len(),
        ({
            ||| t.last().rx == Err::<u8, Error>(e)
            ||| e == Error::Timeout && out_of_patience(t)
            ||| e == Error::WriteError && p.len() <= blocks.len() && (t.last().rx matches Ok(b) && b
                % 32 != 5 && b != 0xFF)
        }),
{
    let u = t.skip(n);
    let (taken, k) = replay::lemma_sent_parts(blocks, u, Err(e));
    assert(u.take(k) =~= t.subrange(n, n + k));
    assert(u.skip(k) =~= t.subrange(n + k, t.len() as int));
    lemma_sending_fails(blocks, taken, t, n + k, e);
    let p = lemma_taken_in_order(blocks.take(taken), t, n, n + k);
    assert forall|j: int| 0 <= j < p.len() - 1 implies p[j] + 517 <= p[j + 1] && block_taken(
        t,
        #[trigger] p[j],
        p[j + 1],
        0xFC,
        blocks[j]@,
    ) by {
        assert(blocks.take(taken)[j] == blocks[j]);
    }
    p
}

/// A multi-block write that fails has had a prefix of the blocks taken by the card, in
/// the order of the slice, and fails with the error of the bus, with a timeout once
/// the card has been silent for a hundred bytes or busy for half a million, or with a
/// write error at an answer that does not take a block.
#[verifier::rlimit(40)]
pub proof fn multi_write_fails_for_a_reason(
    arg: u32,
    blocks: Seq<[u8; 512]>,
    t: Seq<Exchange>,
    e: Error,
) -> (p: Seq<int>)
    requires
        traffic::writes_many(arg, blocks, t, Err(e)),
    ensures
        t.len() >= 6 ==> frame_sent(t, 0, 25, arg),
        1 <= p.len() <= blocks.len() + 1,
        forall|j: int|
            0 <= j < p.len() - 1 ==> p[j] + 517 <= p[j + 1] && block_taken(
                t,
                #[trigger] p[j],
                p[j + 1],
                0xFC,
                blocks[j]@,
            ),
        p.last() <= t.len(),
        t.len() > 0,
        ({
            ||| t.last().rx == Err::<u8, Error>(e)
            ||| e == Error::Timeout && out_of_patience(t)
            ||| e == Error::WriteError && p.len() <= blocks.len() && (t.last().rx matches Ok(b) && b
                % 32 != 5 && b != 0xFF)
        }),
{
    let (n, r1) = lemma_write_command(arg, blocks, t, Err(e));
    if r1 is Ok {
        lemma_broken_write(blocks, t, n, e)
    } else {
        lemma_write_unanswered(arg, t, n, r1);
        seq![n]
    }
}

proof fn lemma_write_unanswered(arg: u32, t: Seq<Exchange>, n: int, r1: Result<u8, Error>)
    requires
        command_opens(t, 0, n, 25, arg, r1),
        n == t.len(),
    ensures
        match r1 {
            Ok(_) => true,
            Err(e) => t.last().rx == Err::<u8, Error>(e) || (e == Error::Timeout
                && out_of_patience(t)),
        },
{
}

// Reading many blocks

/// The card gave a block between exchanges `lo` and `hi`: idle bytes, the token 0xFE,
/// the 512 bytes of the block, and two more.
#[verifier::opaque]
pub open spec fn block_given(t: Seq<Exchange>, lo: int, hi: int, data: Seq<u8>) -> bool {
    &&& 0 <= lo
    &&& lo + 515 <= hi <= lo + 10_514
    &&& hi <= t.len()
    &&& answered(t, lo, hi - 515, 0xFE)
    &&& data.len() == 512
    &&& forall|i: int| hi - 514 <= i < hi ==> (#[trigger] t[i]).tx == 0xFF
    &&& forall|i: int|
        0 <= i < 512 ==> t[hi - 514 + i].rx == Ok::<u8, Error>(#[trigger] data[i])
}

proof fn lemma_given(data: Seq<u8>, t: Seq<Exchange>, lo: int, hi: int)
    requires
        0 <= lo <= hi <= t.len(),
        traffic::delivers(t.subrange(lo, hi), data),
    ensures
        lo + 515 <= hi,
        block_given(t, lo, hi, data),
{
    reveal(block_given);
    lemma_block_ends(t, lo, hi, data, data, Ok(()));
}

/// The blocks that the card gave, from exchange `lo` on, in the order in which they
/// are handed over: `p` holds where each begins, and where the last one ends.
#[verifier::rlimit(40)]
proof fn lemma_given_in_order(blocks: Seq<Seq<u8>>, t: Seq<Exchange>, lo: int, hi: int) -> (p: Seq<
    int,
>)
    requires
        0 <= lo <= hi <= t.len(),
        traffic::delivers_all(t.subrange(lo, hi), blocks),
    ensures
        p.len() == blocks.len() + 1,
        p[0] == lo,
        p.last() == hi,
        forall|j: int|
            0 <= j < blocks.len() ==> p[j] + 515 <= p[j + 1] && block_given(
                t,
                #[trigger] p[j],
                p[j + 1],
                blocks[j],
            ),
    decreases blocks.len(),
{
    let u = t.subrange(lo, hi);
    if blocks.len() == 0 {
        seq![lo]
    } else {
        let n = replay::lemma_last_block(u, blocks);
        assert(u.take(n) =~= t.subrange(lo, lo + n));
        assert(u.skip(n) =~= t.subrange(lo + n, hi));
        let q = lemma_given_in_order(blocks.drop_last(), t, lo, lo + n);
        lemma_given(blocks.last(), t, lo + n, hi);
        let p = q.push(hi);
        assert forall|j: int| 0 <= j < blocks.len() implies p[j] + 515 <= p[j + 1] && block_given(
            t,
            #[trigger] p[j],
            p[j + 1],
            blocks[j],
        ) by {
            if j < blocks.len() - 1 {
                assert(q[j] == p[j] && q[j + 1] == p[j + 1]);
                assert(blocks.drop_last()[j] == blocks[j]);
            } else {
                assert(p[j] == q.last());
            }
        }
        p
    }
}

/// The command of a multi-block read, and what follows it.
#[verifier::rlimit(40)]
proof fn lemma_read_command(
    arg: u32,
    count: nat,
    blocks: Seq<Seq<u8>>,
    t: Seq<Exchange>,
    r: Result<(), Error>,
) -> (w: (int, Result<u8, Error>))
    requires
        traffic::reads_many(arg, count, blocks, t, r),
    ensures
        0 < w.0 <= t.len(),
        command_opens(t, 0, w.0, 18, arg, w.1),
        match w.1 {
            Ok(_) => traffic::streams(count, blocks, t.skip(w.0), r),
            Err(e) => w.0 == t.len() && blocks.len() == 0 && r == Err::<(), Error>(e),
        },
{
    let c = traffic::r1_command(18, arg);
    let (n, ack) = choose|n: int, ack: Result<R1Response, Error>|
        {
            &&& 0 <= n <= t.len()
            &&& #[trigger] traffic::acknowledges(c, t.take(n), ack)
            &&& match ack {
                Ok(_) => traffic::streams(count, blocks, t.skip(n), r),
                Err(e) => n == t.len() && blocks.len() == 0 && r == Err::<(), Error>(e),
            }
        };
    assert(t.take(n) =~= t.subrange(0, n));
    let r1 = lemma_r1_command(18, arg, t, 0, n, ack);
    (n, r1)
}

/// The end of a multi-block read: CMD12 goes out, and the card releases the bus.
#[verifier::rlimit(40)]
proof fn lemma_read_stops(t: Seq<Exchange>, lo: int, r: Result<(), Error>)
    requires
        0 <= lo <= t.len(),
        traffic::stops_read(t.subrange(lo, t.len() as int), r),
    ensures
        t.len() > lo,
        match r {
            Ok(_) => frame_sent(t, lo, 12, 0) && lo + 8 < t.len() && silent(
                t,
                t.len() - 1,
                t.len() as int,
            ),
            Err(e) => {
                ||| t.last().rx == Err::<u8, Error>(e)
                ||| e == Error::Timeout && out_of_patience(t)
            },
        },
{
    let hi = t.len() as int;
    let v = t.subrange(lo, hi);
    let c = traffic::stop_command();
    let (n, ack) = choose|n: int, ack: Result<R1Response, Error>|
        {
            &&& 0 <= n <= v.len()
            &&& #[trigger] traffic::acknowledges(c, v.take(n), ack)
            &&& match ack {
                Ok(_) => traffic::is_busy_wait(v.skip(n)) && r == traffic::busy_result(v.skip(n)),
                Err(e) => n == v.len() && r == Err::<(), Error>(e),
            }
        };
    assert(v.take(n) =~= t.subrange(lo, lo + n));
    assert(v.skip(n) =~= t.subrange(lo + n, hi));
    let full = choose|full: Result<Response, Error>| #[trigger]
        traffic::commands(c, v.take(n), full) && ack == traffic::status_of(full);
    let w = lemma_command(c, t, lo, lo + n, full);
    if let Ok(b) = w.1 {
        lemma_busy_wait(t, w.0, lo + n);
        if ack is Ok {
            lemma_busy_wait(t, lo + n, hi);
        }
    }
}

/// A multi-block read sends CMD18 with the argument of the first block and hands over
/// what the card sends after each start token, in the order in which it comes: `p`
/// holds where the blocks begin, one after the other, and where the last one ends. One
/// that succeeds hands over as many blocks as it was asked for, then sends CMD12, and
/// ends when the card releases the bus.
#[verifier::rlimit(40)]
pub proof fn multi_read_keeps_the_order(
    arg: u32,
    count: nat,
    blocks: Seq<Seq<u8>>,
    t: Seq<Exchange>,
    r: Result<(), Error>,
) -> (p: Seq<int>)
    requires
        traffic::reads_many(arg, count, blocks, t, r),
    ensures
        t.len() >= 6 ==> frame_sent(t, 0, 18, arg),
        blocks.len() <= count,
        p.len() == blocks.len() + 1,
        forall|j: int|
            0 <= j < blocks.len() ==> p[j] + 515 <= p[j + 1] && block_given(
                t,
                #[trigger] p[j],
                p[j + 1],
                blocks[j],
            ),
        p.last() <= t.len(),
        r is Ok ==> 7 <= p[0] <= 106 && blocks.len() == count && frame_sent(t, p.last(), 12, 0)
            && silent(t, t.len() - 1, t.len() as int),
{
    let (n, r1) = lemma_read_command(arg, count, blocks, t, r);
    if r1 is Ok {
        let u = t.skip(n);
        let k = replay::lemma_stream_parts(count, blocks, u, r);
        assert(u.take(k) =~= t.subrange(n, n + k));
        assert(u.skip(k) =~= t.subrange(n + k, t.len() as int));
        if r is Ok {
            lemma_read_stops(t, n + k, r);
        }
        lemma_given_in_order(blocks, t, n, n + k)
    } else {
        seq![n]
    }
}

/// A multi-block read fails with the error of the bus, with a timeout once the card
/// has been silent for a hundred bytes after a command or for ten thousand before a
/// block or busy for half a million, or with a read error at a byte that is no start
/// token, before all blocks have come; and it fails for no other reason.
#[verifier::rlimit(40)]
pub proof fn multi_read_fails_for_a_reason(
    arg: u32,
    count: nat,
    blocks: Seq<Seq<u8>>,
    t: Seq<Exchange>,
    e: Error,
)
    requires
        traffic::reads_many(arg, count, blocks, t, Err(e)),
    ensures
        t.len() > 0,
        ({
            ||| t.last().rx == Err::<u8, Error>(e)
            ||| e == Error::Timeout && blocks.len() == 0 && t.len() == 106 && silent(t, 6, 106)
            ||| e == Error::Timeout && blocks.len() < count && silent(
                t,
                t.len() - 10_000,
                t.len() as int,
            )
            ||| e == Error::Timeout && blocks.len() == count && out_of_patience(t)
            ||| e == Error::ReadError && blocks.len() < count && (t.last().rx matches Ok(b) && b
                != 0xFE && b != 0xFF)
        }),
{
    let r = Err::<(), Error>(e);
    let (n, r1) = lemma_read_command(arg, count, blocks, t, r);
    if r1 is Ok {
        let u = t.skip(n);
        let k = replay::lemma_stream_parts(count, blocks, u, r);
        assert(u.skip(k) =~= t.subrange(n + k, t.len() as int));
        if blocks.len() == count {
            lemma_read_stops(t, n + k, r);
        } else {
            let v = u.skip(k);
            let (before, after) = choose|before: Seq<u8>, after: Seq<u8>|
                before.len() == 512 && #[trigger] traffic::reads_block(v, before, after, Err(e));
            lemma_block_ends(t, n + k, t.len() as int, before, after, r);
        }
    }
}

// Initialization

/// A reply to an idle byte in each of the `n` exchanges from `i` on.
pub open spec fn bytes_came(t: Seq<Exchange>, i: int, n: int) -> bool {
    &&& 0 <= i
    &&& i + n <= t.len()
    &&& forall|j: int| i <= j < i + n ==> (#[trigger] t[j]).tx == 0xFF && t[j].rx is Ok
}

/// The word that came in the four exchanges from `i` on, most significant byte first.
pub open spec fn word_at(t: Seq<Exchange>, i: int) -> int {
    t[i].rx->Ok_0 * 0x100_0000 + t[i + 1].rx->Ok_0 * 0x1_0000 + t[i + 2].rx->Ok_0 * 0x100 + t[i
        + 3].rx->Ok_0
}

/// A word, read off its exchanges.
#[verifier::rlimit(40)]
proof fn lemma_word(t: Seq<Exchange>, lo: int, hi: int)
    requires
        0 <= lo <= hi <= t.len(),
        traffic::is_run(traffic::filler(4), t.subrange(lo, hi)),
    ensures
        hi > lo,
        match traffic::run_result(t.subrange(lo, hi)) {
            Ok(_) => hi == lo + 4 && bytes_came(t, lo, 4) && bits::be_value(
                traffic::replies(t.subrange(lo, hi)),
            ) == word_at(t, lo) && 0 <= word_at(t, lo) <= u32::MAX,
            Err(e) => t[hi - 1].rx == Err::<u8, Error>(e),
        },
{
    let u = t.subrange(lo, hi);
    assert(u.len() > 0 && u.last() == t[hi - 1]);
    if traffic::run_result(u) is Ok {
        assert(u.len() == 4);
        assert forall|j: int| lo <= j < lo + 4 implies (#[trigger] t[j]).tx == 0xFF
            && t[j].rx is Ok by {
            assert(u[j - lo] == t[j]);
        }
        let w = traffic::replies(u);
        assert(w[0] == t[lo].rx->Ok_0 && w[1] == t[lo + 1].rx->Ok_0 && w[2] == t[lo + 2].rx->Ok_0
            && w[3] == t[lo + 3].rx->Ok_0);
    }
}

/// The interface probe sends CMD8 with the argument 0x1AA. The card is found to be of
/// version 2 exactly if it answers with a word whose low twelve bits repeat the
/// argument; any other word, silence, and an R1 byte that calls the command illegal
/// stand for an older card.
#[verifier::opaque]
pub open spec fn interface_probed(t: Seq<Exchange>, lo: int, hi: int, sd_v2: bool) -> bool {
    &&& 0 <= lo < hi <= t.len()
    &&& hi >= lo + 6 ==> frame_sent(t, lo, 8, 0x1AA)
    &&& if sd_v2 {
        &&& hi >= lo + 11
        &&& bytes_came(t, hi - 5, 5)
        &&& word_at(t, hi - 4) % 0x1000 == 0x1AA
    } else {
        ||| t[hi - 1].rx == Err::<u8, Error>(Error::Timeout)
        ||| hi == lo + 106 && silent(t, lo + 6, hi)
        ||| (t[hi - 1].rx matches Ok(b) && b / 4 % 2 == 1)
        ||| hi >= lo + 11 && bytes_came(t, hi - 5, 5) && word_at(t, hi - 4) % 0x1000 != 0x1AA
    }
}

#[verifier::rlimit(40)]
proof fn lemma_probe(t: Seq<Exchange>, lo: int, hi: int, sd_v2: bool)
    requires
        0 <= lo <= hi <= t.len(),
        traffic::probes(t.subrange(lo, hi), Ok(sd_v2)),
    ensures
        interface_probed(t, lo, hi, sd_v2),
{
    reveal(interface_probed);
    let c = traffic::interface_command();
    let full = choose|full: Result<Response, Error>| #[trigger]
        traffic::commands(c, t.subrange(lo, hi), full) && Ok::<bool, Error>(sd_v2)
            == traffic::probe_result(full);
    let w = lemma_command(c, t, lo, hi, full);
    if let Ok(b) = w.1 {
        lemma_probe_answer(t, lo, w.0, hi, b, full, sd_v2);
    }
}

proof fn lemma_echo(w: int)
    requires
        0 <= w <= u32::MAX,
    ensures
        (IfCondResponse { raw: w as u32 }).echoes(0x01, 0xAA) == (w % 0x1000 == 0x1AA),
{
}

#[verifier::rlimit(40)]
proof fn lemma_probe_answer(
    t: Seq<Exchange>,
    lo: int,
    mid: int,
    hi: int,
    b: u8,
    full: Result<Response, Error>,
    sd_v2: bool,
)
    requires
        command_opens(t, lo, mid, 8, 0x1AA, Ok(b)),
        mid <= hi <= t.len(),
        traffic::payload(
            ResponseType::R7,
            R1Response { raw: b as u32 },
            t.subrange(mid, hi),
            full,
        ),
        traffic::probe_result(full) == Ok::<bool, Error>(sd_v2),
    ensures
        interface_probed(t, lo, hi, sd_v2),
{
    reveal(interface_probed);
    lemma_r1_bits(b);
    let x = b as u32;
    assert(t[mid - 1].rx == Ok::<u8, Error>(b));
    if bits::bit(x, 2) {
        assert(hi == mid);
    } else {
        lemma_word(t, mid, hi);
        if traffic::run_result(t.subrange(mid, hi)) is Ok {
            assert forall|j: int| hi - 5 <= j < hi implies (#[trigger] t[j]).tx == 0xFF
                && t[j].rx is Ok by {}
            let w = word_at(t, mid);
            assert(full == Ok::<Response, Error>(Response::R7(IfCondResponse { raw: w as u32 })));
            lemma_echo(w);
        }
    }
}

proof fn lemma_r1_bits(b: u8)
    ensures
        bits::bit(b as u32, 2) == (b / 4 % 2 == 1),
        bits::bit(b as u32, 0) == (b % 2 == 1),
{
    bits::lemma_low_and_high_bits(b as u32);
}

/// Starting the card repeats CMD55 and ACMD41 until the R1 byte that answers ACMD41 has
/// bit 0 clear. ACMD41 asks for the voltages of 0xFF8000, and for high capacity if the
/// card is of version 2.
#[verifier::opaque]
pub open spec fn card_started(t: Seq<Exchange>, lo: int, hi: int, sd_v2: bool) -> bool {
    exists|a: int, c: int, x: u8, y: u8|
        {
            &&& lo <= a
            &&& frame_sent(t, a, 55, 0)
            &&& #[trigger] answered(t, a + 6, c - 1, x)
            &&& frame_sent(
                t,
                c,
                41,
                if sd_v2 {
                    0x40FF_8000u32
                } else {
                    0x00FF_8000u32
                },
            )
            &&& #[trigger] answered(t, c + 6, hi - 1, y)
            &&& y % 2 == 0
        }
}

#[verifier::rlimit(40)]
proof fn lemma_started(t: Seq<Exchange>, lo: int, hi: int, sd_v2: bool)
    requires
        0 <= lo <= hi <= t.len(),
        traffic::starts(sd_v2, t.subrange(lo, hi), Ok(())),
    ensures
        card_started(t, lo, hi, sd_v2),
{
    let u = t.subrange(lo, hi);
    let (rounds, n, last) = replay::lemma_start_parts(sd_v2, u, Ok(()));
    assert(u.skip(n) =~= t.subrange(lo + n, hi));
    lemma_round(t, lo + n, hi, sd_v2);
    reveal(card_started);
}

proof fn lemma_op_cond(sd_v2: bool)
    ensures
        traffic::spi_op_cond(sd_v2) == traffic::r1_command(
            41,
            if sd_v2 {
                0x40FF_8000u32
            } else {
                0x00FF_8000u32
            },
        ),
{
}

#[verifier::rlimit(40)]
proof fn lemma_round(t: Seq<Exchange>, lo: int, hi: int, sd_v2: bool)
    requires
        0 <= lo <= hi <= t.len(),
        traffic::start_round(sd_v2, t.subrange(lo, hi), Ok(true)),
    ensures
        card_started(t, lo, hi, sd_v2),
{
    reveal(card_started);
    let v = t.subrange(lo, hi);
    let (m, ack, full) = replay::lemma_round_parts(sd_v2, v, Ok(true));
    let c = lo + m;
    assert(v.take(m) =~= t.subrange(lo, c));
    assert(v.skip(m) =~= t.subrange(c, hi));
    let x = lemma_r1_command(55, 0, t, lo, c, ack);
    lemma_op_cond(sd_v2);
    let w = lemma_command(traffic::spi_op_cond(sd_v2), t, c, hi, full);
    let y = w.1->Ok_0;
    lemma_r1_bits(y);
    assert(w.0 == hi);
    assert(answered(t, lo + 6, c - 1, x->Ok_0));
    assert(answered(t, c + 6, hi - 1, y));
}

/// Reading the OCR sends CMD58, and the OCR is the word that follows the R1 byte.
pub open spec fn ocr_read(t: Seq<Exchange>, lo: int, hi: int, ocr: u32) -> bool {
    &&& frame_sent(t, lo, 58, 0)
    &&& lo + 11 <= hi <= lo + 110
    &&& bytes_came(t, hi - 5, 5)
    &&& silent(t, lo + 6, hi - 5)
    &&& t[hi - 5].rx != Ok::<u8, Error>(0xFF)
    &&& word_at(t, hi - 4) == ocr
}

#[verifier::rlimit(40)]
proof fn lemma_ocr(t: Seq<Exchange>, lo: int, hi: int, ocr: OcrResponse)
    requires
        0 <= lo <= hi <= t.len(),
        traffic::reads_ocr(t.subrange(lo, hi), Ok(ocr)),
    ensures
        ocr_read(t, lo, hi, ocr.raw),
{
    let c = traffic::ocr_command();
    let full = choose|full: Result<Response, Error>| #[trigger]
        traffic::commands(c, t.subrange(lo, hi), full) && Ok::<OcrResponse, Error>(ocr) == (
        match full {
            Ok(Response::R3(o)) => Ok(o),
            Ok(_) => Err(Error::BadResponse),
            Err(e) => Err(e),
        });
    let w = lemma_command(c, t, lo, hi, full);
    lemma_word(t, w.0, hi);
}

/// Reading the CSD sends CMD9. The capacity is that of the sixteen bytes which follow an
/// R1 byte of zero and the token 0xFE; where these do not come there is none.
pub open spec fn csd_read(t: Seq<Exchange>, lo: int, capacity: Option<u64>) -> bool {
    let hi = t.len() as int;
    &&& 0 <= lo < hi
    &&& hi >= lo + 6 ==> frame_sent(t, lo, 9, 0)
    &&& ({
        ||| capacity is None && t.last().rx is Err
        ||| capacity is None && hi == lo + 106 && silent(t, lo + 6, hi)
        ||| capacity is None && silent(t, hi - 10_000, hi)
        ||| capacity is None && hi <= lo + 106 && t.last().rx != Ok::<u8, Error>(0) && silent(
            t,
            lo + 6,
            hi - 1,
        )
        ||| capacity is None && (t.last().rx matches Ok(b) && b != 0xFE) && exists|a: int|
            #[trigger] answered(t, lo + 6, a, 0) && silent(t, a + 1, hi - 1)
        ||| exists|a: int, csd: CsdResponse|
            {
                &&& #[trigger] answered(t, lo + 6, a, 0)
                &&& answered(t, a + 1, hi - 17, 0xFE)
                &&& bytes_came(t, hi - 16, 16)
                &&& forall|i: int|
                    0 <= i < 16 ==> t[hi - 16 + i].rx == Ok::<u8, Error>(#[trigger] csd.raw@[i])
                &&& capacity == #[trigger] csd.capacity()
            }
    })
}

#[verifier::rlimit(40)]
proof fn lemma_csd(t: Seq<Exchange>, lo: int, full: Result<Response, Error>)
    requires
        0 <= lo <= t.len(),
        traffic::commands(traffic::csd_command(), t.subrange(lo, t.len() as int), full),
    ensures
        csd_read(t, lo, traffic::capacity_in(full)),
{
    let hi = t.len() as int;
    let w = lemma_command(traffic::csd_command(), t, lo, hi, full);
    if let Ok(b) = w.1 {
        if b == 0 {
            let u = t.subrange(w.0, hi);
            let n = replay::lemma_register_token(u, full);
            let q = w.0 + n;
            assert(u.take(n) =~= t.subrange(w.0, q));
            assert(u.skip(n) =~= t.subrange(q, hi));
            lemma_answer_poll(10_000, t, w.0, q);
            assert(answered(t, lo + 6, w.0 - 1, 0));
            if traffic::poll_result(false, u.take(n)) == Ok::<u8, Error>(0xFE) {
                let d = t.subrange(q, hi);
                assert(d.len() > 0 && d.last() == t[hi - 1]);
                if traffic::run_result(d) is Ok {
                    let csd = CsdResponse { raw: full->Ok_0->R2_0 };
                    assert(d.len() == 16);
                    assert forall|i: int| 0 <= i < 16 implies t[hi - 16 + i].rx == Ok::<u8, Error>(
                        #[trigger] csd.raw@[i],
                    ) by {
                        assert(d[i] == t[hi - 16 + i]);
                        assert(d[i].rx is Ok);
                        assert(traffic::replies(d)[i] == d[i].rx->Ok_0);
                    }
                    assert forall|j: int| hi - 16 <= j < hi implies (#[trigger] t[j]).tx == 0xFF
                        && t[j].rx is Ok by {
                        assert(d[j - (hi - 16)] == t[j]);
                    }
                    assert(traffic::capacity_in(full) == csd.capacity());
                }
            }
        }
    }
}

/// Initialization that succeeds clocks ten idle bytes, resets the card with CMD0, probes
/// its interface, starts it, reads its OCR and asks for its CSD, one right after the
/// other, and reports what each of these found: `p` holds where the last four begin.
/// The driver goes by that report.
#[verifier::rlimit(40)]
pub proof fn initialization_reports_what_came(
    mode: CardMode,
    t: Seq<Exchange>,
    after: CardMode,
    info: CardInfo,
) -> (p: (int, int, int, int))
    requires
        traffic::initializes(mode, t, after, Ok(info)),
    ensures
        t.len() > 17,
        forall|i: int| 0 <= i < 10 ==> (#[trigger] t[i]).tx == 0xFF,
        frame_sent(t, 10, 0, 0),
        interface_probed(t, p.0, p.1, info.sd_v2),
        card_started(t, p.1, p.2, info.sd_v2),
        ocr_read(t, p.2, p.3, info.ocr),
        csd_read(t, p.3, info.capacity_blocks),
        info.high_capacity == (info.ocr / 0x4000_0000 % 2 == 1),
        after.sd_v2 == info.sd_v2,
        after.high_capacity == info.high_capacity,
{
    let (a, b, c, d, ack, full) = lemma_steps(mode, t, after, info);
    lemma_reset(t, a, ack);
    lemma_probe(t, a, b, info.sd_v2);
    lemma_started(t, b, c, info.sd_v2);
    lemma_ocr(t, c, d, OcrResponse { raw: info.ocr });
    lemma_csd(t, d, full);
    bits::lemma_low_and_high_bits(info.ocr);
    (a, b, c, d)
}

/// Where the reset of an initialization ends, and what follows it.
#[verifier::rlimit(40)]
proof fn lemma_reset_parts(mode: CardMode, u: Seq<Exchange>, after: CardMode, info: CardInfo) -> (w: (
    int,
    Result<R1Response, Error>,
))
    requires
        traffic::init_from_reset(mode, u, after, Ok(info)),
    ensures
        0 <= w.0 <= u.len(),
        traffic::acknowledges(traffic::reset_command(), u.take(w.0), w.1),
        w.1 is Ok,
        traffic::init_from_probe(mode, u.skip(w.0), after, Ok(info)),
{
    let r = Ok::<CardInfo, Error>(info);
    choose|n: int, ack: Result<R1Response, Error>|
        {
            &&& 0 <= n <= u.len()
            &&& #[trigger] traffic::acknowledges(traffic::reset_command(), u.take(n), ack)
            &&& match ack {
                Ok(_) => traffic::init_from_probe(mode, u.skip(n), after, r),
                Err(e) => n == u.len() && after == mode && r == Err::<CardInfo, Error>(e),
            }
        }
}

/// Where the interface probe of an initialization ends, and what follows it.
#[verifier::rlimit(40)]
proof fn lemma_probe_parts(mode: CardMode, u: Seq<Exchange>, after: CardMode, info: CardInfo) -> (w: (
    int,
    bool,
))
    requires
        traffic::init_from_probe(mode, u, after, Ok(info)),
    ensures
        0 <= w.0 <= u.len(),
        traffic::probes(u.take(w.0), Ok(w.1)),
        traffic::init_from_start(
            CardMode { sd_v2: w.1, high_capacity: mode.high_capacity },
            u.skip(w.0),
            after,
            Ok(info),
        ),
{
    let r = Ok::<CardInfo, Error>(info);
    let (n, v2) = choose|n: int, v2: Result<bool, Error>|
        {
            &&& 0 <= n <= u.len()
            &&& #[trigger] traffic::probes(u.take(n), v2)
            &&& match v2 {
                Ok(v2) => traffic::init_from_start(
                    CardMode { sd_v2: v2, high_capacity: mode.high_capacity },
                    u.skip(n),
                    after,
                    r,
                ),
                Err(e) => n == u.len() && after == mode && r == Err::<CardInfo, Error>(e),
            }
        };
    (n, v2->Ok_0)
}

/// Where the start of the card in an initialization ends, and what follows it.
#[verifier::rlimit(40)]
proof fn lemma_start_stage(mode: CardMode, u: Seq<Exchange>, after: CardMode, info: CardInfo) -> (n:
    int)
    requires
        traffic::init_from_start(mode, u, after, Ok(info)),
    ensures
        0 <= n <= u.len(),
        traffic::starts(mode.sd_v2, u.take(n), Ok(())),
        traffic::init_from_ocr(mode, u.skip(n), after, Ok(info)),
{
    let r = Ok::<CardInfo, Error>(info);
    let (n, started) = choose|n: int, started: Result<(), Error>|
        {
            &&& 0 <= n <= u.len()
            &&& #[trigger] traffic::starts(mode.sd_v2, u.take(n), started)
            &&& match started {
                Ok(_) => traffic::init_from_ocr(mode, u.skip(n), after, r),
                Err(e) => n == u.len() && after == mode && r == Err::<CardInfo, Error>(e),
            }
        };
    assert(started == Ok::<(), Error>(()));
    n
}

/// Where the reading of the OCR in an initialization ends, and what follows it.
#[verifier::rlimit(40)]
proof fn lemma_ocr_stage(mode: CardMode, u: Seq<Exchange>, after: CardMode, info: CardInfo) -> (w: (
    int,
    OcrResponse,
    Result<Response, Error>,
))
    requires
        traffic::init_from_ocr(mode, u, after, Ok(info)),
    ensures
        0 <= w.0 <= u.len(),
        traffic::reads_ocr(u.take(w.0), Ok(w.1)),
        traffic::commands(traffic::csd_command(), u.skip(w.0), w.2),
        after == (CardMode { sd_v2: mode.sd_v2, high_capacity: bits::bit(w.1.raw, 30) }),
        info == (CardInfo {
            sd_v2: mode.sd_v2,
            high_capacity: after.high_capacity,
            ocr: w.1.raw,
            capacity_blocks: traffic::capacity_in(w.2),
        }),
{
    let (n, ocr) = replay::lemma_ocr_parts(mode, u, after, Ok(info));
    let full = replay::lemma_csd_answer(after, ocr->Ok_0, u.skip(n), Ok(info));
    (n, ocr->Ok_0, full)
}

/// The steps of an initialization that succeeds, and what they found.
#[verifier::rlimit(40)]
proof fn lemma_steps(mode: CardMode, t: Seq<Exchange>, after: CardMode, info: CardInfo) -> (w: (
    int,
    int,
    int,
    int,
    Result<R1Response, Error>,
    Result<Response, Error>,
))
    requires
        traffic::initializes(mode, t, after, Ok(info)),
    ensures
        10 <= w.0 <= w.1 <= w.2 <= w.3 <= t.len(),
        traffic::is_run(traffic::filler(10), t.take(10)),
        w.4 is Ok,
        traffic::acknowledges(traffic::reset_command(), t.subrange(10, w.0), w.4),
        traffic::probes(t.subrange(w.0, w.1), Ok(info.sd_v2)),
        traffic::starts(info.sd_v2, t.subrange(w.1, w.2), Ok(())),
        traffic::reads_ocr(t.subrange(w.2, w.3), Ok(OcrResponse { raw: info.ocr })),
        traffic::commands(traffic::csd_command(), t.subrange(w.3, t.len() as int), w.5),
        info.capacity_blocks == traffic::capacity_in(w.5),
        info.high_capacity == bits::bit(info.ocr, 30),
        after == (CardMode { sd_v2: info.sd_v2, high_capacity: info.high_capacity }),
{
    let k = traffic::head(10, t);
    assert(t.take(k).len() == 10);
    let hi = t.len() as int;
    assert(t.skip(10) =~= t.subrange(10, hi));
    let (n, ack) = lemma_reset_parts(mode, t.subrange(10, hi), after, info);
    let a = 10 + n;
    lemma_slices(t, 10, n);
    let (n, v2) = lemma_probe_parts(mode, t.subrange(a, hi), after, info);
    let b = a + n;
    lemma_slices(t, a, n);
    let probed = CardMode { sd_v2: v2, high_capacity: mode.high_capacity };
    let n = lemma_start_stage(probed, t.subrange(b, hi), after, info);
    let c = b + n;
    lemma_slices(t, b, n);
    let (n, ocr, full) = lemma_ocr_stage(probed, t.subrange(c, hi), after, info);
    let d = c + n;
    lemma_slices(t, c, n);
    (a, b, c, d, ack, full)
}

proof fn lemma_slices(t: Seq<Exchange>, lo: int, n: int)
    requires
        0 <= lo,
        0 <= n,
        lo + n <= t.len(),
    ensures
        t.subrange(lo, t.len() as int).take(n) == t.subrange(lo, lo + n),
        t.subrange(lo, t.len() as int).skip(n) == t.subrange(lo + n, t.len() as int),
{
    assert(t.subrange(lo, t.len() as int).take(n) =~= t.subrange(lo, lo + n));
    assert(t.subrange(lo, t.len() as int).skip(n) =~= t.subrange(lo + n, t.len() as int));
}

/// The reset of the card, read off its exchanges.
#[verifier::rlimit(40)]
proof fn lemma_reset(t: Seq<Exchange>, a: int, ack: Result<R1Response, Error>)
    requires
        10 <= a <= t.len(),
        ack is Ok,
        traffic::is_run(traffic::filler(10), t.take(10)),
        traffic::acknowledges(traffic::reset_command(), t.subrange(10, a), ack),
    ensures
        17 <= a,
        forall|i: int| 0 <= i < 10 ==> (#[trigger] t[i]).tx == 0xFF,
        frame_sent(t, 10, 0, 0),
{
    let f = t.take(10);
    assert forall|i: int| 0 <= i < 10 implies (#[trigger] t[i]).tx == 0xFF by {
        assert(f[i] == t[i]);
    }
    let c = traffic::reset_command();
    let full = choose|full: Result<Response, Error>| #[trigger]
        traffic::commands(c, t.subrange(10, a), full) && ack == traffic::status_of(full);
    let w = lemma_command(c, t, 10, a, full);
}

/// An attempt to start the card that left it idle: CMD55 and ACMD41 went out between
/// exchanges `lo` and `hi`, and the R1 byte that answers ACMD41 has bit 0 set.
#[verifier::opaque]
pub open spec fn card_left_idle(t: Seq<Exchange>, lo: int, hi: int, sd_v2: bool) -> bool {
    exists|c: int, x: u8, y: u8|
        {
            &&& frame_sent(t, lo, 55, 0)
            &&& #[trigger] answered(t, lo + 6, c - 1, x)
            &&& frame_sent(
                t,
                c,
                41,
                if sd_v2 {
                    0x40FF_8000u32
                } else {
                    0x00FF_8000u32
                },
            )
            &&& #[trigger] answered(t, c + 6, hi - 1, y)
            &&& y % 2 == 1
        }
}

#[verifier::rlimit(40)]
proof fn lemma_idle_round(t: Seq<Exchange>, lo: int, hi: int, sd_v2: bool)
    requires
        0 <= lo <= hi <= t.len(),
        traffic::start_round(sd_v2, t.subrange(lo, hi), Ok(false)),
    ensures
        lo + 14 <= hi,
        card_left_idle(t, lo, hi, sd_v2),
{
    reveal(card_left_idle);
    let v = t.subrange(lo, hi);
    let (m, ack, full) = replay::lemma_round_parts(sd_v2, v, Ok(false));
    let c = lo + m;
    assert(v.take(m) =~= t.subrange(lo, c));
    assert(v.skip(m) =~= t.subrange(c, hi));
    let x = lemma_r1_command(55, 0, t, lo, c, ack);
    lemma_op_cond(sd_v2);
    let w = lemma_command(traffic::spi_op_cond(sd_v2), t, c, hi, full);
    let y = w.1->Ok_0;
    lemma_r1_bits(y);
    assert(w.0 == hi);
    assert(answered(t, lo + 6, c - 1, x->Ok_0));
    assert(answered(t, c + 6, hi - 1, y));
}

#[verifier::rlimit(40)]
proof fn lemma_idle_rounds(rounds: nat, t: Seq<Exchange>, lo: int, hi: int, sd_v2: bool) -> (p: Seq<
    int,
>)
    requires
        0 <= lo <= hi <= t.len(),
        traffic::still_idle(rounds, sd_v2, t.subrange(lo, hi)),
    ensures
        p.len() == rounds + 1,
        p[0] == lo,
        p.last() == hi,
        forall|j: int|
            0 <= j < rounds ==> p[j] + 14 <= p[j + 1] && card_left_idle(
                t,
                #[trigger] p[j],
                p[j + 1],
                sd_v2,
            ),
    decreases rounds,
{
    let u = t.subrange(lo, hi);
    if rounds == 0 {
        seq![lo]
    } else {
        let n = replay::lemma_last_round(rounds, sd_v2, u);
        assert(u.take(n) =~= t.subrange(lo, lo + n));
        assert(u.skip(n) =~= t.subrange(lo + n, hi));
        let q = lemma_idle_rounds((rounds - 1) as nat, t, lo, lo + n, sd_v2);
        lemma_idle_round(t, lo + n, hi, sd_v2);
        let p = q.push(hi);
        assert forall|j: int| 0 <= j < rounds implies p[j] + 14 <= p[j + 1] && card_left_idle(
            t,
            #[trigger] p[j],
            p[j + 1],
            sd_v2,
        ) by {
            if j < rounds - 1 {
                assert(q[j] == p[j] && q[j + 1] == p[j + 1]);
            } else {
                assert(p[j] == q.last());
            }
        }
        p
    }
}

/// Starting a card is given up without a bus error only after a thousand attempts that
/// left it idle, or when it has not answered a command for a hundred bytes. `p` holds
/// where the attempts begin, one after the other, and where the last of them ends.
#[verifier::rlimit(40)]
pub proof fn start_is_given_up_after_a_thousand_attempts(
    sd_v2: bool,
    t: Seq<Exchange>,
    e: Error,
) -> (p: Seq<int>)
    requires
        traffic::starts(sd_v2, t, Err(e)),
    ensures
        1 <= p.len() <= 1001,
        p[0] == 0,
        forall|j: int|
            0 <= j < p.len() - 1 ==> p[j] + 14 <= p[j + 1] && card_left_idle(
                t,
                #[trigger] p[j],
                p[j + 1],
                sd_v2,
            ),
        ({
            ||| e == Error::Timeout && p.len() == 1001 && p.last() == t.len()
            ||| t.len() > 0 && t.last().rx == Err::<u8, Error>(e)
            ||| e == Error::Timeout && silent(t, t.len() - 100, t.len() as int)
        }),
{
    let hi = t.len() as int;
    let (rounds, n, last) = replay::lemma_start_parts(sd_v2, t, Err(e));
    assert(t.take(n) =~= t.subrange(0, n));
    assert(t.skip(n) =~= t.subrange(n, hi));
    let p = lemma_idle_rounds(rounds, t, 0, n, sd_v2);
    if rounds < 1000 {
        lemma_failed_round(t, n, hi, sd_v2, e);
    }
    p
}

#[verifier::rlimit(40)]
proof fn lemma_failed_round(t: Seq<Exchange>, lo: int, hi: int, sd_v2: bool, e: Error)
    requires
        0 <= lo <= hi <= t.len(),
        traffic::start_round(sd_v2, t.subrange(lo, hi), Err(e)),
    ensures
        hi > lo,
        t[hi - 1].rx == Err::<u8, Error>(e) || (e == Error::Timeout && silent(t, hi - 100, hi)),
{
    let v = t.subrange(lo, hi);
    let (m, ack, full) = replay::lemma_round_parts(sd_v2, v, Err(e));
    let c = lo + m;
    assert(v.take(m) =~= t.subrange(lo, c));
    assert(v.skip(m) =~= t.subrange(c, hi));
    let x = lemma_r1_command(55, 0, t, lo, c, ack);
    if ack is Ok {
        lemma_op_cond(sd_v2);
        let w = lemma_command(traffic::spi_op_cond(sd_v2), t, c, hi, full);
    }
}

/// Why a step of initialization fails: with the error of the bus, or with a timeout
/// once the card has been silent for a hundred bytes after a command or has been left
/// idle by a thousand attempts to start it, of fourteen exchanges at least each.
pub open spec fn gave_up(t: Seq<Exchange>, e: Error) -> bool {
    &&& t.len() > 0
    &&& ({
        ||| t.last().rx == Err::<u8, Error>(e)
        ||| e == Error::Timeout && silent(t, t.len() - 100, t.len() as int)
        ||| e == Error::Timeout && t.len() >= 14_000 && (t.last().rx matches Ok(b) && b % 2 == 1)
    })
}

/// A command that fails, at the end of some traffic.
#[verifier::rlimit(40)]
proof fn lemma_command_fails(c: Command, t: Seq<Exchange>, lo: int, e: Error)
    requires
        c.cmd < 64,
        c.resp_type == ResponseType::NoResponse || c.resp_type == ResponseType::R1 || c.resp_type
            == ResponseType::R3 || c.resp_type == ResponseType::R7,
        0 <= lo <= t.len(),
        traffic::commands(c, t.subrange(lo, t.len() as int), Err(e)),
    ensures
        gave_up(t, e),
{
    let hi = t.len() as int;
    let w = lemma_command(c, t, lo, hi, Err(e));
    if let Ok(b) = w.1 {
        if c.resp_type == ResponseType::R3 || c.resp_type == ResponseType::R7 {
            lemma_word(t, w.0, hi);
        }
    }
}

/// The interface probe fails only with an error of the bus other than a timeout.
#[verifier::rlimit(40)]
proof fn lemma_probe_fails(t: Seq<Exchange>, lo: int, e: Error)
    requires
        0 <= lo <= t.len(),
        traffic::probes(t.subrange(lo, t.len() as int), Err(e)),
    ensures
        gave_up(t, e),
        e != Error::Timeout,
{
    let hi = t.len() as int;
    let c = traffic::interface_command();
    let full = choose|full: Result<Response, Error>| #[trigger]
        traffic::commands(c, t.subrange(lo, hi), full) && Err::<bool, Error>(e)
            == traffic::probe_result(full);
    if full is Err {
        lemma_command_fails(c, t, lo, e);
    } else {
        let w = lemma_command(c, t, lo, hi, full);
    }
}

#[verifier::rlimit(40)]
proof fn lemma_ocr_fails(t: Seq<Exchange>, lo: int, e: Error)
    requires
        0 <= lo <= t.len(),
        traffic::reads_ocr(t.subrange(lo, t.len() as int), Err(e)),
    ensures
        gave_up(t, e),
{
    let hi = t.len() as int;
    let c = traffic::ocr_command();
    let full = choose|full: Result<Response, Error>| #[trigger]
        traffic::commands(c, t.subrange(lo, hi), full) && Err::<OcrResponse, Error>(e) == (
        match full {
            Ok(Response::R3(o)) => Ok(o),
            Ok(_) => Err(Error::BadResponse),
            Err(x) => Err(x),
        });
    if full is Err {
        lemma_command_fails(c, t, lo, e);
    } else {
        let w = lemma_command(c, t, lo, hi, full);
    }
}

/// Attempts to start a card take fourteen exchanges at least each.
proof fn lemma_attempts_take_time(t: Seq<Exchange>, p: Seq<int>, j: int, sd_v2: bool)
    requires
        p.len() > 0,
        p[0] == 0,
        0 <= j < p.len(),
        forall|j: int|
            0 <= j < p.len() - 1 ==> p[j] + 14 <= p[j + 1] && card_left_idle(
                t,
                #[trigger] p[j],
                p[j + 1],
                sd_v2,
            ),
    ensures
        p[j] >= 14 * j,
    decreases j,
{
    if j > 0 {
        lemma_attempts_take_time(t, p, j - 1, sd_v2);
        assert(p[j - 1] + 14 <= p[j - 1 + 1]);
    }
}

proof fn lemma_idle_answer(t: Seq<Exchange>, lo: int, hi: int, sd_v2: bool)
    requires
        card_left_idle(t, lo, hi, sd_v2),
    ensures
        0 < hi <= t.len(),
        t[hi - 1].rx matches Ok(b) && b % 2 == 1,
{
    reveal(card_left_idle);
}

#[verifier::rlimit(40)]
proof fn lemma_start_fails(t: Seq<Exchange>, lo: int, sd_v2: bool, e: Error)
    requires
        0 <= lo <= t.len(),
        traffic::starts(sd_v2, t.subrange(lo, t.len() as int), Err(e)),
    ensures
        gave_up(t, e),
{
    let u = t.subrange(lo, t.len() as int);
    let p = start_is_given_up_after_a_thousand_attempts(sd_v2, u, e);
    if u.len() > 0 {
        assert(u.last() == t.last());
    }
    if e == Error::Timeout && p.len() == 1001 && p.last() == u.len() {
        lemma_attempts_take_time(u, p, 1000, sd_v2);
        let last = 999int;
        assert(card_left_idle(u, p[last], p[last + 1], sd_v2));
        lemma_idle_answer(u, p[last], p[last + 1], sd_v2);
    } else if e == Error::Timeout && silent(u, u.len() - 100, u.len() as int) {
        assert forall|i: int| t.len() - 100 <= i < t.len() implies (#[trigger] t[i]).tx == 0xFF
            && t[i].rx == Ok::<u8, Error>(0xFF) by {
            assert(u[i - lo] == t[i]);
        }
    }
}

/// Where initialization fails, from the start of the card on.
#[verifier::rlimit(40)]
proof fn lemma_late_failure(mode: CardMode, t: Seq<Exchange>, lo: int, after: CardMode, e: Error)
    requires
        0 <= lo <= t.len(),
        traffic::init_from_start(mode, t.subrange(lo, t.len() as int), after, Err(e)),
    ensures
        gave_up(t, e),
        after == mode,
{
    let r = Err::<CardInfo, Error>(e);
    let u = t.subrange(lo, t.len() as int);
    let (n, started) = choose|n: int, started: Result<(), Error>|
        {
            &&& 0 <= n <= u.len()
            &&& #[trigger] traffic::starts(mode.sd_v2, u.take(n), started)
            &&& match started {
                Ok(_) => traffic::init_from_ocr(mode, u.skip(n), after, r),
                Err(x) => n == u.len() && after == mode && r == Err::<CardInfo, Error>(x),
            }
        };
    lemma_slices(t, lo, n);
    if started is Err {
        assert(started == Err::<(), Error>(e));
        lemma_start_fails(t, lo, mode.sd_v2, e);
    } else {
        let v = t.subrange(lo + n, t.len() as int);
        let (m, ocr) = replay::lemma_ocr_parts(mode, v, after, r);
        lemma_slices(t, lo + n, m);
        if let Ok(o) = ocr {
            let full = replay::lemma_csd_answer(
                traffic::mode_after(mode, o),
                o,
                v.skip(m),
                r,
            );
        } else {
            lemma_ocr_fails(t, lo + n, e);
        }
    }
}

/// Initialization fails with the error of the bus, or with a timeout once the card has
/// been silent for a hundred bytes after a command or has been left idle by a thousand
/// attempts to start it; and it fails for no other reason. A driver whose
/// initialization failed has not changed its mind about the card's capacity.
#[verifier::rlimit(60)]
pub proof fn initialization_fails_for_a_reason(
    mode: CardMode,
    t: Seq<Exchange>,
    after: CardMode,
    e: Error,
)
    requires
        traffic::initializes(mode, t, after, Err(e)),
    ensures
        gave_up(t, e),
        after.high_capacity == mode.high_capacity,
{
    let r = Err::<CardInfo, Error>(e);
    let hi = t.len() as int;
    let k = traffic::head(10, t);
    let f = t.take(k);
    assert(f.len() > 0 && f.last() == t[k - 1]);
    if traffic::run_result(f) is Ok {
        assert(t.skip(10) =~= t.subrange(10, hi));
        lemma_early_failure(mode, t, after, e);
    }
}

#[verifier::rlimit(60)]
proof fn lemma_early_failure(mode: CardMode, t: Seq<Exchange>, after: CardMode, e: Error)
    requires
        t.len() >= 10,
        traffic::init_from_reset(mode, t.subrange(10, t.len() as int), after, Err(e)),
    ensures
        gave_up(t, e),
        after.high_capacity == mode.high_capacity,
{
    let r = Err::<CardInfo, Error>(e);
    let u = t.subrange(10, t.len() as int);
    let c = traffic::reset_command();
    let (n, ack) = choose|n: int, ack: Result<R1Response, Error>|
        {
            &&& 0 <= n <= u.len()
            &&& #[trigger] traffic::acknowledges(c, u.take(n), ack)
            &&& match ack {
                Ok(_) => traffic::init_from_probe(mode, u.skip(n), after, r),
                Err(x) => n == u.len() && after == mode && r == Err::<CardInfo, Error>(x),
            }
        };
    lemma_slices(t, 10, n);
    if ack is Err {
        let full = choose|full: Result<Response, Error>| #[trigger]
            traffic::commands(c, u.take(n), full) && ack == traffic::status_of(full);
        if full is Err {
            lemma_command_fails(c, t, 10, e);
        } else {
            let w = lemma_command(c, t, 10, t.len() as int, full);
        }
    } else {
        lemma_probe_or_later(mode, t, 10 + n, after, e);
    }
}

#[verifier::rlimit(60)]
proof fn lemma_probe_or_later(mode: CardMode, t: Seq<Exchange>, lo: int, after: CardMode, e: Error)
    requires
        0 <= lo <= t.len(),
        traffic::init_from_probe(mode, t.subrange(lo, t.len() as int), after, Err(e)),
    ensures
        gave_up(t, e),
        after.high_capacity == mode.high_capacity,
{
    let r = Err::<CardInfo, Error>(e);
    let u = t.subrange(lo, t.len() as int);
    let (n, v2) = choose|n: int, v2: Result<bool, Error>|
        {
            &&& 0 <= n <= u.len()
            &&& #[trigger] traffic::probes(u.take(n), v2)
            &&& match v2 {
                Ok(v2) => traffic::init_from_start(
                    CardMode { sd_v2: v2, high_capacity: mode.high_capacity },
                    u.skip(n),
                    after,
                    r,
                ),
                Err(x) => n == u.len() && after == mode && r == Err::<CardInfo, Error>(x),
            }
        };
    lemma_slices(t, lo, n);
    match v2 {
        Ok(v2) => {
            let probed = CardMode { sd_v2: v2, high_capacity: mode.high_capacity };
            lemma_late_failure(probed, t, lo + n, after, e);
        },
        Err(_) => {
            lemma_probe_fails(t, lo, e);
        },
    }
}

/// A read of a block that fails leaves in the buffer the bytes that came before it
/// failed, where they belong, and every other byte of the buffer as it was.
#[verifier::rlimit(40)]
pub proof fn failed_read_keeps_the_rest(
    arg: u32,
    t: Seq<Exchange>,
    before: Seq<u8>,
    after: Seq<u8>,
    e: Error,
) -> (w: (int, int))
    requires
        before.len() == 512,
        traffic::reads_single(arg, t, before, after, Err(e)),
    ensures
        after.len() == 512,
        0 <= w.1 <= 512,
        0 <= w.0,
        w.0 + w.1 <= t.len(),
        w.1 > 0 ==> w.0 > 0 && t[w.0 - 1].rx == Ok::<u8, Error>(0xFE),
        forall|i: int|
            0 <= i < w.1 ==> t[w.0 + i].rx == Ok::<u8, Error>(#[trigger] after[i]),
        forall|i: int| w.1 <= i < 512 ==> #[trigger] after[i] == before[i],
        t.last().rx is Ok ==> after == before,
{
    let r = Err::<(), Error>(e);
    let c = traffic::r1_command(17, arg);
    let (n, ack) = choose|n: int, ack: Result<R1Response, Error>|
        {
            &&& 0 <= n <= t.len()
            &&& #[trigger] traffic::acknowledges(c, t.take(n), ack)
            &&& match ack {
                Ok(_) => traffic::reads_block(t.skip(n), before, after, r),
                Err(x) => n == t.len() && after == before && r == Err::<(), Error>(x),
            }
        };
    if ack is Ok {
        let u = t.skip(n);
        let k = replay::lemma_block_token(u, before, after, r);
        if traffic::poll_result(false, u.take(k)) == Ok::<u8, Error>(0xFE) {
            let d = u.skip(k);
            assert(u.take(k).last() == u[k - 1]);
            assert(d.last() == t.last());
            let m = if d.len() <= 512 { d.len() - 1 } else { 512 };
            assert forall|i: int| 0 <= i < m implies t[n + k + i].rx == Ok::<u8, Error>(
                #[trigger] after[i],
            ) by {
                assert(d[i] == t[n + k + i]);
                assert(d[i].rx is Ok);
            }
            (n + k, m)
        } else {
            (0, 0)
        }
    } else {
        (0, 0)
    }
}

} // verus!
