//! What a transaction over SPI returns follows from its traffic alone.
//!
//! Each law says more: the traffic of a transaction that is over is never the
//! beginning of longer traffic of the same transaction. So in a history of a bus
//! it is settled where each transaction ends, and what it led to.
use vstd::prelude::*;

use crate::bits;
use crate::cmd::Command;
use crate::error::Error;
use crate::response::{OcrResponse, R1Response, Response, ResponseType};
use crate::spi::CardInfo;
use crate::traffic::{self, CardMode, Exchange};

verus! {

/// The parts of two beginnings of the same traffic.
proof fn lemma_parts(t: Seq<Exchange>, m: int, i: int)
    requires
        0 <= i <= m <= t.len(),
    ensures
        t.take(m).take(i) == t.take(i),
        t.take(m).skip(i) == t.skip(i).take(m - i),
{
    assert(t.take(m).take(i) =~= t.take(i));
    assert(t.take(m).skip(i) =~= t.skip(i).take(m - i));
}

/// All of the traffic is a beginning of it.
proof fn lemma_all(t: Seq<Exchange>)
    ensures
        t.take(t.len() as int) == t,
{
    assert(t.take(t.len() as int) =~= t);
}

/// A poll ends at one exchange only.
proof fn lemma_poll_ends_once(limit: nat, idle: bool, t: Seq<Exchange>, m: int, n: int)
    requires
        0 <= m <= t.len(),
        0 <= n <= t.len(),
        traffic::is_poll(limit, idle, t.take(m)),
        traffic::is_poll(limit, idle, t.take(n)),
    ensures
        m == n,
{
    if m < n {
        assert(t.take(m).last() == t[m - 1]);
        assert(t.take(n)[m - 1] == t[m - 1]);
    }
    if n < m {
        assert(t.take(n).last() == t[n - 1]);
        assert(t.take(m)[n - 1] == t[n - 1]);
    }
}

/// Sending a string ends at one exchange only.
proof fn lemma_run_ends_once(out: Seq<u8>, t: Seq<Exchange>, m: int, n: int)
    requires
        0 <= m <= t.len(),
        0 <= n <= t.len(),
        traffic::is_run(out, t.take(m)),
        traffic::is_run(out, t.take(n)),
    ensures
        m == n,
{
    if m < n {
        assert(t.take(m).last() == t[m - 1]);
        assert(t.take(n)[m - 1] == t[m - 1]);
    }
    if n < m {
        assert(t.take(n).last() == t[n - 1]);
        assert(t.take(m)[n - 1] == t[n - 1]);
    }
}

/// Two responses that hold the same.
pub open spec fn same_response(a: Result<Response, Error>, b: Result<Response, Error>) -> bool {
    match (a, b) {
        (Ok(Response::R2(x)), Ok(Response::R2(y))) => x@ == y@,
        _ => a == b,
    }
}

/// Where the token of a register ends, and what follows it.
pub(crate) proof fn lemma_register_token(t: Seq<Exchange>, r: Result<Response, Error>) -> (n: int)
    requires
        traffic::reads_register(t, r),
    ensures
        0 <= n <= t.len(),
        traffic::is_poll(traffic::token_limit(), false, t.take(n)),
        match traffic::poll_result(false, t.take(n)) {
            Ok(token) => if token == 0xFE {
                &&& traffic::is_run(traffic::filler(16), t.skip(n))
                &&& match traffic::run_result(t.skip(n)) {
                    Ok(_) => r matches Ok(Response::R2(b)) && b@ == traffic::replies(t.skip(n)),
                    Err(e) => r == Err::<Response, Error>(e),
                }
            } else {
                n == t.len() && r == Err::<Response, Error>(Error::ReadError)
            },
            Err(e) => n == t.len() && r == Err::<Response, Error>(e),
        },
{
    choose|n: int|
        {
            &&& 0 <= n <= t.len()
            &&& traffic::is_poll(traffic::token_limit(), false, #[trigger] t.take(n))
            &&& match traffic::poll_result(false, t.take(n)) {
                Ok(token) => if token == 0xFE {
                    &&& traffic::is_run(traffic::filler(16), t.skip(n))
                    &&& match traffic::run_result(t.skip(n)) {
                        Ok(_) => r matches Ok(Response::R2(b)) && b@ == traffic::replies(t.skip(n)),
                        Err(e) => r == Err::<Response, Error>(e),
                    }
                } else {
                    n == t.len() && r == Err::<Response, Error>(Error::ReadError)
                },
                Err(e) => n == t.len() && r == Err::<Response, Error>(e),
            }
        }
}

proof fn lemma_reads_register(
    t: Seq<Exchange>,
    m: int,
    n: int,
    a: Result<Response, Error>,
    b: Result<Response, Error>,
)
    requires
        0 <= m <= t.len(),
        0 <= n <= t.len(),
        traffic::reads_register(t.take(m), a),
        traffic::reads_register(t.take(n), b),
    ensures
        m == n,
        same_response(a, b),
{
    let i = lemma_register_token(t.take(m), a);
    let j = lemma_register_token(t.take(n), b);
    lemma_parts(t, m, i);
    lemma_parts(t, n, j);
    lemma_poll_ends_once(traffic::token_limit(), false, t, i, j);
    if traffic::poll_result(false, t.take(i)) == Ok::<u8, Error>(0xFE) {
        lemma_run_ends_once(traffic::filler(16), t.skip(i), m - i, n - i);
    }
}

proof fn lemma_payload(
    kind: ResponseType,
    r1: R1Response,
    t: Seq<Exchange>,
    m: int,
    n: int,
    a: Result<Response, Error>,
    b: Result<Response, Error>,
)
    requires
        0 <= m <= t.len(),
        0 <= n <= t.len(),
        traffic::payload(kind, r1, t.take(m), a),
        traffic::payload(kind, r1, t.take(n), b),
    ensures
        m == n,
        same_response(a, b),
{
    match kind {
        ResponseType::R1b => {
            lemma_poll_ends_once(traffic::busy_limit(), true, t, m, n);
        },
        ResponseType::R2 => {
            if r1.raw == 0 {
                lemma_reads_register(t, m, n, a, b);
            }
        },
        ResponseType::R3 => {
            lemma_run_ends_once(traffic::filler(4), t, m, n);
        },
        ResponseType::R7 => {
            if !bits::bit(r1.raw, 2) {
                lemma_run_ends_once(traffic::filler(4), t, m, n);
            }
        },
        _ => {},
    }
}

proof fn lemma_answers(
    kind: ResponseType,
    t: Seq<Exchange>,
    m: int,
    n: int,
    a: Result<Response, Error>,
    b: Result<Response, Error>,
)
    requires
        0 <= m <= t.len(),
        0 <= n <= t.len(),
        traffic::answers(kind, t.take(m), a),
        traffic::answers(kind, t.take(n), b),
    ensures
        m == n,
        same_response(a, b),
{
    let s = t.take(m);
    let u = t.take(n);
    let i = choose|i: int|
        {
            &&& 0 <= i <= s.len()
            &&& traffic::is_poll(traffic::answer_limit(), false, #[trigger] s.take(i))
            &&& match traffic::poll_result(false, s.take(i)) {
                Ok(x) => traffic::payload(kind, R1Response { raw: x as u32 }, s.skip(i), a),
                Err(e) => i == s.len() && a == Err::<Response, Error>(e),
            }
        };
    let j = choose|j: int|
        {
            &&& 0 <= j <= u.len()
            &&& traffic::is_poll(traffic::answer_limit(), false, #[trigger] u.take(j))
            &&& match traffic::poll_result(false, u.take(j)) {
                Ok(x) => traffic::payload(kind, R1Response { raw: x as u32 }, u.skip(j), b),
                Err(e) => j == u.len() && b == Err::<Response, Error>(e),
            }
        };
    lemma_parts(t, m, i);
    lemma_parts(t, n, j);
    lemma_poll_ends_once(traffic::answer_limit(), false, t, i, j);
    if let Ok(x) = traffic::poll_result(false, t.take(i)) {
        lemma_payload(kind, R1Response { raw: x as u32 }, t.skip(i), m - i, n - i, a, b);
    }
}

/// What a command is answered follows from its traffic.
pub proof fn command_is_determined(
    c: Command,
    t: Seq<Exchange>,
    m: int,
    n: int,
    a: Result<Response, Error>,
    b: Result<Response, Error>,
)
    requires
        0 <= m <= t.len(),
        0 <= n <= t.len(),
        traffic::commands(c, t.take(m), a),
        traffic::commands(c, t.take(n), b),
    ensures
        m == n,
        same_response(a, b),
{
    let i = traffic::head(6, t.take(m));
    let j = traffic::head(6, t.take(n));
    lemma_parts(t, m, i);
    lemma_parts(t, n, j);
    lemma_run_ends_once(c.frame(), t, i, j);
    if traffic::run_result(t.take(i)) is Ok {
        lemma_answers(c.resp_type, t.skip(i), m - i, n - i, a, b);
    }
}

proof fn lemma_acknowledges(
    c: Command,
    t: Seq<Exchange>,
    m: int,
    n: int,
    a: Result<R1Response, Error>,
    b: Result<R1Response, Error>,
)
    requires
        0 <= m <= t.len(),
        0 <= n <= t.len(),
        traffic::acknowledges(c, t.take(m), a),
        traffic::acknowledges(c, t.take(n), b),
    ensures
        m == n,
        a == b,
{
    let x = choose|x: Result<Response, Error>| #[trigger]
        traffic::commands(c, t.take(m), x) && a == traffic::status_of(x);
    let y = choose|y: Result<Response, Error>| #[trigger]
        traffic::commands(c, t.take(n), y) && b == traffic::status_of(y);
    command_is_determined(c, t, m, n, x, y);
}

// Reading blocks

proof fn lemma_reads_block(
    t: Seq<Exchange>,
    m: int,
    n: int,
    before: Seq<u8>,
    after1: Seq<u8>,
    after2: Seq<u8>,
    a: Result<(), Error>,
    b: Result<(), Error>,
)
    requires
        0 <= m <= t.len(),
        0 <= n <= t.len(),
        traffic::reads_block(t.take(m), before, after1, a),
        traffic::reads_block(t.take(n), before, after2, b),
    ensures
        m == n,
        after1 == after2,
        a == b,
{
    let s = t.take(m);
    let u = t.take(n);
    let i = lemma_block_token(s, before, after1, a);
    let j = lemma_block_token(u, before, after2, b);
    lemma_parts(t, m, i);
    lemma_parts(t, n, j);
    lemma_poll_ends_once(traffic::token_limit(), false, t, i, j);
    if traffic::poll_result(false, t.take(i)) == Ok::<u8, Error>(0xFE) {
        lemma_run_ends_once(traffic::filler(514), t.skip(i), m - i, n - i);
    }
}

/// Where the token of a block ends, and what follows it.
pub(crate) proof fn lemma_block_token(
    t: Seq<Exchange>,
    before: Seq<u8>,
    after: Seq<u8>,
    r: Result<(), Error>,
) -> (n: int)
    requires
        traffic::reads_block(t, before, after, r),
    ensures
        0 <= n <= t.len(),
        traffic::is_poll(traffic::token_limit(), false, t.take(n)),
        match traffic::poll_result(false, t.take(n)) {
            Ok(b) => if b == 0xFE {
                &&& traffic::is_run(traffic::filler(514), t.skip(n))
                &&& after == traffic::overlay(before, t.skip(n))
                &&& r == traffic::run_result(t.skip(n))
            } else {
                n == t.len() && after == before && r == Err::<(), Error>(Error::ReadError)
            },
            Err(e) => n == t.len() && after == before && r == Err::<(), Error>(e),
        },
{
    choose|n: int|
        {
            &&& 0 <= n <= t.len()
            &&& traffic::is_poll(traffic::token_limit(), false, #[trigger] t.take(n))
            &&& match traffic::poll_result(false, t.take(n)) {
                Ok(b) => if b == 0xFE {
                    &&& traffic::is_run(traffic::filler(514), t.skip(n))
                    &&& after == traffic::overlay(before, t.skip(n))
                    &&& r == traffic::run_result(t.skip(n))
                } else {
                    n == t.len() && after == before && r == Err::<(), Error>(Error::ReadError)
                },
                Err(e) => n == t.len() && after == before && r == Err::<(), Error>(e),
            }
        }
}

/// What reading a block returns, and what it leaves in the buffer, follows from
/// its traffic.
pub proof fn read_is_determined(
    arg: u32,
    t: Seq<Exchange>,
    m: int,
    n: int,
    before: Seq<u8>,
    after1: Seq<u8>,
    after2: Seq<u8>,
    a: Result<(), Error>,
    b: Result<(), Error>,
)
    requires
        0 <= m <= t.len(),
        0 <= n <= t.len(),
        traffic::reads_single(arg, t.take(m), before, after1, a),
        traffic::reads_single(arg, t.take(n), before, after2, b),
    ensures
        m == n,
        after1 == after2,
        a == b,
{
    let s = t.take(m);
    let u = t.take(n);
    let c = traffic::r1_command(17, arg);
    let (i, x) = choose|i: int, x: Result<R1Response, Error>|
        {
            &&& 0 <= i <= s.len()
            &&& #[trigger] traffic::acknowledges(c, s.take(i), x)
            &&& match x {
                Ok(_) => traffic::reads_block(s.skip(i), before, after1, a),
                Err(e) => i == s.len() && after1 == before && a == Err::<(), Error>(e),
            }
        };
    let (j, y) = choose|j: int, y: Result<R1Response, Error>|
        {
            &&& 0 <= j <= u.len()
            &&& #[trigger] traffic::acknowledges(c, u.take(j), y)
            &&& match y {
                Ok(_) => traffic::reads_block(u.skip(j), before, after2, b),
                Err(e) => j == u.len() && after2 == before && b == Err::<(), Error>(e),
            }
        };
    lemma_parts(t, m, i);
    lemma_parts(t, n, j);
    lemma_acknowledges(c, t, i, j, x, y);
    if x is Ok {
        lemma_reads_block(t.skip(i), m - i, n - i, before, after1, after2, a, b);
    }
}

/// A block that arrives whole is the same whatever the buffer held.
proof fn lemma_delivers(t: Seq<Exchange>, m: int, n: int, x: Seq<u8>, y: Seq<u8>)
    requires
        0 <= m <= t.len(),
        0 <= n <= t.len(),
        traffic::delivers(t.take(m), x),
        traffic::delivers(t.take(n), y),
    ensures
        m == n,
        x == y,
{
    let s = t.take(m);
    let u = t.take(n);
    let i = lemma_block_token(s, x, x, Ok(()));
    let j = lemma_block_token(u, y, y, Ok(()));
    lemma_parts(t, m, i);
    lemma_parts(t, n, j);
    lemma_poll_ends_once(traffic::token_limit(), false, t, i, j);
    lemma_run_ends_once(traffic::filler(514), t.skip(i), m - i, n - i);
    let rest = t.skip(i).take(m - i);
    assert forall|k: int| 0 <= k < 512 implies x[k] == y[k] by {
        assert(traffic::overlay(x, rest)[k] == rest[k].rx->Ok_0);
        assert(traffic::overlay(y, rest)[k] == rest[k].rx->Ok_0);
    }
    assert(x =~= y);
}

/// A block that arrives whole does not fail, and one that fails does so in one
/// way.
proof fn lemma_loses(t: Seq<Exchange>, m: int, n: int, e: Error)
    requires
        0 <= m <= t.len(),
        0 <= n <= t.len(),
        traffic::loses_block(t.take(m), e),
    ensures
        forall|x: Seq<u8>| !#[trigger] traffic::delivers(t.take(n), x),
        forall|f: Error| #[trigger] traffic::loses_block(t.take(n), f) ==> m == n && e == f,
{
    let s = t.take(m);
    let u = t.take(n);
    let (b1, a1) = choose|b1: Seq<u8>, a1: Seq<u8>|
        b1.len() == 512 && #[trigger] traffic::reads_block(s, b1, a1, Err(e));
    let i = lemma_block_token(s, b1, a1, Err(e));
    lemma_parts(t, m, i);
    assert forall|x: Seq<u8>| !#[trigger] traffic::delivers(u, x) by {
        if traffic::delivers(u, x) {
            let j = lemma_block_token(u, x, x, Ok(()));
            lemma_parts(t, n, j);
            lemma_poll_ends_once(traffic::token_limit(), false, t, i, j);
            if traffic::poll_result(false, t.take(i)) == Ok::<u8, Error>(0xFE) {
                lemma_run_ends_once(traffic::filler(514), t.skip(i), m - i, n - i);
            }
        }
    }
    assert forall|f: Error| #[trigger] traffic::loses_block(u, f) implies m == n && e == f by {
        let (b2, a2) = choose|b2: Seq<u8>, a2: Seq<u8>|
            b2.len() == 512 && #[trigger] traffic::reads_block(u, b2, a2, Err(f));
        let j = lemma_block_token(u, b2, a2, Err(f));
        lemma_parts(t, n, j);
        lemma_poll_ends_once(traffic::token_limit(), false, t, i, j);
        if traffic::poll_result(false, t.take(i)) == Ok::<u8, Error>(0xFE) {
            lemma_run_ends_once(traffic::filler(514), t.skip(i), m - i, n - i);
        }
    }
}

/// As many blocks that arrive are the same blocks.
proof fn lemma_delivers_all(
    t: Seq<Exchange>,
    m: int,
    n: int,
    x: Seq<Seq<u8>>,
    y: Seq<Seq<u8>>,
)
    requires
        0 <= m <= t.len(),
        0 <= n <= t.len(),
        x.len() == y.len(),
        traffic::delivers_all(t.take(m), x),
        traffic::delivers_all(t.take(n), y),
    ensures
        m == n,
        x == y,
    decreases x.len(),
{
    if x.len() == 0 {
        assert(x =~= y);
    } else {
        let i = lemma_last_block(t.take(m), x);
        let j = lemma_last_block(t.take(n), y);
        lemma_parts(t, m, i);
        lemma_parts(t, n, j);
        lemma_delivers_all(t, i, j, x.drop_last(), y.drop_last());
        lemma_delivers(t.skip(i), m - i, n - i, x.last(), y.last());
        assert(x =~= x.drop_last().push(x.last()));
        assert(y =~= y.drop_last().push(y.last()));
    }
}

/// Where the last of some blocks begins.
pub(crate) proof fn lemma_last_block(t: Seq<Exchange>, blocks: Seq<Seq<u8>>) -> (n: int)
    requires
        blocks.len() > 0,
        traffic::delivers_all(t, blocks),
    ensures
        0 <= n <= t.len(),
        traffic::delivers_all(t.take(n), blocks.drop_last()),
        traffic::delivers(t.skip(n), blocks.last()),
{
    choose|n: int|
        {
            &&& 0 <= n <= t.len()
            &&& traffic::delivers_all(#[trigger] t.take(n), blocks.drop_last())
            &&& traffic::delivers(t.skip(n), blocks.last())
        }
}

/// Where block `d` of some blocks begins and ends.
pub(crate) proof fn lemma_block_within(t: Seq<Exchange>, blocks: Seq<Seq<u8>>, d: int) -> (w: (int, int))
    requires
        0 <= d < blocks.len(),
        traffic::delivers_all(t, blocks),
    ensures
        0 <= w.0 <= w.1 <= t.len(),
        traffic::delivers_all(t.take(w.0), blocks.take(d)),
        traffic::delivers(t.skip(w.0).take(w.1 - w.0), blocks[d]),
    decreases blocks.len(),
{
    let n = lemma_last_block(t, blocks);
    if d == blocks.len() - 1 {
        assert(blocks.take(d) =~= blocks.drop_last());
        lemma_all(t.skip(n));
        (n, t.len() as int)
    } else {
        let w = lemma_block_within(t.take(n), blocks.drop_last(), d);
        assert(blocks.drop_last().take(d) =~= blocks.take(d));
        lemma_parts(t, n, w.0);
        assert(t.skip(w.0).take(n - w.0).take(w.1 - w.0) =~= t.skip(w.0).take(w.1 - w.0));
        w
    }
}

proof fn lemma_stops_read(
    t: Seq<Exchange>,
    m: int,
    n: int,
    a: Result<(), Error>,
    b: Result<(), Error>,
)
    requires
        0 <= m <= t.len(),
        0 <= n <= t.len(),
        traffic::stops_read(t.take(m), a),
        traffic::stops_read(t.take(n), b),
    ensures
        m == n,
        a == b,
{
    let s = t.take(m);
    let u = t.take(n);
    let c = traffic::stop_command();
    let (i, x) = choose|i: int, x: Result<R1Response, Error>|
        {
            &&& 0 <= i <= s.len()
            &&& #[trigger] traffic::acknowledges(c, s.take(i), x)
            &&& match x {
                Ok(_) => traffic::is_busy_wait(s.skip(i)) && a == traffic::busy_result(s.skip(i)),
                Err(e) => i == s.len() && a == Err::<(), Error>(e),
            }
        };
    let (j, y) = choose|j: int, y: Result<R1Response, Error>|
        {
            &&& 0 <= j <= u.len()
            &&& #[trigger] traffic::acknowledges(c, u.take(j), y)
            &&& match y {
                Ok(_) => traffic::is_busy_wait(u.skip(j)) && b == traffic::busy_result(u.skip(j)),
                Err(e) => j == u.len() && b == Err::<(), Error>(e),
            }
        };
    lemma_parts(t, m, i);
    lemma_parts(t, n, j);
    lemma_acknowledges(c, t, i, j, x, y);
    if x is Ok {
        lemma_poll_ends_once(traffic::busy_limit(), true, t.skip(i), m - i, n - i);
    }
}

/// Where the blocks of a data phase end, and what follows them.
pub(crate) proof fn lemma_stream_parts(
    count: nat,
    blocks: Seq<Seq<u8>>,
    t: Seq<Exchange>,
    r: Result<(), Error>,
) -> (n: int)
    requires
        traffic::streams(count, blocks, t, r),
    ensures
        0 <= n <= t.len(),
        traffic::delivers_all(t.take(n), blocks),
        blocks.len() <= count,
        if blocks.len() == count {
            traffic::stops_read(t.skip(n), r)
        } else {
            r matches Err(e) && traffic::loses_block(t.skip(n), e)
        },
{
    choose|n: int|
        {
            &&& 0 <= n <= t.len()
            &&& traffic::delivers_all(#[trigger] t.take(n), blocks)
            &&& blocks.len() <= count
            &&& if blocks.len() == count {
                traffic::stops_read(t.skip(n), r)
            } else {
                r matches Err(e) && traffic::loses_block(t.skip(n), e)
            }
        }
}

/// A data phase that breaks off has not delivered the block that it breaks off at.
proof fn lemma_broken_stream(
    t: Seq<Exchange>,
    m: int,
    i: int,
    x: Seq<Seq<u8>>,
    e: Error,
    j: int,
    y: Seq<Seq<u8>>,
)
    requires
        0 <= i <= m <= t.len(),
        0 <= j <= t.len(),
        traffic::delivers_all(t.take(i), x),
        traffic::loses_block(t.skip(i).take(m - i), e),
        traffic::delivers_all(t.take(j), y),
    ensures
        y.len() <= x.len(),
{
    if x.len() < y.len() {
        let d = x.len() as int;
        let w = lemma_block_within(t.take(j), y, d);
        lemma_parts(t, j, w.0);
        lemma_delivers_all(t, i, w.0, x, y.take(d));
        lemma_loses(t.skip(i), m - i, w.1 - w.0, e);
        assert(t.skip(i).take(j - i).take(w.1 - i) =~= t.skip(i).take(w.1 - i));
        assert(traffic::delivers(t.skip(i).take(w.1 - i), y[d]));
    }
}

proof fn lemma_streams(
    count: nat,
    x: Seq<Seq<u8>>,
    y: Seq<Seq<u8>>,
    t: Seq<Exchange>,
    m: int,
    n: int,
    a: Result<(), Error>,
    b: Result<(), Error>,
)
    requires
        0 <= m <= t.len(),
        0 <= n <= t.len(),
        traffic::streams(count, x, t.take(m), a),
        traffic::streams(count, y, t.take(n), b),
    ensures
        m == n,
        x == y,
        a == b,
{
    let i = lemma_stream_parts(count, x, t.take(m), a);
    let j = lemma_stream_parts(count, y, t.take(n), b);
    lemma_parts(t, m, i);
    lemma_parts(t, n, j);
    if x.len() < count {
        lemma_broken_stream(t, m, i, x, a->Err_0, j, y);
    }
    if y.len() < count {
        lemma_broken_stream(t, n, j, y, b->Err_0, i, x);
    }
    lemma_delivers_all(t, i, j, x, y);
    if x.len() == count {
        lemma_stops_read(t.skip(i), m - i, n - i, a, b);
    } else {
        lemma_loses(t.skip(i), m - i, n - i, a->Err_0);
    }
}

/// What reading blocks returns, and which blocks arrive, follows from its traffic.
pub proof fn multi_read_is_determined(
    arg: u32,
    count: nat,
    x: Seq<Seq<u8>>,
    y: Seq<Seq<u8>>,
    t: Seq<Exchange>,
    m: int,
    n: int,
    a: Result<(), Error>,
    b: Result<(), Error>,
)
    requires
        0 <= m <= t.len(),
        0 <= n <= t.len(),
        traffic::reads_many(arg, count, x, t.take(m), a),
        traffic::reads_many(arg, count, y, t.take(n), b),
    ensures
        m == n,
        x == y,
        a == b,
{
    let s = t.take(m);
    let u = t.take(n);
    let c = traffic::r1_command(18, arg);
    let (i, p) = choose|i: int, p: Result<R1Response, Error>|
        {
            &&& 0 <= i <= s.len()
            &&& #[trigger] traffic::acknowledges(c, s.take(i), p)
            &&& match p {
                Ok(_) => traffic::streams(count, x, s.skip(i), a),
                Err(e) => i == s.len() && x.len() == 0 && a == Err::<(), Error>(e),
            }
        };
    let (j, q) = choose|j: int, q: Result<R1Response, Error>|
        {
            &&& 0 <= j <= u.len()
            &&& #[trigger] traffic::acknowledges(c, u.take(j), q)
            &&& match q {
                Ok(_) => traffic::streams(count, y, u.skip(j), b),
                Err(e) => j == u.len() && y.len() == 0 && b == Err::<(), Error>(e),
            }
        };
    lemma_parts(t, m, i);
    lemma_parts(t, n, j);
    lemma_acknowledges(c, t, i, j, p, q);
    if p is Ok {
        lemma_streams(count, x, y, t.skip(i), m - i, n - i, a, b);
    } else {
        assert(x =~= y);
    }
}

// Writing blocks

proof fn lemma_takes_block(
    t: Seq<Exchange>,
    m: int,
    n: int,
    a: Result<(), Error>,
    b: Result<(), Error>,
)
    requires
        0 <= m <= t.len(),
        0 <= n <= t.len(),
        traffic::takes_block(t.take(m), a),
        traffic::takes_block(t.take(n), b),
    ensures
        m == n,
        a == b,
{
    let i = lemma_data_response(t.take(m), a);
    let j = lemma_data_response(t.take(n), b);
    lemma_parts(t, m, i);
    lemma_parts(t, n, j);
    lemma_poll_ends_once(traffic::answer_limit(), false, t, i, j);
    if let Ok(x) = traffic::poll_result(false, t.take(i)) {
        if x % 0x20 == 5 {
            lemma_poll_ends_once(traffic::busy_limit(), true, t.skip(i), m - i, n - i);
        }
    }
}

/// Where the data response to a block ends, and what follows it.
pub(crate) proof fn lemma_data_response(t: Seq<Exchange>, r: Result<(), Error>) -> (n: int)
    requires
        traffic::takes_block(t, r),
    ensures
        0 <= n <= t.len(),
        traffic::is_poll(traffic::answer_limit(), false, t.take(n)),
        match traffic::poll_result(false, t.take(n)) {
            Ok(b) => if b % 0x20 == 5 {
                traffic::is_busy_wait(t.skip(n)) && r == traffic::busy_result(t.skip(n))
            } else {
                n == t.len() && r == Err::<(), Error>(Error::WriteError)
            },
            Err(e) => n == t.len() && r == Err::<(), Error>(e),
        },
{
    choose|n: int|
        {
            &&& 0 <= n <= t.len()
            &&& traffic::is_poll(traffic::answer_limit(), false, #[trigger] t.take(n))
            &&& match traffic::poll_result(false, t.take(n)) {
                Ok(b) => if b % 0x20 == 5 {
                    traffic::is_busy_wait(t.skip(n)) && r == traffic::busy_result(t.skip(n))
                } else {
                    n == t.len() && r == Err::<(), Error>(Error::WriteError)
                },
                Err(e) => n == t.len() && r == Err::<(), Error>(e),
            }
        }
}

proof fn lemma_writes_block(
    token: u8,
    data: Seq<u8>,
    t: Seq<Exchange>,
    m: int,
    n: int,
    a: Result<(), Error>,
    b: Result<(), Error>,
)
    requires
        0 <= m <= t.len(),
        0 <= n <= t.len(),
        traffic::writes_block(token, data, t.take(m), a),
        traffic::writes_block(token, data, t.take(n), b),
    ensures
        m == n,
        a == b,
{
    let out = seq![token] + data + traffic::filler(2);
    let i = traffic::head(out.len(), t.take(m));
    let j = traffic::head(out.len(), t.take(n));
    lemma_parts(t, m, i);
    lemma_parts(t, n, j);
    lemma_run_ends_once(out, t, i, j);
    if traffic::run_result(t.take(i)) is Ok {
        lemma_takes_block(t.skip(i), m - i, n - i, a, b);
    }
}

/// What writing a block returns follows from its traffic.
pub proof fn write_is_determined(
    arg: u32,
    data: Seq<u8>,
    t: Seq<Exchange>,
    m: int,
    n: int,
    a: Result<(), Error>,
    b: Result<(), Error>,
)
    requires
        0 <= m <= t.len(),
        0 <= n <= t.len(),
        traffic::writes_single(arg, data, t.take(m), a),
        traffic::writes_single(arg, data, t.take(n), b),
    ensures
        m == n,
        a == b,
{
    let s = t.take(m);
    let u = t.take(n);
    let c = traffic::r1_command(24, arg);
    let (i, x) = choose|i: int, x: Result<R1Response, Error>|
        {
            &&& 0 <= i <= s.len()
            &&& #[trigger] traffic::acknowledges(c, s.take(i), x)
            &&& match x {
                Ok(_) => traffic::writes_block(0xFE, data, s.skip(i), a),
                Err(e) => i == s.len() && a == Err::<(), Error>(e),
            }
        };
    let (j, y) = choose|j: int, y: Result<R1Response, Error>|
        {
            &&& 0 <= j <= u.len()
            &&& #[trigger] traffic::acknowledges(c, u.take(j), y)
            &&& match y {
                Ok(_) => traffic::writes_block(0xFE, data, u.skip(j), b),
                Err(e) => j == u.len() && b == Err::<(), Error>(e),
            }
        };
    lemma_parts(t, m, i);
    lemma_parts(t, n, j);
    lemma_acknowledges(c, t, i, j, x, y);
    if x is Ok {
        lemma_writes_block(0xFE, data, t.skip(i), m - i, n - i, a, b);
    }
}

/// The same blocks are taken at the same exchange.
proof fn lemma_takes_all(blocks: Seq<[u8; 512]>, t: Seq<Exchange>, m: int, n: int)
    requires
        0 <= m <= t.len(),
        0 <= n <= t.len(),
        traffic::takes_all(blocks, t.take(m)),
        traffic::takes_all(blocks, t.take(n)),
    ensures
        m == n,
    decreases blocks.len(),
{
    if blocks.len() > 0 {
        let i = lemma_last_taken(blocks, t.take(m));
        let j = lemma_last_taken(blocks, t.take(n));
        lemma_parts(t, m, i);
        lemma_parts(t, n, j);
        lemma_takes_all(blocks.drop_last(), t, i, j);
        lemma_writes_block(0xFC, blocks.last()@, t.skip(i), m - i, n - i, Ok(()), Ok(()));
    }
}

/// Where the last of some blocks that are taken begins.
pub(crate) proof fn lemma_last_taken(blocks: Seq<[u8; 512]>, t: Seq<Exchange>) -> (n: int)
    requires
        blocks.len() > 0,
        traffic::takes_all(blocks, t),
    ensures
        0 <= n <= t.len(),
        traffic::takes_all(blocks.drop_last(), t.take(n)),
        traffic::writes_block(0xFC, blocks.last()@, t.skip(n), Ok(())),
{
    choose|n: int|
        {
            &&& 0 <= n <= t.len()
            &&& traffic::takes_all(blocks.drop_last(), #[trigger] t.take(n))
            &&& traffic::writes_block(0xFC, blocks.last()@, t.skip(n), Ok(()))
        }
}

/// Where block `d` of some blocks that are taken begins and ends.
pub(crate) proof fn lemma_taken_within(blocks: Seq<[u8; 512]>, t: Seq<Exchange>, d: int) -> (w: (int, int))
    requires
        0 <= d < blocks.len(),
        traffic::takes_all(blocks, t),
    ensures
        0 <= w.0 <= w.1 <= t.len(),
        traffic::takes_all(blocks.take(d), t.take(w.0)),
        traffic::writes_block(0xFC, blocks[d]@, t.skip(w.0).take(w.1 - w.0), Ok(())),
    decreases blocks.len(),
{
    let n = lemma_last_taken(blocks, t);
    if d == blocks.len() - 1 {
        assert(blocks.take(d) =~= blocks.drop_last());
        lemma_all(t.skip(n));
        (n, t.len() as int)
    } else {
        let w = lemma_taken_within(blocks.drop_last(), t.take(n), d);
        assert(blocks.drop_last().take(d) =~= blocks.take(d));
        lemma_parts(t, n, w.0);
        assert(t.skip(w.0).take(n - w.0).take(w.1 - w.0) =~= t.skip(w.0).take(w.1 - w.0));
        w
    }
}

proof fn lemma_stops_write(
    t: Seq<Exchange>,
    m: int,
    n: int,
    a: Result<(), Error>,
    b: Result<(), Error>,
)
    requires
        0 <= m <= t.len(),
        0 <= n <= t.len(),
        traffic::stops_write(t.take(m), a),
        traffic::stops_write(t.take(n), b),
    ensures
        m == n,
        a == b,
{
    let i = traffic::head(2, t.take(m));
    let j = traffic::head(2, t.take(n));
    lemma_parts(t, m, i);
    lemma_parts(t, n, j);
    lemma_run_ends_once(seq![0xFDu8, 0xFFu8], t, i, j);
    if traffic::run_result(t.take(i)) is Ok {
        lemma_poll_ends_once(traffic::busy_limit(), true, t.skip(i), m - i, n - i);
    }
}

/// How many blocks of a data phase are taken, where they end, and what follows
/// them.
pub(crate) proof fn lemma_sent_parts(blocks: Seq<[u8; 512]>, t: Seq<Exchange>, r: Result<(), Error>) -> (w: (
    int,
    int,
))
    requires
        traffic::sends_all(blocks, t, r),
    ensures
        0 <= w.0 <= blocks.len(),
        0 <= w.1 <= t.len(),
        traffic::takes_all(blocks.take(w.0), t.take(w.1)),
        if w.0 == blocks.len() {
            traffic::stops_write(t.skip(w.1), r)
        } else {
            r is Err && traffic::writes_block(0xFC, blocks[w.0]@, t.skip(w.1), r)
        },
{
    choose|taken: int, n: int|
        {
            &&& 0 <= taken <= blocks.len()
            &&& 0 <= n <= t.len()
            &&& #[trigger] traffic::takes_all(blocks.take(taken), t.take(n))
            &&& if taken == blocks.len() {
                traffic::stops_write(t.skip(n), r)
            } else {
                r is Err && traffic::writes_block(0xFC, blocks[taken]@, t.skip(n), r)
            }
        }
}

/// A data phase that breaks off has no more blocks taken.
proof fn lemma_broken_sending(
    blocks: Seq<[u8; 512]>,
    t: Seq<Exchange>,
    m: int,
    taken: int,
    i: int,
    r: Result<(), Error>,
    other: int,
    j: int,
)
    requires
        0 <= taken < blocks.len(),
        0 <= i <= m <= t.len(),
        traffic::takes_all(blocks.take(taken), t.take(i)),
        r is Err,
        traffic::writes_block(0xFC, blocks[taken]@, t.skip(i).take(m - i), r),
        0 <= other <= blocks.len(),
        0 <= j <= t.len(),
        traffic::takes_all(blocks.take(other), t.take(j)),
    ensures
        other <= taken,
{
    if taken < other {
        let w = lemma_taken_within(blocks.take(other), t.take(j), taken);
        assert(blocks.take(other).take(taken) =~= blocks.take(taken));
        lemma_parts(t, j, w.0);
        lemma_takes_all(blocks.take(taken), t, i, w.0);
        assert(t.skip(i).take(j - i).take(w.1 - i) =~= t.skip(i).take(w.1 - i));
        lemma_writes_block(0xFC, blocks[taken]@, t.skip(i), m - i, w.1 - i, r, Ok(()));
    }
}

proof fn lemma_sends_all(
    blocks: Seq<[u8; 512]>,
    t: Seq<Exchange>,
    m: int,
    n: int,
    a: Result<(), Error>,
    b: Result<(), Error>,
)
    requires
        0 <= m <= t.len(),
        0 <= n <= t.len(),
        traffic::sends_all(blocks, t.take(m), a),
        traffic::sends_all(blocks, t.take(n), b),
    ensures
        m == n,
        a == b,
{
    let (p, i) = lemma_sent_parts(blocks, t.take(m), a);
    let (q, j) = lemma_sent_parts(blocks, t.take(n), b);
    lemma_parts(t, m, i);
    lemma_parts(t, n, j);
    if p < blocks.len() {
        lemma_broken_sending(blocks, t, m, p, i, a, q, j);
    }
    if q < blocks.len() {
        lemma_broken_sending(blocks, t, n, q, j, b, p, i);
    }
    lemma_takes_all(blocks.take(p), t, i, j);
    if p == blocks.len() {
        lemma_stops_write(t.skip(i), m - i, n - i, a, b);
    } else {
        lemma_writes_block(0xFC, blocks[p]@, t.skip(i), m - i, n - i, a, b);
    }
}

/// What writing blocks returns follows from its traffic.
pub proof fn multi_write_is_determined(
    arg: u32,
    blocks: Seq<[u8; 512]>,
    t: Seq<Exchange>,
    m: int,
    n: int,
    a: Result<(), Error>,
    b: Result<(), Error>,
)
    requires
        0 <= m <= t.len(),
        0 <= n <= t.len(),
        traffic::writes_many(arg, blocks, t.take(m), a),
        traffic::writes_many(arg, blocks, t.take(n), b),
    ensures
        m == n,
        a == b,
{
    let s = t.take(m);
    let u = t.take(n);
    let c = traffic::r1_command(25, arg);
    let (i, x) = choose|i: int, x: Result<R1Response, Error>|
        {
            &&& 0 <= i <= s.len()
            &&& #[trigger] traffic::acknowledges(c, s.take(i), x)
            &&& match x {
                Ok(_) => traffic::sends_all(blocks, s.skip(i), a),
                Err(e) => i == s.len() && a == Err::<(), Error>(e),
            }
        };
    let (j, y) = choose|j: int, y: Result<R1Response, Error>|
        {
            &&& 0 <= j <= u.len()
            &&& #[trigger] traffic::acknowledges(c, u.take(j), y)
            &&& match y {
                Ok(_) => traffic::sends_all(blocks, u.skip(j), b),
                Err(e) => j == u.len() && b == Err::<(), Error>(e),
            }
        };
    lemma_parts(t, m, i);
    lemma_parts(t, n, j);
    lemma_acknowledges(c, t, i, j, x, y);
    if x is Ok {
        lemma_sends_all(blocks, t.skip(i), m - i, n - i, a, b);
    }
}

// Initialization

/// The answer to a command of which only part is looked at.
proof fn lemma_probes(
    t: Seq<Exchange>,
    m: int,
    n: int,
    a: Result<bool, Error>,
    b: Result<bool, Error>,
)
    requires
        0 <= m <= t.len(),
        0 <= n <= t.len(),
        traffic::probes(t.take(m), a),
        traffic::probes(t.take(n), b),
    ensures
        m == n,
        a == b,
{
    let c = traffic::interface_command();
    let x = choose|x: Result<Response, Error>| #[trigger]
        traffic::commands(c, t.take(m), x) && a == traffic::probe_result(x);
    let y = choose|y: Result<Response, Error>| #[trigger]
        traffic::commands(c, t.take(n), y) && b == traffic::probe_result(y);
    command_is_determined(c, t, m, n, x, y);
}

proof fn lemma_reads_ocr(
    t: Seq<Exchange>,
    m: int,
    n: int,
    a: Result<OcrResponse, Error>,
    b: Result<OcrResponse, Error>,
)
    requires
        0 <= m <= t.len(),
        0 <= n <= t.len(),
        traffic::reads_ocr(t.take(m), a),
        traffic::reads_ocr(t.take(n), b),
    ensures
        m == n,
        a == b,
{
    let c = traffic::ocr_command();
    let x = choose|x: Result<Response, Error>| #[trigger]
        traffic::commands(c, t.take(m), x) && a == (match x {
            Ok(Response::R3(ocr)) => Ok(ocr),
            Ok(_) => Err(Error::BadResponse),
            Err(e) => Err(e),
        });
    let y = choose|y: Result<Response, Error>| #[trigger]
        traffic::commands(c, t.take(n), y) && b == (match y {
            Ok(Response::R3(ocr)) => Ok(ocr),
            Ok(_) => Err(Error::BadResponse),
            Err(e) => Err(e),
        });
    command_is_determined(c, t, m, n, x, y);
}

/// Where CMD55 of an attempt ends, how it went, and what follows it.
pub(crate) proof fn lemma_round_parts(sd_v2: bool, t: Seq<Exchange>, r: Result<bool, Error>) -> (w: (
    int,
    Result<R1Response, Error>,
    Result<Response, Error>,
))
    requires
        traffic::start_round(sd_v2, t, r),
    ensures
        0 <= w.0 <= t.len(),
        traffic::acknowledges(traffic::r1_command(55, 0), t.take(w.0), w.1),
        match w.1 {
            Ok(_) => traffic::commands(traffic::spi_op_cond(sd_v2), t.skip(w.0), w.2) && r
                == traffic::left_idle(w.2),
            Err(e) => w.0 == t.len() && r == Err::<bool, Error>(e),
        },
{
    let (n, ack) = choose|n: int, ack: Result<R1Response, Error>|
        {
            &&& 0 <= n <= t.len()
            &&& #[trigger] traffic::acknowledges(traffic::r1_command(55, 0), t.take(n), ack)
            &&& match ack {
                Ok(_) => exists|full: Result<Response, Error>| #[trigger]
                    traffic::commands(traffic::spi_op_cond(sd_v2), t.skip(n), full) && r
                        == traffic::left_idle(full),
                Err(e) => n == t.len() && r == Err::<bool, Error>(e),
            }
        };
    let full = if ack is Ok {
        choose|full: Result<Response, Error>| #[trigger]
            traffic::commands(traffic::spi_op_cond(sd_v2), t.skip(n), full) && r
                == traffic::left_idle(full)
    } else {
        Err(Error::Timeout)
    };
    (n, ack, full)
}

proof fn lemma_start_round(
    sd_v2: bool,
    t: Seq<Exchange>,
    m: int,
    n: int,
    a: Result<bool, Error>,
    b: Result<bool, Error>,
)
    requires
        0 <= m <= t.len(),
        0 <= n <= t.len(),
        traffic::start_round(sd_v2, t.take(m), a),
        traffic::start_round(sd_v2, t.take(n), b),
    ensures
        m == n,
        a == b,
{
    let (i, p, x) = lemma_round_parts(sd_v2, t.take(m), a);
    let (j, q, y) = lemma_round_parts(sd_v2, t.take(n), b);
    lemma_parts(t, m, i);
    lemma_parts(t, n, j);
    lemma_acknowledges(traffic::r1_command(55, 0), t, i, j, p, q);
    if p is Ok {
        command_is_determined(traffic::spi_op_cond(sd_v2), t.skip(i), m - i, n - i, x, y);
    }
}

/// Where the last of some attempts begins.
pub(crate) proof fn lemma_last_round(rounds: nat, sd_v2: bool, t: Seq<Exchange>) -> (n: int)
    requires
        rounds > 0,
        traffic::still_idle(rounds, sd_v2, t),
    ensures
        0 <= n <= t.len(),
        traffic::still_idle((rounds - 1) as nat, sd_v2, t.take(n)),
        traffic::start_round(sd_v2, t.skip(n), Ok(false)),
{
    choose|n: int|
        {
            &&& 0 <= n <= t.len()
            &&& traffic::still_idle((rounds - 1) as nat, sd_v2, #[trigger] t.take(n))
            &&& traffic::start_round(sd_v2, t.skip(n), Ok(false))
        }
}

proof fn lemma_still_idle(rounds: nat, sd_v2: bool, t: Seq<Exchange>, m: int, n: int)
    requires
        0 <= m <= t.len(),
        0 <= n <= t.len(),
        traffic::still_idle(rounds, sd_v2, t.take(m)),
        traffic::still_idle(rounds, sd_v2, t.take(n)),
    ensures
        m == n,
    decreases rounds,
{
    if rounds > 0 {
        let i = lemma_last_round(rounds, sd_v2, t.take(m));
        let j = lemma_last_round(rounds, sd_v2, t.take(n));
        lemma_parts(t, m, i);
        lemma_parts(t, n, j);
        lemma_still_idle((rounds - 1) as nat, sd_v2, t, i, j);
        lemma_start_round(sd_v2, t.skip(i), m - i, n - i, Ok(false), Ok(false));
    }
}

/// Where attempt `d` of some attempts begins and ends.
proof fn lemma_round_within(rounds: nat, sd_v2: bool, t: Seq<Exchange>, d: nat) -> (w: (int, int))
    requires
        d < rounds,
        traffic::still_idle(rounds, sd_v2, t),
    ensures
        0 <= w.0 <= w.1 <= t.len(),
        traffic::still_idle(d, sd_v2, t.take(w.0)),
        traffic::start_round(sd_v2, t.skip(w.0).take(w.1 - w.0), Ok(false)),
    decreases rounds,
{
    let n = lemma_last_round(rounds, sd_v2, t);
    if d == rounds - 1 {
        lemma_all(t.skip(n));
        (n, t.len() as int)
    } else {
        let w = lemma_round_within((rounds - 1) as nat, sd_v2, t.take(n), d);
        lemma_parts(t, n, w.0);
        assert(t.skip(w.0).take(n - w.0).take(w.1 - w.0) =~= t.skip(w.0).take(w.1 - w.0));
        w
    }
}

/// How many attempts find the card idle, where they end, and how the one after
/// them goes.
pub(crate) proof fn lemma_start_parts(sd_v2: bool, t: Seq<Exchange>, r: Result<(), Error>) -> (w: (
    nat,
    int,
    Result<bool, Error>,
))
    requires
        traffic::starts(sd_v2, t, r),
    ensures
        w.0 <= traffic::start_limit(),
        0 <= w.1 <= t.len(),
        traffic::still_idle(w.0, sd_v2, t.take(w.1)),
        if w.0 == traffic::start_limit() {
            w.1 == t.len() && r == Err::<(), Error>(Error::Timeout)
        } else {
            &&& traffic::start_round(sd_v2, t.skip(w.1), w.2)
            &&& match w.2 {
                Ok(out) => out && r == Ok::<(), Error>(()),
                Err(e) => r == Err::<(), Error>(e),
            }
        },
{
    let (rounds, n) = choose|rounds: nat, n: int|
        {
            &&& rounds <= traffic::start_limit()
            &&& 0 <= n <= t.len()
            &&& #[trigger] traffic::still_idle(rounds, sd_v2, t.take(n))
            &&& if rounds == traffic::start_limit() {
                n == t.len() && r == Err::<(), Error>(Error::Timeout)
            } else {
                exists|last: Result<bool, Error>|
                    {
                        &&& #[trigger] traffic::start_round(sd_v2, t.skip(n), last)
                        &&& match last {
                            Ok(out) => out && r == Ok::<(), Error>(()),
                            Err(e) => r == Err::<(), Error>(e),
                        }
                    }
            }
        };
    let last = if rounds == traffic::start_limit() {
        Ok(false)
    } else {
        choose|last: Result<bool, Error>|
            {
                &&& #[trigger] traffic::start_round(sd_v2, t.skip(n), last)
                &&& match last {
                    Ok(out) => out && r == Ok::<(), Error>(()),
                    Err(e) => r == Err::<(), Error>(e),
                }
            }
    };
    (rounds, n, last)
}

/// An attempt that does not find the card idle is not one of those that do.
proof fn lemma_rounds_end(
    sd_v2: bool,
    t: Seq<Exchange>,
    m: int,
    p: nat,
    i: int,
    last: Result<bool, Error>,
    q: nat,
    j: int,
)
    requires
        0 <= i <= m <= t.len(),
        0 <= j <= t.len(),
        traffic::still_idle(p, sd_v2, t.take(i)),
        traffic::start_round(sd_v2, t.skip(i).take(m - i), last),
        last != Ok::<bool, Error>(false),
        traffic::still_idle(q, sd_v2, t.take(j)),
    ensures
        q <= p,
{
    if p < q {
        let w = lemma_round_within(q, sd_v2, t.take(j), p);
        lemma_parts(t, j, w.0);
        lemma_still_idle(p, sd_v2, t, i, w.0);
        assert(t.skip(i).take(j - i).take(w.1 - i) =~= t.skip(i).take(w.1 - i));
        lemma_start_round(sd_v2, t.skip(i), m - i, w.1 - i, last, Ok(false));
    }
}

proof fn lemma_starts(
    sd_v2: bool,
    t: Seq<Exchange>,
    m: int,
    n: int,
    a: Result<(), Error>,
    b: Result<(), Error>,
)
    requires
        0 <= m <= t.len(),
        0 <= n <= t.len(),
        traffic::starts(sd_v2, t.take(m), a),
        traffic::starts(sd_v2, t.take(n), b),
    ensures
        m == n,
        a == b,
{
    let (p, i, x) = lemma_start_parts(sd_v2, t.take(m), a);
    let (q, j, y) = lemma_start_parts(sd_v2, t.take(n), b);
    lemma_parts(t, m, i);
    lemma_parts(t, n, j);
    if p < traffic::start_limit() {
        lemma_rounds_end(sd_v2, t, m, p, i, x, q, j);
    }
    if q < traffic::start_limit() {
        lemma_rounds_end(sd_v2, t, n, q, j, y, p, i);
    }
    lemma_still_idle(p, sd_v2, t, i, j);
    if p < traffic::start_limit() {
        lemma_start_round(sd_v2, t.skip(i), m - i, n - i, x, y);
    }
}

/// What initialization returns, and what it finds out about the card, follows
/// from its traffic.
pub proof fn initialization_is_determined(
    mode: CardMode,
    t: Seq<Exchange>,
    m: int,
    n: int,
    after1: CardMode,
    after2: CardMode,
    a: Result<CardInfo, Error>,
    b: Result<CardInfo, Error>,
)
    requires
        0 <= m <= t.len(),
        0 <= n <= t.len(),
        traffic::initializes(mode, t.take(m), after1, a),
        traffic::initializes(mode, t.take(n), after2, b),
    ensures
        m == n,
        after1 == after2,
        a == b,
{
    let i = traffic::head(10, t.take(m));
    let j = traffic::head(10, t.take(n));
    lemma_parts(t, m, i);
    lemma_parts(t, n, j);
    lemma_run_ends_once(traffic::filler(10), t, i, j);
    if traffic::run_result(t.take(i)) is Ok {
        lemma_init_from_reset(mode, t.skip(i), m - i, n - i, after1, after2, a, b);
    }
}

proof fn lemma_init_from_reset(
    mode: CardMode,
    t: Seq<Exchange>,
    m: int,
    n: int,
    after1: CardMode,
    after2: CardMode,
    a: Result<CardInfo, Error>,
    b: Result<CardInfo, Error>,
)
    requires
        0 <= m <= t.len(),
        0 <= n <= t.len(),
        traffic::init_from_reset(mode, t.take(m), after1, a),
        traffic::init_from_reset(mode, t.take(n), after2, b),
    ensures
        m == n,
        after1 == after2,
        a == b,
{
    let s = t.take(m);
    let u = t.take(n);
    let c = traffic::reset_command();
    let (i, x) = choose|i: int, x: Result<R1Response, Error>|
        {
            &&& 0 <= i <= s.len()
            &&& #[trigger] traffic::acknowledges(c, s.take(i), x)
            &&& match x {
                Ok(_) => traffic::init_from_probe(mode, s.skip(i), after1, a),
                Err(e) => i == s.len() && after1 == mode && a == Err::<CardInfo, Error>(e),
            }
        };
    let (j, y) = choose|j: int, y: Result<R1Response, Error>|
        {
            &&& 0 <= j <= u.len()
            &&& #[trigger] traffic::acknowledges(c, u.take(j), y)
            &&& match y {
                Ok(_) => traffic::init_from_probe(mode, u.skip(j), after2, b),
                Err(e) => j == u.len() && after2 == mode && b == Err::<CardInfo, Error>(e),
            }
        };
    lemma_parts(t, m, i);
    lemma_parts(t, n, j);
    lemma_acknowledges(c, t, i, j, x, y);
    if x is Ok {
        lemma_init_from_probe(mode, t.skip(i), m - i, n - i, after1, after2, a, b);
    }
}

proof fn lemma_init_from_probe(
    mode: CardMode,
    t: Seq<Exchange>,
    m: int,
    n: int,
    after1: CardMode,
    after2: CardMode,
    a: Result<CardInfo, Error>,
    b: Result<CardInfo, Error>,
)
    requires
        0 <= m <= t.len(),
        0 <= n <= t.len(),
        traffic::init_from_probe(mode, t.take(m), after1, a),
        traffic::init_from_probe(mode, t.take(n), after2, b),
    ensures
        m == n,
        after1 == after2,
        a == b,
{
    let s = t.take(m);
    let u = t.take(n);
    let (i, x) = choose|i: int, x: Result<bool, Error>|
        {
            &&& 0 <= i <= s.len()
            &&& #[trigger] traffic::probes(s.take(i), x)
            &&& match x {
                Ok(v2) => traffic::init_from_start(
                    CardMode { sd_v2: v2, high_capacity: mode.high_capacity },
                    s.skip(i),
                    after1,
                    a,
                ),
                Err(e) => i == s.len() && after1 == mode && a == Err::<CardInfo, Error>(e),
            }
        };
    let (j, y) = choose|j: int, y: Result<bool, Error>|
        {
            &&& 0 <= j <= u.len()
            &&& #[trigger] traffic::probes(u.take(j), y)
            &&& match y {
                Ok(v2) => traffic::init_from_start(
                    CardMode { sd_v2: v2, high_capacity: mode.high_capacity },
                    u.skip(j),
                    after2,
                    b,
                ),
                Err(e) => j == u.len() && after2 == mode && b == Err::<CardInfo, Error>(e),
            }
        };
    lemma_parts(t, m, i);
    lemma_parts(t, n, j);
    lemma_probes(t, i, j, x, y);
    if let Ok(v2) = x {
        let probed = CardMode { sd_v2: v2, high_capacity: mode.high_capacity };
        lemma_init_from_start(probed, t.skip(i), m - i, n - i, after1, after2, a, b);
    }
}

proof fn lemma_init_from_start(
    mode: CardMode,
    t: Seq<Exchange>,
    m: int,
    n: int,
    after1: CardMode,
    after2: CardMode,
    a: Result<CardInfo, Error>,
    b: Result<CardInfo, Error>,
)
    requires
        0 <= m <= t.len(),
        0 <= n <= t.len(),
        traffic::init_from_start(mode, t.take(m), after1, a),
        traffic::init_from_start(mode, t.take(n), after2, b),
    ensures
        m == n,
        after1 == after2,
        a == b,
{
    let s = t.take(m);
    let u = t.take(n);
    let (i, x) = choose|i: int, x: Result<(), Error>|
        {
            &&& 0 <= i <= s.len()
            &&& #[trigger] traffic::starts(mode.sd_v2, s.take(i), x)
            &&& match x {
                Ok(_) => traffic::init_from_ocr(mode, s.skip(i), after1, a),
                Err(e) => i == s.len() && after1 == mode && a == Err::<CardInfo, Error>(e),
            }
        };
    let (j, y) = choose|j: int, y: Result<(), Error>|
        {
            &&& 0 <= j <= u.len()
            &&& #[trigger] traffic::starts(mode.sd_v2, u.take(j), y)
            &&& match y {
                Ok(_) => traffic::init_from_ocr(mode, u.skip(j), after2, b),
                Err(e) => j == u.len() && after2 == mode && b == Err::<CardInfo, Error>(e),
            }
        };
    lemma_parts(t, m, i);
    lemma_parts(t, n, j);
    lemma_starts(mode.sd_v2, t, i, j, x, y);
    if x is Ok {
        lemma_init_from_ocr(mode, t.skip(i), m - i, n - i, after1, after2, a, b);
    }
}

/// Where reading the OCR ends, how it went, and what follows it.
pub(crate) proof fn lemma_ocr_parts(
    mode: CardMode,
    t: Seq<Exchange>,
    after: CardMode,
    r: Result<CardInfo, Error>,
) -> (w: (int, Result<OcrResponse, Error>))
    requires
        traffic::init_from_ocr(mode, t, after, r),
    ensures
        0 <= w.0 <= t.len(),
        traffic::reads_ocr(t.take(w.0), w.1),
        match w.1 {
            Ok(o) => {
                &&& after == traffic::mode_after(mode, o)
                &&& traffic::init_from_csd(traffic::mode_after(mode, o), o, t.skip(w.0), r)
            },
            Err(e) => w.0 == t.len() && after == mode && r == Err::<CardInfo, Error>(e),
        },
{
    choose|n: int, ocr: Result<OcrResponse, Error>|
        {
            &&& 0 <= n <= t.len()
            &&& #[trigger] traffic::reads_ocr(t.take(n), ocr)
            &&& match ocr {
                Ok(o) => {
                    &&& after == traffic::mode_after(mode, o)
                    &&& traffic::init_from_csd(traffic::mode_after(mode, o), o, t.skip(n), r)
                },
                Err(e) => n == t.len() && after == mode && r == Err::<CardInfo, Error>(e),
            }
        }
}

proof fn lemma_init_from_ocr(
    mode: CardMode,
    t: Seq<Exchange>,
    m: int,
    n: int,
    after1: CardMode,
    after2: CardMode,
    a: Result<CardInfo, Error>,
    b: Result<CardInfo, Error>,
)
    requires
        0 <= m <= t.len(),
        0 <= n <= t.len(),
        traffic::init_from_ocr(mode, t.take(m), after1, a),
        traffic::init_from_ocr(mode, t.take(n), after2, b),
    ensures
        m == n,
        after1 == after2,
        a == b,
{
    let (i, x) = lemma_ocr_parts(mode, t.take(m), after1, a);
    let (j, y) = lemma_ocr_parts(mode, t.take(n), after2, b);
    lemma_parts(t, m, i);
    lemma_parts(t, n, j);
    lemma_reads_ocr(t, i, j, x, y);
    if let Ok(o) = x {
        lemma_init_from_csd(traffic::mode_after(mode, o), o, t.skip(i), m - i, n - i, a, b);
    }
}

/// How reading the CSD is answered at the end of initialization.
pub(crate) proof fn lemma_csd_answer(
    mode: CardMode,
    ocr: OcrResponse,
    t: Seq<Exchange>,
    r: Result<CardInfo, Error>,
) -> (full: Result<Response, Error>)
    requires
        traffic::init_from_csd(mode, ocr, t, r),
    ensures
        traffic::commands(traffic::csd_command(), t, full),
        r == Ok::<CardInfo, Error>(
            CardInfo {
                sd_v2: mode.sd_v2,
                high_capacity: mode.high_capacity,
                ocr: ocr.raw,
                capacity_blocks: traffic::capacity_in(full),
            },
        ),
{
    let capacity = choose|capacity_blocks: Option<u64>| #[trigger]
        traffic::reads_capacity(t, capacity_blocks) && r == Ok::<CardInfo, Error>(
            CardInfo {
                sd_v2: mode.sd_v2,
                high_capacity: mode.high_capacity,
                ocr: ocr.raw,
                capacity_blocks,
            },
        );
    choose|full: Result<Response, Error>| #[trigger]
        traffic::commands(traffic::csd_command(), t, full) && capacity
            == traffic::capacity_in(full)
}

proof fn lemma_init_from_csd(
    mode: CardMode,
    ocr: OcrResponse,
    t: Seq<Exchange>,
    m: int,
    n: int,
    a: Result<CardInfo, Error>,
    b: Result<CardInfo, Error>,
)
    requires
        0 <= m <= t.len(),
        0 <= n <= t.len(),
        traffic::init_from_csd(mode, ocr, t.take(m), a),
        traffic::init_from_csd(mode, ocr, t.take(n), b),
    ensures
        m == n,
        a == b,
{
    let x = lemma_csd_answer(mode, ocr, t.take(m), a);
    let y = lemma_csd_answer(mode, ocr, t.take(n), b);
    command_is_determined(traffic::csd_command(), t, m, n, x, y);
}

} // verus!
