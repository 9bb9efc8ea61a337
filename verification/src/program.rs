//! Register programs: what the driver of a host controller does to it, one
//! register access at a time.
//!
//! The accesses themselves are made by the caller. A [`Task`] names the next
//! one and is told its outcome, until it has a result.
use vstd::prelude::*;

use crate::clock::{self, base_clock_of, clock_control_for};
use crate::error::{ErrorContext, HostError, Phase};
use crate::registers::{
    Reg, ERROR_INT_ADMA, ERROR_INT_CLEAR_ALL, ERROR_INT_CRC, ERROR_INT_DATA_LINE_MASK,
    ERROR_INT_TIMEOUT, HOST_CTRL1_8BIT, HOST_CTRL2_EXECUTE_TUNING,
    HOST_CTRL2_SAMPLING_CLOCK_SELECT, NORMAL_INT_ERROR,
};

verus! {

/// Polls that wait on the card give up after this many reads.
pub const POLL_LIMIT: u32 = 1_000_000;

/// Something that the caller does for a task.
#[derive(Debug, Clone, Copy, PartialEq, Eq, Structural)]
pub enum Action {
    /// Read a register; the outcome is its value.
    Read(Reg),
    /// Write a register; the outcome is of no account.
    Write(Reg, u32),
    /// Have the platform bring the reference clock to this many Hz; the outcome
    /// is of no account, and a task whose platform cannot do so is given up.
    Retune(u32),
}

/// An action and its outcome.
pub struct Event {
    pub action: Action,
    pub reply: u32,
}

/// One operation of a register program.
#[derive(Debug, Clone, Copy, PartialEq, Eq, Structural)]
pub enum Op {
    /// Write a register.
    Write(Reg, u32),
    /// Read a register and keep its value for the result.
    Keep(Reg),
    /// Clear and set bits of a register.
    Update { reg: Reg, clear: u32, set: u32 },
    /// Set the bus power and clear and set bits of host control 2, as it was
    /// before.
    Switch { power: u32, lower: u32, raise: u32 },
    /// Read a register until one of some bits is set, or until none is; fail
    /// after so many reads.
    Await { reg: Reg, mask: u32, until_set: bool, limit: u32, error: HostError },
    /// Read the interrupt status until it reports completion; fail if it reports
    /// an error, or after [`POLL_LIMIT`] reads.
    Settle { done: u32, errors: u32, context: ErrorContext, adma: bool },
    /// Read host control 2 until the controller's tuning sweep is over; fail if
    /// it found no sampling point, or after [`POLL_LIMIT`] reads.
    Sweep { cmd: u8 },
    /// Stop the clock and start it with the divider for this many Hz; fail if
    /// the controller states no reference clock.
    Divide { target_hz: u32 },
    /// Set the block size of a tuning block, which depends on the bus width.
    ShapeTuning,
    /// Have the platform bring the reference clock to this many Hz.
    Retune(u32),
    /// Read a register and fail.
    Refuse(Reg, HostError),
}

/// What is left of `v` once bits were cleared and set.
pub open spec fn updated(v: u32, clear: u32, set: u32) -> u32 {
    (v & !clear) | set
}

/// Whether a read ends a wait.
pub open spec fn met(v: u32, mask: u32, set: bool) -> bool {
    (v & mask != 0) == set
}

/// Reads of a register up to one that ends the wait, but no more than `limit`.
pub open spec fn awaits(reg: Reg, mask: u32, set: bool, limit: u32, t: Seq<Event>) -> bool {
    &&& 0 < t.len() <= limit
    &&& forall|i: int| 0 <= i < t.len() ==> (#[trigger] t[i]).action == Action::Read(reg)
    &&& forall|i: int| 0 <= i < t.len() - 1 ==> !met((#[trigger] t[i]).reply, mask, set)
    &&& t.len() < limit ==> met(t.last().reply, mask, set)
}

/// Reads of the interrupt status up to one that reports something, but no more
/// than [`POLL_LIMIT`].
pub open spec fn watches(done: u32, t: Seq<Event>) -> bool {
    awaits(Reg::NormalIntStatus, done | NORMAL_INT_ERROR, true, POLL_LIMIT, t)
}

/// Reads of a register, fewer than `limit`, none of which ended the wait.
pub open spec fn waiting(reg: Reg, mask: u32, set: bool, limit: u32, t: Seq<Event>) -> bool {
    &&& t.len() < limit
    &&& forall|i: int| 0 <= i < t.len() ==> (#[trigger] t[i]).action == Action::Read(reg)
    &&& forall|i: int| 0 <= i < t.len() ==> !met((#[trigger] t[i]).reply, mask, set)
}

/// The failure that the error interrupt status stands for, as far as it lies in
/// `errors`.
pub open spec fn fault(status: u32, errors: u32, context: ErrorContext, adma: bool) -> HostError {
    let err = status & errors;
    if adma && status & ERROR_INT_ADMA != 0 {
        HostError::Misaligned
    } else if err & ERROR_INT_TIMEOUT != 0 {
        HostError::Timeout(context)
    } else if err & ERROR_INT_CRC != 0 {
        HostError::Crc(context)
    } else if err & ERROR_INT_DATA_LINE_MASK != 0 {
        HostError::ReadError(context)
    } else {
        HostError::BadResponse(context)
    }
}

/// Size of a tuning block: twice as long where the bus has eight lines.
pub open spec fn tuning_size(host_control1: u32) -> u32 {
    if host_control1 & HOST_CTRL1_8BIT != 0 {
        128
    } else {
        64
    }
}

/// Where a failure during tuning arose.
pub open spec fn tuning_context(cmd: u8) -> ErrorContext {
    ErrorContext { phase: Phase::Init, cmd: Some(cmd) }
}

/// What an operation ends with: the values that it keeps, or its failure.
pub type Outcome = Result<Seq<u32>, HostError>;

/// The events of waiting for the interrupt status, and what they lead to.
pub open spec fn settles(
    done: u32,
    errors: u32,
    context: ErrorContext,
    adma: bool,
    t: Seq<Event>,
    r: Outcome,
) -> bool {
    if t.last().action == Action::Read(Reg::NormalIntStatus) {
        // Completion, or nothing within the limit
        &&& watches(done, t)
        &&& t.last().reply & done != 0 || t.last().reply & NORMAL_INT_ERROR == 0
        &&& r == (if t.last().reply & done != 0 {
            Ok::<Seq<u32>, HostError>(Seq::empty())
        } else {
            Err(HostError::Timeout(context))
        })
    } else {
        // An error, which is read and acknowledged
        let n = t.len() - 2;
        &&& t.len() > 2
        &&& watches(done, t.take(n))
        &&& t[n - 1].reply & done == 0
        &&& t[n - 1].reply & NORMAL_INT_ERROR != 0
        &&& t[n].action == Action::Read(Reg::ErrorIntStatus)
        &&& t[n + 1].action == Action::Write(Reg::ErrorIntStatus, ERROR_INT_CLEAR_ALL)
        &&& r == Err::<Seq<u32>, HostError>(fault(t[n].reply, errors, context, adma))
    }
}

/// The events of waiting for a tuning sweep, and what they lead to.
pub open spec fn sweeps(cmd: u8, t: Seq<Event>, r: Outcome) -> bool {
    if t.last().action == Action::Read(Reg::HostControl2) {
        // The sweep is over
        &&& awaits(Reg::HostControl2, HOST_CTRL2_EXECUTE_TUNING, false, POLL_LIMIT, t)
        &&& t.last().reply & HOST_CTRL2_EXECUTE_TUNING == 0
        &&& r == (if t.last().reply & HOST_CTRL2_SAMPLING_CLOCK_SELECT != 0 {
            Ok::<Seq<u32>, HostError>(Seq::empty())
        } else {
            Err(HostError::BadResponse(tuning_context(cmd)))
        })
    } else {
        // It is not over within the limit, and is called off
        let n = t.len() - 1;
        &&& t.len() > 1
        &&& awaits(Reg::HostControl2, HOST_CTRL2_EXECUTE_TUNING, false, POLL_LIMIT, t.take(n))
        &&& t[n - 1].reply & HOST_CTRL2_EXECUTE_TUNING != 0
        &&& t[n].action == Action::Write(
            Reg::HostControl2,
            t[n - 1].reply & !HOST_CTRL2_EXECUTE_TUNING,
        )
        &&& r == Err::<Seq<u32>, HostError>(HostError::Timeout(tuning_context(cmd)))
    }
}

/// The events of setting the divider, and what they lead to.
pub open spec fn divides(target_hz: u32, t: Seq<Event>, r: Outcome) -> bool {
    &&& t.len() > 0
    &&& t[0].action == Action::Read(Reg::CapabilitiesLow)
    &&& if clock::stated_base_hz(t[0].reply) == 0 {
        &&& t.len() == 1
        &&& r == Err::<Seq<u32>, HostError>(
            HostError::BadResponse(ErrorContext { phase: Phase::Init, cmd: None }),
        )
    } else {
        &&& t.len() == 3
        &&& t[1].action == Action::Write(Reg::ClockControl, 0)
        &&& t[2].action matches Action::Write(Reg::ClockControl, v) && clock::is_control(
            clock::stated_base_hz(t[0].reply) as u32,
            target_hz,
            v,
        )
        &&& r == Ok::<Seq<u32>, HostError>(Seq::empty())
    }
}

impl Op {
    /// The events of the whole operation, and what it ends with.
    #[verifier::opaque]
    pub open spec fn does(self, t: Seq<Event>, r: Outcome) -> bool {
        let nothing = Ok::<Seq<u32>, HostError>(Seq::empty());
        match self {
            Op::Write(reg, v) => {
                &&& t.len() == 1
                &&& t[0].action == Action::Write(reg, v)
                &&& r == nothing
            },
            Op::Keep(reg) => {
                &&& t.len() == 1
                &&& t[0].action == Action::Read(reg)
                &&& r == Ok::<Seq<u32>, HostError>(seq![t[0].reply])
            },
            Op::Update { reg, clear, set } => {
                &&& t.len() == 2
                &&& t[0].action == Action::Read(reg)
                &&& t[1].action == Action::Write(reg, updated(t[0].reply, clear, set))
                &&& r == nothing
            },
            Op::Switch { power, lower, raise } => {
                &&& t.len() == 3
                &&& t[0].action == Action::Read(Reg::HostControl2)
                &&& t[1].action == Action::Write(Reg::PowerControl, power)
                &&& t[2].action == Action::Write(
                    Reg::HostControl2,
                    updated(t[0].reply, lower, raise),
                )
                &&& r == nothing
            },
            Op::Await { reg, mask, until_set: set, limit, error } => {
                &&& awaits(reg, mask, set, limit, t)
                &&& r == (if met(t.last().reply, mask, set) {
                    nothing
                } else {
                    Err(error)
                })
            },
            Op::Settle { done, errors, context, adma } => settles(done, errors, context, adma, t, r),
            Op::Sweep { cmd } => sweeps(cmd, t, r),
            Op::Divide { target_hz } => divides(target_hz, t, r),
            Op::ShapeTuning => {
                &&& t.len() == 2
                &&& t[0].action == Action::Read(Reg::HostControl1)
                &&& t[1].action == Action::Write(Reg::BlockSize, tuning_size(t[0].reply))
                &&& r == nothing
            },
            Op::Retune(hz) => {
                &&& t.len() == 1
                &&& t[0].action == Action::Retune(hz)
                &&& r == nothing
            },
            Op::Refuse(reg, error) => {
                &&& t.len() == 1
                &&& t[0].action == Action::Read(reg)
                &&& r == Err::<Seq<u32>, HostError>(error)
            },
        }
    }

    /// With the events `t` the operation is not over, and `a` is its next action.
    pub open spec fn asks(self, t: Seq<Event>, a: Action) -> bool {
        match self {
            Op::Write(reg, v) => t.len() == 0 && a == Action::Write(reg, v),
            Op::Keep(reg) => t.len() == 0 && a == Action::Read(reg),
            Op::Retune(hz) => t.len() == 0 && a == Action::Retune(hz),
            Op::Refuse(reg, _) => t.len() == 0 && a == Action::Read(reg),
            Op::Update { reg, clear, set } => {
                ||| t.len() == 0 && a == Action::Read(reg)
                ||| {
                    &&& t.len() == 1
                    &&& t[0].action == Action::Read(reg)
                    &&& a == Action::Write(reg, updated(t[0].reply, clear, set))
                }
            },
            Op::ShapeTuning => {
                ||| t.len() == 0 && a == Action::Read(Reg::HostControl1)
                ||| {
                    &&& t.len() == 1
                    &&& t[0].action == Action::Read(Reg::HostControl1)
                    &&& a == Action::Write(Reg::BlockSize, tuning_size(t[0].reply))
                }
            },
            Op::Divide { target_hz } => {
                ||| t.len() == 0 && a == Action::Read(Reg::CapabilitiesLow)
                ||| {
                    &&& t.len() == 1
                    &&& t[0].action == Action::Read(Reg::CapabilitiesLow)
                    &&& clock::stated_base_hz(t[0].reply) != 0
                    &&& a == Action::Write(Reg::ClockControl, 0)
                }
                ||| {
                    &&& t.len() == 2
                    &&& t[0].action == Action::Read(Reg::CapabilitiesLow)
                    &&& clock::stated_base_hz(t[0].reply) != 0
                    &&& t[1].action == Action::Write(Reg::ClockControl, 0)
                    &&& a matches Action::Write(Reg::ClockControl, v) && clock::is_control(
                        clock::stated_base_hz(t[0].reply) as u32,
                        target_hz,
                        v,
                    )
                }
            },
            Op::Switch { power, lower, raise } => {
                ||| t.len() == 0 && a == Action::Read(Reg::HostControl2)
                ||| {
                    &&& t.len() == 1
                    &&& t[0].action == Action::Read(Reg::HostControl2)
                    &&& a == Action::Write(Reg::PowerControl, power)
                }
                ||| {
                    &&& t.len() == 2
                    &&& t[0].action == Action::Read(Reg::HostControl2)
                    &&& t[1].action == Action::Write(Reg::PowerControl, power)
                    &&& a == Action::Write(Reg::HostControl2, updated(t[0].reply, lower, raise))
                }
            },
            Op::Await { reg, mask, until_set: set, limit, .. } => {
                &&& waiting(reg, mask, set, limit, t)
                &&& a == Action::Read(reg)
            },
            Op::Settle { done, .. } => {
                ||| {
                    &&& waiting(
                        Reg::NormalIntStatus,
                        done | NORMAL_INT_ERROR,
                        true,
                        POLL_LIMIT,
                        t,
                    )
                    &&& a == Action::Read(Reg::NormalIntStatus)
                }
                ||| {
                    &&& watches(done, t)
                    &&& t.last().reply & done == 0
                    &&& t.last().reply & NORMAL_INT_ERROR != 0
                    &&& a == Action::Read(Reg::ErrorIntStatus)
                }
                ||| {
                    &&& t.len() > 1
                    &&& watches(done, t.drop_last())
                    &&& t[t.len() - 2].reply & done == 0
                    &&& t[t.len() - 2].reply & NORMAL_INT_ERROR != 0
                    &&& t.last().action == Action::Read(Reg::ErrorIntStatus)
                    &&& a == Action::Write(Reg::ErrorIntStatus, ERROR_INT_CLEAR_ALL)
                }
            },
            Op::Sweep { .. } => {
                ||| {
                    &&& waiting(
                        Reg::HostControl2,
                        HOST_CTRL2_EXECUTE_TUNING,
                        false,
                        POLL_LIMIT,
                        t,
                    )
                    &&& a == Action::Read(Reg::HostControl2)
                }
                ||| {
                    &&& awaits(
                        Reg::HostControl2,
                        HOST_CTRL2_EXECUTE_TUNING,
                        false,
                        POLL_LIMIT,
                        t,
                    )
                    &&& t.last().reply & HOST_CTRL2_EXECUTE_TUNING != 0
                    &&& a == Action::Write(
                        Reg::HostControl2,
                        t.last().reply & !HOST_CTRL2_EXECUTE_TUNING,
                    )
                }
            },
        }
    }

    /// The most events that the operation can take.
    pub open spec fn budget(self) -> nat {
        match self {
            Op::Write(..) | Op::Keep(_) | Op::Retune(_) | Op::Refuse(..) => 1,
            Op::Update { .. } | Op::ShapeTuning => 2,
            Op::Divide { .. } | Op::Switch { .. } => 3,
            Op::Await { limit, .. } => limit as nat,
            Op::Settle { .. } => POLL_LIMIT as nat + 2,
            Op::Sweep { .. } => POLL_LIMIT as nat + 1,
        }
    }
}

/// The events of a program none of whose operations failed, and the values that
/// it kept.
pub open spec fn ran(ops: Seq<Op>, t: Seq<Event>, kept: Seq<u32>) -> bool
    decreases ops.len(),
{
    if ops.len() == 0 {
        t.len() == 0 && kept.len() == 0
    } else {
        exists|n: int, k: int|
            #![trigger t.take(n), kept.take(k)]
            {
                &&& 0 <= n <= t.len()
                &&& 0 <= k <= kept.len()
                &&& ran(ops.drop_last(), t.take(n), kept.take(k))
                &&& ops.last().does(t.skip(n), Ok(kept.skip(k)))
            }
    }
}

/// The events of a program whose operation after the first `done` ones failed
/// with `e`.
pub open spec fn broke(ops: Seq<Op>, done: int, n: int, t: Seq<Event>, e: HostError) -> bool {
    &&& 0 <= done < ops.len()
    &&& 0 <= n <= t.len()
    &&& exists|kept: Seq<u32>| #[trigger] ran(ops.take(done), t.take(n), kept)
    &&& ops[done].does(t.skip(n), Err(e))
}

/// The events of a whole program, and what it ends with: its operations one
/// after the other, up to the first that fails.
pub open spec fn performs(ops: Seq<Op>, t: Seq<Event>, r: Outcome) -> bool {
    match r {
        Ok(kept) => ran(ops, t, kept),
        Err(e) => exists|done: int, n: int| #[trigger] broke(ops, done, n, t, e),
    }
}

/// With the events `t` the program is not over, and `a` is its next action.
pub open spec fn asks(ops: Seq<Op>, t: Seq<Event>, a: Action) -> bool {
    exists|done: int, n: int| #[trigger] stands_at(ops, done, n, t, a)
}

/// The first `n` events of `t` are those of the first `done` operations, and `a`
/// is the next action of the operation after them.
pub open spec fn stands_at(ops: Seq<Op>, done: int, n: int, t: Seq<Event>, a: Action) -> bool {
    &&& 0 <= done < ops.len()
    &&& 0 <= n <= t.len()
    &&& exists|kept: Seq<u32>| #[trigger] ran(ops.take(done), t.take(n), kept)
    &&& ops[done].asks(t.skip(n), a)
}

/// The number of values that a program keeps.
pub open spec fn keeps(ops: Seq<Op>) -> nat
    decreases ops.len(),
{
    if ops.len() == 0 {
        0
    } else {
        keeps(ops.drop_last()) + (if ops.last() is Keep {
            1nat
        } else {
            0nat
        })
    }
}

/// A program that ran has kept as many values as it keeps.
pub proof fn lemma_ran_keeps(ops: Seq<Op>, t: Seq<Event>, kept: Seq<u32>)
    requires
        ran(ops, t, kept),
    ensures
        kept.len() == keeps(ops),
    decreases ops.len(),
{
    if ops.len() > 0 {
        let (n, k) = lemma_ran_splits(ops, t, kept);
        lemma_ran_keeps(ops.drop_last(), t.take(n), kept.take(k));
        lemma_done_keeps(ops.last(), t.skip(n), kept.skip(k));
    }
}

/// An operation that reads for the result keeps one value, any other none.
pub(crate) proof fn lemma_done_keeps(op: Op, t: Seq<Event>, kept: Seq<u32>)
    requires
        op.does(t, Ok(kept)),
    ensures
        kept.len() == (if op is Keep {
            1nat
        } else {
            0nat
        }),
{
    reveal(Op::does);
}

/// Programs one after the other keep what each keeps.
pub proof fn lemma_keeps_of_both(a: Seq<Op>, b: Seq<Op>)
    ensures
        keeps(a + b) == keeps(a) + keeps(b),
    decreases b.len(),
{
    if b.len() == 0 {
        assert(a + b =~= a);
    } else {
        assert((a + b).drop_last() =~= a + b.drop_last());
        lemma_keeps_of_both(a, b.drop_last());
    }
}

/// The most events that a program can take.
pub open spec fn budget(ops: Seq<Op>) -> nat
    decreases ops.len(),
{
    if ops.len() == 0 {
        0
    } else {
        budget(ops.drop_last()) + ops.last().budget()
    }
}

/// Whether every wait of a program makes at least one read.
pub open spec fn patient(ops: Seq<Op>) -> bool {
    forall|i: int|
        0 <= i < ops.len() ==> ((#[trigger] ops[i]) matches Op::Await { limit, .. } ==> limit > 0)
}

// Laws of programs

/// A wait ends at one event only.
proof fn lemma_wait_ends_once(
    reg: Reg,
    mask: u32,
    set: bool,
    limit: u32,
    t: Seq<Event>,
    m: int,
    n: int,
)
    requires
        0 <= m <= n <= t.len(),
        awaits(reg, mask, set, limit, t.take(m)),
        awaits(reg, mask, set, limit, t.take(n)),
    ensures
        m == n,
{
    if m < n {
        assert(t.take(m).last() == t[m - 1]);
        assert(t.take(n)[m - 1] == t[m - 1]);
    }
}

/// What an operation ends with depends on its events alone, and the events of an
/// operation that is over go no further.
pub proof fn operation_is_determined(op: Op, t: Seq<Event>, m: int, n: int, r1: Outcome, r2: Outcome)
    requires
        0 <= m <= n <= t.len(),
        op.does(t.take(m), r1),
        op.does(t.take(n), r2),
    ensures
        m == n,
        r1 == r2,
{
    reveal(Op::does);
    let a = t.take(m);
    let b = t.take(n);
    match op {
        Op::Await { reg, mask, until_set: set, limit, .. } => {
            lemma_wait_ends_once(reg, mask, set, limit, t, m, n);
        },
        Op::Settle { done, .. } => {
            let mask = done | NORMAL_INT_ERROR;
            let j = if a.last().action == Action::Read(Reg::NormalIntStatus) { m } else { m - 2 };
            let k = if b.last().action == Action::Read(Reg::NormalIntStatus) { n } else { n - 2 };
            assert(a.take(j) =~= t.take(j));
            assert(b.take(k) =~= t.take(k));
            assert(a.take(m) =~= a);
            assert(b.take(n) =~= b);
            if j <= k {
                lemma_wait_ends_once(Reg::NormalIntStatus, mask, true, POLL_LIMIT, t, j, k);
            } else {
                lemma_wait_ends_once(Reg::NormalIntStatus, mask, true, POLL_LIMIT, t, k, j);
            }
        },
        Op::Sweep { .. } => {
            let mask = HOST_CTRL2_EXECUTE_TUNING;
            let j = if a.last().action == Action::Read(Reg::HostControl2) { m } else { m - 1 };
            let k = if b.last().action == Action::Read(Reg::HostControl2) { n } else { n - 1 };
            assert(a.take(j) =~= t.take(j));
            assert(b.take(k) =~= t.take(k));
            assert(a.take(m) =~= a);
            assert(b.take(n) =~= b);
            if j <= k {
                lemma_wait_ends_once(Reg::HostControl2, mask, false, POLL_LIMIT, t, j, k);
            } else {
                lemma_wait_ends_once(Reg::HostControl2, mask, false, POLL_LIMIT, t, k, j);
            }
        },
        Op::Divide { .. } => {
            assert(a[0] == b[0]);
        },
        Op::Keep(_) => {
            assert(a[0] == b[0]);
        },
        _ => {},
    }
}

/// Where an operation that follows others ended, and what it kept, depends on the
/// events alone.
proof fn lemma_next_determined(
    op: Op,
    t: Seq<Event>,
    i: int,
    m: int,
    n: int,
    kept1: Seq<u32>,
    kept2: Seq<u32>,
)
    requires
        0 <= i <= m <= t.len(),
        i <= n <= t.len(),
        op.does(t.take(m).skip(i), Ok(kept1)),
        op.does(t.take(n).skip(i), Ok(kept2)),
    ensures
        m == n,
        kept1 == kept2,
{
    let rest = t.skip(i);
    assert(t.take(m).skip(i) =~= rest.take(m - i));
    assert(t.take(n).skip(i) =~= rest.take(n - i));
    if m <= n {
        operation_is_determined(op, rest, m - i, n - i, Ok(kept1), Ok(kept2));
    } else {
        operation_is_determined(op, rest, n - i, m - i, Ok(kept2), Ok(kept1));
    }
}

/// The last operation of a program that ran, and those before it.
pub(crate) proof fn lemma_ran_splits(ops: Seq<Op>, t: Seq<Event>, kept: Seq<u32>) -> (w: (int, int))
    requires
        ran(ops, t, kept),
        ops.len() > 0,
    ensures
        0 <= w.0 <= t.len(),
        0 <= w.1 <= kept.len(),
        ran(ops.drop_last(), t.take(w.0), kept.take(w.1)),
        ops.last().does(t.skip(w.0), Ok(kept.skip(w.1))),
{
    choose|n: int, k: int|
        #![trigger t.take(n), kept.take(k)]
        {
            &&& 0 <= n <= t.len()
            &&& 0 <= k <= kept.len()
            &&& ran(ops.drop_last(), t.take(n), kept.take(k))
            &&& ops.last().does(t.skip(n), Ok(kept.skip(k)))
        }
}

/// Where a program that ran ended, and what it kept, depends on the events alone.
proof fn lemma_ran_determined(
    ops: Seq<Op>,
    t: Seq<Event>,
    m: int,
    n: int,
    kept1: Seq<u32>,
    kept2: Seq<u32>,
)
    requires
        0 <= m <= t.len(),
        0 <= n <= t.len(),
        ran(ops, t.take(m), kept1),
        ran(ops, t.take(n), kept2),
    ensures
        m == n,
        kept1 == kept2,
    decreases ops.len(),
{
    if ops.len() == 0 {
        assert(kept1 =~= kept2);
    } else {
        let (i, k) = lemma_ran_splits(ops, t.take(m), kept1);
        let (j, l) = lemma_ran_splits(ops, t.take(n), kept2);
        assert(t.take(m).take(i) =~= t.take(i));
        assert(t.take(n).take(j) =~= t.take(j));
        lemma_ran_determined(ops.drop_last(), t, i, j, kept1.take(k), kept2.take(l));
        lemma_next_determined(ops.last(), t, i, m, n, kept1.skip(k), kept2.skip(l));
        assert(kept1 =~= kept1.take(k) + kept1.skip(k));
        assert(kept2 =~= kept2.take(l) + kept2.skip(l));
    }
}

/// A program that ran has done each of its operations, after those before it.
pub(crate) proof fn lemma_ran_reaches(ops: Seq<Op>, t: Seq<Event>, kept: Seq<u32>, d: int) -> (w: (
    int,
    int,
    Seq<u32>,
    Seq<u32>,
))
    requires
        ran(ops, t, kept),
        0 <= d < ops.len(),
    ensures
        0 <= w.0 <= w.1 <= t.len(),
        ran(ops.take(d), t.take(w.0), w.2),
        ops[d].does(t.subrange(w.0, w.1), Ok(w.3)),
    decreases ops.len(),
{
    let (n, k) = lemma_ran_splits(ops, t, kept);
    if d == ops.len() - 1 {
        assert(ops.take(d) =~= ops.drop_last());
        assert(t.subrange(n, t.len() as int) =~= t.skip(n));
        (n, t.len() as int, kept.take(k), kept.skip(k))
    } else {
        let w = lemma_ran_reaches(ops.drop_last(), t.take(n), kept.take(k), d);
        assert(ops.drop_last().take(d) =~= ops.take(d));
        assert(t.take(n).take(w.0) =~= t.take(w.0));
        assert(t.take(n).subrange(w.0, w.1) =~= t.subrange(w.0, w.1));
        w
    }
}

/// A program does not break at an operation that was done.
proof fn lemma_done_does_not_break(
    ops: Seq<Op>,
    t: Seq<Event>,
    m: int,
    kept: Seq<u32>,
    all: Seq<Op>,
    done: int,
    n: int,
    e: HostError,
)
    requires
        0 <= m <= t.len(),
        ran(ops, t.take(m), kept),
        ops.len() <= all.len(),
        ops == all.take(ops.len() as int),
        0 <= done < ops.len(),
    ensures
        !broke(all, done, n, t, e),
{
    if broke(all, done, n, t, e) {
        let w = lemma_ran_reaches(ops, t.take(m), kept, done);
        let k = choose|k: Seq<u32>| #[trigger] ran(all.take(done), t.take(n), k);
        assert(ops.take(done) =~= all.take(done));
        assert(t.take(m).take(w.0) =~= t.take(w.0));
        lemma_ran_determined(all.take(done), t, w.0, n, w.2, k);
        let rest = t.skip(n);
        assert(t.take(m).subrange(w.0, w.1) =~= rest.take(w.1 - n));
        assert(rest.take(rest.len() as int) =~= rest);
        operation_is_determined(all[done], rest, w.1 - n, rest.len() as int, Ok(w.3), Err(e));
    }
}

/// What a program ends with depends on its events alone: on what it did and what
/// the controller answered.
pub proof fn program_is_determined(ops: Seq<Op>, t: Seq<Event>, r1: Outcome, r2: Outcome)
    requires
        performs(ops, t, r1),
        performs(ops, t, r2),
    ensures
        r1 == r2,
{
    let len = t.len() as int;
    assert(t.take(len) =~= t);
    assert(ops.take(ops.len() as int) =~= ops);
    match (r1, r2) {
        (Ok(kept1), Ok(kept2)) => {
            lemma_ran_determined(ops, t, len, len, kept1, kept2);
        },
        (Ok(kept), Err(e)) => {
            let (done, n) = choose|done: int, n: int| #[trigger] broke(ops, done, n, t, e);
            lemma_done_does_not_break(ops, t, len, kept, ops, done, n, e);
        },
        (Err(e), Ok(kept)) => {
            let (done, n) = choose|done: int, n: int| #[trigger] broke(ops, done, n, t, e);
            lemma_done_does_not_break(ops, t, len, kept, ops, done, n, e);
        },
        (Err(e1), Err(e2)) => {
            let (d1, n1) = choose|done: int, n: int| #[trigger] broke(ops, done, n, t, e1);
            let (d2, n2) = choose|done: int, n: int| #[trigger] broke(ops, done, n, t, e2);
            let k1 = choose|k: Seq<u32>| #[trigger] ran(ops.take(d1), t.take(n1), k);
            let k2 = choose|k: Seq<u32>| #[trigger] ran(ops.take(d2), t.take(n2), k);
            if d1 < d2 {
                lemma_done_does_not_break(ops.take(d2), t, n2, k2, ops, d1, n1, e1);
            } else if d2 < d1 {
                lemma_done_does_not_break(ops.take(d1), t, n1, k1, ops, d2, n2, e2);
            } else {
                lemma_ran_determined(ops.take(d1), t, n1, n2, k1, k2);
                let rest = t.skip(n1);
                let l = rest.len() as int;
                assert(rest.take(l) =~= rest);
                operation_is_determined(ops[d1], rest, l, l, Err(e1), Err(e2));
            }
        },
    }
}

/// A program takes no more accesses than its budget, whatever the controller
/// answers.
pub proof fn program_fits_its_budget(ops: Seq<Op>, t: Seq<Event>, r: Outcome)
    requires
        performs(ops, t, r),
    ensures
        t.len() <= budget(ops),
{
    match r {
        Ok(kept) => {
            lemma_ran_fits(ops, t, kept);
        },
        Err(e) => {
            let (done, n) = choose|done: int, n: int| #[trigger] broke(ops, done, n, t, e);
            let kept = choose|k: Seq<u32>| #[trigger] ran(ops.take(done), t.take(n), k);
            lemma_ran_fits(ops.take(done), t.take(n), kept);
            lemma_done_fits(ops[done], t.skip(n), Err(e));
            assert(ops.take(done + 1).drop_last() =~= ops.take(done));
            lemma_budget_of_start(ops, done + 1);
        },
    }
}

/// The first operation of a program that ran, and those after it.
proof fn lemma_ran_front(ops: Seq<Op>, t: Seq<Event>, kept: Seq<u32>) -> (w: (int, int))
    requires
        ran(ops, t, kept),
        ops.len() > 0,
    ensures
        0 <= w.0 <= t.len(),
        0 <= w.1 <= kept.len(),
        ops[0].does(t.take(w.0), Ok(kept.take(w.1))),
        ran(ops.skip(1), t.skip(w.0), kept.skip(w.1)),
    decreases ops.len(),
{
    let (i, l) = lemma_ran_splits(ops, t, kept);
    if ops.len() == 1 {
        assert(t.take(i) =~= Seq::<Event>::empty());
        assert(kept.take(l) =~= Seq::<u32>::empty());
        assert(t.skip(i) =~= t.take(t.len() as int));
        assert(kept.skip(l) =~= kept.take(kept.len() as int));
        (t.len() as int, kept.len() as int)
    } else {
        let before = ops.drop_last();
        let (n, k) = lemma_ran_front(before, t.take(i), kept.take(l));
        assert(t.take(i).take(n) =~= t.take(n));
        assert(kept.take(l).take(k) =~= kept.take(k));
        let rest = ops.skip(1);
        let u = t.skip(n);
        let keeps = kept.skip(k);
        assert(rest.drop_last() =~= before.skip(1));
        assert(u.take(i - n) =~= t.take(i).skip(n));
        assert(keeps.take(l - k) =~= kept.take(l).skip(k));
        assert(u.skip(i - n) =~= t.skip(i));
        assert(keeps.skip(l - k) =~= kept.skip(l));
        assert(ran(rest.drop_last(), u.take(i - n), keeps.take(l - k)));
        (n, k)
    }
}

/// A program begins with its first operation, on the first `n` of its events: if
/// that fails, so does the program; if not, the rest of the program follows, and
/// what the operation keeps comes before what the rest keeps.
pub open spec fn begins(ops: Seq<Op>, t: Seq<Event>, r: Outcome, n: int) -> bool {
    &&& 0 <= n <= t.len()
    &&& {
        ||| n == t.len() && r is Err && ops[0].does(t, r)
        ||| exists|first: Seq<u32>, rest: Outcome|
            {
                &&& ops[0].does(t.take(n), Ok(first))
                &&& performs(ops.skip(1), t.skip(n), rest)
                &&& r == #[trigger] follow(first, rest)
            }
    }
}

/// What a program ends with that kept `first` before `rest`.
pub open spec fn follow(first: Seq<u32>, rest: Outcome) -> Outcome {
    match rest {
        Ok(kept) => Ok(first + kept),
        Err(e) => Err(e),
    }
}

/// A program does its operations one after the other.
pub proof fn operations_follow_each_other(ops: Seq<Op>, t: Seq<Event>, r: Outcome)
    requires
        ops.len() > 0,
        performs(ops, t, r),
    ensures
        exists|n: int| #[trigger] begins(ops, t, r, n),
{
    match r {
        Ok(kept) => {
            let (n, k) = lemma_ran_front(ops, t, kept);
            assert(kept =~= kept.take(k) + kept.skip(k));
            assert(performs(ops.skip(1), t.skip(n), Ok(kept.skip(k))));
            assert(r == follow(kept.take(k), Ok(kept.skip(k))));
            assert(begins(ops, t, r, n));
        },
        Err(e) => {
            let (done, m) = choose|done: int, m: int| #[trigger] broke(ops, done, m, t, e);
            let kept = choose|k: Seq<u32>| #[trigger] ran(ops.take(done), t.take(m), k);
            if done == 0 {
                assert(t.skip(m) =~= t);
                assert(begins(ops, t, r, t.len() as int));
            } else {
                let (n, k) = lemma_ran_front(ops.take(done), t.take(m), kept);
                assert(t.take(m).take(n) =~= t.take(n));
                let rest = ops.skip(1);
                let u = t.skip(n);
                assert(rest.take(done - 1) =~= ops.take(done).skip(1));
                assert(u.take(m - n) =~= t.take(m).skip(n));
                assert(u.skip(m - n) =~= t.skip(m));
                assert(ran(rest.take(done - 1), u.take(m - n), kept.skip(k)));
                assert(broke(rest, done - 1, m - n, u, e));
                assert(performs(rest, u, Err(e)));
                assert(r == follow(kept.take(k), Err(e)));
                assert(begins(ops, t, r, n));
            }
        },
    }
}

/// The first action of a program is the first action of its first operation.
pub proof fn program_begins_with_its_first_operation(ops: Seq<Op>, a: Action)
    requires
        asks(ops, Seq::empty(), a),
    ensures
        ops[0].asks(Seq::empty(), a),
{
    let none = Seq::<Event>::empty();
    let (done, n) = choose|done: int, n: int| #[trigger] stands_at(ops, done, n, none, a);
    assert(none.skip(n) =~= none);
    if done > 0 {
        let kept = choose|k: Seq<u32>| #[trigger] ran(ops.take(done), none.take(n), k);
        let (m, k) = lemma_ran_front(ops.take(done), none.take(n), kept);
        reveal(Op::does);
    }
}

impl Op {
    /// The actions that the operation can ask for, as far as its kind says.
    pub open spec fn may(self, a: Action) -> bool {
        match self {
            Op::Write(reg, v) => a == Action::Write(reg, v),
            Op::Keep(reg) => a == Action::Read(reg),
            Op::Update { reg, .. } => a == Action::Read(reg) || (a matches Action::Write(w, _) && w
                == reg),
            Op::Switch { power, .. } => {
                ||| a == Action::Read(Reg::HostControl2)
                ||| a == Action::Write(Reg::PowerControl, power)
                ||| a matches Action::Write(Reg::HostControl2, _)
            },
            Op::Await { reg, .. } => a == Action::Read(reg),
            Op::Settle { .. } => {
                ||| a == Action::Read(Reg::NormalIntStatus)
                ||| a == Action::Read(Reg::ErrorIntStatus)
                ||| a == Action::Write(Reg::ErrorIntStatus, 0xFFFF)
            },
            Op::Sweep { .. } => {
                ||| a == Action::Read(Reg::HostControl2)
                ||| a matches Action::Write(Reg::HostControl2, _)
            },
            Op::Divide { .. } => {
                ||| a == Action::Read(Reg::CapabilitiesLow)
                ||| a matches Action::Write(Reg::ClockControl, _)
            },
            Op::ShapeTuning => {
                ||| a == Action::Read(Reg::HostControl1)
                ||| a matches Action::Write(Reg::BlockSize, _)
            },
            Op::Retune(hz) => a == Action::Retune(hz),
            Op::Refuse(reg, _) => a == Action::Read(reg),
        }
    }
}

/// The events of an operation are its own.
proof fn lemma_does_its_own(op: Op, t: Seq<Event>, r: Outcome, i: int)
    requires
        op.does(t, r),
        0 <= i < t.len(),
    ensures
        op.may(t[i].action),
{
    reveal(Op::does);
    match op {
        Op::Settle { .. } => {
            if t.last().action != Action::Read(Reg::NormalIntStatus) {
                let n = t.len() - 2;
                if i < n {
                    assert(t.take(n)[i] == t[i]);
                }
            }
        },
        Op::Sweep { .. } => {
            if t.last().action != Action::Read(Reg::HostControl2) {
                let n = t.len() - 1;
                if i < n {
                    assert(t.take(n)[i] == t[i]);
                }
            }
        },
        _ => {},
    }
}

proof fn lemma_ran_its_own(ops: Seq<Op>, t: Seq<Event>, kept: Seq<u32>, i: int) -> (k: int)
    requires
        ran(ops, t, kept),
        0 <= i < t.len(),
    ensures
        0 <= k < ops.len(),
        ops[k].may(t[i].action),
    decreases ops.len(),
{
    let (n, l) = lemma_ran_splits(ops, t, kept);
    if i < n {
        assert(t.take(n)[i] == t[i]);
        lemma_ran_its_own(ops.drop_last(), t.take(n), kept.take(l), i)
    } else {
        assert(t.skip(n)[i - n] == t[i]);
        lemma_does_its_own(ops.last(), t.skip(n), Ok(kept.skip(l)), i - n);
        ops.len() - 1
    }
}

/// Every access that a program makes is one of its operations'.
pub proof fn accesses_are_the_operations_own(ops: Seq<Op>, t: Seq<Event>, r: Outcome, i: int) -> (k:
    int)
    requires
        performs(ops, t, r),
        0 <= i < t.len(),
    ensures
        0 <= k < ops.len(),
        ops[k].may(t[i].action),
{
    match r {
        Ok(kept) => lemma_ran_its_own(ops, t, kept, i),
        Err(e) => {
            let (done, n) = choose|done: int, n: int| #[trigger] broke(ops, done, n, t, e);
            let kept = choose|k: Seq<u32>| #[trigger] ran(ops.take(done), t.take(n), k);
            if i < n {
                assert(t.take(n)[i] == t[i]);
                lemma_ran_its_own(ops.take(done), t.take(n), kept, i)
            } else {
                assert(t.skip(n)[i - n] == t[i]);
                lemma_does_its_own(ops[done], t.skip(n), Err(e), i - n);
                done
            }
        },
    }
}

/// A program that succeeds has done each of its operations, from one event up to
/// another, and an earlier operation before a later one.
pub proof fn success_does_operations_in_order(
    ops: Seq<Op>,
    t: Seq<Event>,
    kept: Seq<u32>,
    d: int,
    e: int,
) -> (w: (int, int, int, int, Seq<u32>, Seq<u32>))
    requires
        performs(ops, t, Ok(kept)),
        0 <= d < e < ops.len(),
    ensures
        0 <= w.0 <= w.1 <= w.2 <= w.3 <= t.len(),
        ops[d].does(t.subrange(w.0, w.1), Ok(w.4)),
        ops[e].does(t.subrange(w.2, w.3), Ok(w.5)),
{
    let (u, v, before, last) = lemma_ran_reaches(ops, t, kept, e);
    let (p, q, _x, first) = lemma_ran_reaches(ops.take(e), t.take(u), before, d);
    assert(t.take(u).subrange(p, q) =~= t.subrange(p, q));
    (p, q, u, v, first, last)
}

/// A program that succeeds has made each of its plain writes, and an earlier one
/// before a later one.
pub proof fn success_writes_in_order(
    ops: Seq<Op>,
    t: Seq<Event>,
    kept: Seq<u32>,
    d: int,
    e: int,
    reg1: Reg,
    v1: u32,
    reg2: Reg,
    v2: u32,
) -> (w: (int, int))
    requires
        performs(ops, t, Ok(kept)),
        0 <= d < e < ops.len(),
        ops[d] == Op::Write(reg1, v1),
        ops[e] == Op::Write(reg2, v2),
    ensures
        0 <= w.0 < w.1 < t.len(),
        t[w.0].action == Action::Write(reg1, v1),
        t[w.1].action == Action::Write(reg2, v2),
{
    reveal(Op::does);
    let (p, q, u, v, _x, _y) = success_does_operations_in_order(ops, t, kept, d, e);
    assert(t.subrange(p, q)[0] == t[p]);
    assert(t.subrange(u, v)[0] == t[u]);
    (p, u)
}

// Running a program

/// How far the current operation of a task has come.
#[derive(Debug, Clone, Copy)]
enum Stage {
    /// Its first action is due.
    First,
    /// It polls, and has made so many reads.
    Poll(u32),
    /// Its second action is due; a value that was read.
    Second(u32),
    /// Its third action is due; a value that was read.
    Third(u32),
    /// It has read the error status and has to acknowledge it.
    Acknowledge(u32),
}

/// What an operation does next.
enum Turn {
    /// It has another action.
    Act(Stage, Action),
    /// It is done.
    Done,
    /// It is done and keeps a value.
    Keep(u32),
    /// It failed.
    Fail(HostError),
}

/// One read more ends a wait or goes on with it.
proof fn lemma_wait_grows(
    reg: Reg,
    mask: u32,
    set: bool,
    limit: u32,
    t: Seq<Event>,
    x: Event,
)
    requires
        waiting(reg, mask, set, limit, t),
        x.action == Action::Read(reg),
    ensures
        met(x.reply, mask, set) || t.len() + 1 == limit ==> awaits(
            reg,
            mask,
            set,
            limit,
            t.push(x),
        ),
        !met(x.reply, mask, set) && t.len() + 1 < limit ==> waiting(
            reg,
            mask,
            set,
            limit,
            t.push(x),
        ),
{
    let u = t.push(x);
    assert forall|i: int| 0 <= i < u.len() implies (#[trigger] u[i]).action == Action::Read(reg) by {
        if i < t.len() {
            assert(u[i] == t[i]);
        }
    }
    assert forall|i: int| 0 <= i < t.len() implies !met((#[trigger] u[i]).reply, mask, set) by {
        assert(u[i] == t[i]);
    }
}

/// A status has one of two sets of bits if it has one of either.
pub(crate) proof fn lemma_either(v: u32, a: u32, b: u32)
    ensures
        (v & (a | b) != 0) == (v & a != 0 || v & b != 0),
{
    assert((v & (a | b) != 0) == (v & a != 0 || v & b != 0)) by (bit_vector);
}

/// The failure that the error interrupt status stands for.
fn translate_error(status: u32, errors: u32, context: ErrorContext, adma: bool) -> (e: HostError)
    ensures
        e == fault(status, errors, context, adma),
{
    let err: u32 = status & errors;
    if adma && status & ERROR_INT_ADMA != 0 {
        HostError::Misaligned
    } else if err & ERROR_INT_TIMEOUT != 0 {
        HostError::Timeout(context)
    } else if err & ERROR_INT_CRC != 0 {
        HostError::Crc(context)
    } else if err & ERROR_INT_DATA_LINE_MASK != 0 {
        HostError::ReadError(context)
    } else {
        HostError::BadResponse(context)
    }
}

impl Op {
    /// The operation has come as far as `stage` with the events `t`, and its next
    /// action is `due`.
    spec fn partial(self, stage: Stage, due: Action, t: Seq<Event>) -> bool {
        &&& self.asks(t, due)
        &&& match stage {
            Stage::First => t.len() == 0 && !(self is Await) && !(self is Settle) && !(
            self is Sweep),
            Stage::Poll(n) => {
                &&& t.len() == n
                &&& due is Read
                &&& match self {
                    Op::Await { limit, .. } => n < limit,
                    Op::Settle { .. } => {
                        &&& n < POLL_LIMIT
                        &&& due == Action::Read(Reg::NormalIntStatus)
                    },
                    Op::Sweep { .. } => n < POLL_LIMIT,
                    _ => false,
                }
            },
            Stage::Second(v) => match self {
                Op::Update { .. } | Op::ShapeTuning | Op::Divide { .. } | Op::Switch { .. } => {
                    &&& t.len() == 1
                    &&& t[0].reply == v
                },
                Op::Settle { .. } => due == Action::Read(Reg::ErrorIntStatus),
                Op::Sweep { .. } => due is Write,
                _ => false,
            },
            Stage::Third(v) => {
                &&& self is Divide || self is Switch
                &&& t.len() == 2
                &&& t[0].reply == v
            },
            Stage::Acknowledge(v) => {
                &&& self is Settle
                &&& due is Write
                &&& t.last().reply == v
            },
        }
    }

    /// With the events `t` the operation has come to the turn.
    spec fn turned(self, t: Seq<Event>, turn: Turn) -> bool {
        match turn {
            Turn::Act(next, action) => self.partial(next, action, t),
            Turn::Done => self.does(t, Ok(Seq::empty())),
            Turn::Keep(v) => self.does(t, Ok(seq![v])),
            Turn::Fail(e) => self.does(t, Err(e)),
        }
    }

    /// A started operation has an event of its budget left.
    proof fn lemma_partial_fits(self, stage: Stage, due: Action, t: Seq<Event>)
        requires
            self.partial(stage, due, t),
        ensures
            t.len() < self.budget(),
    {
    }

    /// The first action of the operation.
    fn begin(&self) -> (r: (Stage, Action))
        requires
            self matches Op::Await { limit, .. } ==> limit > 0,
        ensures
            self.partial(r.0, r.1, Seq::empty()),
    {
        match *self {
            Op::Write(reg, v) => (Stage::First, Action::Write(reg, v)),
            Op::Keep(reg) => (Stage::First, Action::Read(reg)),
            Op::Update { reg, .. } => (Stage::First, Action::Read(reg)),
            Op::Switch { .. } => (Stage::First, Action::Read(Reg::HostControl2)),
            Op::Await { reg, .. } => (Stage::Poll(0), Action::Read(reg)),
            Op::Settle { .. } => (Stage::Poll(0), Action::Read(Reg::NormalIntStatus)),
            Op::Sweep { .. } => (Stage::Poll(0), Action::Read(Reg::HostControl2)),
            Op::Divide { .. } => (Stage::First, Action::Read(Reg::CapabilitiesLow)),
            Op::ShapeTuning => (Stage::First, Action::Read(Reg::HostControl1)),
            Op::Retune(hz) => (Stage::First, Action::Retune(hz)),
            Op::Refuse(reg, _) => (Stage::First, Action::Read(reg)),
        }
    }

    /// What the operation does once its due action had the outcome `value`.
    fn respond(
        &self,
        stage: Stage,
        value: u32,
        Ghost(due): Ghost<Action>,
        Ghost(t): Ghost<Seq<Event>>,
    ) -> (turn: Turn)
        requires
            self.partial(stage, due, t),
        ensures
            self.turned(t.push(Event { action: due, reply: value }), turn),
    {
        proof {
            reveal(Op::does);
        }
        match *self {
            Op::Write(..) => Turn::Done,
            Op::Keep(_) => Turn::Keep(value),
            Op::Retune(_) => Turn::Done,
            Op::Refuse(_, error) => Turn::Fail(error),
            Op::Update { reg, clear, set } => match stage {
                Stage::Second(_) => Turn::Done,
                _ => {
                    assert(t.push(Event { action: due, reply: value }) =~= seq![
                        Event { action: due, reply: value },
                    ]);
                    Turn::Act(Stage::Second(value), Action::Write(reg, (value & !clear) | set))
                },
            },
            Op::ShapeTuning => match stage {
                Stage::Second(_) => Turn::Done,
                _ => {
                    assert(t.push(Event { action: due, reply: value }) =~= seq![
                        Event { action: due, reply: value },
                    ]);
                    let size: u32 = if value & HOST_CTRL1_8BIT != 0 {
                        128
                    } else {
                        64
                    };
                    Turn::Act(Stage::Second(value), Action::Write(Reg::BlockSize, size))
                },
            },
            Op::Switch { power, lower, raise } => match stage {
                Stage::Third(_) => Turn::Done,
                Stage::Second(v) => Turn::Act(
                    Stage::Third(v),
                    Action::Write(Reg::HostControl2, (v & !lower) | raise),
                ),
                _ => Turn::Act(Stage::Second(value), Action::Write(Reg::PowerControl, power)),
            },
            Op::Divide { target_hz } => match stage {
                Stage::Third(_) => Turn::Done,
                Stage::Second(caps) => {
                    let control: u32 = clock_control_for(base_clock_of(caps), target_hz);
                    Turn::Act(Stage::Third(caps), Action::Write(Reg::ClockControl, control))
                },
                _ => {
                    if base_clock_of(value) == 0 {
                        Turn::Fail(HostError::BadResponse(ErrorContext::new(Phase::Init)))
                    } else {
                        Turn::Act(Stage::Second(value), Action::Write(Reg::ClockControl, 0))
                    }
                },
            },
            Op::Await { .. } => self.respond_await(stage, value, Ghost(due), Ghost(t)),
            Op::Settle { .. } => self.respond_settle(stage, value, Ghost(due), Ghost(t)),
            Op::Sweep { .. } => self.respond_sweep(stage, value, Ghost(due), Ghost(t)),
        }
    }

    fn respond_await(
        &self,
        stage: Stage,
        value: u32,
        Ghost(due): Ghost<Action>,
        Ghost(t): Ghost<Seq<Event>>,
    ) -> (turn: Turn)
        requires
            self is Await,
            self.partial(stage, due, t),
        ensures
            self.turned(t.push(Event { action: due, reply: value }), turn),
    {
        proof {
            reveal(Op::does);
        }
        let ghost x = Event { action: due, reply: value };
        match (*self, stage) {
            (Op::Await { reg, mask, until_set: set, limit, error }, Stage::Poll(n)) => {
                proof {
                    lemma_wait_grows(reg, mask, set, limit, t, x);
                }
                if (value & mask != 0) == set {
                    Turn::Done
                } else if n + 1 >= limit {
                    Turn::Fail(error)
                } else {
                    Turn::Act(Stage::Poll(n + 1), Action::Read(reg))
                }
            },
            _ => Turn::Done,
        }
    }

    fn respond_settle(
        &self,
        stage: Stage,
        value: u32,
        Ghost(due): Ghost<Action>,
        Ghost(t): Ghost<Seq<Event>>,
    ) -> (turn: Turn)
        requires
            self is Settle,
            self.partial(stage, due, t),
        ensures
            self.turned(t.push(Event { action: due, reply: value }), turn),
    {
        proof {
            reveal(Op::does);
        }
        let ghost x = Event { action: due, reply: value };
        let ghost u = t.push(x);
        match (*self, stage) {
            (Op::Settle { done, errors, context, adma }, Stage::Poll(n)) => {
                proof {
                    lemma_wait_grows(
                        Reg::NormalIntStatus,
                        done | NORMAL_INT_ERROR,
                        true,
                        POLL_LIMIT,
                        t,
                        x,
                    );
                    lemma_either(value, done, NORMAL_INT_ERROR);
                }
                if value & done != 0 {
                    Turn::Done
                } else if value & NORMAL_INT_ERROR != 0 {
                    Turn::Act(Stage::Second(value), Action::Read(Reg::ErrorIntStatus))
                } else if n + 1 >= POLL_LIMIT {
                    Turn::Fail(HostError::Timeout(context))
                } else {
                    Turn::Act(Stage::Poll(n + 1), Action::Read(Reg::NormalIntStatus))
                }
            },
            (Op::Settle { .. }, Stage::Second(_)) => {
                assert(u.drop_last() =~= t);
                // Acknowledge so the next command starts from a clean slate.
                Turn::Act(
                    Stage::Acknowledge(value),
                    Action::Write(Reg::ErrorIntStatus, ERROR_INT_CLEAR_ALL),
                )
            },
            (Op::Settle { done, errors, context, adma }, Stage::Acknowledge(status)) => {
                assert(u.take(u.len() - 2) =~= t.drop_last());
                Turn::Fail(translate_error(status, errors, context, adma))
            },
            _ => Turn::Done,
        }
    }

    fn respond_sweep(
        &self,
        stage: Stage,
        value: u32,
        Ghost(due): Ghost<Action>,
        Ghost(t): Ghost<Seq<Event>>,
    ) -> (turn: Turn)
        requires
            self is Sweep,
            self.partial(stage, due, t),
        ensures
            self.turned(t.push(Event { action: due, reply: value }), turn),
    {
        proof {
            reveal(Op::does);
        }
        let ghost x = Event { action: due, reply: value };
        let ghost u = t.push(x);
        match (*self, stage) {
            (Op::Sweep { cmd }, Stage::Poll(n)) => {
                proof {
                    lemma_wait_grows(
                        Reg::HostControl2,
                        HOST_CTRL2_EXECUTE_TUNING,
                        false,
                        POLL_LIMIT,
                        t,
                        x,
                    );
                }
                if value & HOST_CTRL2_EXECUTE_TUNING == 0 {
                    // Controller's done. Sampling Clock Select tells us
                    // whether the sweep produced a usable phase.
                    if value & HOST_CTRL2_SAMPLING_CLOCK_SELECT != 0 {
                        Turn::Done
                    } else {
                        Turn::Fail(HostError::BadResponse(ErrorContext::for_cmd(Phase::Init, cmd)))
                    }
                } else if n + 1 >= POLL_LIMIT {
                    // Tuning didn't converge in our poll budget. Clear the bit so
                    // the next attempt starts clean.
                    Turn::Act(
                        Stage::Second(value),
                        Action::Write(Reg::HostControl2, value & !HOST_CTRL2_EXECUTE_TUNING),
                    )
                } else {
                    Turn::Act(Stage::Poll(n + 1), Action::Read(Reg::HostControl2))
                }
            },
            (Op::Sweep { cmd }, _) => {
                assert(u.take(u.len() - 1) =~= t);
                Turn::Fail(HostError::Timeout(ErrorContext::for_cmd(Phase::Init, cmd)))
            },
            _ => Turn::Done,
        }
    }
}

/// A register program that is being run.
///
/// [`action`](Task::action) says what to do next; [`step`](Task::step) takes the
/// outcome.
pub struct Task {
    ops: Vec<Op>,
    /// Index of the current operation
    pos: usize,
    stage: Stage,
    due: Action,
    kept: Vec<u32>,
    events: Ghost<Seq<Event>>,
    /// Number of events before those of the current operation
    mark: Ghost<int>,
}

/// What a step of a task leads to.
pub enum Progress {
    /// There is more to do.
    More(Task),
    /// The program is over: the values that it kept, or its failure.
    Done(Result<Vec<u32>, HostError>),
}

/// The view of a task's result.
pub open spec fn outcome_of(r: Result<Vec<u32>, HostError>) -> Outcome {
    match r {
        Ok(kept) => Ok(kept@),
        Err(e) => Err(e),
    }
}

/// Adding an operation that was done to those before it.
proof fn lemma_ran_grows(
    ops: Seq<Op>,
    pos: int,
    t: Seq<Event>,
    mark: int,
    kept: Seq<u32>,
    more: Seq<u32>,
)
    requires
        0 <= pos < ops.len(),
        0 <= mark <= t.len(),
        ran(ops.take(pos), t.take(mark), kept),
        ops[pos].does(t.skip(mark), Ok(more)),
    ensures
        ran(ops.take(pos + 1), t, kept + more),
{
    let now = ops.take(pos + 1);
    let all = kept + more;
    let k = kept.len() as int;
    assert(now.drop_last() =~= ops.take(pos));
    assert(all.take(k) =~= kept);
    assert(all.skip(k) =~= more);
    assert(ran(now.drop_last(), t.take(mark), all.take(k)));
}

/// What was done fits the budget.
proof fn lemma_ran_fits(ops: Seq<Op>, t: Seq<Event>, kept: Seq<u32>)
    requires
        ran(ops, t, kept),
    ensures
        t.len() <= budget(ops),
    decreases ops.len(),
{
    if ops.len() > 0 {
        let (n, k) = lemma_ran_splits(ops, t, kept);
        lemma_ran_fits(ops.drop_last(), t.take(n), kept.take(k));
        lemma_done_fits(ops.last(), t.skip(n), Ok(kept.skip(k)));
    }
}

/// A whole operation fits its budget.
proof fn lemma_done_fits(op: Op, t: Seq<Event>, r: Outcome)
    requires
        op.does(t, r),
    ensures
        t.len() <= op.budget(),
{
    reveal(Op::does);
}

/// The budget of a program's start is no larger than its own.
proof fn lemma_budget_of_start(ops: Seq<Op>, n: int)
    requires
        0 <= n <= ops.len(),
    ensures
        budget(ops.take(n)) <= budget(ops),
    decreases ops.len(),
{
    if n < ops.len() {
        assert(ops.drop_last().take(n) =~= ops.take(n));
        lemma_budget_of_start(ops.drop_last(), n);
    } else {
        assert(ops.take(n) =~= ops);
    }
}

impl Task {
    /// The program that the task runs.
    pub closed spec fn program(self) -> Seq<Op> {
        self.ops@
    }

    /// The actions that were made for the task, with their outcomes.
    pub closed spec fn history(self) -> Seq<Event> {
        self.events@
    }

    /// The action that is due.
    pub closed spec fn next(self) -> Action {
        self.due
    }

    /// The task runs `ops` and has done nothing yet.
    pub open spec fn starts(self, ops: Seq<Op>) -> bool {
        &&& self.wf()
        &&& self.program() == ops
        &&& self.history() == Seq::<Event>::empty()
        &&& asks(ops, self.history(), self.next())
    }

    /// The task has come as far in its program as its history shows.
    pub closed spec fn wf(self) -> bool {
        &&& patient(self.ops@)
        &&& self.pos < self.ops@.len()
        &&& 0 <= self.mark@ <= self.events@.len()
        &&& ran(self.ops@.take(self.pos as int), self.events@.take(self.mark@), self.kept@)
        &&& self.ops@[self.pos as int].partial(
            self.stage,
            self.due,
            self.events@.skip(self.mark@),
        )
    }

    /// A task that has done nothing yet.
    pub fn new(ops: Vec<Op>) -> (task: Task)
        requires
            ops@.len() > 0,
            patient(ops@),
        ensures
            task.starts(ops@),
    {
        let (stage, due) = ops[0].begin();
        let task = Task {
            ops,
            pos: 0,
            stage,
            due,
            kept: Vec::new(),
            events: Ghost(Seq::empty()),
            mark: Ghost(0),
        };
        proof {
            assert(task.events@.skip(0) =~= Seq::<Event>::empty());
            task.lemma_stands();
        }
        task
    }

    /// What to do next.
    pub fn action(&self) -> (a: Action)
        ensures
            a == self.next(),
    {
        self.due
    }

    /// Goes on once the due action had the outcome `value`.
    ///
    /// A task that is over has performed its program; one that is not has not
    /// used up its budget.
    pub fn step(self, value: u32) -> (p: Progress)
        requires
            self.wf(),
        ensures
            ({
                let t = self.history().push(Event { action: self.next(), reply: value });
                match p {
                    Progress::More(task) => {
                        &&& task.wf()
                        &&& task.program() == self.program()
                        &&& task.history() == t
                        &&& asks(self.program(), t, task.next())
                        &&& t.len() < budget(self.program())
                    },
                    Progress::Done(r) => performs(self.program(), t, outcome_of(r)),
                }
            }),
    {
        let mut task = self;
        let ghost mark = self.mark@;
        let ghost x = Event { action: self.due, reply: value };
        let ghost t = self.events@.push(x);
        let op: Op = task.ops[task.pos];
        proof {
            assert(t.skip(mark) =~= self.events@.skip(mark).push(x));
            assert(t.take(mark) =~= self.events@.take(mark));
        }
        let turn = op.respond(
            task.stage,
            value,
            Ghost(self.due),
            Ghost(self.events@.skip(mark)),
        );
        task.events = Ghost(t);
        match turn {
            Turn::Act(stage, due) => {
                task.stage = stage;
                task.due = due;
                proof {
                    task.lemma_stands();
                }
                return Progress::More(task);
            },
            Turn::Fail(e) => {
                assert(broke(self.ops@, self.pos as int, mark, t, e));
                return Progress::Done(Err(e));
            },
            Turn::Keep(v) => {
                task.kept.push(v);
                proof {
                    lemma_ran_grows(self.ops@, self.pos as int, t, mark, self.kept@, seq![v]);
                    assert(self.kept@ + seq![v] =~= task.kept@);
                }
            },
            Turn::Done => {
                proof {
                    lemma_ran_grows(self.ops@, self.pos as int, t, mark, self.kept@, Seq::empty());
                    assert(self.kept@ + Seq::<u32>::empty() =~= task.kept@);
                }
            },
        }
        let len: usize = task.ops.len();
        task.pos = task.pos + 1;
        if task.pos == len {
            assert(self.ops@.take(task.pos as int) =~= self.ops@);
            return Progress::Done(Ok(task.kept));
        }
        let (stage, due) = task.ops[task.pos].begin();
        task.stage = stage;
        task.due = due;
        task.mark = Ghost(t.len() as int);
        proof {
            assert(t.skip(t.len() as int) =~= Seq::<Event>::empty());
            assert(t.take(t.len() as int) =~= t);
            task.lemma_stands();
        }
        Progress::More(task)
    }

    /// A task that is not over asks for its next action and has an event of its
    /// budget left.
    proof fn lemma_stands(self)
        requires
            self.wf(),
        ensures
            asks(self.ops@, self.events@, self.due),
            self.events@.len() < budget(self.ops@),
    {
        let pos = self.pos as int;
        assert(stands_at(self.ops@, pos, self.mark@, self.events@, self.due));
        lemma_ran_fits(self.ops@.take(pos), self.events@.take(self.mark@), self.kept@);
        self.ops@[pos].lemma_partial_fits(
            self.stage,
            self.due,
            self.events@.skip(self.mark@),
        );
        assert(self.ops@.take(pos + 1).drop_last() =~= self.ops@.take(pos));
        lemma_budget_of_start(self.ops@, pos + 1);
    }
}

} // verus!
