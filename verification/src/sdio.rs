//! SDIO (Secure Digital Input Output) mode transport layer
//!
//! SDIO mode uses a dedicated host controller with 1-bit or 4-bit data bus.
//! Implement [`SdioHost`] for your platform's SDIO peripheral, and wait between
//! the steps of [`SdioSdmmc::init`] as they ask.
use vstd::prelude::*;

use crate::bits;
use crate::calls::{self, HostCall, Request};
use crate::cmd::{self, Command};
use crate::common::{self, block_addr_of};
use crate::error::{ErrorContext, HostError, Phase};
use crate::response::{
    self, CardState, CidResponse, CsdResponse, OcrResponse, Response, ResponseType, SwitchStatus,
};
use crate::sink::{self, BlockSink, HandlerSink};

pub use crate::cmd::DataDirection;

verus! {

/// SDIO bus width
#[derive(Debug, Clone, Copy, PartialEq, Eq, Structural)]
pub enum BusWidth {
    /// 1-bit bus
    Bit1,
    /// 4-bit bus
    Bit4,
    /// 8-bit bus (eMMC). Configured via the MMC `CMD6 SWITCH` flow which is
    /// outside the scope of the SD ACMD6 path used by this driver.
    Bit8,
}

/// SDIO clock speed
#[derive(Debug, Clone, Copy, PartialEq, Eq, Structural)]
pub enum ClockSpeed {
    /// Card identification: 400 kHz
    Identification,
    /// Default speed: up to 25 MHz
    Default,
    /// High speed: up to 50 MHz
    HighSpeed,
    /// SDR12: 12.5 MB/s
    Sdr12,
    /// SDR25: 25 MB/s
    Sdr25,
    /// SDR50: 50 MB/s
    Sdr50,
    /// SDR104: 104 MB/s
    Sdr104,
    /// DDR50: 50 MB/s (DDR)
    Ddr50,
    /// HS200 (eMMC): 200 MHz
    Hs200,
}

/// Signal voltage of the card's bus lines
#[derive(Debug, Clone, Copy, PartialEq, Eq, Structural)]
pub enum SignalVoltage {
    V330,
    V180,
    V120,
}

/// Trait that the platform must implement for the SDIO host controller.
///
/// The driver tracks the published RCA itself, so host implementations need
/// not snoop R6 responses or expose a `rca()` accessor.
pub trait SdioHost {
    /// Every call made of this host, in order.
    ///
    /// An implementation whose contracts are proved says here what its calls
    /// are; one written in plain Rust leaves the function out.
    closed spec fn history(&self) -> Seq<HostCall> {
        Seq::empty()
    }

    /// Send a command and receive the response
    fn send_command(&mut self, cmd: &Command) -> (r: Result<Response, HostError>)
        ensures
            final(self).history() == old(self).history().push(HostCall::Command(*cmd, r)),
    ;

    /// Read data from the card via the data bus
    fn read_data(&mut self, buf: &mut [u8], block_size: u32) -> (r: Result<(), HostError>)
        ensures
            final(buf)@.len() == old(buf)@.len(),
            final(self).history() == old(self).history().push(
                HostCall::Read(block_size, final(buf)@, r),
            ),
    ;

    /// Write data to the card via the data bus
    fn write_data(&mut self, buf: &[u8], block_size: u32) -> (r: Result<(), HostError>)
        ensures
            final(self).history() == old(self).history().push(
                HostCall::Plain(Request::Write(buf@, block_size), r),
            ),
    ;

    /// Set the bus width
    fn set_bus_width(&mut self, width: BusWidth) -> (r: Result<(), HostError>)
        ensures
            final(self).history() == old(self).history().push(
                HostCall::Plain(Request::Width(width), r),
            ),
    ;

    /// Set the clock speed
    fn set_clock(&mut self, speed: ClockSpeed) -> (r: Result<(), HostError>)
        ensures
            final(self).history() == old(self).history().push(
                HostCall::Plain(Request::Clock(speed), r),
            ),
    ;

    /// Tell the host how many data blocks the next multi-block transfer will
    /// move (CMD18 read or CMD25 write). Hosts that derive the count
    /// internally return `Ok` and do nothing.
    fn set_block_count(&mut self, count: u32) -> (r: Result<(), HostError>)
        ensures
            final(self).history() == old(self).history().push(
                HostCall::Plain(Request::BlockCount(count), r),
            ),
    ;

    /// Tell the host the shape of the data phase that the *next* command
    /// will trigger.
    ///
    /// This is needed because some commands (notably CMD6, which is reused
    /// for ACMD6 SET_BUS_WIDTH and CMD6 SWITCH_FUNC) can't be classified
    /// from the index alone. The driver always calls this before issuing a
    /// data-bearing command, and passes `direction = NoData` to clear any
    /// previous hint before commands without a data phase. Hosts that derive
    /// the data shape from the command index themselves return `Ok` and do
    /// nothing.
    fn prepare_data_transfer(
        &mut self,
        direction: DataDirection,
        block_size: u32,
        block_count: u32,
    ) -> (r: Result<(), HostError>)
        ensures
            final(self).history() == old(self).history().push(
                HostCall::Plain(Request::Prepare(direction, block_size, block_count), r),
            ),
    ;
}

/// Maximum total time to wait for ACMD41 to report card power-up.
pub const INIT_TIMEOUT_MS: u32 = 1_000;

/// Interval between ACMD41 polls.
pub const INIT_POLL_MS: u32 = 10;

/// A card that has not powered up yet.
#[derive(Debug, Clone, Copy, PartialEq, Eq, Structural)]
pub struct PowerUp {
    /// Whether the card answered the version 2 probe
    pub sd_v2: bool,
    /// Time that will have passed since the first poll once the next wait is over
    pub elapsed_ms: u32,
}

/// How far initialization came.
#[derive(Debug, Clone, Copy)]
pub enum InitStep {
    /// The card is ready.
    Ready(CardInfo),
    /// The card is still powering up: wait [`INIT_POLL_MS`] milliseconds, then go
    /// on with [`SdioSdmmc::resume_init`].
    Wait(PowerUp),
}

/// SDIO mode SD/MMC driver
pub struct SdioSdmmc<H: SdioHost> {
    pub host: H,
    pub rca: u16,
    pub high_capacity: bool,
    pub bus_width: BusWidth,
}

impl<H: SdioHost> SdioSdmmc<H> {
    /// Every call made of the driver's host.
    pub open spec fn history(&self) -> Seq<HostCall> {
        self.host.history()
    }

    /// The calls made since `before`.
    pub open spec fn calls_since(self, before: Self) -> Seq<HostCall> {
        calls::since(before.history(), self.history())
    }

    /// The driver did nothing but make calls of its host.
    pub open spec fn same_card(self, before: Self) -> bool {
        &&& self.rca == before.rca
        &&& self.high_capacity == before.high_capacity
        &&& self.bus_width == before.bus_width
        &&& calls::continues(before.history(), self.history())
    }

    pub fn new(host: H) -> (d: Self)
        ensures
            d == (SdioSdmmc { host, rca: 0, high_capacity: false, bus_width: BusWidth::Bit1 }),
    {
        SdioSdmmc { host, rca: 0, high_capacity: false, bus_width: BusWidth::Bit1 }
    }

    /// Currently published Relative Card Address. `0` until [`init`](Self::init)
    /// has run successfully.
    pub fn rca(&self) -> (a: u16)
        ensures
            a == self.rca,
    {
        self.rca
    }

    /// One call more was made of the run `asked` that began at `before`.
    spec fn stepped(
        self,
        mid: Self,
        before: Self,
        asked: Seq<Request>,
        outcome: Result<(), HostError>,
    ) -> bool {
        &&& self.rca == mid.rca
        &&& self.high_capacity == mid.high_capacity
        &&& self.bus_width == mid.bus_width
        &&& calls::continues(before.history(), self.history())
        &&& self.calls_since(before).drop_last() == mid.calls_since(before)
        &&& self.calls_since(before).len() == mid.calls_since(before).len() + 1
        &&& calls::run_result(self.calls_since(before)) == outcome
        &&& match outcome {
            Ok(_) => calls::underway(asked, self.calls_since(before)),
            Err(e) => calls::is_run(asked, self.calls_since(before)),
        }
    }

    /// The run `asked` that began at `before` has come so far that `next` is due.
    spec fn due(self, before: Self, asked: Seq<Request>, next: Request) -> bool {
        let t = self.calls_since(before);
        &&& calls::continues(before.history(), self.history())
        &&& calls::underway(asked, t)
        &&& t.len() < asked.len()
        &&& asked[t.len() as int] == next
    }

    proof fn lemma_stepped(self, mid: Self, before: Self, asked: Seq<Request>, x: HostCall)
        requires
            mid.due(before, asked, x.request()),
            self.history() == mid.history().push(x),
            self.rca == mid.rca,
            self.high_capacity == mid.high_capacity,
            self.bus_width == mid.bus_width,
        ensures
            self.stepped(mid, before, asked, x.outcome()),
            self.calls_since(before).last() == x,
    {
        calls::lemma_since_push(before.history(), mid.history(), x);
        calls::lemma_run_grows(asked, mid.calls_since(before), x);
        assert(self.calls_since(before).drop_last() =~= mid.calls_since(before));
    }

    /// Sends a command that is due.
    fn send(
        &mut self,
        cmd: &Command,
        Ghost(before): Ghost<Self>,
        Ghost(asked): Ghost<Seq<Request>>,
    ) -> (r: Result<Response, HostError>)
        requires
            old(self).due(before, asked, Request::Command(*cmd)),
        ensures
            final(self).stepped(
                *old(self),
                before,
                asked,
                (match r {
                    Ok(_) => Ok(()),
                    Err(e) => Err(e),
                }),
            ),
            final(self).calls_since(before).last() == HostCall::Command(*cmd, r),
    {
        let r = self.host.send_command(cmd);
        proof {
            self.lemma_stepped(*old(self), before, asked, HostCall::Command(*cmd, r));
        }
        r
    }

    /// Announces a data phase that is due.
    fn announce(
        &mut self,
        direction: DataDirection,
        block_size: u32,
        block_count: u32,
        Ghost(before): Ghost<Self>,
        Ghost(asked): Ghost<Seq<Request>>,
    ) -> (r: Result<(), HostError>)
        requires
            old(self).due(before, asked, Request::Prepare(direction, block_size, block_count)),
        ensures
            final(self).stepped(*old(self), before, asked, r),
    {
        let r = self.host.prepare_data_transfer(direction, block_size, block_count);
        proof {
            self.lemma_stepped(
                *old(self),
                before,
                asked,
                HostCall::Plain(Request::Prepare(direction, block_size, block_count), r),
            );
        }
        r
    }

    /// Announces the number of blocks, which is due.
    fn announce_count(
        &mut self,
        count: u32,
        Ghost(before): Ghost<Self>,
        Ghost(asked): Ghost<Seq<Request>>,
    ) -> (r: Result<(), HostError>)
        requires
            old(self).due(before, asked, Request::BlockCount(count)),
        ensures
            final(self).stepped(*old(self), before, asked, r),
    {
        let r = self.host.set_block_count(count);
        proof {
            self.lemma_stepped(
                *old(self),
                before,
                asked,
                HostCall::Plain(Request::BlockCount(count), r),
            );
        }
        r
    }

    /// Reads data, which is due.
    fn fetch(
        &mut self,
        buf: &mut [u8],
        block_size: u32,
        Ghost(before): Ghost<Self>,
        Ghost(asked): Ghost<Seq<Request>>,
    ) -> (r: Result<(), HostError>)
        requires
            old(self).due(before, asked, Request::Read(old(buf)@.len(), block_size)),
        ensures
            final(self).stepped(*old(self), before, asked, r),
            final(self).calls_since(before).last() == HostCall::Read(block_size, final(buf)@, r),
            final(buf)@.len() == old(buf)@.len(),
    {
        let r = self.host.read_data(buf, block_size);
        proof {
            self.lemma_stepped(*old(self), before, asked, HostCall::Read(block_size, buf@, r));
        }
        r
    }

    /// Writes data, which is due.
    fn store(
        &mut self,
        buf: &[u8],
        block_size: u32,
        Ghost(before): Ghost<Self>,
        Ghost(asked): Ghost<Seq<Request>>,
    ) -> (r: Result<(), HostError>)
        requires
            old(self).due(before, asked, Request::Write(buf@, block_size)),
        ensures
            final(self).stepped(*old(self), before, asked, r),
    {
        let r = self.host.write_data(buf, block_size);
        proof {
            self.lemma_stepped(
                *old(self),
                before,
                asked,
                HostCall::Plain(Request::Write(buf@, block_size), r),
            );
        }
        r
    }

    /// Sets the width of the host's bus, which is due.
    fn spread(
        &mut self,
        width: BusWidth,
        Ghost(before): Ghost<Self>,
        Ghost(asked): Ghost<Seq<Request>>,
    ) -> (r: Result<(), HostError>)
        requires
            old(self).due(before, asked, Request::Width(width)),
        ensures
            final(self).stepped(*old(self), before, asked, r),
    {
        let r = self.host.set_bus_width(width);
        proof {
            self.lemma_stepped(
                *old(self),
                before,
                asked,
                HostCall::Plain(Request::Width(width), r),
            );
        }
        r
    }

    /// Sets the speed of the host's clock, which is due.
    fn speed_up(
        &mut self,
        speed: ClockSpeed,
        Ghost(before): Ghost<Self>,
        Ghost(asked): Ghost<Seq<Request>>,
    ) -> (r: Result<(), HostError>)
        requires
            old(self).due(before, asked, Request::Clock(speed)),
        ensures
            final(self).stepped(*old(self), before, asked, r),
    {
        let r = self.host.set_clock(speed);
        proof {
            self.lemma_stepped(
                *old(self),
                before,
                asked,
                HostCall::Plain(Request::Clock(speed), r),
            );
        }
        r
    }

    // Initialization

    /// What the driver knows of the card after a step of initialization that
    /// polled it from its call `n` on.
    pub open spec fn knows(self, before: Self, n: int, r: Result<InitStep, HostError>) -> bool {
        &&& self.high_capacity == calls::class_after(
            self.calls_since(before),
            n,
            before.high_capacity,
        )
        &&& self.bus_width == calls::width_after(self.calls_since(before), n, before.bus_width)
        &&& self.rca == (match r {
            Ok(InitStep::Ready(info)) => info.rca,
            _ => before.rca,
        })
    }

    /// Initialize the card in SDIO mode
    ///
    /// A card that takes its time to power up has this return
    /// [`InitStep::Wait`]; the caller waits and calls
    /// [`resume_init`](Self::resume_init).
    pub fn init(&mut self) -> (r: Result<InitStep, HostError>)
        ensures
            calls::continues(old(self).history(), final(self).history()),
            calls::starts(final(self).calls_since(*old(self)), r),
            final(self).knows(*old(self), 3, r),
    {
        let ghost before = *self;
        let ghost asked = calls::probing();
        self.announce(DataDirection::NoData, 0, 0, Ghost(before), Ghost(asked))?;
        // CMD0: reset
        self.send(&cmd::cmd0(), Ghost(before), Ghost(asked))?;

        // CMD8: check SD v2
        let sd_v2 = self.check_cmd8(Ghost(before), Ghost(asked))?;
        let ghost probed = *self;
        let r = self.poll_power_up(sd_v2, 0);
        proof {
            calls::lemma_since_splits(before.history(), probed.history(), self.history());
        }
        r
    }

    /// Goes on with the initialization of a card that was powering up, once
    /// [`INIT_POLL_MS`] milliseconds have passed.
    pub fn resume_init(&mut self, wait: PowerUp) -> (r: Result<InitStep, HostError>)
        ensures
            calls::continues(old(self).history(), final(self).history()),
            calls::resumes(wait, final(self).calls_since(*old(self)), r),
            final(self).knows(*old(self), 1, r),
    {
        let ghost before = *self;
        let ghost asked = seq![calls::no_data()];
        self.announce(DataDirection::NoData, 0, 0, Ghost(before), Ghost(asked))?;
        let ghost cleared = *self;
        let r = self.poll_power_up(wait.sd_v2, wait.elapsed_ms);
        proof {
            calls::lemma_since_splits(before.history(), cleared.history(), self.history());
        }
        r
    }

    /// Check CMD8 response
    fn check_cmd8(
        &mut self,
        Ghost(before): Ghost<Self>,
        Ghost(asked): Ghost<Seq<Request>>,
    ) -> (r: Result<bool, HostError>)
        requires
            old(self).due(before, asked, calls::probing()[2]),
        ensures
            final(self).stepped(
                *old(self),
                before,
                asked,
                (match r {
                    Ok(_) => Ok(()),
                    Err(e) => Err(e),
                }),
            ),
            r matches Ok(sd_v2) ==> sd_v2 == calls::is_v2(
                final(self).calls_since(before).last().response(),
            ),
    {
        let cmd = cmd::cmd8(0x01, 0xAA);
        match self.send(&cmd, Ghost(before), Ghost(asked))? {
            Response::R7(resp) => Ok(resp.verify(0x01, 0xAA)),
            _ => Ok(false),
        }
    }

    /// Send ACMD41 once, and go on if the card is ready
    fn poll_power_up(&mut self, sd_v2: bool, elapsed_ms: u32) -> (r: Result<InitStep, HostError>)
        ensures
            calls::continues(old(self).history(), final(self).history()),
            calls::polls(sd_v2, elapsed_ms, final(self).calls_since(*old(self)), r),
            final(self).knows(*old(self), 0, r),
    {
        let ghost before = *self;
        let ghost asked = calls::polling(sd_v2);
        let cmd55 = cmd::cmd55(0);
        self.send(&cmd55, Ghost(before), Ghost(asked))?;

        let acmd41 = cmd::cmd41(sd_v2, 0xFF8000);
        match self.send(&acmd41, Ghost(before), Ghost(asked))? {
            Response::R3(ocr) => {
                if ocr.card_powered_up() {
                    let ghost polled = *self;
                    let r = self.identify(sd_v2, ocr);
                    proof {
                        calls::lemma_since_splits(
                            before.history(),
                            polled.history(),
                            self.history(),
                        );
                    }
                    return r;
                }
            },
            _ => return Err(HostError::BadResponse(ErrorContext::for_cmd(Phase::Init, 41))),
        }

        if elapsed_ms >= INIT_TIMEOUT_MS {
            return Err(HostError::Timeout(ErrorContext::for_cmd(Phase::Init, 41)));
        }
        Ok(InitStep::Wait(PowerUp { sd_v2, elapsed_ms: elapsed_ms + INIT_POLL_MS }))
    }

    /// Identify, select and widen a card that is powered up
    fn identify(&mut self, sd_v2: bool, ocr: OcrResponse) -> (r: Result<InitStep, HostError>)
        ensures
            calls::continues(old(self).history(), final(self).history()),
            calls::identifies(sd_v2, ocr, final(self).calls_since(*old(self)), r),
            final(self).high_capacity == (if final(self).calls_since(*old(self)).len() > 4 {
                bits::bit(ocr.raw, 30)
            } else {
                old(self).high_capacity
            }),
            final(self).bus_width == (if final(self).calls_since(*old(self)).len() > 7 {
                BusWidth::Bit4
            } else {
                old(self).bus_width
            }),
            final(self).rca == (match r {
                Ok(InitStep::Ready(info)) => info.rca,
                _ => old(self).rca,
            }),
    {
        let ghost before = *self;
        let ghost asked = calls::identifying();
        // CMD2: get CID
        let cid = match self.send(&cmd::cmd2(), Ghost(before), Ghost(asked))? {
            Response::R2(raw) => Some(CidResponse::from_raw(raw)),
            _ => None,
        };

        // CMD3: get RCA
        let rca = self.get_rca(Ghost(before), Ghost(asked))?;

        let ghost identified = *self;
        let r = self.select(sd_v2, ocr, cid, rca);
        proof {
            calls::lemma_since_splits(before.history(), identified.history(), self.history());
        }
        r
    }

    /// Select and widen the card at `rca`
    fn select(
        &mut self,
        sd_v2: bool,
        ocr: OcrResponse,
        cid: Option<CidResponse>,
        rca: u16,
    ) -> (r: Result<InitStep, HostError>)
        ensures
            calls::continues(old(self).history(), final(self).history()),
            ({
                let t = final(self).calls_since(*old(self));
                &&& calls::is_run(calls::selecting(rca), t)
                &&& match calls::run_result(t) {
                    Err(e) => {
                        &&& r == Err::<InitStep, HostError>(e)
                        &&& final(self).rca == old(self).rca
                    },
                    Ok(_) => {
                        &&& r matches Ok(InitStep::Ready(info))
                        &&& info.sd_v2 == sd_v2
                        &&& info.high_capacity == bits::bit(ocr.raw, 30)
                        &&& info.ocr == ocr.raw
                        &&& info.rca == rca
                        &&& info.capacity_blocks == calls::capacity_in(t[0].response())
                        &&& info.cid == cid
                        &&& final(self).rca == rca
                    },
                }
                &&& final(self).bus_width == (if t.len() > 5 {
                    BusWidth::Bit4
                } else {
                    old(self).bus_width
                })
                &&& final(self).high_capacity == (if t.len() > 2 {
                    bits::bit(ocr.raw, 30)
                } else {
                    old(self).high_capacity
                })
            }),
    {
        let ghost before = *self;
        let ghost asked = calls::selecting(rca);
        // CMD9: get CSD, derive capacity
        let cmd9 = cmd::cmd9(rca);
        let capacity_blocks = match self.send(&cmd9, Ghost(before), Ghost(asked))? {
            Response::R2(raw) => CsdResponse::from_raw(raw).capacity_blocks(),
            _ => None,
        };
        let ghost first = self.calls_since(before);

        // CMD7: select card
        let cmd7 = cmd::cmd7(rca);
        self.send(&cmd7, Ghost(before), Ghost(asked))?;

        self.high_capacity = ocr.ccs();

        // Set bus width to 4-bit
        let ghost selected = self.calls_since(before);
        proof {
            assert(selected.drop_last()[0] == first[0]);
            let rest = calls::widening(rca, BusWidth::Bit4);
            assert forall|i: int| 0 <= i < rest.len() implies asked[2 + i] == #[trigger] rest[i] by {}
        }
        self.widen(rca, BusWidth::Bit4, Ghost(before), Ghost(asked))?;
        let ghost widened = self.calls_since(before);
        assert(widened.take(2)[0] == selected[0]);

        // Leave identification speed
        self.speed_up(ClockSpeed::Default, Ghost(before), Ghost(asked))?;
        assert(self.calls_since(before).drop_last()[0] == widened[0]);

        // The card answers to its address from here on.
        self.rca = rca;
        Ok(
            InitStep::Ready(
                CardInfo {
                    sd_v2,
                    high_capacity: self.high_capacity,
                    ocr: ocr.raw,
                    rca,
                    capacity_blocks,
                    cid,
                },
            ),
        )
    }

    /// CMD3: get relative card address
    fn get_rca(
        &mut self,
        Ghost(before): Ghost<Self>,
        Ghost(asked): Ghost<Seq<Request>>,
    ) -> (r: Result<u16, HostError>)
        requires
            old(self).due(before, asked, calls::identifying()[1]),
        ensures
            ({
                let call = final(self).calls_since(before).last();
                &&& final(self).stepped(*old(self), before, asked, call.outcome())
                &&& r == (match call.outcome() {
                    Err(e) => Err(e),
                    Ok(_) => if call.response() is R6 {
                        Ok(calls::rca_in(call.response()))
                    } else {
                        Err(
                            HostError::BadResponse(
                                ErrorContext { phase: Phase::Init, cmd: Some(3) },
                            ),
                        )
                    },
                })
            }),
    {
        match self.send(&cmd::cmd3_sd(), Ghost(before), Ghost(asked))? {
            Response::R6(resp) => Ok(resp.rca()),
            _ => Err(HostError::BadResponse(ErrorContext::for_cmd(Phase::Init, 3))),
        }
    }

    /// Gives the bus of the card at `rca` another width, which is due.
    fn widen(
        &mut self,
        rca: u16,
        width: BusWidth,
        Ghost(before): Ghost<Self>,
        Ghost(asked): Ghost<Seq<Request>>,
    ) -> (r: Result<(), HostError>)
        requires
            calls::continues(before.history(), old(self).history()),
            calls::underway(asked, old(self).calls_since(before)),
            ({
                let n = old(self).calls_since(before).len() as int;
                let rest = calls::widening(rca, width);
                &&& n + rest.len() <= asked.len()
                &&& forall|i: int| 0 <= i < rest.len() ==> asked[n + i] == #[trigger] rest[i]
            }),
        ensures
            calls::continues(before.history(), final(self).history()),
            ({
                let n = old(self).calls_since(before).len() as int;
                let t = final(self).calls_since(before);
                &&& t.len() > n
                &&& t.take(n) == old(self).calls_since(before)
                &&& match r {
                    Ok(_) => {
                        &&& r == Ok::<(), HostError>(())
                        &&& width != BusWidth::Bit8
                        &&& calls::underway(asked, t)
                        &&& calls::run_result(t) is Ok
                        &&& t.len() == n + 3
                    },
                    Err(e) => {
                        ||| {
                            &&& calls::is_run(asked, t)
                            &&& calls::run_result(t) == Err::<(), HostError>(e)
                            &&& t.len() <= n + 3
                        }
                        ||| {
                            &&& width == BusWidth::Bit8
                            &&& e == HostError::UnsupportedCommand
                            &&& calls::underway(asked, t)
                            &&& calls::run_result(t) is Ok
                            &&& t.len() == n + 1
                        }
                    },
                }
            }),
            final(self).rca == old(self).rca,
            final(self).high_capacity == old(self).high_capacity,
            final(self).bus_width == (if r is Ok {
                width
            } else {
                old(self).bus_width
            }),
    {
        let ghost rest = calls::widening(rca, width);
        assert(rest[0] == asked[self.calls_since(before).len() as int]);
        // CMD55
        let cmd55 = cmd::cmd55(rca);
        self.send(&cmd55, Ghost(before), Ghost(asked))?;

        // ACMD6: set bus width. ACMD6 only encodes 1-bit or 4-bit. 8-bit
        // bus configuration on eMMC is done through MMC CMD6 (SWITCH) and is
        // not part of this driver's ACMD6 path.
        let arg: u32 = match width {
            BusWidth::Bit1 => 0,
            BusWidth::Bit4 => 2,
            BusWidth::Bit8 => return Err(HostError::UnsupportedCommand),
        };
        let acmd6 = Command::new(6, arg, ResponseType::R1);
        assert(rest[1] == asked[self.calls_since(before).len() as int]);
        self.send(&acmd6, Ghost(before), Ghost(asked))?;

        assert(rest[2] == asked[self.calls_since(before).len() as int]);
        self.spread(width, Ghost(before), Ghost(asked))?;
        self.bus_width = width;
        Ok(())
    }

    /// Switch bus width via ACMD6
    pub fn set_bus_width(&mut self, width: BusWidth) -> (r: Result<(), HostError>)
        ensures
            calls::continues(old(self).history(), final(self).history()),
            calls::is_run(
                seq![calls::no_data()] + calls::widening(old(self).rca, width),
                final(self).calls_since(*old(self)),
            ),
            r == (match calls::run_result(final(self).calls_since(*old(self))) {
                Ok(_) => if width == BusWidth::Bit8 {
                    Err(HostError::UnsupportedCommand)
                } else {
                    Ok(())
                },
                Err(e) => Err(e),
            }),
            final(self).rca == old(self).rca,
            final(self).high_capacity == old(self).high_capacity,
            final(self).bus_width == (if r is Ok {
                width
            } else {
                old(self).bus_width
            }),
    {
        let ghost before = *self;
        let ghost rest = calls::widening(self.rca, width);
        let ghost asked = seq![calls::no_data()] + rest;
        self.announce(DataDirection::NoData, 0, 0, Ghost(before), Ghost(asked))?;
        assert forall|i: int| 0 <= i < rest.len() implies asked[1 + i] == #[trigger] rest[i] by {}
        self.widen(self.rca, width, Ghost(before), Ghost(asked))
    }

    // Data transfer

    /// Read a single 512-byte block
    pub fn read_block(&mut self, addr: u32, buf: &mut [u8; 512]) -> (r: Result<(), HostError>)
        requires
            common::addressable(addr, old(self).high_capacity),
        ensures
            final(self).same_card(*old(self)),
            ({
                let arg = common::block_arg(addr, old(self).high_capacity) as u32;
                let t = final(self).calls_since(*old(self));
                &&& calls::is_run(
                    calls::one_block(DataDirection::Read, calls::r1(17, arg), Request::Read(512, 512)),
                    t,
                )
                &&& r == calls::run_result(t)
                &&& final(buf)@ == (if t.len() == 3 {
                    t[2].data()
                } else {
                    old(buf)@
                })
            }),
    {
        let ghost before = *self;
        let block_addr = block_addr_of(addr, self.high_capacity);
        let ghost asked = calls::one_block(
            DataDirection::Read,
            calls::r1(17, block_addr),
            Request::Read(512, 512),
        );
        self.announce(DataDirection::Read, 512, 1, Ghost(before), Ghost(asked))?;
        let cmd = cmd::cmd17(block_addr);
        self.send(&cmd, Ghost(before), Ghost(asked))?;
        self.fetch(buf, 512, Ghost(before), Ghost(asked))
    }

    /// Write a single 512-byte block
    pub fn write_block(&mut self, addr: u32, buf: &[u8; 512]) -> (r: Result<(), HostError>)
        requires
            common::addressable(addr, old(self).high_capacity),
        ensures
            final(self).same_card(*old(self)),
            ({
                let arg = common::block_arg(addr, old(self).high_capacity) as u32;
                let t = final(self).calls_since(*old(self));
                &&& calls::is_run(
                    calls::one_block(
                        DataDirection::Write,
                        calls::r1(24, arg),
                        Request::Write(buf@, 512),
                    ),
                    t,
                )
                &&& r == calls::run_result(t)
            }),
    {
        let ghost before = *self;
        let block_addr = block_addr_of(addr, self.high_capacity);
        let ghost asked = calls::one_block(
            DataDirection::Write,
            calls::r1(24, block_addr),
            Request::Write(buf@, 512),
        );
        self.announce(DataDirection::Write, 512, 1, Ghost(before), Ghost(asked))?;
        let cmd = cmd::cmd24(block_addr);
        self.send(&cmd, Ghost(before), Ghost(asked))?;
        self.store(buf, 512, Ghost(before), Ghost(asked))
    }

    /// Read multiple blocks
    ///
    /// `handler` gets each block that arrived, with its address, as
    /// [`read_blocks_into`](Self::read_blocks_into) hands them over.
    pub fn read_blocks<F>(&mut self, addr: u32, count: u32, handler: F) -> (r: Result<
        (),
        HostError,
    >) where F: FnMut(u32, &[u8; 512])
        requires
            common::addressable(addr, old(self).high_capacity),
            addr + count <= 0x1_0000_0000,
            forall|a: u32, b: &[u8; 512]| addr <= a < addr + count ==> call_requires(handler, (a, b)),
        ensures
            final(self).same_card(*old(self)),
            ({
                let arg = common::block_arg(addr, old(self).high_capacity) as u32;
                let t = final(self).calls_since(*old(self));
                &&& calls::is_run(
                    calls::many_blocks(
                        DataDirection::Read,
                        count,
                        calls::r1(18, arg),
                        calls::block_reads(count as nat),
                    ),
                    t,
                )
                &&& r == calls::run_result(t)
                &&& sink::handed_over(handler, addr, calls::arrived(t))
            }),
    {
        let mut sink: HandlerSink<F> = HandlerSink::new(handler);
        self.read_blocks_into(addr, count, &mut sink)
    }

    /// Read multiple blocks
    ///
    /// `sink` takes each block that arrived, once, in order, with its address,
    /// and nothing else.
    pub fn read_blocks_into<S: BlockSink>(
        &mut self,
        addr: u32,
        count: u32,
        sink: &mut S,
    ) -> (r: Result<(), HostError>)
        requires
            common::addressable(addr, old(self).high_capacity),
            addr + count <= 0x1_0000_0000,
            forall|a: u32| addr <= a < addr + count ==> #[trigger] old(sink).ready(a),
        ensures
            final(self).same_card(*old(self)),
            ({
                let arg = common::block_arg(addr, old(self).high_capacity) as u32;
                let t = final(self).calls_since(*old(self));
                &&& calls::is_run(
                    calls::many_blocks(
                        DataDirection::Read,
                        count,
                        calls::r1(18, arg),
                        calls::block_reads(count as nat),
                    ),
                    t,
                )
                &&& r == calls::run_result(t)
                &&& sink::took(*old(sink), *final(sink), addr, calls::arrived(t))
            }),
    {
        let ghost before = *self;
        let block_addr = block_addr_of(addr, self.high_capacity);
        let ghost asked = calls::many_blocks(
            DataDirection::Read,
            count,
            calls::r1(18, block_addr),
            calls::block_reads(count as nat),
        );
        proof {
            sink::lemma_took_nothing(*sink, addr);
            assert forall|t: Seq<HostCall>| t.len() <= 4 implies #[trigger] calls::arrived(t)
                == Seq::<Seq<u8>>::empty() by {
                assert(calls::arrived(t) =~= Seq::<Seq<u8>>::empty());
            }
        }
        self.announce(DataDirection::Read, 512, count, Ghost(before), Ghost(asked))?;
        self.announce_count(count, Ghost(before), Ghost(asked))?;
        let cmd = cmd::cmd18(block_addr);
        self.send(&cmd, Ghost(before), Ghost(asked))?;

        let ghost mut blocks: Seq<Seq<u8>> = Seq::empty();
        let mut buf: [u8; 512] = [0u8; 512];
        let mut i: u32 = 0;
        while i < count
            invariant
                i <= count,
                addr + count <= 0x1_0000_0000,
                forall|a: u32| addr <= a < addr + count ==> #[trigger] old(sink).ready(a),
                before == *old(self),
                self.same_card(before),
                block_addr == common::block_arg(addr, before.high_capacity) as u32,
                asked == calls::many_blocks(
                    DataDirection::Read,
                    count,
                    calls::r1(18, block_addr),
                    calls::block_reads(count as nat),
                ),
                self.calls_since(before).len() == 3 + i,
                calls::underway(asked, self.calls_since(before)),
                blocks.len() == i,
                forall|j: int|
                    #![trigger blocks[j]]
                    0 <= j < i ==> blocks[j] == self.calls_since(before)[3 + j].data(),
                sink::took(*old(sink), *sink, addr, blocks),
            decreases count - i,
        {
            let ghost so_far = self.calls_since(before);
            let fetched = self.fetch(&mut buf, 512, Ghost(before), Ghost(asked));
            proof {
                let t = self.calls_since(before);
                assert forall|j: int| 0 <= j < so_far.len() implies #[trigger] t[j] == so_far[j] by {
                    assert(t.drop_last()[j] == so_far[j]);
                }
                assert(calls::arrived(t) =~= blocks);
            }
            fetched?;
            let ghost mid = *sink;
            assert(old(sink).ready((addr + i) as u32));
            sink.take(addr + i, &buf);
            proof {
                sink::lemma_took_one_more(*old(sink), mid, *sink, addr, blocks, buf@);
                blocks = blocks.push(buf@);
            }
            i = i + 1;
        }

        let ghost so_far = self.calls_since(before);
        // CMD12: stop
        let stopped = self.send(&cmd::cmd12(), Ghost(before), Ghost(asked));
        proof {
            let t = self.calls_since(before);
            assert forall|j: int| 0 <= j < so_far.len() implies #[trigger] t[j] == so_far[j] by {
                assert(t.drop_last()[j] == so_far[j]);
            }
            assert(calls::arrived(t) =~= blocks);
        }
        stopped?;
        Ok(())
    }

    /// Write multiple blocks
    pub fn write_blocks(&mut self, addr: u32, blocks: &[[u8; 512]]) -> (r: Result<(), HostError>)
        requires
            common::addressable(addr, old(self).high_capacity),
        ensures
            final(self).same_card(*old(self)),
            ({
                let arg = common::block_arg(addr, old(self).high_capacity) as u32;
                let t = final(self).calls_since(*old(self));
                &&& calls::is_run(
                    calls::many_blocks(
                        DataDirection::Write,
                        blocks@.len() as u32,
                        calls::r1(25, arg),
                        calls::block_writes(blocks@),
                    ),
                    t,
                )
                &&& r == calls::run_result(t)
            }),
    {
        let ghost before = *self;
        let block_addr = block_addr_of(addr, self.high_capacity);
        let count: u32 = #[verifier::truncate] (blocks.len() as u32);
        let ghost asked = calls::many_blocks(
            DataDirection::Write,
            count,
            calls::r1(25, block_addr),
            calls::block_writes(blocks@),
        );
        self.announce(DataDirection::Write, 512, count, Ghost(before), Ghost(asked))?;
        self.announce_count(count, Ghost(before), Ghost(asked))?;
        let cmd = cmd::cmd25(block_addr);
        self.send(&cmd, Ghost(before), Ghost(asked))?;

        let mut i: usize = 0;
        while i < blocks.len()
            invariant
                i <= blocks@.len(),
                count == blocks@.len() as u32,
                before == *old(self),
                self.same_card(before),
                block_addr == common::block_arg(addr, before.high_capacity) as u32,
                asked == calls::many_blocks(
                    DataDirection::Write,
                    count,
                    calls::r1(25, block_addr),
                    calls::block_writes(blocks@),
                ),
                self.calls_since(before).len() == 3 + i,
                calls::underway(asked, self.calls_since(before)),
            decreases blocks@.len() - i,
        {
            self.store(&blocks[i], 512, Ghost(before), Ghost(asked))?;
            i = i + 1;
        }

        // CMD12: stop
        self.send(&cmd::cmd12(), Ghost(before), Ghost(asked))?;
        Ok(())
    }

    /// Erase a range of blocks
    pub fn erase(&mut self, start: u32, end: u32) -> (r: Result<(), HostError>)
        requires
            common::addressable(start, old(self).high_capacity),
            common::addressable(end, old(self).high_capacity),
        ensures
            final(self).same_card(*old(self)),
            ({
                let first = common::block_arg(start, old(self).high_capacity) as u32;
                let last = common::block_arg(end, old(self).high_capacity) as u32;
                let t = final(self).calls_since(*old(self));
                &&& calls::is_run(calls::erasing(first, last), t)
                &&& r == calls::run_result(t)
            }),
    {
        let ghost before = *self;
        let start_addr = block_addr_of(start, self.high_capacity);
        let end_addr = block_addr_of(end, self.high_capacity);
        let ghost asked = calls::erasing(start_addr, end_addr);
        self.announce(DataDirection::NoData, 0, 0, Ghost(before), Ghost(asked))?;

        let cmd32 = cmd::cmd32(start_addr);
        self.send(&cmd32, Ghost(before), Ghost(asked))?;

        let cmd33 = cmd::cmd33(end_addr);
        self.send(&cmd33, Ghost(before), Ghost(asked))?;

        self.send(&cmd::cmd38(), Ghost(before), Ghost(asked))?;
        Ok(())
    }

    /// Get card status
    pub fn status(&mut self) -> (r: Result<CardState, HostError>)
        ensures
            final(self).same_card(*old(self)),
            ({
                let t = final(self).calls_since(*old(self));
                &&& calls::is_run(
                    seq![
                        calls::no_data(),
                        calls::addressed(13, old(self).rca, ResponseType::R1),
                    ],
                    t,
                )
                &&& r == (match calls::run_result(t) {
                    Ok(_) => match t[1].response() {
                        Response::R1(r1) => Ok(
                            response::card_state_of((r1.raw / 0x1000 % 0x10) as int),
                        ),
                        _ => Err(
                            HostError::BadResponse(
                                ErrorContext { phase: Phase::ResponseWait, cmd: Some(13) },
                            ),
                        ),
                    },
                    Err(e) => Err(e),
                })
            }),
    {
        let ghost before = *self;
        let ghost asked = seq![
            calls::no_data(),
            calls::addressed(13, self.rca, ResponseType::R1),
        ];
        self.announce(DataDirection::NoData, 0, 0, Ghost(before), Ghost(asked))?;
        let cmd13 = cmd::cmd13(self.rca);
        match self.send(&cmd13, Ghost(before), Ghost(asked))? {
            Response::R1(r1) => Ok(r1.current_state()),
            _ => Err(HostError::BadResponse(ErrorContext::for_cmd(Phase::ResponseWait, 13))),
        }
    }

    /// Issue a CMD6 SWITCH_FUNC and read back the 64-byte status block.
    ///
    /// Use [`SdioSdmmc::switch_to_high_speed`] for the most common case
    /// (group 1 → high-speed). This lower-level entry point exposes the
    /// raw [`SwitchStatus`] for callers that need to inspect other groups.
    pub fn switch_function(&mut self, cmd: &Command) -> (r: Result<SwitchStatus, HostError>)
        ensures
            final(self).same_card(*old(self)),
            ({
                let t = final(self).calls_since(*old(self));
                &&& calls::is_run(calls::switching(*cmd), t)
                &&& match calls::run_result(t) {
                    Ok(_) => r matches Ok(status) && status.raw@ == t[2].data(),
                    Err(e) => r == Err::<SwitchStatus, HostError>(e),
                }
            }),
    {
        let ghost before = *self;
        let ghost asked = calls::switching(*cmd);
        // CMD6 SWITCH_FUNC has a 64-byte read data phase. The host
        // can't infer this from the command index alone (ACMD6 also uses
        // index 6 with no data phase), so signal it explicitly here.
        self.announce(DataDirection::Read, 64, 1, Ghost(before), Ghost(asked))?;
        self.send(cmd, Ghost(before), Ghost(asked))?;
        let mut buf: [u8; 64] = [0u8; 64];
        self.fetch(&mut buf, 64, Ghost(before), Ghost(asked))?;
        Ok(SwitchStatus::from_raw(buf))
    }

    /// Switch the card to high-speed (50 MHz) by issuing CMD6 with mode=1
    /// and group 1 = 1. Returns `Ok(true)` if the card reports high-speed
    /// active; `Ok(false)` if it acknowledged the command but didn't switch
    /// (e.g. unsupported); `Err` if the bus transaction itself failed.
    ///
    /// The host is responsible for actually raising the bus clock after this
    /// returns success; this driver only handles the protocol-level switch.
    pub fn switch_to_high_speed(&mut self) -> (r: Result<bool, HostError>)
        ensures
            final(self).same_card(*old(self)),
            ({
                let t = final(self).calls_since(*old(self));
                &&& calls::is_run(
                    calls::switching(
                        Command { cmd: 6, arg: 0x80FF_FFF1, resp_type: ResponseType::R1 },
                    ),
                    t,
                )
                &&& r == (match calls::run_result(t) {
                    Ok(_) => Ok::<bool, HostError>(t[2].data()[16] % 16 == 1),
                    Err(e) => Err(e),
                })
            }),
    {
        let status = self.switch_function(&cmd::cmd6_high_speed(true))?;
        Ok(status.high_speed_active())
    }
}

/// Card information obtained during SDIO initialization
#[derive(Debug, Clone, Copy)]
pub struct CardInfo {
    pub sd_v2: bool,
    pub high_capacity: bool,
    pub ocr: u32,
    pub rca: u16,
    /// User-data capacity in 512-byte blocks, parsed from the CSD.
    /// `None` if the CSD reports a structure version we do not yet support.
    pub capacity_blocks: Option<u64>,
    /// Card identification register (manufacturer / OEM / serial / date).
    /// `None` if the host returned an unexpected response type to CMD2.
    pub cid: Option<CidResponse>,
}

} // verus!
