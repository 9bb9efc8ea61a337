//! SPI mode transport layer for SD/MMC cards
//!
//! Usage: implement [`SpiTransport`] for your platform's SPI peripheral,
//! then use [`SpiSdmmc`] to interact with the card.
use vstd::prelude::*;

use crate::bits::from_be_bytes;
use crate::cmd::{self, Command};
use crate::common::{self, block_addr_of};
use crate::error::Error;
use crate::response::{
    CsdResponse, IfCondResponse, OcrResponse, R1Response, Response, ResponseType,
};
use crate::sink::{self, BlockSink, HandlerSink};
use crate::traffic::{self, CardMode, Exchange};

verus! {

/// Token markers for SPI mode data transfer
const TOKEN_START_BLOCK: u8 = 0xFE;

const TOKEN_START_MULTI_BLOCK: u8 = 0xFC;

const TOKEN_STOP_TRAN: u8 = 0xFD;

/// Exactly one byte passed over the bus, and it was `byte`.
pub open spec fn one_exchange(before: Seq<Exchange>, after: Seq<Exchange>, byte: u8) -> bool {
    &&& after.len() == before.len() + 1
    &&& after.drop_last() == before
    &&& after.last().tx == byte
}

/// SPI transport trait: users implement this for their platform
pub trait SpiTransport {
    /// Every exchange made over this transport, in order.
    ///
    /// An implementation whose contracts are proved says here what its exchanges
    /// are; one written in plain Rust leaves the function out.
    closed spec fn history(&self) -> Seq<Exchange> {
        Seq::empty()
    }

    /// Send and receive a single byte
    fn transfer_byte(&mut self, byte: u8) -> (r: Result<u8, Error>)
        ensures
            one_exchange(old(self).history(), final(self).history(), byte),
            final(self).history().last().rx == r,
    ;

    /// Send a byte (ignore response)
    fn send_byte(&mut self, byte: u8) -> (r: Result<(), Error>)
        ensures
            one_exchange(old(self).history(), final(self).history(), byte),
            r == (match final(self).history().last().rx {
                Ok(_) => Ok::<(), Error>(()),
                Err(e) => Err(e),
            }),
    {
        self.transfer_byte(byte)?;
        Ok(())
    }

    /// Send 8 clock cycles (write 0xFF)
    fn clock(&mut self) -> (r: Result<(), Error>)
        ensures
            one_exchange(old(self).history(), final(self).history(), 0xFF),
            r == (match final(self).history().last().rx {
                Ok(_) => Ok::<(), Error>(()),
                Err(e) => Err(e),
            }),
    {
        self.transfer_byte(0xFF)?;
        Ok(())
    }
}

/// Wrapper that owns an SPI device
pub struct SpiDeviceWrapper<SPI> {
    pub spi: SPI,
}

impl<SPI> SpiDeviceWrapper<SPI> {
    pub fn new(spi: SPI) -> (w: Self)
        ensures
            w.spi == spi,
    {
        SpiDeviceWrapper { spi }
    }
}

/// SPI mode SD/MMC driver
pub struct SpiSdmmc<T: SpiTransport> {
    pub transport: T,
    pub sd_v2: bool,
    pub high_capacity: bool,
}

impl<T: SpiTransport> SpiSdmmc<T> {
    /// Every exchange made over the driver's transport.
    pub open spec fn history(&self) -> Seq<Exchange> {
        self.transport.history()
    }

    /// The driver took part in nothing but traffic.
    pub open spec fn same_card(self, before: Self) -> bool {
        &&& self.sd_v2 == before.sd_v2
        &&& self.high_capacity == before.high_capacity
        &&& traffic::continues(before.history(), self.history())
    }

    /// The exchanges made since `before`.
    pub open spec fn exchanges_since(self, before: Self) -> Seq<Exchange> {
        traffic::since(before.history(), self.history())
    }

    pub fn new(transport: T) -> (d: Self)
        ensures
            d == (SpiSdmmc { transport, sd_v2: false, high_capacity: false }),
    {
        SpiSdmmc { transport, sd_v2: false, high_capacity: false }
    }

    /// What the driver knows about the card.
    pub open spec fn mode(self) -> CardMode {
        CardMode { sd_v2: self.sd_v2, high_capacity: self.high_capacity }
    }

    /// Two steps make up one stretch of traffic.
    proof fn lemma_join(a: Self, b: Self, c: Self)
        requires
            traffic::continues(a.history(), b.history()),
            traffic::continues(b.history(), c.history()),
        ensures
            traffic::continues(a.history(), c.history()),
            c.exchanges_since(a).len() == b.exchanges_since(a).len() + c.exchanges_since(b).len(),
            c.exchanges_since(a).take(b.exchanges_since(a).len() as int) == b.exchanges_since(a),
            c.exchanges_since(a).skip(b.exchanges_since(a).len() as int) == c.exchanges_since(b),
    {
        traffic::lemma_since_splits(a.history(), b.history(), c.history());
    }

    /// Two strings sent one after the other.
    proof fn lemma_runs(a: Self, b: Self, c: Self, first: Seq<u8>, second: Seq<u8>)
        requires
            traffic::continues(a.history(), b.history()),
            traffic::continues(b.history(), c.history()),
            traffic::is_run(first, b.exchanges_since(a)),
            traffic::run_result(b.exchanges_since(a)) is Ok,
            traffic::is_run(second, c.exchanges_since(b)),
        ensures
            traffic::continues(a.history(), c.history()),
            second.len() > 0 ==> traffic::is_run(first + second, c.exchanges_since(a)),
            second.len() > 0 ==> traffic::run_result(c.exchanges_since(a)) == traffic::run_result(
                c.exchanges_since(b),
            ),
    {
        Self::lemma_join(a, b, c);
        let t = c.exchanges_since(a);
        let t1 = b.exchanges_since(a);
        let t2 = c.exchanges_since(b);
        assert forall|i: int| 0 <= i < t1.len() implies #[trigger] t[i] == t1[i] by {
            assert(t.take(t1.len() as int)[i] == t[i]);
        }
        assert forall|i: int| t1.len() <= i < t.len() implies #[trigger] t[i] == t2[i - t1.len()] by {
            assert(t.skip(t1.len() as int)[i - t1.len()] == t[i]);
        }
    }

    /// One step alone makes up the traffic.
    proof fn lemma_alone(a: Self, b: Self)
        requires
            traffic::continues(a.history(), b.history()),
        ensures
            b.exchanges_since(a).take(b.exchanges_since(a).len() as int) == b.exchanges_since(a),
            b.exchanges_since(b).len() == 0,
    {
        assert(b.exchanges_since(a).take(b.exchanges_since(a).len() as int)
            =~= b.exchanges_since(a));
    }

    // Initialization

    /// Initialize the card. Must be called before any other operation.
    ///
    /// Performs the standard SD card initialization sequence:
    /// 1. Send 80 clock cycles (CMD0 preamble)
    /// 2. CMD0: idle
    /// 3. CMD8: detect SD v2
    /// 4. ACMD41: wait for card ready
    /// 5. CMD58: determine capacity type (SDHC vs SDSC)
    /// 6. CMD9: determine the capacity
    pub fn init(&mut self) -> (r: Result<CardInfo, Error>)
        ensures
            traffic::continues(old(self).history(), final(self).history()),
            traffic::initializes(
                old(self).mode(),
                final(self).exchanges_since(*old(self)),
                final(self).mode(),
                r,
            ),
    {
        let mut i: u32 = 0;
        while i < 10
            invariant
                i <= 10,
                self.same_card(*old(self)),
                self.exchanges_since(*old(self)).len() == i,
                forall|j: int|
                    0 <= j < i ==> {
                        let x = #[trigger] self.exchanges_since(*old(self))[j];
                        x.tx == 0xFF && x.rx is Ok
                    },
            decreases 10 - i,
        {
            let ghost before = self.history();
            let clocked: Result<(), Error> = self.transport.clock();
            proof {
                let x = self.history().last();
                assert(self.history() =~= before.push(x));
                traffic::lemma_since_push(old(self).history(), before, x);
            }
            match clocked {
                Ok(_) => {},
                Err(e) => {
                    proof {
                        Self::lemma_alone(*old(self), *self);
                    }
                    return Err(e);
                },
            }
            i = i + 1;
        }
        let ghost clocked = *self;
        proof {
            Self::lemma_alone(*old(self), clocked);
        }
        let r: Result<CardInfo, Error> = self.init_from_reset();
        proof {
            Self::lemma_join(*old(self), clocked, *self);
        }
        r
    }

    /// Initialization from the reset command on.
    fn init_from_reset(&mut self) -> (r: Result<CardInfo, Error>)
        ensures
            traffic::continues(old(self).history(), final(self).history()),
            traffic::init_from_reset(
                old(self).mode(),
                final(self).exchanges_since(*old(self)),
                final(self).mode(),
                r,
            ),
    {
        let reset: Result<R1Response, Error> = self.send_command(&cmd::cmd0());
        let ghost after_reset = *self;
        match reset {
            Ok(_) => {},
            Err(e) => {
                proof {
                    Self::lemma_alone(*old(self), *self);
                }
                return Err(e);
            },
        }
        let probed: Result<bool, Error> = self.check_cmd8();
        match probed {
            Ok(sd_v2) => {
                self.sd_v2 = sd_v2;
            },
            Err(e) => {
                proof {
                    Self::lemma_alone(after_reset, *self);
                    Self::lemma_join(*old(self), after_reset, *self);
                }
                return Err(e);
            },
        }
        let ghost after_probe = *self;
        let ghost probed_mode = self.mode();
        let ready: Result<(), Error> = self.wait_ready();
        let ghost after_ready = *self;
        match ready {
            Ok(_) => {},
            Err(e) => {
                proof {
                    Self::lemma_alone(after_probe, *self);
                    let t = self.exchanges_since(after_probe);
                    assert(traffic::starts(probed_mode.sd_v2, t.take(t.len() as int), ready));
                    assert(traffic::init_from_start(
                        probed_mode,
                        self.exchanges_since(after_probe),
                        self.mode(),
                        Err(e),
                    ));
                    Self::lemma_join(after_reset, after_probe, *self);
                    Self::lemma_join(*old(self), after_reset, *self);
                }
                return Err(e);
            },
        }
        let r: Result<CardInfo, Error> = self.init_from_ocr();
        proof {
            Self::lemma_join(after_probe, after_ready, *self);
            let t = self.exchanges_since(after_probe);
            let n = after_ready.exchanges_since(after_probe).len() as int;
            assert(traffic::starts(probed_mode.sd_v2, t.take(n), ready));
            assert(traffic::init_from_start(
                probed_mode,
                self.exchanges_since(after_probe),
                self.mode(),
                r,
            ));
            Self::lemma_join(after_reset, after_probe, *self);
            Self::lemma_join(*old(self), after_reset, *self);
        }
        r
    }

    /// Initialization from the OCR on.
    fn init_from_ocr(&mut self) -> (r: Result<CardInfo, Error>)
        ensures
            traffic::continues(old(self).history(), final(self).history()),
            final(self).sd_v2 == old(self).sd_v2,
            traffic::init_from_ocr(
                old(self).mode(),
                final(self).exchanges_since(*old(self)),
                final(self).mode(),
                r,
            ),
    {
        let read: Result<OcrResponse, Error> = self.read_ocr();
        proof {
            Self::lemma_alone(*old(self), *self);
        }
        let ocr: OcrResponse = match read {
            Ok(ocr) => ocr,
            Err(e) => {
                return Err(e);
            },
        };
        self.high_capacity = ocr.ccs();
        let ghost after_ocr = *self;
        let capacity_blocks: Option<u64> = self.read_capacity();
        let r: Result<CardInfo, Error> = Ok(
            CardInfo {
                sd_v2: self.sd_v2,
                high_capacity: self.high_capacity,
                ocr: ocr.raw,
                capacity_blocks,
            },
        );
        proof {
            assert(traffic::init_from_csd(
                self.mode(),
                ocr,
                self.exchanges_since(after_ocr),
                r,
            ));
            Self::lemma_join(*old(self), after_ocr, *self);
            let t = self.exchanges_since(*old(self));
            let n = after_ocr.exchanges_since(*old(self)).len() as int;
            assert(traffic::reads_ocr(t.take(n), read));
        }
        r
    }

    /// CMD9: the capacity in 512-byte blocks, if the card states it in a known way
    fn read_capacity(&mut self) -> (c: Option<u64>)
        ensures
            final(self).same_card(*old(self)),
            traffic::reads_capacity(final(self).exchanges_since(*old(self)), c),
    {
        match self.send_command_raw(&cmd::cmd9(0)) {
            Ok(Response::R2(raw)) => CsdResponse::from_raw(raw).capacity_blocks(),
            _ => None,
        }
    }

    fn check_cmd8(&mut self) -> (r: Result<bool, Error>)
        ensures
            final(self).same_card(*old(self)),
            traffic::probes(final(self).exchanges_since(*old(self)), r),
    {
        let c: Command = cmd::cmd8(0x01, 0xAA);
        match self.send_command_raw(&c) {
            Ok(Response::R7(resp)) => Ok(resp.verify(0x01, 0xAA)),
            Ok(Response::R1(resp)) => {
                if resp.illegal_command() {
                    Ok(false)
                } else {
                    Err(Error::BadResponse)
                }
            },
            Ok(_) => Err(Error::BadResponse),
            Err(Error::Timeout) => Ok(false),
            Err(e) => Err(e),
        }
    }

    /// One attempt to start the card: whether it has left the idle state.
    fn start_round(&mut self) -> (r: Result<bool, Error>)
        ensures
            final(self).same_card(*old(self)),
            traffic::start_round(
                old(self).sd_v2,
                final(self).exchanges_since(*old(self)),
                r,
            ),
    {
        let app: Result<R1Response, Error> = self.send_command(&cmd::cmd55(0));
        let ghost after_app = *self;
        match app {
            Ok(_) => {},
            Err(e) => {
                proof {
                    Self::lemma_alone(*old(self), *self);
                }
                return Err(e);
            },
        }
        let acmd41: Command = cmd::cmd41(self.sd_v2, 0xFF8000);
        let spi_acmd41: Command = acmd41.with_resp_type(ResponseType::R1);
        let r: Result<bool, Error> = match self.send_command_raw(&spi_acmd41) {
            Ok(Response::R1(r1)) => Ok(!r1.idle()),
            Ok(_) => Err(Error::BadResponse),
            Err(e) => Err(e),
        };
        proof {
            Self::lemma_join(*old(self), after_app, *self);
        }
        r
    }

    fn wait_ready(&mut self) -> (r: Result<(), Error>)
        ensures
            final(self).same_card(*old(self)),
            traffic::starts(old(self).sd_v2, final(self).exchanges_since(*old(self)), r),
    {
        let mut i: u32 = 0;
        while i < 1000
            invariant
                i <= 1000,
                self.same_card(*old(self)),
                traffic::still_idle(
                    i as nat,
                    old(self).sd_v2,
                    self.exchanges_since(*old(self)),
                ),
            decreases 1000 - i,
        {
            let ghost before = *self;
            let round: Result<bool, Error> = self.start_round();
            proof {
                Self::lemma_join(*old(self), before, *self);
            }
            match round {
                Ok(true) => {
                    return Ok(());
                },
                Ok(false) => {},
                Err(e) => {
                    return Err(e);
                },
            }
            i = i + 1;
        }
        proof {
            Self::lemma_alone(*old(self), *self);
        }
        Err(Error::Timeout)
    }

    fn read_ocr(&mut self) -> (r: Result<OcrResponse, Error>)
        ensures
            final(self).same_card(*old(self)),
            traffic::reads_ocr(final(self).exchanges_since(*old(self)), r),
    {
        match self.send_command_raw(&cmd::cmd58()) {
            Ok(Response::R3(ocr)) => Ok(ocr),
            Ok(_) => Err(Error::BadResponse),
            Err(e) => Err(e),
        }
    }

    // Data transfer

    /// Read a single 512-byte block at the given address
    pub fn read_block(&mut self, addr: u32, buf: &mut [u8; 512]) -> (r: Result<(), Error>)
        requires
            common::addressable(addr, old(self).high_capacity),
        ensures
            final(self).same_card(*old(self)),
            traffic::reads_single(
                common::block_arg(addr, old(self).high_capacity) as u32,
                final(self).exchanges_since(*old(self)),
                old(buf)@,
                final(buf)@,
                r,
            ),
    {
        let block_addr: u32 = self.block_addr(addr);
        let sent: Result<R1Response, Error> = self.send_command(&cmd::cmd17(block_addr));
        let ghost after_command = *self;
        proof {
            Self::lemma_alone(*old(self), *self);
        }
        match sent {
            Ok(_) => {},
            Err(e) => {
                return Err(e);
            },
        }
        let r: Result<(), Error> = self.read_data_block(buf);
        proof {
            Self::lemma_join(*old(self), after_command, *self);
        }
        r
    }

    /// Write a single 512-byte block at the given address
    pub fn write_block(&mut self, addr: u32, buf: &[u8; 512]) -> (r: Result<(), Error>)
        requires
            common::addressable(addr, old(self).high_capacity),
        ensures
            final(self).same_card(*old(self)),
            traffic::writes_single(
                common::block_arg(addr, old(self).high_capacity) as u32,
                buf@,
                final(self).exchanges_since(*old(self)),
                r,
            ),
    {
        let block_addr: u32 = self.block_addr(addr);
        let sent: Result<R1Response, Error> = self.send_command(&cmd::cmd24(block_addr));
        let ghost after_command = *self;
        proof {
            Self::lemma_alone(*old(self), *self);
        }
        match sent {
            Ok(_) => {},
            Err(e) => {
                return Err(e);
            },
        }
        let r: Result<(), Error> = self.write_data_block(TOKEN_START_BLOCK, buf);
        proof {
            Self::lemma_join(*old(self), after_command, *self);
        }
        r
    }

    /// Read multiple blocks starting at `addr`
    ///
    /// `handler` gets each block that arrived, with its address, as
    /// [`read_blocks_into`](Self::read_blocks_into) hands them over.
    pub fn read_blocks<F>(&mut self, addr: u32, count: u32, handler: F) -> (r: Result<
        (),
        Error,
    >) where F: FnMut(u32, &[u8; 512])
        requires
            common::addressable(addr, old(self).high_capacity),
            addr + count <= 0x1_0000_0000,
            forall|a: u32, b: &[u8; 512]| addr <= a < addr + count ==> call_requires(handler, (a, b)),
        ensures
            final(self).same_card(*old(self)),
            exists|blocks: Seq<Seq<u8>>|
                {
                    &&& #[trigger] traffic::reads_many(
                        common::block_arg(addr, old(self).high_capacity) as u32,
                        count as nat,
                        blocks,
                        final(self).exchanges_since(*old(self)),
                        r,
                    )
                    &&& sink::handed_over(handler, addr, blocks)
                },
    {
        let mut sink: HandlerSink<F> = HandlerSink::new(handler);
        self.read_blocks_into(addr, count, &mut sink)
    }

    /// Read multiple blocks starting at `addr`
    ///
    /// `sink` takes each block that arrived, once, in order, with its address,
    /// and nothing else.
    pub fn read_blocks_into<S: BlockSink>(
        &mut self,
        addr: u32,
        count: u32,
        sink: &mut S,
    ) -> (r: Result<(), Error>)
        requires
            common::addressable(addr, old(self).high_capacity),
            addr + count <= 0x1_0000_0000,
            forall|a: u32| addr <= a < addr + count ==> #[trigger] old(sink).ready(a),
        ensures
            final(self).same_card(*old(self)),
            exists|blocks: Seq<Seq<u8>>|
                {
                    &&& #[trigger] traffic::reads_many(
                        common::block_arg(addr, old(self).high_capacity) as u32,
                        count as nat,
                        blocks,
                        final(self).exchanges_since(*old(self)),
                        r,
                    )
                    &&& sink::took(*old(sink), *final(sink), addr, blocks)
                },
    {
        let block_addr: u32 = self.block_addr(addr);
        let sent: Result<R1Response, Error> = self.send_command(&cmd::cmd18(block_addr));
        let ghost after_command = *self;
        proof {
            Self::lemma_alone(*old(self), *self);
        }
        match sent {
            Ok(_) => {},
            Err(e) => {
                proof {
                    sink::lemma_took_nothing(*sink, addr);
                    assert(traffic::reads_many(
                        common::block_arg(addr, old(self).high_capacity) as u32,
                        count as nat,
                        Seq::empty(),
                        self.exchanges_since(*old(self)),
                        Err(e),
                    ));
                }
                return Err(e);
            },
        }
        let r: Result<(), Error> = self.stream_blocks(addr, count, sink);
        proof {
            Self::lemma_join(*old(self), after_command, *self);
            let blocks = choose|blocks: Seq<Seq<u8>>|
                {
                    &&& #[trigger] traffic::streams(
                        count as nat,
                        blocks,
                        self.exchanges_since(after_command),
                        r,
                    )
                    &&& sink::took(*old(sink), *sink, addr, blocks)
                };
            assert(traffic::reads_many(
                common::block_arg(addr, old(self).high_capacity) as u32,
                count as nat,
                blocks,
                self.exchanges_since(*old(self)),
                r,
            ));
        }
        r
    }

    /// The data phase of a multi-block read.
    fn stream_blocks<S: BlockSink>(&mut self, addr: u32, count: u32, sink: &mut S) -> (r: Result<
        (),
        Error,
    >)
        requires
            addr + count <= 0x1_0000_0000,
            forall|a: u32| addr <= a < addr + count ==> #[trigger] old(sink).ready(a),
        ensures
            final(self).same_card(*old(self)),
            exists|blocks: Seq<Seq<u8>>|
                {
                    &&& #[trigger] traffic::streams(
                        count as nat,
                        blocks,
                        final(self).exchanges_since(*old(self)),
                        r,
                    )
                    &&& sink::took(*old(sink), *final(sink), addr, blocks)
                },
    {
        let ghost mut blocks: Seq<Seq<u8>> = Seq::empty();
        proof {
            sink::lemma_took_nothing(*sink, addr);
        }
        let mut buf: [u8; 512] = [0u8; 512];
        let mut i: u32 = 0;
        while i < count
            invariant
                i <= count,
                addr + count <= 0x1_0000_0000,
                forall|a: u32| addr <= a < addr + count ==> #[trigger] old(sink).ready(a),
                blocks.len() == i,
                self.same_card(*old(self)),
                traffic::delivers_all(self.exchanges_since(*old(self)), blocks),
                sink::took(*old(sink), *sink, addr, blocks),
            decreases count - i,
        {
            let ghost before = *self;
            let ghost old_buf = buf@;
            let got: Result<(), Error> = self.read_data_block(&mut buf);
            proof {
                Self::lemma_join(*old(self), before, *self);
            }
            match got {
                Ok(_) => {},
                Err(e) => {
                    proof {
                        assert(traffic::loses_block(self.exchanges_since(before), e));
                        assert(traffic::streams(
                            count as nat,
                            blocks,
                            self.exchanges_since(*old(self)),
                            Err(e),
                        ));
                    }
                    return Err(e);
                },
            }
            let ghost mid = *sink;
            assert(old(sink).ready((addr + i) as u32));
            sink.take(addr + i, &buf);
            proof {
                let old_blocks = blocks;
                sink::lemma_took_one_more(*old(sink), mid, *sink, addr, old_blocks, buf@);
                blocks = blocks.push(buf@);
                traffic::lemma_delivered(self.exchanges_since(before), old_buf, buf@);
                assert(blocks.drop_last() =~= old_blocks);
            }
            i = i + 1;
        }
        let ghost streamed = *self;
        let r: Result<(), Error> = self.stop_read();
        proof {
            Self::lemma_join(*old(self), streamed, *self);
            assert(traffic::streams(
                count as nat,
                blocks,
                self.exchanges_since(*old(self)),
                r,
            ));
        }
        r
    }

    /// The end of a multi-block read.
    fn stop_read(&mut self) -> (r: Result<(), Error>)
        ensures
            final(self).same_card(*old(self)),
            traffic::stops_read(final(self).exchanges_since(*old(self)), r),
    {
        let stopped: Result<R1Response, Error> = self.send_command(&cmd::cmd12());
        let ghost after_stop = *self;
        proof {
            Self::lemma_alone(*old(self), *self);
        }
        match stopped {
            Ok(_) => {},
            Err(e) => {
                return Err(e);
            },
        }
        let r: Result<(), Error> = self.wait_not_busy();
        proof {
            Self::lemma_join(*old(self), after_stop, *self);
        }
        r
    }

    /// Write multiple blocks starting at `addr`
    pub fn write_blocks(&mut self, addr: u32, blocks: &[[u8; 512]]) -> (r: Result<(), Error>)
        requires
            common::addressable(addr, old(self).high_capacity),
        ensures
            final(self).same_card(*old(self)),
            traffic::writes_many(
                common::block_arg(addr, old(self).high_capacity) as u32,
                blocks@,
                final(self).exchanges_since(*old(self)),
                r,
            ),
    {
        let block_addr: u32 = self.block_addr(addr);
        let sent: Result<R1Response, Error> = self.send_command(&cmd::cmd25(block_addr));
        let ghost after_command = *self;
        proof {
            Self::lemma_alone(*old(self), *self);
        }
        match sent {
            Ok(_) => {},
            Err(e) => {
                return Err(e);
            },
        }
        let r: Result<(), Error> = self.send_blocks(blocks);
        proof {
            Self::lemma_join(*old(self), after_command, *self);
        }
        r
    }

    /// The data phase of a multi-block write.
    fn send_blocks(&mut self, blocks: &[[u8; 512]]) -> (r: Result<(), Error>)
        ensures
            final(self).same_card(*old(self)),
            traffic::sends_all(blocks@, final(self).exchanges_since(*old(self)), r),
    {
        let mut i: usize = 0;
        assert(blocks@.take(0).len() == 0);
        while i < blocks.len()
            invariant
                i <= blocks.len(),
                self.same_card(*old(self)),
                traffic::takes_all(
                    blocks@.take(i as int),
                    self.exchanges_since(*old(self)),
                ),
            decreases blocks.len() - i,
        {
            let ghost before = *self;
            let taken: Result<(), Error> = self.write_data_block(
                TOKEN_START_MULTI_BLOCK,
                &blocks[i],
            );
            proof {
                Self::lemma_join(*old(self), before, *self);
                assert(blocks@.take(i + 1).drop_last() =~= blocks@.take(i as int));
                let t = self.exchanges_since(*old(self));
                let n = before.exchanges_since(*old(self)).len() as int;
                assert(traffic::takes_all(blocks@.take(i as int), t.take(n)));
            }
            match taken {
                Ok(_) => {},
                Err(e) => {
                    return Err(e);
                },
            }
            i = i + 1;
        }
        let ghost written = *self;
        let r: Result<(), Error> = self.stop_write();
        proof {
            Self::lemma_join(*old(self), written, *self);
            assert(blocks@.take(i as int) =~= blocks@);
            let t = self.exchanges_since(*old(self));
            let n = written.exchanges_since(*old(self)).len() as int;
            assert(traffic::takes_all(blocks@.take(i as int), t.take(n)));
        }
        r
    }

    /// The end of a multi-block write.
    fn stop_write(&mut self) -> (r: Result<(), Error>)
        ensures
            final(self).same_card(*old(self)),
            traffic::stops_write(final(self).exchanges_since(*old(self)), r),
    {
        let ghost start = self.history();
        let sent: Result<(), Error> = self.transport.send_byte(TOKEN_STOP_TRAN);
        proof {
            let x = self.history().last();
            assert(self.history() =~= start.push(x));
            traffic::lemma_since_push(start, start, x);
        }
        let ghost after_token = *self;
        match sent {
            Ok(_) => {},
            Err(e) => {
                proof {
                    Self::lemma_alone(*old(self), *self);
                }
                return Err(e);
            },
        }
        let clocked: Result<(), Error> = self.transport.clock();
        proof {
            let x = self.history().last();
            assert(self.history() =~= after_token.history().push(x));
            traffic::lemma_since_push(start, after_token.history(), x);
        }
        let ghost after_clock = *self;
        proof {
            Self::lemma_alone(*old(self), *self);
        }
        match clocked {
            Ok(_) => {},
            Err(e) => {
                return Err(e);
            },
        }
        let r: Result<(), Error> = self.wait_not_busy();
        proof {
            Self::lemma_join(*old(self), after_clock, *self);
        }
        r
    }

    // Low-level helpers

    /// Sends `bytes` in order.
    fn send_all(&mut self, bytes: &[u8]) -> (r: Result<(), Error>)
        ensures
            final(self).same_card(*old(self)),
            traffic::is_run(bytes@, final(self).exchanges_since(*old(self))),
            r == traffic::run_result(final(self).exchanges_since(*old(self))),
    {
        let mut i: usize = 0;
        while i < bytes.len()
            invariant
                i <= bytes.len(),
                self.same_card(*old(self)),
                self.exchanges_since(*old(self)).len() == i,
                forall|j: int|
                    0 <= j < i ==> {
                        let x = #[trigger] self.exchanges_since(*old(self))[j];
                        x.tx == bytes@[j] && x.rx is Ok
                    },
            decreases bytes.len() - i,
        {
            let ghost before = self.history();
            let sent: Result<(), Error> = self.transport.send_byte(bytes[i]);
            proof {
                let x = self.history().last();
                assert(self.history() =~= before.push(x));
                traffic::lemma_since_push(old(self).history(), before, x);
            }
            match sent {
                Ok(_) => {},
                Err(e) => {
                    return Err(e);
                },
            }
            i = i + 1;
        }
        Ok(())
    }

    /// Fills `buf` with the next `N` bytes from the card. After a bus error
    /// the bytes received before it are in place.
    fn receive<const N: usize>(&mut self, buf: &mut [u8; N]) -> (r: Result<(), Error>)
        ensures
            final(self).same_card(*old(self)),
            traffic::is_run(traffic::filler(N as nat), final(self).exchanges_since(*old(self))),
            r == traffic::run_result(final(self).exchanges_since(*old(self))),
            final(buf)@ == traffic::overlay(old(buf)@, final(self).exchanges_since(*old(self))),
            r is Ok ==> final(buf)@ == traffic::replies(final(self).exchanges_since(*old(self))),
    {
        let mut i: usize = 0;
        while i < N
            invariant
                i <= N,
                self.same_card(*old(self)),
                self.exchanges_since(*old(self)).len() == i,
                forall|j: int|
                    0 <= j < i ==> {
                        let x = #[trigger] self.exchanges_since(*old(self))[j];
                        x.tx == 0xFF && x.rx is Ok
                    },
                buf@ =~= traffic::overlay(old(buf)@, self.exchanges_since(*old(self))),
            decreases N - i,
        {
            let ghost before = self.history();
            let got: Result<u8, Error> = self.transport.transfer_byte(0xFF);
            proof {
                let x = self.history().last();
                assert(self.history() =~= before.push(x));
                traffic::lemma_since_push(old(self).history(), before, x);
            }
            match got {
                Ok(b) => {
                    buf[i] = b;
                },
                Err(e) => {
                    return Err(e);
                },
            }
            i = i + 1;
        }
        assert(buf@ =~= traffic::replies(self.exchanges_since(*old(self))));
        Ok(())
    }

    /// Polls until a reply is idle (or, with `idle` false, until one is not).
    fn poll(&mut self, limit: u32, idle: bool) -> (r: Result<u8, Error>)
        ensures
            final(self).same_card(*old(self)),
            traffic::is_poll(limit as nat, idle, final(self).exchanges_since(*old(self))),
            r == traffic::poll_result(idle, final(self).exchanges_since(*old(self))),
    {
        let mut i: u32 = 0;
        while i < limit
            invariant
                i <= limit,
                self.same_card(*old(self)),
                self.exchanges_since(*old(self)).len() == i,
                forall|j: int|
                    0 <= j < i ==> {
                        let x = #[trigger] self.exchanges_since(*old(self))[j];
                        x.tx == 0xFF && (x.rx matches Ok(b) && !traffic::ends_poll(idle, b))
                    },
            decreases limit - i,
        {
            let ghost before = self.history();
            let got: Result<u8, Error> = self.transport.transfer_byte(0xFF);
            proof {
                let x = self.history().last();
                assert(self.history() =~= before.push(x));
                traffic::lemma_since_push(old(self).history(), before, x);
            }
            match got {
                Ok(b) => {
                    if (b == 0xFF) == idle {
                        return Ok(b);
                    }
                },
                Err(e) => {
                    return Err(e);
                },
            }
            i = i + 1;
        }
        Err(Error::Timeout)
    }

    fn wait_for_response(&mut self, retries: u32) -> (r: Result<u8, Error>)
        ensures
            final(self).same_card(*old(self)),
            traffic::is_poll(retries as nat, false, final(self).exchanges_since(*old(self))),
            r == traffic::poll_result(false, final(self).exchanges_since(*old(self))),
    {
        self.poll(retries, false)
    }

    fn wait_not_busy(&mut self) -> (r: Result<(), Error>)
        ensures
            final(self).same_card(*old(self)),
            traffic::is_busy_wait(final(self).exchanges_since(*old(self))),
            r == traffic::busy_result(final(self).exchanges_since(*old(self))),
    {
        match self.poll(500_000, true) {
            Ok(_) => Ok(()),
            Err(e) => Err(e),
        }
    }

    fn read_r1(&mut self) -> (r: Result<R1Response, Error>)
        ensures
            final(self).same_card(*old(self)),
            traffic::is_poll(
                traffic::answer_limit(),
                false,
                final(self).exchanges_since(*old(self)),
            ),
            r == (match traffic::poll_result(false, final(self).exchanges_since(*old(self))) {
                Ok(b) => Ok(R1Response { raw: b as u32 }),
                Err(e) => Err(e),
            }),
    {
        match self.wait_for_response(100) {
            Ok(raw) => R1Response::from_raw(raw as u32),
            Err(e) => Err(e),
        }
    }

    fn block_addr(&self, addr: u32) -> (arg: u32)
        requires
            common::addressable(addr, self.high_capacity),
        ensures
            arg == common::block_arg(addr, self.high_capacity),
    {
        block_addr_of(addr, self.high_capacity)
    }

    fn read_data_block(&mut self, buf: &mut [u8; 512]) -> (r: Result<(), Error>)
        ensures
            final(self).same_card(*old(self)),
            traffic::reads_block(
                final(self).exchanges_since(*old(self)),
                old(buf)@,
                final(buf)@,
                r,
            ),
    {
        let token: Result<u8, Error> = self.poll(10_000, false);
        let ghost after_token = *self;
        proof {
            Self::lemma_alone(*old(self), *self);
        }
        match token {
            Ok(b) => {
                if b != TOKEN_START_BLOCK {
                    return Err(Error::ReadError);
                }
            },
            Err(e) => {
                return Err(e);
            },
        }
        let got: Result<(), Error> = self.receive(buf);
        let ghost after_data = *self;
        match got {
            Ok(_) => {},
            Err(e) => {
                proof {
                    Self::lemma_join(*old(self), after_token, *self);
                }
                return Err(e);
            },
        }
        // 2 CRC bytes (ignored in SPI mode)
        let r: Result<(), Error> = self.skip_crc();
        proof {
            Self::lemma_join(after_token, after_data, *self);
            let d = after_data.exchanges_since(after_token);
            let t = self.exchanges_since(after_token);
            assert forall|i: int| 0 <= i < d.len() implies #[trigger] t[i] == d[i] by {
                assert(t.take(d.len() as int)[i] == t[i]);
            }
            let c = self.exchanges_since(after_data);
            assert forall|i: int| d.len() <= i < t.len() implies #[trigger] t[i] == c[i - d.len()] by {
                assert(t.skip(d.len() as int)[i - d.len()] == t[i]);
            }
            assert(traffic::is_run(traffic::filler(514), t));
            assert(buf@ =~= traffic::overlay(old(buf)@, t));
            Self::lemma_join(*old(self), after_token, *self);
        }
        r
    }

    /// Clocks out the two CRC bytes of a data block.
    fn skip_crc(&mut self) -> (r: Result<(), Error>)
        ensures
            final(self).same_card(*old(self)),
            traffic::is_run(traffic::filler(2), final(self).exchanges_since(*old(self))),
            r == traffic::run_result(final(self).exchanges_since(*old(self))),
            final(self).exchanges_since(*old(self)).len() > 0,
    {
        let ghost start = self.history();
        let first: Result<(), Error> = self.transport.clock();
        proof {
            let x = self.history().last();
            assert(self.history() =~= start.push(x));
            traffic::lemma_since_push(start, start, x);
        }
        match first {
            Ok(_) => {},
            Err(e) => {
                return Err(e);
            },
        }
        let ghost mid = self.history();
        let second: Result<(), Error> = self.transport.clock();
        proof {
            let x = self.history().last();
            assert(self.history() =~= mid.push(x));
            traffic::lemma_since_push(start, mid, x);
        }
        second
    }

    fn write_data_block(&mut self, token: u8, buf: &[u8; 512]) -> (r: Result<(), Error>)
        ensures
            final(self).same_card(*old(self)),
            traffic::writes_block(token, buf@, final(self).exchanges_since(*old(self)), r),
    {
        let sent: Result<(), Error> = self.send_framed(token, buf);
        let ghost framed = *self;
        proof {
            Self::lemma_alone(*old(self), *self);
        }
        match sent {
            Ok(_) => {},
            Err(e) => {
                return Err(e);
            },
        }
        let answer: Result<u8, Error> = self.wait_for_response(100);
        let ghost answered = *self;
        proof {
            Self::lemma_alone(framed, *self);
            Self::lemma_join(*old(self), framed, *self);
        }
        let resp: u8 = match answer {
            Ok(b) => b,
            Err(e) => {
                return Err(e);
            },
        };
        assert((resp & 0x1F) == resp % 0x20) by (bit_vector);
        if (resp & 0x1F) != 0x05 {
            return Err(Error::WriteError);
        }
        let r: Result<(), Error> = self.wait_not_busy();
        proof {
            Self::lemma_join(framed, answered, *self);
            Self::lemma_join(*old(self), framed, *self);
        }
        r
    }

    /// Sends a data block: the token, the data, two bytes in place of a CRC.
    fn send_framed(&mut self, token: u8, buf: &[u8; 512]) -> (r: Result<(), Error>)
        ensures
            final(self).same_card(*old(self)),
            traffic::is_run(
                seq![token] + buf@ + traffic::filler(2),
                final(self).exchanges_since(*old(self)),
            ),
            r == traffic::run_result(final(self).exchanges_since(*old(self))),
    {
        let token_bytes: [u8; 1] = [token];
        let trailer: [u8; 2] = [0xFF, 0xFF];
        let first: Result<(), Error> = self.send_all(&token_bytes);
        let ghost after_token = *self;
        match first {
            Ok(_) => {},
            Err(e) => {
                return Err(e);
            },
        }
        let second: Result<(), Error> = self.send_all(buf);
        let ghost after_data = *self;
        proof {
            Self::lemma_runs(*old(self), after_token, *self, token_bytes@, buf@);
        }
        match second {
            Ok(_) => {},
            Err(e) => {
                return Err(e);
            },
        }
        let third: Result<(), Error> = self.send_all(&trailer);
        proof {
            Self::lemma_runs(*old(self), after_data, *self, token_bytes@ + buf@, trailer@);
        }
        third
    }

    /// Collects what follows the R1 byte of a response.
    fn read_payload(&mut self, kind: ResponseType, r1: R1Response) -> (r: Result<Response, Error>)
        ensures
            final(self).same_card(*old(self)),
            traffic::payload(kind, r1, final(self).exchanges_since(*old(self)), r),
    {
        match kind {
            ResponseType::R1b => {
                match self.wait_not_busy() {
                    Ok(_) => Ok(Response::R1b(r1)),
                    Err(e) => Err(e),
                }
            },
            ResponseType::R3 => {
                let mut ocr: [u8; 4] = [0u8; 4];
                match self.receive(&mut ocr) {
                    Ok(_) => Ok(Response::R3(OcrResponse::from_raw(from_be_bytes(ocr)))),
                    Err(e) => Err(e),
                }
            },
            ResponseType::R7 => {
                if r1.illegal_command() {
                    return Ok(Response::R1(r1));
                }
                let mut data: [u8; 4] = [0u8; 4];
                match self.receive(&mut data) {
                    Ok(_) => Ok(Response::R7(IfCondResponse::from_raw(from_be_bytes(data)))),
                    Err(e) => Err(e),
                }
            },
            ResponseType::R2 => {
                if r1.raw != 0 {
                    return Ok(Response::R1(r1));
                }
                self.read_register()
            },
            _ => Ok(Response::R1(r1)),
        }
    }

    /// Reads a register of 16 bytes that the start token leads.
    fn read_register(&mut self) -> (r: Result<Response, Error>)
        ensures
            final(self).same_card(*old(self)),
            traffic::reads_register(final(self).exchanges_since(*old(self)), r),
    {
        let token: Result<u8, Error> = self.poll(10_000, false);
        let ghost after_token = *self;
        proof {
            Self::lemma_alone(*old(self), *self);
        }
        match token {
            Ok(b) => {
                if b != TOKEN_START_BLOCK {
                    return Err(Error::ReadError);
                }
            },
            Err(e) => {
                return Err(e);
            },
        }
        let mut buf: [u8; 16] = [0u8; 16];
        let got: Result<(), Error> = self.receive(&mut buf);
        proof {
            Self::lemma_join(*old(self), after_token, *self);
        }
        match got {
            Ok(_) => Ok(Response::R2(buf)),
            Err(e) => Err(e),
        }
    }

    fn send_command_raw(&mut self, cmd: &Command) -> (r: Result<Response, Error>)
        ensures
            final(self).same_card(*old(self)),
            traffic::commands(*cmd, final(self).exchanges_since(*old(self)), r),
    {
        let bytes: [u8; 6] = cmd.to_spi_bytes();
        let sent: Result<(), Error> = self.send_all(&bytes);
        let ghost framed = *self;
        proof {
            Self::lemma_alone(*old(self), framed);
        }
        match sent {
            Ok(_) => {},
            Err(e) => {
                return Err(e);
            },
        }
        let r1: R1Response = match self.read_r1() {
            Ok(r1) => r1,
            Err(e) => {
                proof {
                    Self::lemma_join(*old(self), framed, *self);
                    Self::lemma_alone(framed, *self);
                }
                return Err(e);
            },
        };
        let ghost answered = *self;
        let r: Result<Response, Error> = self.read_payload(cmd.resp_type, r1);
        proof {
            Self::lemma_join(framed, answered, *self);
            Self::lemma_join(*old(self), framed, *self);
        }
        r
    }

    fn send_command(&mut self, cmd: &Command) -> (r: Result<R1Response, Error>)
        ensures
            final(self).same_card(*old(self)),
            traffic::acknowledges(*cmd, final(self).exchanges_since(*old(self)), r),
    {
        match self.send_command_raw(cmd) {
            Ok(Response::R1(r1)) => Ok(r1),
            Ok(Response::R1b(r1)) => Ok(r1),
            Ok(_) => Err(Error::BadResponse),
            Err(e) => Err(e),
        }
    }
}

/// Card information obtained during initialization
#[derive(Debug, Clone, Copy, PartialEq, Eq, Structural)]
pub struct CardInfo {
    pub sd_v2: bool,
    pub high_capacity: bool,
    pub ocr: u32,
    /// User-data capacity in 512-byte blocks, parsed from the CSD.
    /// `None` if the CSD could not be read, or if it reports a structure version
    /// we do not yet support.
    pub capacity_blocks: Option<u64>,
}

} // verus!
