//! DMA glue for the SDHCI ADMA2 data path.
//!
//! The driver assumes neither an allocator, nor an MMU layout, nor a particular
//! cache architecture. Callers wire those concerns up via the [`Dma`] trait and
//! an [`Adma2Buffer`] descriptor scratch region.
//!
//! ## Responsibilities split
//!
//! - **The host driver** builds the ADMA2 descriptor table inside the
//!   buffer the caller hands it, programs the controller, and waits for the
//!   controller to report the end of the transfer.
//! - **The [`Dma`] impl** translates CPU addresses to the bus
//!   addresses the SDHCI sees, and performs whatever cache maintenance is
//!   needed before the device reads CPU-written memory and after the
//!   device writes CPU-read memory.
use vstd::prelude::*;

use crate::cmd::{Command, DataDirection};
use crate::error::{ErrorContext, HostError, Phase};
use crate::program::{Op, Task};
use crate::registers::{
    Reg, ERROR_INT_DATA_LINE_MASK, HOST_CTRL1_ADMA2_32, HOST_CTRL1_DMA_SELECT,
    NORMAL_INT_XFER_COMPLETE,
};
use crate::sdhci::{self, CommandTask, PendingData, Sdhci};

verus! {

/// Direction of an outstanding DMA mapping. Mirrors `DataDirection` so the
/// host can hand it through to the [`Dma`] implementation without dragging
/// the protocol enum into platform code.
#[derive(Clone, Copy, Debug, PartialEq, Eq, Structural)]
pub enum DmaDir {
    /// Memory will be filled by the device (card → host).
    FromDevice,
    /// Memory will be read by the device (host → card).
    ToDevice,
}

impl From<DataDirection> for DmaDir {
    fn from(d: DataDirection) -> (dir: DmaDir) {
        match d {
            DataDirection::Read => DmaDir::FromDevice,
            // `NoData` cannot reach the DMA path: `prepare_data_transfer`
            // gates that. Conservative default keeps the conversion total.
            DataDirection::Write | DataDirection::NoData => DmaDir::ToDevice,
        }
    }
}

impl vstd::std_specs::convert::FromSpecImpl<DataDirection> for DmaDir {
    open spec fn obeys_from_spec() -> bool {
        true
    }

    open spec fn from_spec(d: DataDirection) -> DmaDir {
        if d == DataDirection::Read {
            DmaDir::FromDevice
        } else {
            DmaDir::ToDevice
        }
    }
}

/// Platform-supplied DMA mapping interface.
///
/// Memory is given by its address and length. Implementations are expected to
/// be cheap and side-effect-free except for the cache maintenance noted on each
/// method.
///
/// The three relations say what a call leaves behind. An implementation whose
/// contracts are proved gives them a meaning; one written in plain Rust leaves
/// them out.
pub trait Dma {
    /// The device sees the memory under the bus address `bus`.
    closed spec fn maps(&self, addr: usize, len: usize, dir: DmaDir, bus: u64) -> bool {
        true
    }

    /// The memory is fit for the device to use.
    closed spec fn readied(&self, addr: usize, len: usize, dir: DmaDir) -> bool {
        true
    }

    /// The memory is fit for the CPU to use again.
    closed spec fn released(&self, addr: usize, len: usize, dir: DmaDir) -> bool {
        true
    }

    /// Translate a CPU virtual address to the bus address the SDHCI controller
    /// will see. On systems with an identity DMA mapping this is just the
    /// address; on systems with an IOMMU or a DMA offset it is whatever the
    /// platform's mapping layer returns.
    ///
    /// `dir` is provided so that platforms backed by `dma_map_single`-style
    /// APIs can call the right map flavour. Implementations that do not
    /// pin the mapping per-call should ignore it.
    fn map(&self, addr: usize, len: usize, dir: DmaDir) -> (bus: u64)
        ensures
            self.maps(addr, len, dir, bus),
    ;

    /// Cache-maintenance hook called *before* the device reads
    /// host-written memory (writes) or *before* the device fills
    /// host-readable memory (reads).
    ///
    /// On coherent systems this is a no-op. On incoherent ARM/AArch64 this
    /// is typically `dcache clean` for `ToDevice` and `dcache invalidate`
    /// for `FromDevice`.
    fn before_dma(&self, addr: usize, len: usize, dir: DmaDir)
        ensures
            self.readied(addr, len, dir),
    ;

    /// Cache-maintenance hook called *after* the transfer completes.
    ///
    /// On coherent systems this is a no-op. On incoherent systems this is
    /// typically `dcache invalidate` after a `FromDevice` transfer so the
    /// CPU sees the device's writes.
    fn after_dma(&self, addr: usize, len: usize, dir: DmaDir)
        ensures
            self.released(addr, len, dir),
    ;
}

/// 32-bit ADMA2 descriptor.
///
/// Layout (little-endian):
///
/// ```text
///   0      attr[15:0]   (Valid | End | Int | Act2 | Act1)
///   2      length[15:0] (0 means 64 KiB)
///   4      address[31:0]
/// ```
#[derive(Debug, Clone, Copy, PartialEq, Eq, Structural)]
pub struct Adma2Desc32 {
    pub attr: u16,
    pub length: u16,
    pub address: u32,
}

pub const ADMA2_ATTR_VALID: u16 = 0x01;

pub const ADMA2_ATTR_END: u16 = 0x02;

/// act = 0b10: "tran" (data transfer descriptor)
pub const ADMA2_ATTR_ACT_TRAN: u16 = 0x20;

/// Largest single ADMA2 transfer. The length field is 16 bits and `0`
/// is interpreted as 64 KiB, but we cap a hair below to keep the math
/// trivial and to leave room for hosts whose ADMA engine refuses
/// `length == 0` (some Synopsys MSHC variants).
pub const ADMA2_MAX_PER_DESC: usize = 65_528;

/// Number of descriptors in a table. Bumping this constant is the only thing
/// needed to support larger contiguous transfers.
pub const ADMA2_DESC_COUNT: usize = 16;

/// Size of a descriptor table in bytes.
pub const ADMA2_TABLE_BYTES: usize = 128;

impl Adma2Desc32 {
    /// A descriptor that describes nothing.
    pub open spec fn blank() -> Adma2Desc32 {
        Adma2Desc32 { attr: 0, length: 0, address: 0 }
    }

    /// The eight bytes of the descriptor as the controller reads them.
    pub open spec fn layout(self) -> Seq<u8> {
        seq![
            (self.attr % 0x100) as u8,
            (self.attr / 0x100) as u8,
            (self.length % 0x100) as u8,
            (self.length / 0x100) as u8,
            (self.address % 0x100) as u8,
            (self.address / 0x100 % 0x100) as u8,
            (self.address / 0x1_0000 % 0x100) as u8,
            (self.address / 0x100_0000) as u8,
        ]
    }

    /// The bytes of the descriptor as the controller reads them.
    pub fn to_le_bytes(&self) -> (b: [u8; 8])
        ensures
            b@ == self.layout(),
    {
        let b: [u8; 8] = [
            (self.attr % 0x100) as u8,
            (self.attr / 0x100) as u8,
            (self.length % 0x100) as u8,
            (self.length / 0x100) as u8,
            (self.address % 0x100) as u8,
            (self.address / 0x100 % 0x100) as u8,
            (self.address / 0x1_0000 % 0x100) as u8,
            (self.address / 0x100_0000) as u8,
        ];
        assert(b@ =~= self.layout());
        b
    }
}

/// A table that describes nothing.
pub open spec fn blank_table() -> Seq<Adma2Desc32> {
    Seq::new(16, |i: int| Adma2Desc32::blank())
}

/// The bytes of a descriptor table, one descriptor after the other.
pub open spec fn table_layout(descs: Seq<Adma2Desc32>) -> Seq<u8> {
    Seq::new(8 * descs.len(), |i: int| descs[i / 8].layout()[i % 8])
}

/// Storage for the ADMA2 descriptor table. Allocate one of these once per
/// host instance and hand it to [`SdhciAdma2::new`]. `bytes` is what the
/// controller DMA-reads, so it must live in DMA-capable memory, aligned to four
/// bytes at least, and the [`Dma`] impl must produce a sensible bus address for
/// it.
#[derive(Debug, Clone, Copy)]
pub struct Adma2Buffer {
    pub descs: [Adma2Desc32; 16],
    pub bytes: [u8; 128],
}

impl Adma2Buffer {
    /// The bytes are those of the descriptors.
    pub open spec fn wf(self) -> bool {
        self.bytes@ == table_layout(self.descs@)
    }

    /// A table that describes nothing.
    pub fn new() -> (b: Self)
        ensures
            b.wf(),
            b.descs@ == blank_table(),
    {
        let b = Adma2Buffer {
            descs: [Adma2Desc32 { attr: 0, length: 0, address: 0 };16],
            bytes: [0u8;128],
        };
        assert(b.descs@ =~= blank_table());
        assert(b.bytes@ =~= table_layout(b.descs@));
        b
    }

    /// Puts the descriptors into the bytes.
    fn encode(&mut self)
        ensures
            final(self).wf(),
            final(self).descs == old(self).descs,
    {
        let mut i: usize = 0;
        while i < ADMA2_DESC_COUNT
            invariant
                i <= 16,
                self.descs == old(self).descs,
                forall|j: int|
                    0 <= j < 8 * i ==> #[trigger] self.bytes@[j] == table_layout(self.descs@)[j],
            decreases 16 - i,
        {
            let b: [u8; 8] = self.descs[i].to_le_bytes();
            let mut k: usize = 0;
            while k < 8
                invariant
                    i < 16,
                    k <= 8,
                    self.descs == old(self).descs,
                    b@ == self.descs@[i as int].layout(),
                    forall|j: int|
                        0 <= j < 8 * i + k ==> #[trigger] self.bytes@[j] == table_layout(
                            self.descs@,
                        )[j],
                decreases 8 - k,
            {
                self.bytes[8 * i + k] = b[k];
                assert((8 * i + k) / 8 == i && (8 * i + k) % 8 == k);
                k = k + 1;
            }
            i = i + 1;
        }
        assert(self.bytes@ =~= table_layout(self.descs@));
    }
}

impl Default for Adma2Buffer {
    fn default() -> (b: Self)
        ensures
            b.wf(),
            b.descs@ == blank_table(),
    {
        Adma2Buffer::new()
    }
}

/// Number of descriptors that a transfer takes.
pub open spec fn desc_count(total_len: usize) -> int {
    (total_len + 65_527) / 65_528
}

/// Descriptor `i` of a transfer of `total_len` bytes from the bus address `base`
/// on.
pub open spec fn desc_of(base: u64, total_len: usize, i: int) -> Adma2Desc32 {
    let left = total_len - i * 65_528;
    Adma2Desc32 {
        attr: if left <= 65_528 {
            0x23
        } else {
            0x21
        },
        length: if left <= 65_528 {
            left as u16
        } else {
            65_528
        },
        address: (base + i * 65_528) as u32,
    }
}

/// The result of building a table.
pub open spec fn build_result(base: u64, total_len: usize, phase: Phase) -> Result<
    usize,
    HostError,
> {
    if total_len == 0 {
        Err(HostError::Misaligned)
    } else if base >= 0x1_0000_0000 {
        Err(HostError::BadResponse(ErrorContext { phase, cmd: None }))
    } else if desc_count(total_len) > 16 {
        Err(HostError::Misaligned)
    } else if base + total_len > 0x1_0000_0000 {
        Err(HostError::BadResponse(ErrorContext { phase, cmd: None }))
    } else {
        Ok(desc_count(total_len) as usize)
    }
}

/// The number of descriptors that building a table writes: all of them, or none
/// where it fails, except that one that runs out of entries has filled them.
pub open spec fn build_writes(base: u64, total_len: usize) -> int {
    if base >= 0x1_0000_0000 {
        0
    } else if desc_count(total_len) > 16 {
        16
    } else if base + total_len > 0x1_0000_0000 {
        0
    } else {
        desc_count(total_len)
    }
}

/// A table whose first `n` descriptors are those of a transfer.
pub open spec fn table_with(
    before: Seq<Adma2Desc32>,
    base: u64,
    total_len: usize,
    n: int,
) -> Seq<Adma2Desc32> {
    Seq::new(
        16,
        |i: int|
            if i < n {
                desc_of(base, total_len, i)
            } else {
                before[i]
            },
    )
}

/// Build the ADMA2 descriptor table covering `[base, base+total_len)`.
///
/// `base` is the *bus* address the controller will use, already translated
/// by [`Dma::map`]. Returns the number of descriptors written or
/// [`HostError::Misaligned`] if there is nothing to cover or it would not fit in
/// [`ADMA2_DESC_COUNT`] entries. 32-bit ADMA2 only addresses the low 4 GiB; a
/// range outside it gives [`HostError::BadResponse`].
pub fn build_descriptors(
    table: &mut [Adma2Desc32; 16],
    base: u64,
    total_len: usize,
    phase: Phase,
) -> (r: Result<usize, HostError>)
    ensures
        r == build_result(base, total_len, phase),
        final(table)@ == table_with(
            old(table)@,
            base,
            total_len,
            build_writes(base, total_len),
        ),
{
    assert(table@ =~= table_with(old(table)@, base, total_len, 0));
    if total_len == 0 {
        return Err(HostError::Misaligned);
    }
    if base >= 0x1_0000_0000 {
        // 64-bit ADMA2 needs a different descriptor layout we don't ship yet:
        // surface it as a capability mismatch rather than truncating silently.
        return Err(HostError::BadResponse(ErrorContext::new(phase)));
    }
    let fits: bool = total_len <= ADMA2_DESC_COUNT * ADMA2_MAX_PER_DESC;
    if fits && base + total_len as u64 > 0x1_0000_0000 {
        return Err(HostError::BadResponse(ErrorContext::new(phase)));
    }

    let mut remaining: usize = total_len;
    let mut written: usize = 0;
    while remaining > 0
        invariant
            0 < total_len,
            base < 0x1_0000_0000,
            fits == (desc_count(total_len) <= 16),
            fits ==> base + total_len <= 0x1_0000_0000,
            written <= 16,
            written <= desc_count(total_len),
            remaining > 0 ==> written < desc_count(total_len),
            remaining > 0 ==> remaining == total_len - written * 65_528,
            remaining == 0 ==> written == desc_count(total_len),
            table@ == table_with(old(table)@, base, total_len, written as int),
        decreases remaining,
    {
        if written >= ADMA2_DESC_COUNT {
            return Err(HostError::Misaligned);
        }
        let chunk: usize = if remaining < ADMA2_MAX_PER_DESC {
            remaining
        } else {
            ADMA2_MAX_PER_DESC
        };
        let is_last: bool = chunk == remaining;
        let attr: u16 = if is_last {
            ADMA2_ATTR_VALID + ADMA2_ATTR_ACT_TRAN + ADMA2_ATTR_END
        } else {
            ADMA2_ATTR_VALID + ADMA2_ATTR_ACT_TRAN
        };
        let offset: u64 = (total_len - remaining) as u64;
        table[written] = Adma2Desc32 {
            attr,
            length: chunk as u16,
            address: #[verifier::truncate] ((base + offset) as u32),
        };
        written = written + 1;
        remaining = remaining - chunk;
        assert(table@ =~= table_with(old(table)@, base, total_len, written as int));
    }
    Ok(written)
}

/// The descriptors that were built cover the range from its start to its end,
/// without a gap or an overlap, in pieces that the length field can state, and
/// the last one alone is marked as the end.
pub proof fn descriptors_cover_the_range(base: u64, total_len: usize, phase: Phase, n: usize)
    requires
        build_result(base, total_len, phase) == Ok::<usize, HostError>(n),
    ensures
        1 <= n <= 16,
        desc_of(base, total_len, 0).address == base,
        forall|i: int|
            0 <= i < n - 1 ==> (#[trigger] desc_of(base, total_len, i + 1)).address == desc_of(
                base,
                total_len,
                i,
            ).address + desc_of(base, total_len, i).length,
        desc_of(base, total_len, n - 1).address + desc_of(base, total_len, n - 1).length == base
            + total_len,
        forall|i: int|
            0 <= i < n ==> 0 < (#[trigger] desc_of(base, total_len, i)).length <= 65_528,
        forall|i: int|
            0 <= i < n ==> (#[trigger] desc_of(base, total_len, i)).attr == ADMA2_ATTR_VALID
                + ADMA2_ATTR_ACT_TRAN + (if i == n - 1 {
                ADMA2_ATTR_END as int
            } else {
                0
            }),
{
}

/// A descriptor can be read back from its bytes.
pub proof fn layout_keeps_the_descriptor(a: Adma2Desc32, b: Adma2Desc32)
    requires
        a.layout() == b.layout(),
    ensures
        a == b,
{
    let x = a.layout();
    let y = b.layout();
    assert forall|i: int| 0 <= i < 8 implies x[i] == y[i] by {}
    assert(a.attr == x[0] + x[1] * 0x100 && b.attr == y[0] + y[1] * 0x100);
    assert(a.length == x[2] + x[3] * 0x100 && b.length == y[2] + y[3] * 0x100);
    assert(a.address == x[4] + x[5] * 0x100 + x[6] * 0x1_0000 + x[7] * 0x100_0000);
    assert(b.address == y[4] + y[5] * 0x100 + y[6] * 0x1_0000 + y[7] * 0x100_0000);
}

/// SDHCI host backend that funnels data through ADMA2 instead of PIO.
///
/// `SdhciAdma2` holds the underlying [`Sdhci`] for command issue, reset,
/// and clocking, but has data phases program the
/// ADMA descriptor pointer and let the controller's DMA engine move the
/// payload. Callers supply a [`Dma`] implementation that translates CPU
/// addresses to bus addresses and performs the platform-specific cache
/// maintenance.
///
/// # Constraints
///
/// - 32-bit ADMA2 only. Bus addresses must fit in 32 bits.
/// - Buffers must be naturally aligned to at least 4 bytes (ADMA2
///   requires the source/destination to be 32-bit aligned). Misaligned
///   buffers give [`HostError::Misaligned`] without touching the hardware.
/// - The data length must equal `block_size * block_count`, which the
///   protocol layer already guarantees.
pub struct SdhciAdma2<'buf, D: Dma> {
    pub inner: Sdhci,
    pub dma: D,
    pub table: &'buf mut Adma2Buffer,
}

impl<'buf, D: Dma> SdhciAdma2<'buf, D> {
    /// Wrap an existing [`Sdhci`] in an ADMA2 data path.
    ///
    /// The caller is responsible for having reset and clocked the
    /// controller before any commands flow; reusing the [`Sdhci`] API for
    /// that is fine.
    pub fn new(inner: Sdhci, dma: D, table: &'buf mut Adma2Buffer) -> (s: Self)
        ensures
            s.inner == inner,
            s.dma == dma,
            *s.table == *old(table),
            *final(s.table) == *final(table),
    {
        SdhciAdma2 { inner, dma, table }
    }

    /// Borrow the underlying controller. Useful for one-off setup
    /// (e.g. `enable_clock`, `set_power`) where the DMA layer is
    /// irrelevant.
    pub fn raw(&mut self) -> (s: &mut Sdhci)
        ensures
            *s == old(self).inner,
            final(self).inner == *final(s),
            final(self).dma == old(self).dma,
            *final(self).table == *old(self).table,
    {
        &mut self.inner
    }

    /// Checks a transfer, maps its buffer and the table, describes the buffer in
    /// the table, and gives the task that has the controller move the data.
    ///
    /// `addr` is the buffer's address, `table_addr` that of the table's `bytes`.
    /// What the task comes to goes to [`end_transfer`](Self::end_transfer).
    pub fn start_transfer(
        &mut self,
        addr: usize,
        len: usize,
        block_size: u32,
        dir: DmaDir,
        table_addr: usize,
    ) -> (r: Result<Task, HostError>)
        ensures
            final(self).inner == old(self).inner,
            final(self).dma == old(self).dma,
            old(self).transfers(
                *final(self).table,
                addr,
                len,
                block_size,
                dir,
                table_addr,
                r,
            ),
    {
        if block_size == 0 || (len as u32) % block_size != 0 {
            return Err(HostError::Misaligned);
        }
        if addr % 4 != 0 {
            return Err(HostError::Misaligned);
        }
        self.run_dma(addr, len, dir, table_addr)
    }

    /// What starting a transfer does: a buffer that does not fit is refused and the
    /// table stays as it is; any other is mapped.
    pub open spec fn transfers(
        self,
        table: Adma2Buffer,
        addr: usize,
        len: usize,
        block_size: u32,
        dir: DmaDir,
        table_addr: usize,
        r: Result<Task, HostError>,
    ) -> bool {
        if misfit(addr, len, block_size) {
            &&& r matches Err(e) && e == HostError::Misaligned
            &&& table == *self.table
        } else {
            exists|bus: u64| #[trigger]
                self.dma.maps(addr, len, dir, bus) && self.launches(
                    table,
                    addr,
                    len,
                    dir,
                    table_addr,
                    bus,
                    r,
                )
        }
    }

    /// What follows once the buffer was mapped to `bus`.
    pub open spec fn launches(
        self,
        table: Adma2Buffer,
        addr: usize,
        len: usize,
        dir: DmaDir,
        table_addr: usize,
        bus: u64,
        r: Result<Task, HostError>,
    ) -> bool {
        &&& self.dma.readied(addr, len, dir)
        &&& table.descs@ == table_with(self.table.descs@, bus, len, build_writes(bus, len))
        &&& table.wf()
        &&& match build_result(bus, len, phase_of(dir)) {
            Err(e) => r matches Err(e2) && e2 == e,
            Ok(_) => {
                &&& self.dma.readied(table_addr, 128, DmaDir::ToDevice)
                &&& exists|table_bus: u64| #[trigger]
                    self.dma.maps(table_addr, 128, DmaDir::ToDevice, table_bus) && (
                    if table_bus >= 0x1_0000_0000 {
                        r matches Err(e) && e == HostError::BadResponse(
                            ErrorContext { phase: Phase::DataRead, cmd: None },
                        )
                    } else {
                        r matches Ok(task) && task.starts(
                            dma_moving(table_bus as u32, phase_of(dir)),
                        )
                    })
            },
        }
    }

    fn run_dma(&mut self, addr: usize, len: usize, dir: DmaDir, table_addr: usize) -> (r: Result<
        Task,
        HostError,
    >)
        ensures
            final(self).inner == old(self).inner,
            final(self).dma == old(self).dma,
            exists|bus: u64| #[trigger]
                old(self).dma.maps(addr, len, dir, bus) && old(self).launches(
                    *final(self).table,
                    addr,
                    len,
                    dir,
                    table_addr,
                    bus,
                    r,
                ),
    {
        // 1. Translate + cache-maintain the payload buffer.
        let bus_addr: u64 = self.dma.map(addr, len, dir);
        self.dma.before_dma(addr, len, dir);

        // 2. Build the descriptor table and translate its address too.
        let phase: Phase = match dir {
            DmaDir::FromDevice => Phase::DataRead,
            DmaDir::ToDevice => Phase::DataWrite,
        };
        let built = build_descriptors(&mut self.table.descs, bus_addr, len, phase);
        self.table.encode();
        match built {
            Ok(_) => {},
            Err(e) => return Err(e),
        }
        // Descriptor table itself is host-written, device-read.
        let desc_bus: u64 = self.dma.map(table_addr, ADMA2_TABLE_BYTES, DmaDir::ToDevice);
        self.dma.before_dma(table_addr, ADMA2_TABLE_BYTES, DmaDir::ToDevice);

        if desc_bus >= 0x1_0000_0000 {
            return Err(HostError::BadResponse(ErrorContext::new(Phase::DataRead)));
        }

        // 3. Program the controller and wait for the end of the transfer.
        let ops: Vec<Op> = vec![
            Op::Update {
                reg: Reg::HostControl1,
                clear: HOST_CTRL1_DMA_SELECT,
                set: HOST_CTRL1_ADMA2_32,
            },
            Op::Write(Reg::AdmaAddress, desc_bus as u32),
            Op::Settle {
                done: NORMAL_INT_XFER_COMPLETE,
                errors: ERROR_INT_DATA_LINE_MASK,
                context: ErrorContext::for_cmd(phase, DMA_PHASE_CMD),
                adma: true,
            },
            Op::Write(Reg::NormalIntStatus, NORMAL_INT_XFER_COMPLETE),
        ];
        assert(ops@ =~= dma_moving(desc_bus as u32, phase));
        Ok(Task::new(ops))
    }

    /// Ends a transfer whose task came to `outcome`.
    pub fn end_transfer(
        &self,
        addr: usize,
        len: usize,
        dir: DmaDir,
        outcome: Result<Vec<u32>, HostError>,
    ) -> (r: Result<(), HostError>)
        ensures
            r == (match outcome {
                Ok(_) => Ok(()),
                Err(e) => Err(e),
            }),
            r is Ok ==> self.dma.released(addr, len, dir),
    {
        match outcome {
            Ok(_) => {
                // Flush/invalidate cache so the CPU sees what the device wrote.
                self.dma.after_dma(addr, len, dir);
                Ok(())
            },
            Err(e) => Err(e),
        }
    }

    /// Issue a single command, as [`Sdhci::issue_command`] does.
    pub fn issue_command(&mut self, cmd: &Command) -> (task: CommandTask)
        ensures
            final(self).inner == (Sdhci { pending_data: None, ..old(self).inner }),
            final(self).dma == old(self).dma,
            *final(self).table == *old(self).table,
            task.starts(
                sdhci::command_issuing(
                    *cmd,
                    old(self).inner.pending_data,
                    old(self).inner.use_dma,
                ),
            ),
            task.expects() == cmd.resp_type,
    {
        self.inner.issue_command(cmd)
    }

    /// Record the shape of the data phase that the next command triggers, which
    /// goes through DMA.
    pub fn prepare_data_transfer(
        &mut self,
        direction: DataDirection,
        block_size: u32,
        block_count: u32,
    ) -> (r: Result<(), HostError>)
        ensures
            r is Ok,
            final(self).inner == (Sdhci {
                use_dma: direction != DataDirection::NoData,
                pending_data: sdhci::pending_of(direction, block_size, block_count),
                ..old(self).inner
            }),
            final(self).dma == old(self).dma,
            *final(self).table == *old(self).table,
    {
        if direction.is_none() {
            self.inner.pending_data = None;
            self.inner.use_dma = false;
        } else {
            self.inner.pending_data = Some(PendingData { direction, block_size, block_count });
            self.inner.use_dma = true;
        }
        Ok(())
    }
}

/// Command index that goes into error contexts: the command is over by the time
/// the DMA engine fires.
const DMA_PHASE_CMD: u8 = 0;

/// Whether a buffer cannot be moved by the DMA engine in whole blocks.
pub open spec fn misfit(addr: usize, len: usize, block_size: u32) -> bool {
    block_size == 0 || (len as u32) % block_size != 0 || addr % 4 != 0
}

/// The phase in which data moves in a direction.
pub open spec fn phase_of(dir: DmaDir) -> Phase {
    match dir {
        DmaDir::FromDevice => Phase::DataRead,
        DmaDir::ToDevice => Phase::DataWrite,
    }
}

/// Point the DMA engine to the table and wait for the end of the transfer.
pub open spec fn dma_moving(table_bus: u32, phase: Phase) -> Seq<Op> {
    seq![
        Op::Update {
            reg: Reg::HostControl1,
            clear: HOST_CTRL1_DMA_SELECT,
            set: HOST_CTRL1_ADMA2_32,
        },
        Op::Write(Reg::AdmaAddress, table_bus),
    ] + sdhci::data_finishing(sdhci::about(phase, 0), true)
}

// Laws

/// A table covers the bus range of `len` bytes from `bus` on without a gap or an
/// overlap, in its first `n` descriptors, each of which is valid and says to move data;
/// the last of them alone is marked as the end.
pub open spec fn covers(descs: Seq<Adma2Desc32>, bus: u64, len: usize, n: int) -> bool {
    &&& descs.len() == 16
    &&& 1 <= n <= 16
    &&& descs[0].address == bus
    &&& descs[n - 1].address + descs[n - 1].length == bus + len
    &&& descs[n - 1].length > 0
    &&& forall|i: int|
        0 <= i < n ==> (#[trigger] descs[i]).attr == (if i == n - 1 {
            0x23u16
        } else {
            0x21u16
        })
    &&& forall|i: int|
        0 <= i < n - 1 ==> (#[trigger] descs[i]).length == 65_528 && descs[i + 1].address
            == descs[i].address + 65_528
}

/// A buffer that starts at a multiple of four, holds whole blocks and at least one,
/// and fits the table is transferred wherever the platform maps it and the table
/// below 4 GiB: the buffer and the table were made ready, the table and its bytes
/// cover the bus range of the buffer, and the task points the engine to the table.
#[verifier::rlimit(40)]
pub proof fn fitting_buffer_is_transferred<'buf, D: Dma>(
    host: SdhciAdma2<'buf, D>,
    table: Adma2Buffer,
    addr: usize,
    len: usize,
    block_size: u32,
    dir: DmaDir,
    table_addr: usize,
    r: Result<Task, HostError>,
) -> (w: (u64, int, u32))
    requires
        host.transfers(table, addr, len, block_size, dir, table_addr, r),
        addr as int % 4 == 0,
        block_size > 0,
        len > 0,
        len as int % block_size as int == 0,
        len <= 16 * 65_528,
        forall|bus: u64| #[trigger]
            host.dma.maps(addr, len, dir, bus) ==> bus + len <= 0x1_0000_0000,
        forall|bus: u64| #[trigger]
            host.dma.maps(table_addr, 128, DmaDir::ToDevice, bus) ==> bus < 0x1_0000_0000,
    ensures
        host.dma.readied(addr, len, dir),
        host.dma.readied(table_addr, 128, DmaDir::ToDevice),
        host.dma.maps(addr, len, dir, w.0),
        covers(table.descs@, w.0, len, w.1),
        table.bytes@ == table_layout(table.descs@),
        host.dma.maps(table_addr, 128, DmaDir::ToDevice, w.2 as u64),
        r matches Ok(task) && task.starts(
            dma_moving(
                w.2,
                if dir == DmaDir::FromDevice {
                    Phase::DataRead
                } else {
                    Phase::DataWrite
                },
            ),
        ),
{
    let bus = choose|bus: u64| #[trigger]
        host.dma.maps(addr, len, dir, bus) && host.launches(
            table,
            addr,
            len,
            dir,
            table_addr,
            bus,
            r,
        );
    let phase = phase_of(dir);
    let n = build_result(bus, len, phase)->Ok_0;
    built_table_covers_the_range(host.table.descs@, bus, len, phase, n);
    let table_bus = choose|table_bus: u64| #[trigger]
        host.dma.maps(table_addr, 128, DmaDir::ToDevice, table_bus) && (if table_bus
            >= 0x1_0000_0000 {
            r matches Err(e) && e == HostError::BadResponse(
                ErrorContext { phase: Phase::DataRead, cmd: None },
            )
        } else {
            r matches Ok(task) && task.starts(dma_moving(table_bus as u32, phase_of(dir)))
        });
    (bus, n as int, table_bus as u32)
}

/// A buffer that does not start at a multiple of four, or that does not hold whole
/// blocks, is refused as misaligned, and the table stays as it is.
pub proof fn misaligned_buffer_is_refused<'buf, D: Dma>(
    host: SdhciAdma2<'buf, D>,
    before: Adma2Buffer,
    table: Adma2Buffer,
    addr: usize,
    len: usize,
    block_size: u32,
    dir: DmaDir,
    table_addr: usize,
    r: Result<Task, HostError>,
)
    requires
        *host.table == before,
        host.transfers(table, addr, len, block_size, dir, table_addr, r),
        len <= u32::MAX,
        addr as int % 4 != 0 || block_size == 0 || len as int % block_size as int != 0,
    ensures
        r matches Err(e) && e == HostError::Misaligned,
        table == before,
{
}

/// A transfer is refused as misaligned only where the buffer or its length is at
/// fault.
pub proof fn refusal_has_a_reason<'buf, D: Dma>(
    host: SdhciAdma2<'buf, D>,
    table: Adma2Buffer,
    addr: usize,
    len: usize,
    block_size: u32,
    dir: DmaDir,
    table_addr: usize,
    r: Result<Task, HostError>,
)
    requires
        host.transfers(table, addr, len, block_size, dir, table_addr, r),
        r matches Err(e) && e == HostError::Misaligned,
        len <= u32::MAX,
    ensures
        addr as int % 4 != 0 || block_size == 0 || len as int % block_size as int != 0 || len == 0
            || len > 16 * 65_528,
{
    if !(addr as int % 4 != 0 || block_size == 0 || len as int % block_size as int != 0) {
        let bus = choose|bus: u64| #[trigger]
            host.dma.maps(addr, len, dir, bus) && host.launches(
                table,
                addr,
                len,
                dir,
                table_addr,
                bus,
                r,
            );
    }
}

/// The table that was built for a range covers it, and the descriptors after the last
/// are those that were there before.
#[verifier::rlimit(40)]
pub proof fn built_table_covers_the_range(
    before: Seq<Adma2Desc32>,
    base: u64,
    total_len: usize,
    phase: Phase,
    n: usize,
)
    requires
        before.len() == 16,
        build_result(base, total_len, phase) == Ok::<usize, HostError>(n),
    ensures
        ({
            let table = table_with(before, base, total_len, build_writes(base, total_len));
            &&& covers(table, base, total_len, n as int)
            &&& forall|i: int| n <= i < 16 ==> (#[trigger] table[i]) == before[i]
        }),
{
}

/// A range can be covered exactly if it is not empty, takes no more than sixteen
/// descriptors of 65,528 bytes and lies below 4 GiB.
pub proof fn coverable_ranges(base: u64, total_len: usize, phase: Phase)
    ensures
        build_result(base, total_len, phase) is Ok <==> 0 < total_len <= 16 * 65_528 && base
            + total_len <= 0x1_0000_0000,
        build_result(base, total_len, phase) matches Err(e) ==> e == HostError::Misaligned || e
            == HostError::BadResponse(ErrorContext { phase, cmd: None }),
        build_result(base, total_len, phase) == Err::<usize, HostError>(HostError::Misaligned)
            <==> total_len == 0 || (total_len > 16 * 65_528 && base < 0x1_0000_0000),
{
}

#[verifier::rlimit(40)]
proof fn lemma_layout_value(d: Adma2Desc32)
    ensures
        ({
            let x = d.layout();
            &&& d.attr == x[0] + x[1] * 0x100
            &&& d.length == x[2] + x[3] * 0x100
            &&& d.address == x[4] + x[5] * 0x100 + x[6] * 0x1_0000 + x[7] * 0x100_0000
        }),
{
}

proof fn lemma_table_byte(descs: Seq<Adma2Desc32>, i: int, k: int)
    requires
        descs.len() == 16,
        0 <= i < 16,
        0 <= k < 8,
    ensures
        table_layout(descs).len() == 128,
        table_layout(descs)[8 * i + k] == descs[i].layout()[k],
{
    assert((8 * i + k) / 8 == i && (8 * i + k) % 8 == k);
}

/// The bytes of descriptor `i` in a table are its attributes, its length and its
/// address, each with its least significant byte first.
#[verifier::rlimit(40)]
pub proof fn table_bytes_are_little_endian(descs: Seq<Adma2Desc32>, i: int)
    requires
        descs.len() == 16,
        0 <= i < 16,
    ensures
        ({
            let b = table_layout(descs);
            &&& b.len() == 128
            &&& descs[i].attr == b[8 * i] + b[8 * i + 1] * 0x100
            &&& descs[i].length == b[8 * i + 2] + b[8 * i + 3] * 0x100
            &&& descs[i].address == b[8 * i + 4] + b[8 * i + 5] * 0x100 + b[8 * i + 6] * 0x1_0000
                + b[8 * i + 7] * 0x100_0000
        }),
{
    lemma_table_byte(descs, i, 0);
    lemma_table_byte(descs, i, 1);
    lemma_table_byte(descs, i, 2);
    lemma_table_byte(descs, i, 3);
    lemma_table_byte(descs, i, 4);
    lemma_table_byte(descs, i, 5);
    lemma_table_byte(descs, i, 6);
    lemma_table_byte(descs, i, 7);
    lemma_layout_value(descs[i]);
}

/// A new table describes nothing: the controller takes none of its descriptors for a
/// valid one.
pub proof fn new_table_describes_nothing(i: int)
    requires
        0 <= i < 16,
    ensures
        blank_table().len() == 16,
        blank_table()[i].attr == 0,
        blank_table()[i].length == 0,
        blank_table()[i].address == 0,
{
}

} // verus!
