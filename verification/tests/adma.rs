use sdmmc_protocol::adma::{
    build_descriptors, Adma2Buffer, Adma2Desc32, Dma, DmaDir, SdhciAdma2, ADMA2_ATTR_ACT_TRAN,
    ADMA2_ATTR_END, ADMA2_ATTR_VALID, ADMA2_DESC_COUNT, ADMA2_MAX_PER_DESC,
};
use sdmmc_protocol::cmd::DataDirection;
use sdmmc_protocol::error::{ErrorContext, HostError, Phase};
use sdmmc_protocol::program::{Action, Progress, Task};
use sdmmc_protocol::registers::Reg;
use sdmmc_protocol::sdhci::{PendingData, Sdhci};
use std::cell::RefCell;

fn empty_table() -> [Adma2Desc32; ADMA2_DESC_COUNT] {
    [Adma2Desc32 {
        attr: 0,
        length: 0,
        address: 0,
    }; ADMA2_DESC_COUNT]
}

#[test]
fn single_descriptor_for_small_buffer() {
    let mut table = empty_table();
    let n = build_descriptors(&mut table, 0x1000_0000, 512, Phase::DataRead).unwrap();
    assert_eq!(n, 1);
    assert_eq!(table[0].length, 512);
    assert_eq!(table[0].address, 0x1000_0000);
    // Valid + End + Tran action
    assert_eq!(
        table[0].attr,
        ADMA2_ATTR_VALID | ADMA2_ATTR_END | ADMA2_ATTR_ACT_TRAN
    );
}

#[test]
fn splits_across_max_chunk() {
    let mut table = empty_table();
    let total = ADMA2_MAX_PER_DESC + 4096;
    let n = build_descriptors(&mut table, 0x2000_0000, total, Phase::DataRead).unwrap();
    assert_eq!(n, 2);
    assert_eq!(table[0].length as usize, ADMA2_MAX_PER_DESC);
    // first descriptor must NOT have END
    assert!(table[0].attr & ADMA2_ATTR_END == 0);
    // second descriptor covers the tail and has END
    assert_eq!(table[1].length, 4096);
    assert!(table[1].attr & ADMA2_ATTR_END != 0);
    assert_eq!(table[1].address, 0x2000_0000 + ADMA2_MAX_PER_DESC as u32);
}

#[test]
fn rejects_64bit_bus_address() {
    let mut table = empty_table();
    let err = build_descriptors(&mut table, 0x1_0000_0000, 512, Phase::DataRead).unwrap_err();
    assert!(matches!(err, HostError::BadResponse(_)));
}

#[test]
fn rejects_zero_length() {
    let mut table = empty_table();
    let err = build_descriptors(&mut table, 0, 0, Phase::DataRead).unwrap_err();
    assert!(matches!(err, HostError::Misaligned));
}

#[test]
fn descriptors_tile_the_largest_transfer() {
    let mut table = empty_table();
    let total = ADMA2_DESC_COUNT * ADMA2_MAX_PER_DESC;
    let n = build_descriptors(&mut table, 0x100, total, Phase::DataWrite).unwrap();
    assert_eq!(n, 16);
    let mut at = 0x100u32;
    for (i, d) in table.iter().enumerate() {
        assert_eq!(d.address, at);
        at += d.length as u32;
        assert_eq!(d.attr & ADMA2_ATTR_END != 0, i == 15);
    }
    assert_eq!(at as usize, 0x100 + total);
}

#[test]
fn rejects_a_transfer_of_too_many_descriptors() {
    let mut table = empty_table();
    let total = ADMA2_DESC_COUNT * ADMA2_MAX_PER_DESC + 1;
    assert_eq!(
        build_descriptors(&mut table, 0, total, Phase::DataRead),
        Err(HostError::Misaligned)
    );
}

#[test]
fn rejects_a_range_that_leaves_the_low_four_gigabytes() {
    let mut table = empty_table();
    assert_eq!(
        build_descriptors(&mut table, 0xFFFF_FF00, 512, Phase::DataWrite),
        Err(HostError::BadResponse(ErrorContext::new(Phase::DataWrite)))
    );
    assert_eq!(table, empty_table());
    assert_eq!(
        build_descriptors(&mut table, 0xFFFF_FE00, 512, Phase::DataWrite),
        Ok(1)
    );
}

#[test]
fn descriptor_bytes_are_little_endian() {
    let desc = Adma2Desc32 {
        attr: 0x0123,
        length: 0x4567,
        address: 0x89AB_CDEF,
    };
    assert_eq!(
        desc.to_le_bytes(),
        [0x23, 0x01, 0x67, 0x45, 0xEF, 0xCD, 0xAB, 0x89]
    );
}

#[test]
fn directions_convert() {
    assert_eq!(DmaDir::from(DataDirection::Read), DmaDir::FromDevice);
    assert_eq!(DmaDir::from(DataDirection::Write), DmaDir::ToDevice);
    assert_eq!(DmaDir::from(DataDirection::NoData), DmaDir::ToDevice);
}

/// Adds an offset to addresses and notes the calls.
struct OffsetDma {
    offset: u64,
    table_offset: u64,
    calls: RefCell<Vec<(char, usize, usize, DmaDir)>>,
}

impl OffsetDma {
    fn new(offset: u64, table_offset: u64) -> Self {
        Self {
            offset,
            table_offset,
            calls: RefCell::new(Vec::new()),
        }
    }
}

impl Dma for OffsetDma {
    fn map(&self, addr: usize, len: usize, dir: DmaDir) -> u64 {
        self.calls.borrow_mut().push(('m', addr, len, dir));
        if len == 128 {
            addr as u64 + self.table_offset
        } else {
            addr as u64 + self.offset
        }
    }

    fn before_dma(&self, addr: usize, len: usize, dir: DmaDir) {
        self.calls.borrow_mut().push(('b', addr, len, dir));
    }

    fn after_dma(&self, addr: usize, len: usize, dir: DmaDir) {
        self.calls.borrow_mut().push(('a', addr, len, dir));
    }
}

fn drive(task: Task, mut reads: Vec<u32>) -> (Vec<Action>, Result<Vec<u32>, HostError>) {
    let mut actions = Vec::new();
    let mut task = task;
    loop {
        let action = task.action();
        actions.push(action);
        let value = match action {
            Action::Read(_) => reads.remove(0),
            _ => 0,
        };
        match task.step(value) {
            Progress::More(next) => task = next,
            Progress::Done(r) => return (actions, r),
        }
    }
}

#[test]
fn transfer_describes_the_buffer_and_programs_the_engine() {
    let mut table = Adma2Buffer::new();
    let mut host = SdhciAdma2::new(
        Sdhci::new(0xFE31_0000),
        OffsetDma::new(0x1000, 0x2000),
        &mut table,
    );
    let task = host
        .start_transfer(0x8000, 1024, 512, DmaDir::FromDevice, 0x400)
        .unwrap();
    assert_eq!(
        host.table.bytes[..8],
        [0x23, 0x00, 0x00, 0x04, 0x00, 0x90, 0x00, 0x00]
    );
    let (actions, result) = drive(task, vec![0xFF, 0x0000, 0x0002]);
    assert_eq!(result, Ok(vec![]));
    assert_eq!(
        host.end_transfer(0x8000, 1024, DmaDir::FromDevice, result),
        Ok(())
    );
    assert_eq!(
        actions,
        vec![
            Action::Read(Reg::HostControl1),
            Action::Write(Reg::HostControl1, 0xF7),
            Action::Write(Reg::AdmaAddress, 0x2400),
            Action::Read(Reg::NormalIntStatus),
            Action::Read(Reg::NormalIntStatus),
            Action::Write(Reg::NormalIntStatus, 0x0002),
        ]
    );
    assert_eq!(
        *host.dma.calls.borrow(),
        vec![
            ('m', 0x8000, 1024, DmaDir::FromDevice),
            ('b', 0x8000, 1024, DmaDir::FromDevice),
            ('m', 0x400, 128, DmaDir::ToDevice),
            ('b', 0x400, 128, DmaDir::ToDevice),
            ('a', 0x8000, 1024, DmaDir::FromDevice),
        ]
    );
}

fn refused(addr: usize, len: usize, block_size: u32, offset: u64, table_offset: u64) -> HostError {
    let mut table = Adma2Buffer::default();
    let mut host = SdhciAdma2::new(
        Sdhci::new(0),
        OffsetDma::new(offset, table_offset),
        &mut table,
    );
    match host.start_transfer(addr, len, block_size, DmaDir::ToDevice, 0x400) {
        Ok(_) => panic!("transfer started"),
        Err(e) => e,
    }
}

#[test]
fn transfer_rejects_what_the_engine_cannot_move() {
    assert_eq!(refused(0x8000, 512, 0, 0, 0), HostError::Misaligned);
    assert_eq!(refused(0x8000, 500, 512, 0, 0), HostError::Misaligned);
    assert_eq!(refused(0x8002, 512, 512, 0, 0), HostError::Misaligned);
    assert_eq!(refused(0x8000, 0, 512, 0, 0), HostError::Misaligned);
    assert_eq!(
        refused(0x8000, 512, 512, 1 << 32, 0),
        HostError::BadResponse(ErrorContext::new(Phase::DataWrite))
    );
    assert_eq!(
        refused(0x8000, 512, 512, 0, 1 << 32),
        HostError::BadResponse(ErrorContext::new(Phase::DataRead))
    );
}

#[test]
fn engine_errors_are_told_apart() {
    let start = || {
        let mut table = Adma2Buffer::new();
        let mut host = SdhciAdma2::new(Sdhci::new(0), OffsetDma::new(0, 0), &mut table);
        host.start_transfer(0x8000, 512, 512, DmaDir::ToDevice, 0x400)
            .unwrap()
    };
    // ADMA error
    let (_, result) = drive(start(), vec![0, 0x8000, 0x0200]);
    assert_eq!(result, Err(HostError::Misaligned));
    // Data CRC
    let (actions, result) = drive(start(), vec![0, 0x8000, 0x0020]);
    assert_eq!(
        result,
        Err(HostError::Crc(ErrorContext::for_cmd(Phase::DataWrite, 0)))
    );
    assert_eq!(
        actions[actions.len() - 1],
        Action::Write(Reg::ErrorIntStatus, 0xFFFF)
    );
}

#[test]
fn failed_transfer_is_not_released() {
    let mut table = Adma2Buffer::new();
    let host = SdhciAdma2::new(Sdhci::new(0), OffsetDma::new(0, 0), &mut table);
    assert_eq!(
        host.end_transfer(0x8000, 512, DmaDir::FromDevice, Err(HostError::Misaligned)),
        Err(HostError::Misaligned)
    );
    assert!(host.dma.calls.borrow().is_empty());
}

#[test]
fn adma_data_phases_use_dma() {
    let mut table = Adma2Buffer::new();
    let mut host = SdhciAdma2::new(Sdhci::new(0), OffsetDma::new(0, 0), &mut table);
    host.prepare_data_transfer(DataDirection::Read, 512, 4).unwrap();
    assert!(host.raw().use_dma);
    assert_eq!(
        host.inner.pending_data,
        Some(PendingData {
            direction: DataDirection::Read,
            block_size: 512,
            block_count: 4
        })
    );
    host.prepare_data_transfer(DataDirection::NoData, 0, 0).unwrap();
    assert!(!host.inner.use_dma);
    assert_eq!(host.inner.pending_data, None);
}
