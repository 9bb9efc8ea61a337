use sdmmc_protocol::cmd;
use sdmmc_protocol::error::Error;
use sdmmc_protocol::sink::BlockSink;
use sdmmc_protocol::spi::{SpiDeviceWrapper, SpiSdmmc, SpiTransport};

struct ScriptedTransport {
    rx: Vec<u8>,
    tx: Vec<u8>,
}

impl ScriptedTransport {
    fn new(rx: Vec<u8>) -> Self {
        Self { rx, tx: Vec::new() }
    }

    fn push_ignored(rx: &mut Vec<u8>, count: usize) {
        for _ in 0..count {
            rx.push(0xFF);
        }
    }

    fn push_command_response(rx: &mut Vec<u8>, r1: u8, extra: &[u8]) {
        Self::push_ignored(rx, 6);
        rx.push(r1);
        rx.extend_from_slice(extra);
    }

    fn tx_contains(&self, bytes: &[u8]) -> bool {
        self.tx.windows(bytes.len()).any(|window| window == bytes)
    }
}

impl SpiTransport for ScriptedTransport {
    fn transfer_byte(&mut self, byte: u8) -> Result<u8, Error> {
        self.tx.push(byte);
        if self.rx.is_empty() {
            return Err(Error::Timeout);
        }
        Ok(self.rx.remove(0))
    }
}

#[test]
fn init_polls_acmd41_until_spi_r1_leaves_idle() {
    let mut rx = Vec::new();
    ScriptedTransport::push_ignored(&mut rx, 10);
    ScriptedTransport::push_command_response(&mut rx, 0x01, &[]);
    ScriptedTransport::push_command_response(&mut rx, 0x01, &[0x00, 0x00, 0x01, 0xAA]);
    ScriptedTransport::push_command_response(&mut rx, 0x01, &[]);
    ScriptedTransport::push_command_response(&mut rx, 0x01, &[]);
    ScriptedTransport::push_command_response(&mut rx, 0x01, &[]);
    ScriptedTransport::push_command_response(&mut rx, 0x00, &[]);
    ScriptedTransport::push_command_response(&mut rx, 0x00, &[0xC0, 0xFF, 0x80, 0x00]);

    let mut driver = SpiSdmmc::new(ScriptedTransport::new(rx));
    let info = driver.init().unwrap();

    assert!(info.sd_v2);
    assert!(info.high_capacity);
    assert_eq!(info.ocr, 0xC0FF_8000);
    assert!(driver.transport.tx_contains(&cmd::cmd0().to_spi_bytes()));
    assert!(driver
        .transport
        .tx_contains(&cmd::cmd8(0x01, 0xAA).to_spi_bytes()));
    assert!(driver.transport.tx_contains(&cmd::cmd58().to_spi_bytes()));
}

#[test]
fn read_block_times_out_when_start_token_never_arrives() {
    let mut rx = Vec::new();
    ScriptedTransport::push_command_response(&mut rx, 0x00, &[]);
    ScriptedTransport::push_ignored(&mut rx, 10_000);
    rx.extend_from_slice(&[0xAA; 512]);
    rx.extend_from_slice(&[0xFF; 2]);

    let mut driver = SpiSdmmc::new(ScriptedTransport::new(rx));
    driver.high_capacity = true;
    let mut buf = [0u8; 512];

    assert_eq!(driver.read_block(7, &mut buf), Err(Error::Timeout));
    assert!(driver.transport.tx_contains(&cmd::cmd17(7).to_spi_bytes()));
}

/// A CSD register of the second layout.
fn csd_v2(c_size: u16) -> [u8; 16] {
    let mut raw = [0u8; 16];
    raw[0] = 0x40;
    raw[8..10].copy_from_slice(&c_size.to_be_bytes());
    raw
}

/// The replies to an initialization up to CMD58.
fn replies_up_to_ocr() -> Vec<u8> {
    let mut rx = Vec::new();
    ScriptedTransport::push_ignored(&mut rx, 10);
    ScriptedTransport::push_command_response(&mut rx, 0x01, &[]);
    ScriptedTransport::push_command_response(&mut rx, 0x01, &[0x00, 0x00, 0x01, 0xAA]);
    ScriptedTransport::push_command_response(&mut rx, 0x01, &[]);
    ScriptedTransport::push_command_response(&mut rx, 0x00, &[]);
    ScriptedTransport::push_command_response(&mut rx, 0x00, &[0xC0, 0xFF, 0x80, 0x00]);
    rx
}

fn driver_over(rx: Vec<u8>) -> SpiSdmmc<ScriptedTransport> {
    SpiSdmmc::new(ScriptedTransport::new(rx))
}

#[test]
fn init_sends_eighty_clocks_then_its_commands() {
    let mut rx = Vec::new();
    ScriptedTransport::push_ignored(&mut rx, 10);
    ScriptedTransport::push_command_response(&mut rx, 0x01, &[]);
    ScriptedTransport::push_command_response(&mut rx, 0x01, &[0x00, 0x00, 0x01, 0xAA]);
    ScriptedTransport::push_command_response(&mut rx, 0x01, &[]);
    ScriptedTransport::push_command_response(&mut rx, 0x00, &[]);
    ScriptedTransport::push_command_response(&mut rx, 0x00, &[0x80, 0xFF, 0x80, 0x00]);
    ScriptedTransport::push_command_response(&mut rx, 0x00, &[0xFE]);
    rx.extend_from_slice(&csd_v2(0x0F0F));
    let mut driver = driver_over(rx);
    let info = driver.init().unwrap();
    assert!(!info.high_capacity);
    assert_eq!(info.capacity_blocks, Some((0x0F0F + 1) * 1024));
    assert!(driver.sd_v2);
    assert!(driver.transport.rx.is_empty());

    let mut expected = vec![0xFF; 10];
    let acmd41 = cmd::cmd41(true, 0xFF8000);
    for (command, payload) in [
        (cmd::cmd0(), 0),
        (cmd::cmd8(0x01, 0xAA), 4),
        (cmd::cmd55(0), 0),
        (acmd41, 0),
        (cmd::cmd58(), 4),
        (cmd::cmd9(0), 17),
    ] {
        expected.extend_from_slice(&command.to_spi_bytes());
        for _ in 0..payload + 1 {
            expected.push(0xFF);
        }
    }
    assert_eq!(driver.transport.tx, expected);
}

#[test]
fn init_takes_an_illegal_probe_for_version_one() {
    let mut rx = Vec::new();
    ScriptedTransport::push_ignored(&mut rx, 10);
    ScriptedTransport::push_command_response(&mut rx, 0x01, &[]);
    ScriptedTransport::push_command_response(&mut rx, 0x05, &[]);
    ScriptedTransport::push_command_response(&mut rx, 0x01, &[]);
    ScriptedTransport::push_command_response(&mut rx, 0x00, &[]);
    ScriptedTransport::push_command_response(&mut rx, 0x00, &[0x80, 0xFF, 0x80, 0x00]);
    let mut driver = driver_over(rx);
    let info = driver.init().unwrap();
    assert!(!info.sd_v2);
    // Without the capacity bit
    assert!(driver
        .transport
        .tx_contains(&cmd::cmd41(false, 0xFF8000).to_spi_bytes()));
}

#[test]
fn init_gives_up_on_a_card_that_stays_idle() {
    let mut rx = Vec::new();
    ScriptedTransport::push_ignored(&mut rx, 10);
    ScriptedTransport::push_command_response(&mut rx, 0x01, &[]);
    ScriptedTransport::push_command_response(&mut rx, 0x01, &[0x00, 0x00, 0x01, 0xAA]);
    for _ in 0..2000 {
        ScriptedTransport::push_command_response(&mut rx, 0x01, &[]);
    }
    let mut driver = driver_over(rx);
    assert_eq!(driver.init(), Err(Error::Timeout));
    assert!(driver.transport.rx.is_empty());
    assert!(driver.sd_v2);
}

#[test]
fn bus_errors_end_a_transaction() {
    // The script runs dry in the middle of CMD17.
    let mut driver = driver_over(vec![0xFF; 3]);
    let mut buf = [7u8; 512];
    assert_eq!(driver.read_block(0, &mut buf), Err(Error::Timeout));
    assert_eq!(driver.transport.tx.len(), 4);
    assert_eq!(buf, [7; 512]);
}

#[test]
fn read_block_gives_what_the_card_sent() {
    let mut rx = Vec::new();
    ScriptedTransport::push_command_response(&mut rx, 0x00, &[0xFF, 0xFF, 0xFE]);
    let data: Vec<u8> = (0..512).map(|i| (i % 251) as u8).collect();
    rx.extend_from_slice(&data);
    rx.extend_from_slice(&[0x12, 0x34]);
    let mut driver = driver_over(rx);
    let mut buf = [0u8; 512];
    assert_eq!(driver.read_block(2, &mut buf), Ok(()));
    assert_eq!(buf.to_vec(), data);
    assert!(driver.transport.rx.is_empty());
    // A standard-capacity card is addressed by bytes.
    assert!(driver.transport.tx_contains(&cmd::cmd17(1024).to_spi_bytes()));
}

#[test]
fn read_block_rejects_another_token() {
    let mut rx = Vec::new();
    ScriptedTransport::push_command_response(&mut rx, 0x00, &[0xFF, 0x08]);
    let mut driver = driver_over(rx);
    let mut buf = [0u8; 512];
    assert_eq!(driver.read_block(0, &mut buf), Err(Error::ReadError));
}

#[test]
fn spi_read_blocks_hands_each_block_over_and_stops() {
    let mut rx = Vec::new();
    ScriptedTransport::push_command_response(&mut rx, 0x00, &[]);
    for value in [0x11u8, 0x22] {
        rx.push(0xFE);
        rx.extend_from_slice(&[value; 512]);
        rx.extend_from_slice(&[0xFF; 2]);
    }
    // CMD12 is answered by R1b, then the bus is waited for once more.
    ScriptedTransport::push_command_response(&mut rx, 0x00, &[0x00, 0xFF, 0xFF]);
    let mut driver = driver_over(rx);
    driver.high_capacity = true;
    let mut seen: Vec<(u32, u8)> = Vec::new();
    let result = driver.read_blocks(100, 2, |addr: u32, block: &[u8; 512]| {
        seen.push((addr, block[0]));
    });
    assert_eq!(result, Ok(()));
    assert_eq!(seen, vec![(100, 0x11), (101, 0x22)]);
    assert!(driver.transport.rx.is_empty());
    assert!(driver.transport.tx_contains(&cmd::cmd12().to_spi_bytes()));
}

#[test]
fn write_block_sends_the_block_and_waits() {
    let mut rx = Vec::new();
    ScriptedTransport::push_command_response(&mut rx, 0x00, &[]);
    ScriptedTransport::push_ignored(&mut rx, 515);
    rx.extend_from_slice(&[0xFF, 0xE5, 0x00, 0x00, 0xFF]);
    let mut driver = driver_over(rx);
    driver.high_capacity = true;
    assert_eq!(driver.write_block(6, &[0x3C; 512]), Ok(()));
    assert!(driver.transport.rx.is_empty());
    let mut block = vec![0xFE];
    block.extend_from_slice(&[0x3C; 512]);
    assert!(driver.transport.tx_contains(&block));
    assert!(driver.transport.tx_contains(&cmd::cmd24(6).to_spi_bytes()));
}

#[test]
fn write_block_reports_a_refused_block() {
    let mut rx = Vec::new();
    ScriptedTransport::push_command_response(&mut rx, 0x00, &[]);
    ScriptedTransport::push_ignored(&mut rx, 515);
    rx.push(0x0B);
    let mut driver = driver_over(rx);
    assert_eq!(driver.write_block(0, &[0; 512]), Err(Error::WriteError));
}

#[test]
fn write_block_gives_up_on_a_busy_card() {
    let mut rx = Vec::new();
    ScriptedTransport::push_command_response(&mut rx, 0x00, &[]);
    ScriptedTransport::push_ignored(&mut rx, 515);
    rx.push(0x05);
    struct Busy {
        script: ScriptedTransport,
        sent: usize,
    }
    impl SpiTransport for Busy {
        fn transfer_byte(&mut self, byte: u8) -> Result<u8, Error> {
            self.sent += 1;
            if self.script.rx.is_empty() {
                Ok(0x00)
            } else {
                self.script.transfer_byte(byte)
            }
        }
    }
    let mut driver = SpiSdmmc::new(Busy {
        script: ScriptedTransport::new(rx),
        sent: 0,
    });
    assert_eq!(driver.write_block(0, &[0; 512]), Err(Error::Timeout));
    assert_eq!(driver.transport.sent, 7 + 515 + 1 + 500_000);
}

#[test]
fn write_blocks_uses_the_multi_block_tokens() {
    let mut rx = Vec::new();
    ScriptedTransport::push_command_response(&mut rx, 0x00, &[]);
    for _ in 0..2 {
        ScriptedTransport::push_ignored(&mut rx, 515);
        rx.extend_from_slice(&[0x05, 0xFF]);
    }
    rx.extend_from_slice(&[0xFF, 0xFF, 0x00, 0xFF]);
    let mut driver = driver_over(rx);
    driver.high_capacity = true;
    assert_eq!(driver.write_blocks(1, &[[0x01; 512], [0x02; 512]]), Ok(()));
    assert!(driver.transport.rx.is_empty());
    let mut second = vec![0xFC];
    second.extend_from_slice(&[0x02; 512]);
    assert!(driver.transport.tx_contains(&second));
    assert!(driver.transport.tx_contains(&[0xFD, 0xFF]));
    assert!(driver.transport.tx_contains(&cmd::cmd25(1).to_spi_bytes()));
}

#[test]
fn spi_init_takes_another_echo_for_version_one() {
    let mut rx = Vec::new();
    ScriptedTransport::push_ignored(&mut rx, 10);
    ScriptedTransport::push_command_response(&mut rx, 0x01, &[]);
    ScriptedTransport::push_command_response(&mut rx, 0x01, &[0x00, 0x00, 0x02, 0xAA]);
    ScriptedTransport::push_command_response(&mut rx, 0x01, &[]);
    ScriptedTransport::push_command_response(&mut rx, 0x00, &[]);
    ScriptedTransport::push_command_response(&mut rx, 0x00, &[0xC0, 0xFF, 0x80, 0x00]);
    let mut driver = driver_over(rx);
    assert!(!driver.init().unwrap().sd_v2);
}

#[test]
fn transports_send_and_clock_by_exchanging_a_byte() {
    let mut transport = ScriptedTransport::new(vec![1, 2]);
    assert_eq!(transport.send_byte(0x5A), Ok(()));
    assert_eq!(transport.clock(), Ok(()));
    assert_eq!(transport.clock(), Err(Error::Timeout));
    assert_eq!(transport.tx, vec![0x5A, 0xFF, 0xFF]);
}

#[test]
fn wrapper_holds_its_device() {
    assert_eq!(SpiDeviceWrapper::new(42u8).spi, 42);
}

#[test]
fn init_reads_the_capacity_behind_the_start_token() {
    let mut rx = replies_up_to_ocr();
    ScriptedTransport::push_command_response(&mut rx, 0x00, &[0xFF, 0xFF, 0xFE]);
    rx.extend_from_slice(&csd_v2(7));
    let mut driver = driver_over(rx);
    assert_eq!(driver.init().unwrap().capacity_blocks, Some(8 * 1024));
    assert!(driver.transport.rx.is_empty());
}

#[test]
fn init_does_without_a_capacity() {
    // The card refuses CMD9.
    let mut rx = replies_up_to_ocr();
    ScriptedTransport::push_command_response(&mut rx, 0x04, &[]);
    assert_eq!(driver_over(rx).init().unwrap().capacity_blocks, None);
    // It never sends the token.
    let mut rx = replies_up_to_ocr();
    ScriptedTransport::push_command_response(&mut rx, 0x00, &[0xFF; 10_000]);
    let mut driver = driver_over(rx);
    assert_eq!(driver.init().unwrap().capacity_blocks, None);
    assert!(driver.transport.rx.is_empty());
    // It sends a layout that is not known.
    let mut rx = replies_up_to_ocr();
    ScriptedTransport::push_command_response(&mut rx, 0x00, &[0xFE, 0x80]);
    ScriptedTransport::push_ignored(&mut rx, 15);
    assert_eq!(driver_over(rx).init().unwrap().capacity_blocks, None);
}

#[test]
fn init_does_without_a_capacity_that_fails_to_arrive() {
    // Another token
    let mut rx = replies_up_to_ocr();
    ScriptedTransport::push_command_response(&mut rx, 0x00, &[0xFF, 0x08]);
    let mut driver = driver_over(rx);
    assert_eq!(driver.init().unwrap().capacity_blocks, None);
    assert!(driver.high_capacity);
    assert!(driver.transport.rx.is_empty());

    // A bus error
    struct Broken(ScriptedTransport);
    impl SpiTransport for Broken {
        fn transfer_byte(&mut self, byte: u8) -> Result<u8, Error> {
            self.0.transfer_byte(byte).map_err(|_| Error::BusError)
        }
    }
    let mut driver = SpiSdmmc::new(Broken(ScriptedTransport::new(replies_up_to_ocr())));
    assert_eq!(driver.init().unwrap().capacity_blocks, None);
}

/// Notes the blocks that it takes.
struct Notes(Vec<(u32, u8)>);

impl BlockSink for Notes {
    fn take(&mut self, addr: u32, block: &[u8; 512]) {
        self.0.push((addr, block[511]));
    }
}

#[test]
fn spi_sink_takes_each_block_once_and_in_order() {
    let mut rx = Vec::new();
    ScriptedTransport::push_command_response(&mut rx, 0x00, &[]);
    for value in [1u8, 2, 3] {
        rx.push(0xFE);
        rx.extend_from_slice(&[value; 512]);
        rx.extend_from_slice(&[0xFF; 2]);
    }
    ScriptedTransport::push_command_response(&mut rx, 0x00, &[0xFF, 0xFF]);
    // Block numbers count up on a standard-capacity card too.
    let mut driver = driver_over(rx);
    let mut sink = Notes(vec![(9, 9)]);
    assert_eq!(driver.read_blocks_into(5, 3, &mut sink), Ok(()));
    assert_eq!(sink.0, vec![(9, 9), (5, 1), (6, 2), (7, 3)]);
}

#[test]
fn spi_sink_takes_nothing_from_a_failed_block_on() {
    let mut rx = Vec::new();
    ScriptedTransport::push_command_response(&mut rx, 0x00, &[0xFE]);
    rx.extend_from_slice(&[4; 512]);
    rx.extend_from_slice(&[0xFF, 0xFF, 0x08]);
    let mut driver = driver_over(rx);
    driver.high_capacity = true;
    let mut sink = Notes(Vec::new());
    assert_eq!(driver.read_blocks_into(5, 3, &mut sink), Err(Error::ReadError));
    assert_eq!(sink.0, vec![(5, 4)]);
    assert!(driver.transport.rx.is_empty());
    assert!(!driver.transport.tx_contains(&cmd::cmd12().to_spi_bytes()));
}

#[test]
fn spi_read_of_no_blocks_starts_and_stops() {
    let mut rx = Vec::new();
    ScriptedTransport::push_command_response(&mut rx, 0x00, &[]);
    ScriptedTransport::push_command_response(&mut rx, 0x00, &[0xFF, 0xFF]);
    let mut driver = driver_over(rx);
    let mut calls = 0;
    assert_eq!(
        driver.read_blocks(0, 0, |_addr: u32, _block: &[u8; 512]| calls += 1),
        Ok(())
    );
    assert_eq!(calls, 0);
    assert!(driver.transport.tx_contains(&cmd::cmd18(0).to_spi_bytes()));
    assert!(driver.transport.tx_contains(&cmd::cmd12().to_spi_bytes()));
}
