use sdmmc_protocol::cmd;
use sdmmc_protocol::cmd::{Command, DataDirection};
use sdmmc_protocol::error::{ErrorContext, HostError, Phase};
use sdmmc_protocol::response::{
    CardState, IfCondResponse, OcrResponse, R1Response, RcaResponse, Response,
};
use sdmmc_protocol::sink::BlockSink;
use sdmmc_protocol::sdio::{
    BusWidth, CardInfo, ClockSpeed, InitStep, PowerUp, SdioHost, SdioSdmmc, INIT_POLL_MS,
    INIT_TIMEOUT_MS,
};

/// Mock host that replays canned responses in order. Used to verify the
/// init sequence and that the driver tracks RCA on its own.
struct MockHost {
    replies: Vec<Response>,
    commands: Vec<Command>,
    bus_width: Option<BusWidth>,
    next_read_payload: Option<Vec<u8>>,
    written: Vec<Vec<u8>>,
    accept_writes: bool,
    hints: Vec<(DataDirection, u32, u32)>,
    counts: Vec<u32>,
    speeds: Vec<ClockSpeed>,
}

impl MockHost {
    fn new(replies: Vec<Response>) -> Self {
        Self {
            replies,
            commands: Vec::new(),
            bus_width: None,
            next_read_payload: None,
            written: Vec::new(),
            accept_writes: false,
            hints: Vec::new(),
            counts: Vec::new(),
            speeds: Vec::new(),
        }
    }
}

impl SdioHost for MockHost {
    fn send_command(&mut self, cmd: &Command) -> Result<Response, HostError> {
        self.commands.push(*cmd);
        if self.replies.is_empty() {
            return Err(HostError::Timeout(ErrorContext::default()));
        }
        Ok(self.replies.remove(0))
    }

    fn read_data(&mut self, buf: &mut [u8], _block_size: u32) -> Result<(), HostError> {
        match self.next_read_payload.take() {
            Some(data) if data.len() == buf.len() => {
                buf.copy_from_slice(&data);
                Ok(())
            }
            _ => Err(HostError::UnsupportedCommand),
        }
    }

    fn write_data(&mut self, buf: &[u8], _block_size: u32) -> Result<(), HostError> {
        if self.accept_writes {
            self.written.push(buf.to_vec());
            Ok(())
        } else {
            Err(HostError::UnsupportedCommand)
        }
    }

    fn set_bus_width(&mut self, width: BusWidth) -> Result<(), HostError> {
        self.bus_width = Some(width);
        Ok(())
    }

    fn set_clock(&mut self, speed: ClockSpeed) -> Result<(), HostError> {
        self.speeds.push(speed);
        Ok(())
    }

    fn set_block_count(&mut self, count: u32) -> Result<(), HostError> {
        self.counts.push(count);
        Ok(())
    }

    fn prepare_data_transfer(
        &mut self,
        direction: DataDirection,
        block_size: u32,
        block_count: u32,
    ) -> Result<(), HostError> {
        self.hints.push((direction, block_size, block_count));
        Ok(())
    }
}

fn ok_r1() -> Response {
    Response::R1(R1Response::from_native_raw(0).unwrap())
}

fn rca_response(rca: u16) -> Response {
    Response::R6(RcaResponse::from_raw((rca as u32) << 16))
}

fn ocr_ready_sdhc() -> Response {
    // bit 31 = power-up done, bit 30 = CCS (high capacity)
    Response::R3(OcrResponse::from_raw(0xC0FF_8000))
}

fn ocr_busy() -> Response {
    Response::R3(OcrResponse::from_raw(0x00FF_8000))
}

fn csd_v2_response() -> Response {
    let mut raw = [0u8; 16];
    raw[0] = 0x40;
    raw[7] = 0x00;
    raw[8] = 0x0F;
    raw[9] = 0x0F;
    Response::R2(raw)
}

fn cid_response() -> Response {
    let mut raw = [0u8; 16];
    raw[0] = 0x03;
    raw[1] = b'S';
    raw[2] = b'D';
    raw[3] = b'A';
    raw[4] = b'B';
    raw[5] = b'C';
    raw[6] = b'1';
    raw[7] = b'2';
    Response::R2(raw)
}

fn if_cond() -> Response {
    Response::R7(IfCondResponse::from_raw(0x0000_01AA))
}

fn ready(step: InitStep) -> CardInfo {
    match step {
        InitStep::Ready(info) => info,
        InitStep::Wait(_) => panic!("card is still powering up"),
    }
}

fn waiting(step: InitStep) -> PowerUp {
    match step {
        InitStep::Wait(wait) => wait,
        InitStep::Ready(_) => panic!("card is ready"),
    }
}

fn init_error(driver: &mut SdioSdmmc<MockHost>) -> HostError {
    match driver.init() {
        Err(e) => e,
        Ok(_) => panic!("initialization went on"),
    }
}

#[test]
fn init_records_rca_in_driver_state() {
    let replies = vec![
        ok_r1(),              // CMD0
        if_cond(),            // CMD8
        ok_r1(),              // CMD55 (ACMD41 prologue)
        ocr_ready_sdhc(),     // ACMD41
        cid_response(),       // CMD2 (CID)
        rca_response(0x1234), // CMD3
        csd_v2_response(),    // CMD9
        ok_r1(),              // CMD7 (select)
        ok_r1(),              // CMD55 (ACMD6 prologue)
        ok_r1(),              // ACMD6
    ];
    let host = MockHost::new(replies);
    let mut driver = SdioSdmmc::new(host);
    let info = ready(driver.init().unwrap());

    assert_eq!(info.rca, 0x1234);
    assert_eq!(driver.rca(), 0x1234);
    assert!(info.high_capacity);
    assert_eq!(info.capacity_blocks, Some((0x0F0F + 1) * 1024));
    let cid = info.cid.expect("CID captured in init");
    assert_eq!(cid.manufacturer_id(), 0x03);
    assert_eq!(&cid.product_name(), b"ABC12");
    assert_eq!(driver.host.bus_width, Some(BusWidth::Bit4));

    // Verify CMD7 / CMD55 / ACMD6 used the recorded RCA, not 0.
    let cmd7 = driver
        .host
        .commands
        .iter()
        .find(|c| c.cmd == 7)
        .expect("CMD7 issued");
    assert_eq!(cmd7.arg, (0x1234u32) << 16);
}

#[test]
fn set_bus_width_bit8_is_unsupported_via_acmd6() {
    let mut driver = SdioSdmmc::new(MockHost::new(vec![ok_r1()]));
    driver.rca = 0x1;
    assert_eq!(
        driver.set_bus_width(BusWidth::Bit8),
        Err(HostError::UnsupportedCommand)
    );
}

#[test]
fn switch_to_high_speed_returns_true_when_status_confirms() {
    let mut host = MockHost::new(vec![ok_r1()]);
    // Stage the 64-byte status block where group 1 reports HS active.
    let mut status = vec![0u8; 64];
    status[16] = 0x01;
    host.next_read_payload = Some(status);

    let mut driver = SdioSdmmc::new(host);
    let active = driver.switch_to_high_speed().unwrap();
    assert!(active);
    let cmd6 = driver
        .host
        .commands
        .iter()
        .find(|c| c.cmd == 6)
        .expect("CMD6 issued");
    assert_eq!(cmd6.arg, 0x80FF_FFF1);
}

#[test]
fn switch_to_high_speed_returns_false_when_card_keeps_default() {
    let mut host = MockHost::new(vec![ok_r1()]);
    host.next_read_payload = Some(vec![0u8; 64]); // group 1 = 0
    let mut driver = SdioSdmmc::new(host);
    let active = driver.switch_to_high_speed().unwrap();
    assert!(!active);
}

#[test]
fn init_sends_its_commands_in_order() {
    let replies = vec![
        ok_r1(),
        if_cond(),
        ok_r1(),
        ocr_ready_sdhc(),
        cid_response(),
        rca_response(0xBEEF),
        csd_v2_response(),
        ok_r1(),
        ok_r1(),
        ok_r1(),
    ];
    let mut driver = SdioSdmmc::new(MockHost::new(replies));
    ready(driver.init().unwrap());
    let sent: Vec<(u8, u32)> = driver.host.commands.iter().map(|c| (c.cmd, c.arg)).collect();
    assert_eq!(
        sent,
        vec![
            (0, 0),
            (8, 0x1AA),
            (55, 0),
            (41, 0x40FF_8000),
            (2, 0),
            (3, 0),
            (9, 0xBEEF_0000),
            (7, 0xBEEF_0000),
            (55, 0xBEEF_0000),
            (6, 2),
        ]
    );
    assert_eq!(driver.bus_width, BusWidth::Bit4);
    // The bus leaves identification speed, and nothing is left of an old hint.
    assert_eq!(driver.host.speeds, vec![ClockSpeed::Default]);
    assert_eq!(driver.host.hints, vec![(DataDirection::NoData, 0, 0)]);
}

#[test]
fn init_waits_for_a_card_that_powers_up_slowly() {
    let replies = vec![ok_r1(), if_cond(), ok_r1(), ocr_busy()];
    let mut driver = SdioSdmmc::new(MockHost::new(replies));
    let wait = waiting(driver.init().unwrap());
    assert_eq!(wait, PowerUp { sd_v2: true, elapsed_ms: INIT_POLL_MS });

    driver.host.replies = vec![ok_r1(), ocr_busy()];
    let wait = waiting(driver.resume_init(wait).unwrap());
    assert_eq!(wait.elapsed_ms, 20);

    driver.host.replies = vec![
        ok_r1(),
        ocr_ready_sdhc(),
        cid_response(),
        rca_response(7),
        csd_v2_response(),
        ok_r1(),
        ok_r1(),
        ok_r1(),
    ];
    let info = ready(driver.resume_init(wait).unwrap());
    assert_eq!(info.rca, 7);
    assert!(info.sd_v2);
}

#[test]
fn init_gives_up_after_a_hundred_waits() {
    let mut driver = SdioSdmmc::new(MockHost::new(vec![ok_r1(), if_cond(), ok_r1(), ocr_busy()]));
    let mut wait = waiting(driver.init().unwrap());
    let mut waits = 1;
    let error = loop {
        driver.host.replies = vec![ok_r1(), ocr_busy()];
        match driver.resume_init(wait) {
            Ok(step) => {
                wait = waiting(step);
                waits += 1;
            }
            Err(e) => break e,
        }
    };
    assert_eq!(waits, 100);
    assert_eq!(wait.elapsed_ms, INIT_TIMEOUT_MS);
    assert_eq!(error, HostError::Timeout(ErrorContext::for_cmd(Phase::Init, 41)));
    assert_eq!(driver.rca(), 0);
}

#[test]
fn init_takes_a_silent_probe_for_version_one() {
    let replies = vec![
        ok_r1(),
        ok_r1(), // CMD8 answered by something else
        ok_r1(),
        ocr_ready_sdhc(),
    ];
    let mut driver = SdioSdmmc::new(MockHost::new(replies));
    assert_eq!(
        init_error(&mut driver),
        HostError::Timeout(ErrorContext::default())
    );
    let acmd41 = driver.host.commands[3];
    assert_eq!((acmd41.cmd, acmd41.arg), (41, 0x00FF_8000));
}

#[test]
fn init_rejects_a_bad_answer_to_acmd41() {
    let mut driver = SdioSdmmc::new(MockHost::new(vec![ok_r1(), if_cond(), ok_r1(), ok_r1()]));
    assert_eq!(
        init_error(&mut driver),
        HostError::BadResponse(ErrorContext::for_cmd(Phase::Init, 41))
    );
}

#[test]
fn init_rejects_a_bad_answer_to_cmd3() {
    let replies = vec![
        ok_r1(),
        if_cond(),
        ok_r1(),
        ocr_ready_sdhc(),
        cid_response(),
        ok_r1(),
    ];
    let mut driver = SdioSdmmc::new(MockHost::new(replies));
    assert_eq!(
        init_error(&mut driver),
        HostError::BadResponse(ErrorContext::for_cmd(Phase::Init, 3))
    );
}

#[test]
fn failed_init_publishes_no_address() {
    let replies = vec![
        ok_r1(),
        if_cond(),
        ok_r1(),
        ocr_ready_sdhc(),
        cid_response(),
        rca_response(0x1234),
        csd_v2_response(),
        ok_r1(),
    ];
    let mut driver = SdioSdmmc::new(MockHost::new(replies));
    assert_eq!(
        init_error(&mut driver),
        HostError::Timeout(ErrorContext::default())
    );
    assert_eq!(driver.rca(), 0);
    assert_eq!(driver.bus_width, BusWidth::Bit1);
    // CMD7 went through, so the card's capacity class is known.
    assert!(driver.high_capacity);
}

#[test]
fn init_leaves_unknown_registers_out() {
    let replies = vec![
        ok_r1(),
        if_cond(),
        ok_r1(),
        ocr_ready_sdhc(),
        ok_r1(), // no CID
        rca_response(1),
        ok_r1(), // no CSD
        ok_r1(),
        ok_r1(),
        ok_r1(),
    ];
    let mut driver = SdioSdmmc::new(MockHost::new(replies));
    let info = ready(driver.init().unwrap());
    assert!(info.cid.is_none());
    assert_eq!(info.capacity_blocks, None);
}

#[test]
fn set_bus_width_tells_card_and_host() {
    let mut driver = SdioSdmmc::new(MockHost::new(vec![ok_r1(), ok_r1()]));
    driver.rca = 0x0A0B;
    assert_eq!(driver.set_bus_width(BusWidth::Bit1), Ok(()));
    assert_eq!(driver.host.commands, vec![cmd::cmd55(0x0A0B), cmd::cmd6(0)]);
    assert_eq!(driver.host.bus_width, Some(BusWidth::Bit1));
}

#[test]
fn read_block_announces_asks_and_reads() {
    let mut host = MockHost::new(vec![ok_r1()]);
    host.next_read_payload = Some(vec![0x5A; 512]);
    let mut driver = SdioSdmmc::new(host);
    let mut buf = [0u8; 512];
    assert_eq!(driver.read_block(3, &mut buf), Ok(()));
    assert_eq!(buf, [0x5A; 512]);
    assert_eq!(driver.host.hints, vec![(DataDirection::Read, 512, 1)]);
    // A standard-capacity card is addressed by bytes.
    assert_eq!(driver.host.commands, vec![cmd::cmd17(3 * 512)]);
}

#[test]
fn write_block_hands_over_the_data() {
    let mut host = MockHost::new(vec![ok_r1()]);
    host.accept_writes = true;
    let mut driver = SdioSdmmc::new(host);
    driver.high_capacity = true;
    assert_eq!(driver.write_block(9, &[0xC3; 512]), Ok(()));
    assert_eq!(driver.host.commands, vec![cmd::cmd24(9)]);
    assert_eq!(driver.host.hints, vec![(DataDirection::Write, 512, 1)]);
    assert_eq!(driver.host.written, vec![vec![0xC3; 512]]);
}

#[test]
fn write_error_of_the_host_is_returned() {
    let mut driver = SdioSdmmc::new(MockHost::new(vec![ok_r1()]));
    driver.high_capacity = true;
    assert_eq!(
        driver.write_block(9, &[0; 512]),
        Err(HostError::UnsupportedCommand)
    );
}

#[test]
fn read_blocks_hands_each_block_over_and_stops() {
    let mut host = MockHost::new(vec![ok_r1(), ok_r1()]);
    host.next_read_payload = Some(vec![0x11; 512]);
    let mut driver = SdioSdmmc::new(host);
    driver.high_capacity = true;
    let mut seen: Vec<(u32, u8)> = Vec::new();
    let result = driver.read_blocks(40, 1, |addr: u32, block: &[u8; 512]| {
        seen.push((addr, block[511]));
    });
    assert_eq!(result, Ok(()));
    assert_eq!(seen, vec![(40, 0x11)]);
    assert_eq!(driver.host.counts, vec![1]);
    assert_eq!(driver.host.commands, vec![cmd::cmd18(40), cmd::cmd12()]);
}

#[test]
fn read_blocks_breaks_off_at_a_failed_block() {
    let mut host = MockHost::new(vec![ok_r1(), ok_r1()]);
    host.next_read_payload = Some(vec![0x11; 512]);
    let mut driver = SdioSdmmc::new(host);
    driver.high_capacity = true;
    let mut seen = 0;
    let result = driver.read_blocks(40, 3, |_addr: u32, _block: &[u8; 512]| seen += 1);
    assert_eq!(result, Err(HostError::UnsupportedCommand));
    assert_eq!(seen, 1);
    // No CMD12 after a failure.
    assert_eq!(driver.host.commands, vec![cmd::cmd18(40)]);
}

#[test]
fn write_blocks_sends_all_blocks_and_stops() {
    let mut host = MockHost::new(vec![ok_r1(), ok_r1()]);
    host.accept_writes = true;
    let mut driver = SdioSdmmc::new(host);
    driver.high_capacity = true;
    assert_eq!(driver.write_blocks(5, &[[1; 512], [2; 512], [3; 512]]), Ok(()));
    assert_eq!(driver.host.counts, vec![3]);
    assert_eq!(driver.host.hints, vec![(DataDirection::Write, 512, 3)]);
    assert_eq!(
        driver.host.written,
        vec![vec![1; 512], vec![2; 512], vec![3; 512]]
    );
    assert_eq!(driver.host.commands, vec![cmd::cmd25(5), cmd::cmd12()]);
}

#[test]
fn erase_marks_both_ends() {
    let mut driver = SdioSdmmc::new(MockHost::new(vec![ok_r1(), ok_r1(), ok_r1()]));
    assert_eq!(driver.erase(2, 10), Ok(()));
    assert_eq!(
        driver.host.commands,
        vec![cmd::cmd32(1024), cmd::cmd33(5120), cmd::cmd38()]
    );
}

#[test]
fn status_reports_the_card_state() {
    let tran = Response::R1(R1Response::from_native_raw(4 << 12).unwrap());
    let mut driver = SdioSdmmc::new(MockHost::new(vec![tran, if_cond()]));
    driver.rca = 0x22;
    assert_eq!(driver.status(), Ok(CardState::Transfer));
    assert_eq!(driver.host.commands, vec![cmd::cmd13(0x22)]);
    assert_eq!(
        driver.status(),
        Err(HostError::BadResponse(ErrorContext::for_cmd(
            Phase::ResponseWait,
            13
        )))
    );
}

#[test]
fn commands_without_data_clear_an_old_hint() {
    let cleared = vec![(DataDirection::NoData, 0, 0)];

    let mut driver = SdioSdmmc::new(MockHost::new(vec![ok_r1()]));
    driver.status().unwrap();
    assert_eq!(driver.host.hints, cleared);

    let mut driver = SdioSdmmc::new(MockHost::new(vec![ok_r1(), ok_r1(), ok_r1()]));
    driver.erase(0, 1).unwrap();
    assert_eq!(driver.host.hints, cleared);

    let mut driver = SdioSdmmc::new(MockHost::new(vec![ok_r1(), ok_r1()]));
    driver.set_bus_width(BusWidth::Bit4).unwrap();
    assert_eq!(driver.host.hints, cleared);

    let mut driver = SdioSdmmc::new(MockHost::new(vec![ok_r1(), ocr_busy()]));
    let wait = PowerUp { sd_v2: true, elapsed_ms: 10 };
    waiting(driver.resume_init(wait).unwrap());
    assert_eq!(driver.host.hints, cleared);
}

#[test]
fn failed_init_does_not_raise_the_clock() {
    let mut driver = SdioSdmmc::new(MockHost::new(vec![ok_r1(), if_cond(), ok_r1(), ok_r1()]));
    init_error(&mut driver);
    assert!(driver.host.speeds.is_empty());
}

/// Notes the blocks that it takes.
struct Notes(Vec<(u32, u8)>);

impl BlockSink for Notes {
    fn take(&mut self, addr: u32, block: &[u8; 512]) {
        self.0.push((addr, block[0]));
    }
}

#[test]
fn sink_takes_each_block_that_arrived_and_nothing_else() {
    let mut host = MockHost::new(vec![ok_r1(), ok_r1()]);
    host.next_read_payload = Some(vec![0x77; 512]);
    let mut driver = SdioSdmmc::new(host);
    driver.high_capacity = true;
    let mut sink = Notes(Vec::new());
    // The mock host has one block; reading the second fails.
    assert_eq!(
        driver.read_blocks_into(40, 2, &mut sink),
        Err(HostError::UnsupportedCommand)
    );
    assert_eq!(sink.0, vec![(40, 0x77)]);
}
