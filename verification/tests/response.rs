use sdmmc_protocol::error::{CardError, Error, HostError};
use sdmmc_protocol::response::{
    CardState, CidResponse, CsdResponse, IfCondResponse, OcrResponse, R1Response, RcaResponse,
    SdioOcrResponse, SdioRwResponse, SwitchStatus,
};

#[test]
fn spi_r1_idle_uses_bit_zero() {
    let response = R1Response::from_raw(0x01).unwrap();
    assert!(response.idle());
}

#[test]
fn spi_r1_illegal_command_uses_bit_two() {
    let response = R1Response::from_raw(0x04).unwrap();
    assert!(response.illegal_command());
}

#[test]
fn status_bits_are_told_apart() {
    let r = R1Response::from_raw(0x0A).unwrap();
    assert!(!r.idle());
    assert!(r.erase_reset());
    assert!(!r.illegal_command());
    assert!(r.command_crc_failed());
    assert!(!r.card_is_locked());
    // Bit 19 is an error bit too, so only a status made by hand can have it.
    assert!(R1Response { raw: 1 << 19 }.card_is_locked());
}

#[test]
fn status_errors_are_decoded() {
    assert_eq!(
        R1Response::from_raw(0x10 << 19),
        Err(Error::CardError(CardError::IllegalCommand))
    );
    assert_eq!(
        R1Response::from_raw(0x21 << 19),
        Err(Error::CardError(CardError::Unknown(0x21)))
    );
    assert_eq!(
        R1Response::from_native_raw(0x20 << 19),
        Err(HostError::CardError(CardError::CardEccFailed))
    );
    // Bit 25 is not one of them.
    assert_eq!(R1Response::from_raw(1 << 25), Ok(R1Response { raw: 1 << 25 }));
}

#[test]
fn states_are_decoded() {
    let state = |n: u32| R1Response { raw: n << 12 }.current_state();
    let expected = [
        CardState::Idle,
        CardState::Ready,
        CardState::Identification,
        CardState::Standby,
        CardState::Transfer,
        CardState::SendingData,
        CardState::ReceiveData,
        CardState::Programming,
        CardState::Disconnect,
        CardState::Reserved(9),
    ];
    for (n, want) in expected.iter().enumerate() {
        assert_eq!(state(n as u32), *want);
    }
    assert_eq!(state(0x1F), CardState::Reserved(15));
    assert_eq!(R1Response { raw: 0x4000 }.current_state(), CardState::Transfer);
    assert_eq!(R1Response { raw: 0x0FFF }.current_state(), CardState::Idle);
}

#[test]
fn ocr_bits() {
    let ocr = OcrResponse::from_raw(0xE0F0_01FF);
    assert!(ocr.card_powered_up());
    assert!(ocr.ccs());
    assert!(ocr.uhs2());
    assert_eq!(ocr.voltage_window(), 0x00F0_01FF);
    assert_eq!(OcrResponse::from_raw(0xC0FF_80FF).voltage_window(), 0x00FF_80FF);
    assert!(ocr.vdd_35_36() && ocr.vdd_34_35() && ocr.vdd_33_34() && ocr.vdd_32_33());
    assert!(ocr.supports_2v7_to_3v6());
    let none = OcrResponse::from_raw(0x0000_7FFF);
    assert!(!none.card_powered_up() && !none.ccs() && !none.uhs2());
    assert!(!none.vdd_35_36() && !none.vdd_34_35() && !none.vdd_33_34() && !none.vdd_32_33());
    assert!(!none.supports_2v7_to_3v6());
}

#[test]
fn rca_and_interface_fields() {
    let rca = RcaResponse::from_raw(0xABCD_1234);
    assert_eq!(rca.rca(), 0xABCD);
    assert_eq!(rca.status(), 0x1234);
    let cond = IfCondResponse::from_raw(0xFFFF_F15A);
    assert_eq!(cond.voltage(), 1);
    assert_eq!(cond.check_pattern(), 0x5A);
    assert!(cond.verify(1, 0x5A));
    assert!(!cond.verify(2, 0x5A));
    assert!(!cond.verify(1, 0xAA));
}

#[test]
fn sdio_fields() {
    let ocr = SdioOcrResponse::from_raw(0xB800_0000);
    assert_eq!(ocr.io_functions(), 3);
    assert_eq!(SdioOcrResponse::from_raw(0x1800_0000).io_functions(), 3);
    assert_eq!(SdioOcrResponse::from_raw(0xE7FF_FFFF).io_functions(), 0);
    assert!(ocr.memory_present());
    assert!(ocr.io_ready());
    let rw = SdioRwResponse::from_raw(0x0000_1234);
    assert_eq!(rw.data(), 0x34);
    assert_eq!(rw.flags(), 0x12);
}

#[test]
fn csd_capacities() {
    let mut v2 = [0u8; 16];
    v2[0] = 0x40;
    v2[7] = 0xFF;
    v2[8] = 0x00;
    v2[9] = 0x01;
    assert_eq!(
        CsdResponse::from_raw(v2).capacity_blocks(),
        Some((0x3F_0001 + 1) * 1024)
    );

    // READ_BL_LEN 9, C_SIZE 0xF03, C_SIZE_MULT 7
    let mut v1 = [0u8; 16];
    v1[5] = 0x59;
    v1[6] = 0x03;
    v1[7] = 0xC0;
    v1[8] = 0xC0;
    v1[9] = 0x03;
    v1[10] = 0x80;
    assert_eq!(
        CsdResponse::from_raw(v1).capacity_blocks(),
        Some((0xF03 + 1) << 9)
    );

    let mut unknown = [0u8; 16];
    unknown[0] = 0x80;
    assert_eq!(CsdResponse::from_raw(unknown).capacity_blocks(), None);
}

#[test]
fn cid_fields() {
    let mut raw = [0u8; 16];
    raw[0] = 0x1B;
    raw[3..8].copy_from_slice(b"EB1QT");
    let cid = CidResponse::from_raw(raw);
    assert_eq!(cid.manufacturer_id(), 0x1B);
    assert_eq!(&cid.product_name(), b"EB1QT");
}

#[test]
fn switch_status_group_one() {
    let mut raw = [0u8; 64];
    raw[16] = 0xF1;
    assert!(SwitchStatus::from_raw(raw).high_speed_active());
    raw[16] = 0x1F;
    assert!(!SwitchStatus::from_raw(raw).high_speed_active());
}
