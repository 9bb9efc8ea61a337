use sdmmc_protocol::cmd::{
    cmd0, cmd1, cmd10, cmd12, cmd13, cmd16, cmd17, cmd18, cmd2, cmd24, cmd25, cmd32, cmd33, cmd38,
    cmd3_mmc, cmd3_sd, cmd4, cmd41, cmd5, cmd52, cmd53, cmd55, cmd58, cmd6, cmd6_high_speed, cmd7,
    cmd8, cmd9, DataDirection,
};
use sdmmc_protocol::crc::crc7_of;
use sdmmc_protocol::response::ResponseType;

#[test]
fn test_cmd0_crc() {
    let bytes = cmd0().to_spi_bytes();
    // CMD0 with arg=0: 0x40 0x00 0x00 0x00 0x00, CRC should be 0x95
    assert_eq!(bytes[0], 0x40);
    assert_eq!(bytes[5], 0x95);
}

#[test]
fn test_cmd8_spi_bytes() {
    let cmd = cmd8(0x01, 0xAA);
    let bytes = cmd.to_spi_bytes();
    assert_eq!(bytes[0], 0x48); // 0x40 | 8
    assert_eq!(bytes[1], 0x00);
    assert_eq!(bytes[2], 0x00);
    assert_eq!(bytes[3], 0x01);
    assert_eq!(bytes[4], 0xAA);
}

#[test]
fn cmd52_encodes_full_17_bit_address() {
    let cmd = cmd52(true, 1, false, 0x1_ABCD, 0x55);
    // write=1, function=001, raw=0, addr=0x1ABCD (bits 25:9), stuff=0, data=0x55
    let expected = (1u32 << 31) | (1u32 << 28) | (0x1_ABCDu32 << 9) | 0x55;
    assert_eq!(cmd.arg, expected);
    assert_eq!(cmd.cmd, 52);
}

#[test]
fn cmd53_encodes_full_17_bit_address_and_count() {
    let cmd = cmd53(false, 2, true, 0x1_FFFF, true, 0x1FF);
    // write=0, function=010, block_mode=1, op_code=1, addr=0x1FFFF, count=0x1FF
    let expected = (2u32 << 28) | (1u32 << 27) | (1u32 << 26) | (0x1_FFFFu32 << 9) | 0x1FF;
    assert_eq!(cmd.arg, expected);
    assert_eq!(cmd.cmd, 53);
}

#[test]
fn data_direction_classifies_block_commands() {
    assert_eq!(cmd17(0).data_direction(), DataDirection::Read);
    assert_eq!(cmd18(0).data_direction(), DataDirection::Read);
    assert_eq!(cmd24(0).data_direction(), DataDirection::Write);
    assert_eq!(cmd25(0).data_direction(), DataDirection::Write);
    // CMD6 is overloaded (ACMD6 vs SWITCH_FUNC); drivers tell the host
    // explicitly rather than relying on the index alone.
    assert_eq!(cmd6(0).data_direction(), DataDirection::NoData);
    assert_eq!(cmd0().data_direction(), DataDirection::NoData);
    assert_eq!(cmd12().data_direction(), DataDirection::NoData);
    assert!(cmd0().data_direction().is_none());
}

#[test]
fn data_block_size_reports_known_lengths() {
    assert_eq!(cmd17(0).data_block_size(), Some(512));
    assert_eq!(cmd18(0).data_block_size(), Some(512));
    assert_eq!(cmd24(0).data_block_size(), Some(512));
    assert_eq!(cmd25(0).data_block_size(), Some(512));
    assert_eq!(cmd6(0).data_block_size(), None);
    assert_eq!(cmd0().data_block_size(), None);
    assert_eq!(cmd12().data_block_size(), None);
}

#[test]
fn cmd6_high_speed_arg_matches_spec() {
    let switch = cmd6_high_speed(true);
    assert_eq!(switch.cmd, 6);
    assert_eq!(switch.arg, 0x80FF_FFF1);
    let check = cmd6_high_speed(false);
    assert_eq!(check.arg, 0x00FF_FFF1);
}

#[test]
fn with_resp_type_overrides_only_resp_type() {
    let original = cmd41(true, 0xFF8000);
    let overridden = original.with_resp_type(ResponseType::R1);
    assert_eq!(overridden.cmd, original.cmd);
    assert_eq!(overridden.arg, original.arg);
    assert_eq!(overridden.resp_type, ResponseType::R1);
    assert_eq!(original.resp_type, ResponseType::R3);
}

#[test]
fn cmd0_frame_is_the_documented_one() {
    assert_eq!(cmd0().to_spi_bytes(), [0x40, 0x00, 0x00, 0x00, 0x00, 0x95]);
}

#[test]
fn cmd8_frame_has_its_crc() {
    assert_eq!(cmd8(0x01, 0xAA).to_spi_bytes(), [0x48, 0x00, 0x00, 0x01, 0xAA, 0x87]);
    assert_eq!(cmd8(0x01, 0xAA).crc7(), 0x87);
}

#[test]
fn crc7_of_a_frame_and_its_crc_is_zero() {
    for cmd in [cmd17(0), cmd18(0xFFFF_FFFF), cmd41(true, 0xFF8000)] {
        let bytes = cmd.to_spi_bytes();
        // The CRC stands in the upper seven bits of the last byte.
        assert_eq!(crc7_of(&bytes[..5]), bytes[5] >> 1);
        assert_eq!(bytes[5] & 1, 1);
    }
}

#[test]
fn arguments_carry_their_fields() {
    assert_eq!(cmd7(0x1234).arg, 0x1234_0000);
    assert_eq!(cmd9(0x1234).arg, 0x1234_0000);
    assert_eq!(cmd10(0xFFFF).arg, 0xFFFF_0000);
    assert_eq!(cmd13(1).arg, 0x0001_0000);
    assert_eq!(cmd55(0x8000).arg, 0x8000_0000);
    assert_eq!(cmd3_mmc(0x55AA).arg, 0x55AA_0000);
    assert_eq!(cmd4(0xBEEF).arg, 0xBEEF_0000);
    assert_eq!(cmd41(false, 0xFFFF_FFFF).arg, 0x00FF_F800);
    assert_eq!(cmd41(true, 0).arg, 0x4000_0000);
    assert_eq!(cmd1(0x40FF_8000).arg, 0x40FF_8000);
    assert_eq!(cmd16(512).arg, 512);
    assert_eq!(cmd32(7).index(), 32);
    assert_eq!(cmd33(8).argument(), 8);
}

#[test]
fn fixed_commands_have_their_indices() {
    let found: Vec<(u8, ResponseType)> = [
        cmd0(),
        cmd2(),
        cmd3_sd(),
        cmd5(),
        cmd12(),
        cmd38(),
        cmd58(),
    ]
    .iter()
    .map(|c| (c.cmd, c.resp_type))
    .collect();
    assert_eq!(
        found,
        vec![
            (0, ResponseType::NoResponse),
            (2, ResponseType::R2),
            (3, ResponseType::R6),
            (5, ResponseType::R4),
            (12, ResponseType::R1b),
            (38, ResponseType::R1b),
            (58, ResponseType::R3),
        ]
    );
}
