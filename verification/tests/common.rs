use sdmmc_protocol::bits::{from_be_bytes, test_bit, to_be_bytes};
use sdmmc_protocol::common::block_addr_of;
use sdmmc_protocol::crc::crc7_of;
use sdmmc_protocol::error::{ErrorContext, Phase};

#[test]
fn blocks_are_addressed_by_number_or_by_byte() {
    assert_eq!(block_addr_of(7, true), 7);
    assert_eq!(block_addr_of(7, false), 3584);
    assert_eq!(block_addr_of(u32::MAX, true), u32::MAX);
    assert_eq!(block_addr_of(u32::MAX / 512, false), 0xFFFF_FE00);
    assert!(block_addr_of(8, false) > block_addr_of(7, false));
}

#[test]
fn words_split_and_join() {
    assert_eq!(to_be_bytes(0x1234_5678), [0x12, 0x34, 0x56, 0x78]);
    assert_eq!(from_be_bytes([0x12, 0x34, 0x56, 0x78]), 0x1234_5678);
    assert_eq!(from_be_bytes(to_be_bytes(0xFFFF_0001)), 0xFFFF_0001);
    assert!(test_bit(0x8000_0000, 31));
    assert!(!test_bit(0x7FFF_FFFF, 31));
}

#[test]
fn crc7_has_its_check_value() {
    assert_eq!(crc7_of(b"123456789"), 0x75);
    assert_eq!(crc7_of(&[]), 0);
    // CMD17 with argument 0
    assert_eq!(crc7_of(&[0x51, 0, 0, 0, 0]), 0x2A);
}

#[test]
fn contexts_name_what_is_known() {
    assert_eq!(
        ErrorContext::default(),
        ErrorContext {
            phase: Phase::Unknown,
            cmd: None
        }
    );
    assert_eq!(ErrorContext::new(Phase::Init).cmd, None);
    assert_eq!(ErrorContext::for_cmd(Phase::Init, 41).cmd, Some(41));
}
