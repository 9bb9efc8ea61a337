use sdmmc_protocol::clock::clock_hz_for_speed;
use sdmmc_protocol::cmd::DataDirection;
use sdmmc_protocol::dwmmc::{
    uhs_bits_after_speed, uhs_bits_after_voltage, volt_mask_for_signal, DwMmc, UhsBits,
};
use sdmmc_protocol::error::HostError;
use sdmmc_protocol::sdio::{ClockSpeed, SignalVoltage};

#[test]
fn uhs_i_sdr_modes_keep_ddr_disabled() {
    let cur = UhsBits { ddr: 1, volt: 1 };

    assert_eq!(uhs_bits_after_speed(cur, ClockSpeed::Sdr50).ddr, 0);
    assert_eq!(uhs_bits_after_speed(cur, ClockSpeed::Sdr104).ddr, 0);
    assert_eq!(uhs_bits_after_speed(cur, ClockSpeed::Hs200).ddr, 0);
}

#[test]
fn ddr50_enables_ddr_mode_for_card0() {
    let cur = UhsBits { ddr: 0, volt: 1 };

    assert_eq!(
        uhs_bits_after_speed(cur, ClockSpeed::Ddr50),
        UhsBits { ddr: 1, volt: 1 }
    );
}

#[test]
fn uhs_i_voltage_switch_selects_1v8_for_card0() {
    let cur = UhsBits { ddr: 1, volt: 0 };

    assert_eq!(
        uhs_bits_after_voltage(cur, SignalVoltage::V180).unwrap(),
        UhsBits { ddr: 1, volt: 1 }
    );
    assert_eq!(
        uhs_bits_after_voltage(cur, SignalVoltage::V330).unwrap(),
        UhsBits { ddr: 1, volt: 0 }
    );
}

#[test]
fn unsupported_1v2_voltage_is_rejected() {
    assert_eq!(
        volt_mask_for_signal(SignalVoltage::V120).unwrap_err(),
        HostError::UnsupportedCommand
    );
}

#[test]
fn data_command_index_is_recorded_for_diagnostics() {
    let mut host = DwMmc::new(0x1000_0000);
    host.data_cmd_index = 6;

    assert_eq!(host.data_cmd_index, 6);
}

#[test]
fn voltage_without_a_bit_leaves_no_bits() {
    let cur = UhsBits { ddr: 1, volt: 0 };
    assert_eq!(
        uhs_bits_after_voltage(cur, SignalVoltage::V120),
        Err(HostError::UnsupportedCommand)
    );
}

#[test]
fn last_block_is_seen_once_per_data_phase() {
    let mut host = DwMmc::new(0);
    host.prepare_data_transfer(DataDirection::Read, 512, 3).unwrap();
    let mut last = Vec::new();
    for _ in 0..3 {
        last.push(host.is_last_block());
        assert_eq!(host.block_read(Ok(())), Ok(()));
    }
    assert_eq!(last, vec![false, false, true]);
    assert_eq!(host.data_blocks_remaining, 0);
}

#[test]
fn failed_block_still_remains() {
    let mut host = DwMmc::new(0);
    host.prepare_data_transfer(DataDirection::Read, 512, 2).unwrap();
    assert_eq!(host.block_read(Err(HostError::NoCard)), Err(HostError::NoCard));
    assert_eq!(host.data_blocks_remaining, 2);
    host.prepare_data_transfer(DataDirection::NoData, 0, 7).unwrap();
    assert_eq!(host.data_blocks_remaining, 0);
    assert_eq!(host.pending_data, None);
    assert_eq!(host.set_block_count(9), Ok(()));
    assert_eq!(host.data_blocks_remaining, 0);
}

#[test]
fn speeds_have_their_frequencies() {
    let hz: Vec<u32> = [
        ClockSpeed::Identification,
        ClockSpeed::Default,
        ClockSpeed::Sdr12,
        ClockSpeed::HighSpeed,
        ClockSpeed::Sdr25,
        ClockSpeed::Sdr50,
        ClockSpeed::Ddr50,
        ClockSpeed::Sdr104,
        ClockSpeed::Hs200,
    ]
    .iter()
    .map(|s| clock_hz_for_speed(*s))
    .collect();
    assert_eq!(
        hz,
        vec![
            400_000,
            25_000_000,
            25_000_000,
            50_000_000,
            50_000_000,
            50_000_000,
            50_000_000,
            104_000_000,
            200_000_000
        ]
    );
}
