use sdmmc_protocol::clock::{clock_control_for, divider_for};
use sdmmc_protocol::cmd::{self, Command, DataDirection};
use sdmmc_protocol::error::{CardError, ErrorContext, HostError, Phase};
use sdmmc_protocol::program::{Action, Op, Progress, Task, POLL_LIMIT};
use sdmmc_protocol::registers::{Reg, Width, POWER_330};
use sdmmc_protocol::response::{Response, ResponseType};
use sdmmc_protocol::sdhci::{decode_response, CommandProgress, CommandTask, Sdhci};
use sdmmc_protocol::sdio::{BusWidth, ClockSpeed, SignalVoltage};

/// Runs a task on a controller whose reads are given by a function of the
/// register and the number of reads before.
fn drive<F: FnMut(Reg, usize) -> u32>(
    task: Task,
    mut read: F,
) -> (Vec<Action>, Result<Vec<u32>, HostError>) {
    let mut actions = Vec::new();
    let mut reads = 0;
    let mut task = task;
    loop {
        let action = task.action();
        actions.push(action);
        let value = match action {
            Action::Read(reg) => {
                reads += 1;
                read(reg, reads - 1)
            }
            _ => 0,
        };
        match task.step(value) {
            Progress::More(next) => task = next,
            Progress::Done(r) => return (actions, r),
        }
    }
}

fn issue<F: FnMut(Reg) -> u32>(
    task: CommandTask,
    mut read: F,
) -> (Vec<Action>, Result<Response, HostError>) {
    let mut actions = Vec::new();
    let mut task = task;
    loop {
        let action = task.action();
        actions.push(action);
        let value = match action {
            Action::Read(reg) => read(reg),
            _ => 0,
        };
        match task.step(value) {
            CommandProgress::More(next) => task = next,
            CommandProgress::Done(r) => return (actions, r),
        }
    }
}

fn raw_of(r: Result<Response, HostError>) -> u32 {
    match r {
        Ok(Response::R1(x)) => x.raw,
        Ok(Response::R3(x)) => x.raw,
        Ok(Response::R6(x)) => x.raw,
        Ok(Response::R7(x)) => x.raw,
        _ => panic!("no word in this response"),
    }
}

#[test]
fn reset_waits_until_the_bit_clears() {
    let (actions, result) = drive(Sdhci::new(0).reset_all(), |_, n| if n < 2 { 1 } else { 0 });
    assert_eq!(result, Ok(vec![]));
    assert_eq!(
        actions,
        vec![
            Action::Write(Reg::SoftwareReset, 1),
            Action::Read(Reg::SoftwareReset),
            Action::Read(Reg::SoftwareReset),
            Action::Read(Reg::SoftwareReset),
        ]
    );
}

#[test]
fn reset_gives_up_after_a_thousand_reads() {
    let (actions, result) = drive(Sdhci::new(0).reset_dat(), |_, _| 4);
    assert_eq!(actions.len(), 1001);
    assert_eq!(
        result,
        Err(HostError::Timeout(ErrorContext::new(Phase::DataRead)))
    );
    let (_, result) = drive(Sdhci::new(0).reset_cmd(), |_, _| 2);
    assert_eq!(
        result,
        Err(HostError::Timeout(ErrorContext::new(Phase::CommandSend)))
    );
    // Other bits do not count.
    let (_, result) = drive(Sdhci::new(0).reset_cmd(), |_, _| 5);
    assert_eq!(result, Ok(vec![]));
}

#[test]
fn divider_is_the_smallest_that_is_slow_enough() {
    assert_eq!(divider_for(50_000_000, 400_000), 63);
    assert_eq!(divider_for(50_000_000, 50_000_000), 0);
    assert_eq!(divider_for(198_000_000, 25_000_000), 4);
    assert_eq!(divider_for(100, 50), 1);
    assert_eq!(divider_for(200_000_000, 97_752), 1023);
    // Nothing divides this far down.
    assert_eq!(divider_for(4_000_000_000, 1), 0);
}

#[test]
fn clock_control_splits_the_divider() {
    assert_eq!(clock_control_for(200_000_000, 97_752), 0xFFC1);
    assert_eq!(clock_control_for(50_000_000, 400_000), 0x3F01);
}

#[test]
fn enable_clock_divides_waits_and_lets_the_clock_out() {
    let host = Sdhci::new(0);
    let (actions, result) = drive(host.enable_clock(50_000_000, 400_000), |_, n| {
        if n == 0 {
            0x3F01
        } else {
            0x3F03
        }
    });
    assert_eq!(result, Ok(vec![]));
    assert_eq!(
        actions,
        vec![
            Action::Write(Reg::ClockControl, 0),
            Action::Write(Reg::ClockControl, 0x3F01),
            Action::Read(Reg::ClockControl),
            Action::Read(Reg::ClockControl),
            Action::Read(Reg::ClockControl),
            Action::Write(Reg::ClockControl, 0x3F07),
        ]
    );
    let (actions, result) = drive(host.enable_clock(50_000_000, 0), |_, _| 0);
    assert_eq!(result, Ok(vec![]));
    assert_eq!(actions, vec![Action::Write(Reg::ClockControl, 0)]);
    let (_, result) = drive(host.enable_clock(50_000_000, 400_000), |_, _| 1);
    assert_eq!(
        result,
        Err(HostError::Timeout(ErrorContext::new(Phase::Init)))
    );
}

#[test]
fn base_clock_comes_from_the_capabilities() {
    let host = Sdhci::new(0);
    assert_eq!(host.base_clock_hz(0x0000_3200), 50_000_000);
    assert_eq!(host.base_clock_hz(0xFFFF_FFFF), 255_000_000);
    assert_eq!(host.base_clock_hz(0xFFFF_00FF), 0);
}

#[test]
fn power_and_interrupts_are_plain_writes() {
    let host = Sdhci::new(0);
    let (actions, _) = drive(host.set_power(POWER_330), |_, _| 0);
    assert_eq!(actions, vec![Action::Write(Reg::PowerControl, 0x0F)]);
    let (actions, _) = drive(host.enable_interrupts(), |_, _| 0);
    assert_eq!(
        actions,
        vec![
            Action::Write(Reg::NormalIntStatusEnable, 0xFFFF),
            Action::Write(Reg::ErrorIntStatusEnable, 0xFFFF),
            Action::Write(Reg::NormalIntSignalEnable, 0),
            Action::Write(Reg::ErrorIntSignalEnable, 0),
        ]
    );
}

#[test]
fn set_clock_uses_the_stated_reference() {
    let host = Sdhci::new(0);
    let (actions, result) = drive(host.set_clock(ClockSpeed::Default), |reg, _| match reg {
        Reg::CapabilitiesLow => 0x3200,
        Reg::HostControl1 => 0xFF,
        _ => 2,
    });
    assert_eq!(result, Ok(vec![]));
    assert_eq!(
        actions,
        vec![
            Action::Read(Reg::HostControl1),
            Action::Write(Reg::HostControl1, 0xFB),
            Action::Read(Reg::CapabilitiesLow),
            Action::Write(Reg::ClockControl, 0),
            Action::Write(Reg::ClockControl, 0x0101),
            Action::Read(Reg::ClockControl),
            Action::Read(Reg::ClockControl),
            Action::Write(Reg::ClockControl, 6),
        ]
    );
    let (_, result) = drive(host.set_clock(ClockSpeed::HighSpeed), |_, _| 0);
    assert_eq!(
        result,
        Err(HostError::BadResponse(ErrorContext::new(Phase::Init)))
    );
}

#[test]
fn set_clock_can_leave_the_frequency_to_the_platform() {
    let mut host = Sdhci::new(0);
    host.set_external_clock();
    let (actions, result) = drive(host.set_clock(ClockSpeed::Sdr104), |_, _| 2);
    assert_eq!(result, Ok(vec![]));
    assert_eq!(
        actions,
        vec![
            Action::Read(Reg::HostControl1),
            Action::Write(Reg::HostControl1, 6),
            Action::Read(Reg::ClockControl),
            Action::Write(Reg::ClockControl, 2),
            Action::Retune(104_000_000),
            Action::Write(Reg::ClockControl, 1),
            Action::Read(Reg::ClockControl),
            Action::Read(Reg::ClockControl),
            Action::Write(Reg::ClockControl, 6),
        ]
    );
    let (actions, _) = drive(host.enable_clock_external(), |_, _| 3);
    assert_eq!(actions[0], Action::Write(Reg::ClockControl, 1));
    let (actions, _) = drive(host.disable_sd_clock(), |_, _| 7);
    assert_eq!(actions[1], Action::Write(Reg::ClockControl, 3));
}

#[test]
fn bus_width_keeps_other_bits() {
    let host = Sdhci::new(0);
    let (actions, result) = drive(host.set_bus_width(BusWidth::Bit4), |_, _| 0xFD);
    assert_eq!(result, Ok(vec![]));
    assert_eq!(actions[1], Action::Write(Reg::HostControl1, 0xDF));
    let (actions, _) = drive(host.set_bus_width(BusWidth::Bit1), |_, _| 0xFF);
    assert_eq!(actions[1], Action::Write(Reg::HostControl1, 0xDD));
    let (actions, result) = drive(host.set_bus_width(BusWidth::Bit8), |_, _| 0);
    assert_eq!(actions, vec![Action::Read(Reg::HostControl1)]);
    assert_eq!(result, Err(HostError::UnsupportedCommand));
}

#[test]
fn voltage_switch_stops_the_clock_meanwhile() {
    let host = Sdhci::new(0);
    let (actions, result) = drive(host.switch_voltage(SignalVoltage::V180), |reg, n| match reg {
        Reg::HostControl2 => 0x0001,
        _ => {
            if n == 0 {
                7
            } else {
                3
            }
        }
    });
    assert_eq!(result, Ok(vec![]));
    assert_eq!(
        actions,
        vec![
            Action::Read(Reg::ClockControl),
            Action::Write(Reg::ClockControl, 3),
            Action::Read(Reg::HostControl2),
            Action::Write(Reg::PowerControl, 0x0B),
            Action::Write(Reg::HostControl2, 0x0009),
            Action::Read(Reg::ClockControl),
            Action::Write(Reg::ClockControl, 7),
        ]
    );
    let (actions, _) = drive(host.switch_voltage(SignalVoltage::V330), |_, _| 0x000F);
    assert_eq!(actions[3], Action::Write(Reg::PowerControl, 0x0F));
    assert_eq!(actions[4], Action::Write(Reg::HostControl2, 0x0007));
    let (actions, result) = drive(host.switch_voltage(SignalVoltage::V120), |_, _| 0);
    assert_eq!(actions.len(), 3);
    assert_eq!(result, Err(HostError::UnsupportedCommand));
}

#[test]
fn tuning_ends_on_a_sampling_point() {
    let host = Sdhci::new(0);
    let (actions, result) = drive(host.execute_tuning(21).unwrap(), |reg, n| match reg {
        Reg::HostControl1 => 0x20,
        _ => {
            if n < 3 {
                0x0040
            } else {
                0x0080
            }
        }
    });
    assert_eq!(result, Ok(vec![]));
    assert_eq!(
        actions,
        vec![
            Action::Read(Reg::HostControl1),
            Action::Write(Reg::BlockSize, 128),
            Action::Write(Reg::BlockCount, 1),
            Action::Write(Reg::TimeoutControl, 0x0E),
            Action::Write(Reg::TransferMode, 0x12),
            Action::Read(Reg::HostControl2),
            Action::Write(Reg::HostControl2, 0x0040),
            Action::Read(Reg::HostControl2),
            Action::Read(Reg::HostControl2),
        ]
    );
}

#[test]
fn tuning_fails_without_a_sampling_point() {
    let host = Sdhci::new(0);
    let (actions, result) = drive(host.execute_tuning(19).unwrap(), |_, _| 0);
    assert_eq!(actions[0], Action::Write(Reg::BlockSize, 64));
    assert_eq!(
        result,
        Err(HostError::BadResponse(ErrorContext::for_cmd(Phase::Init, 19)))
    );
    let (actions, result) = drive(host.execute_tuning(21).unwrap(), |reg, _| match reg {
        Reg::HostControl1 => 0x02,
        _ => 0x00C1,
    });
    assert_eq!(actions[1], Action::Write(Reg::BlockSize, 64));
    assert_eq!(
        result,
        Err(HostError::Timeout(ErrorContext::for_cmd(Phase::Init, 21)))
    );
    assert_eq!(
        actions[actions.len() - 1],
        Action::Write(Reg::HostControl2, 0x0081)
    );
    let polls = actions
        .iter()
        .filter(|a| **a == Action::Read(Reg::HostControl2))
        .count();
    assert_eq!(polls, POLL_LIMIT as usize + 1);
    assert!(matches!(
        host.execute_tuning(17),
        Err(HostError::InvalidArgument)
    ));
}

#[test]
fn command_without_data() {
    let mut host = Sdhci::new(0);
    let task = host.issue_command(&cmd::cmd8(1, 0xAA));
    let (actions, result) = issue(task, |reg| match reg {
        Reg::NormalIntStatus => 1,
        Reg::Response0 => 0x1AA,
        _ => 2,
    });
    assert_eq!(
        actions,
        vec![
            Action::Read(Reg::PresentState),
            Action::Write(Reg::NormalIntStatus, 0xFFFF),
            Action::Write(Reg::ErrorIntStatus, 0xFFFF),
            Action::Write(Reg::TransferMode, 0),
            Action::Write(Reg::Argument, 0x1AA),
            Action::Write(Reg::Command, 0x081A),
            Action::Read(Reg::NormalIntStatus),
            Action::Write(Reg::NormalIntStatus, 1),
            Action::Read(Reg::Response0),
        ]
    );
    assert_eq!(raw_of(result), 0x1AA);
}

#[test]
fn command_with_data_consumes_the_pending_phase() {
    let mut host = Sdhci::new(0);
    host.prepare_data_transfer(DataDirection::Read, 512, 8).unwrap();
    host.set_block_count(8).unwrap();
    let task = host.issue_command(&cmd::cmd18(77));
    assert_eq!(host.pending_data, None);
    let (actions, result) = issue(task, |reg| match reg {
        Reg::NormalIntStatus => 1,
        Reg::Response0 => 0x900,
        _ => 0,
    });
    assert_eq!(raw_of(result), 0x900);
    assert_eq!(
        actions[3..9],
        [
            Action::Write(Reg::BlockSize, 512),
            Action::Write(Reg::BlockCount, 8),
            Action::Write(Reg::TimeoutControl, 0x0E),
            Action::Write(Reg::TransferMode, 0x36),
            Action::Write(Reg::Argument, 77),
            Action::Write(Reg::Command, 0x123A),
        ]
    );
}

#[test]
fn transfer_mode_follows_the_data_phase() {
    let mode = |direction, count, dma| {
        let mut host = Sdhci::new(0);
        host.prepare_data_transfer(direction, 512, count).unwrap();
        host.use_dma = dma;
        let (actions, _) = issue(host.issue_command(&cmd::cmd17(0)), |reg| match reg {
            Reg::NormalIntStatus => 1,
            _ => 0,
        });
        match actions[6] {
            Action::Write(Reg::TransferMode, v) => v,
            _ => panic!("no transfer mode written"),
        }
    };
    assert_eq!(mode(DataDirection::Read, 1, false), 0x12);
    assert_eq!(mode(DataDirection::Write, 1, false), 0x02);
    assert_eq!(mode(DataDirection::Write, 2, false), 0x26);
    assert_eq!(mode(DataDirection::Read, 2, true), 0x37);
}

#[test]
fn command_waits_for_the_lines_it_needs() {
    // The data line is busy: a command without data goes ahead.
    let mut host = Sdhci::new(0);
    let (_, result) = issue(host.issue_command(&cmd::cmd13(0)), |reg| match reg {
        Reg::PresentState => 2,
        Reg::NormalIntStatus => 1,
        _ => 0,
    });
    assert_eq!(raw_of(result), 0);
    // One with data does not.
    host.prepare_data_transfer(DataDirection::Write, 512, 1).unwrap();
    let (actions, result) = issue(host.issue_command(&cmd::cmd24(0)), |_| 2);
    assert_eq!(actions.len(), POLL_LIMIT as usize);
    assert!(matches!(
        result,
        Err(HostError::Timeout(ErrorContext {
            phase: Phase::CommandSend,
            cmd: Some(24)
        }))
    ));
}

fn command_error(status: u32) -> HostError {
    let mut host = Sdhci::new(0);
    let (actions, result) = issue(host.issue_command(&cmd::cmd13(0)), |reg| match reg {
        Reg::NormalIntStatus => 0x8000,
        Reg::ErrorIntStatus => status,
        _ => 0,
    });
    assert_eq!(
        actions[actions.len() - 1],
        Action::Write(Reg::ErrorIntStatus, 0xFFFF)
    );
    match result {
        Err(e) => e,
        Ok(_) => panic!("command went through"),
    }
}

#[test]
fn command_errors_are_told_apart() {
    let context = ErrorContext::for_cmd(Phase::ResponseWait, 13);
    assert_eq!(command_error(0x0001), HostError::Timeout(context));
    assert_eq!(command_error(0x0003), HostError::Timeout(context));
    assert_eq!(command_error(0x0002), HostError::Crc(context));
    assert_eq!(command_error(0x0008), HostError::BadResponse(context));
    // Errors of the data lines are not the command's.
    assert_eq!(command_error(0x0070), HostError::BadResponse(context));
}

#[test]
fn data_errors_are_told_apart() {
    let data_error = |status: u32| {
        let (_, result) = drive(Sdhci::new(0).wait_data_complete(17), |reg, _| match reg {
            Reg::NormalIntStatus => 0x8000,
            _ => status,
        });
        result
    };
    let context = ErrorContext::for_cmd(Phase::ResponseWait, 17);
    assert_eq!(data_error(0x0010), Err(HostError::Timeout(context)));
    assert_eq!(data_error(0x0020), Err(HostError::Crc(context)));
    assert_eq!(data_error(0x0040), Err(HostError::ReadError(context)));
    assert_eq!(data_error(0x000F), Err(HostError::BadResponse(context)));
    let (actions, result) = drive(Sdhci::new(0).wait_data_complete(17), |_, _| 0x8002);
    assert_eq!(result, Ok(vec![]));
    assert_eq!(actions[1], Action::Write(Reg::NormalIntStatus, 2));
    let (actions, result) = drive(Sdhci::new(0).wait_data_complete(17), |_, _| 0);
    assert_eq!(actions.len(), POLL_LIMIT as usize);
    assert_eq!(result, Err(HostError::Timeout(context)));
}

#[test]
fn r2_is_shifted_into_place() {
    let words = vec![0x0C0D_0E0F, 0x0809_0A0B, 0x0405_0607, 0xFF01_0203];
    match decode_response(ResponseType::R2, &words) {
        Ok(Response::R2(raw)) => assert_eq!(
            raw,
            [0x01, 0x02, 0x03, 0x04, 0x05, 0x06, 0x07, 0x08, 0x09, 0x0A, 0x0B, 0x0C, 0x0D, 0x0E, 0x0F, 0x00]
        ),
        _ => panic!("not an R2 response"),
    }
}

#[test]
fn responses_decode_by_type() {
    assert!(matches!(
        decode_response(ResponseType::NoResponse, &vec![]),
        Ok(Response::NoResponse)
    ));
    assert_eq!(raw_of(decode_response(ResponseType::R3, &vec![0xC0FF_8000])), 0xC0FF_8000);
    assert_eq!(raw_of(decode_response(ResponseType::R6, &vec![0x1234_0500])), 0x1234_0500);
    assert_eq!(raw_of(decode_response(ResponseType::R1b, &vec![0x0000_0900])), 0x0000_0900);
    for kind in [ResponseType::R4, ResponseType::R5] {
        assert!(matches!(
            decode_response(kind, &vec![]),
            Err(HostError::BadResponse(ErrorContext {
                phase: Phase::Unknown,
                cmd: None
            }))
        ));
    }
}

#[test]
fn card_errors_come_with_the_status() {
    let flagged = |raw: u32| match decode_response(ResponseType::R1, &vec![raw]) {
        Err(HostError::CardError(e)) => e,
        _ => panic!("no card error"),
    };
    assert_eq!(flagged(0x04 << 19), CardError::EraseSequence);
    assert_eq!(flagged(0x08 << 19), CardError::CommandCrcFailed);
    assert_eq!(flagged(0x10 << 19), CardError::IllegalCommand);
    assert_eq!(flagged(0x20 << 19), CardError::CardEccFailed);
    assert_eq!(flagged(0x03 << 19), CardError::Unknown(3));
}

#[test]
fn command_register_describes_the_response() {
    let word = |resp_type| {
        let mut host = Sdhci::new(0);
        let (actions, _) = issue(
            host.issue_command(&Command::new(63, 0, resp_type)),
            |reg| match reg {
                Reg::NormalIntStatus => 1,
                _ => 0,
            },
        );
        match actions[5] {
            Action::Write(Reg::Command, v) => v,
            _ => panic!("no command written"),
        }
    };
    assert_eq!(word(ResponseType::NoResponse), 0x3F00);
    assert_eq!(word(ResponseType::R1), 0x3F1A);
    assert_eq!(word(ResponseType::R1b), 0x3F1B);
    assert_eq!(word(ResponseType::R2), 0x3F09);
    assert_eq!(word(ResponseType::R3), 0x3F02);
    assert_eq!(word(ResponseType::R4), 0x3F02);
    assert_eq!(word(ResponseType::R5), 0x3F1A);
    assert_eq!(word(ResponseType::R6), 0x3F1A);
    assert_eq!(word(ResponseType::R7), 0x3F1A);
}

#[test]
fn registers_lie_at_their_offsets() {
    assert_eq!(Reg::BlockSize.offset(), 0x04);
    assert_eq!(Reg::Response3.offset(), 0x1C);
    assert_eq!(Reg::SoftwareReset.offset(), 0x2F);
    assert_eq!(Reg::AdmaAddress.offset(), 0x58);
    assert_eq!(Reg::SoftwareReset.width(), Width::Bits8);
    assert_eq!(Reg::Command.width(), Width::Bits16);
    assert_eq!(Reg::PresentState.width(), Width::Bits32);
}

#[test]
fn programs_keep_what_they_read() {
    let task = Task::new(vec![
        Op::Keep(Reg::Response0),
        Op::Write(Reg::Argument, 5),
        Op::Keep(Reg::Response1),
    ]);
    let (actions, result) = drive(task, |_, n| 100 + n as u32);
    assert_eq!(result, Ok(vec![100, 101]));
    assert_eq!(actions.len(), 3);
}

#[test]
fn same_answers_lead_to_the_same_end() {
    let answer = |reg: Reg, n: usize| match reg {
        Reg::CapabilitiesLow => 0x6400,
        _ => {
            if n < 5 {
                0
            } else {
                2
            }
        }
    };
    let host = Sdhci::new(0);
    let first = drive(host.set_clock(ClockSpeed::HighSpeed), answer);
    let second = drive(host.set_clock(ClockSpeed::HighSpeed), answer);
    assert_eq!(first, second);
    assert_eq!(first.1, Ok(vec![]));
}

#[test]
fn registers_do_not_overlap() {
    let all = [
        Reg::BlockSize,
        Reg::BlockCount,
        Reg::Argument,
        Reg::TransferMode,
        Reg::Command,
        Reg::Response0,
        Reg::Response1,
        Reg::Response2,
        Reg::Response3,
        Reg::PresentState,
        Reg::HostControl1,
        Reg::PowerControl,
        Reg::ClockControl,
        Reg::TimeoutControl,
        Reg::SoftwareReset,
        Reg::NormalIntStatus,
        Reg::ErrorIntStatus,
        Reg::NormalIntStatusEnable,
        Reg::ErrorIntStatusEnable,
        Reg::NormalIntSignalEnable,
        Reg::ErrorIntSignalEnable,
        Reg::HostControl2,
        Reg::CapabilitiesLow,
        Reg::AdmaAddress,
    ];
    let mut next = 0;
    for reg in all {
        let size = match reg.width() {
            Width::Bits8 => 1,
            Width::Bits16 => 2,
            Width::Bits32 => 4,
        };
        assert!(reg.offset() >= next);
        assert_eq!(reg.offset() % size, 0);
        next = reg.offset() + size;
    }
}
