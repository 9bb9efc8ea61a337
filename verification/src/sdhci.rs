//! SD Host Controller (SDHCI v3.x) driver: which register accesses each
//! operation of the controller takes.
//!
//! Every operation is a [`Task`] for the caller to run: it names the register
//! accesses one by one and is told their outcomes.
use vstd::prelude::*;

use crate::bits::{self, to_be_bytes};
use crate::clock::{self, base_clock_of, clock_control_for, clock_hz_for_speed};
use crate::cmd::{Command, DataDirection};
use crate::error::{ErrorContext, HostError, Phase};
use crate::program::{self, Action, Event, Op, Outcome, Progress, Task, POLL_LIMIT};
use crate::registers::{
    Reg, CLOCK_INTERNAL_ENABLE, CLOCK_INTERNAL_STABLE, CLOCK_SD_ENABLE, CMD_CRC_CHECK,
    CMD_DATA_PRESENT, CMD_INDEX_CHECK, CMD_RESP_LEN136, CMD_RESP_LEN48, CMD_RESP_LEN48_BUSY,
    ERROR_INT_CLEAR_ALL, ERROR_INT_CMD_LINE_MASK, ERROR_INT_DATA_LINE_MASK, HOST_CTRL1_4BIT,
    HOST_CTRL1_8BIT, HOST_CTRL1_HIGH_SPEED, HOST_CTRL2_1V8_SIGNALING, HOST_CTRL2_EXECUTE_TUNING,
    NORMAL_INT_CLEAR_ALL, NORMAL_INT_CMD_COMPLETE, NORMAL_INT_XFER_COMPLETE, POWER_180, POWER_330,
    POWER_ON, PRESENT_CMD_INHIBIT, PRESENT_DAT_INHIBIT, RESET_ALL, RESET_CMD, RESET_DAT,
    XFER_MODE_AUTO_CMD12, XFER_MODE_BLOCK_COUNT_ENABLE, XFER_MODE_DMA_ENABLE,
    XFER_MODE_MULTI_BLOCK, XFER_MODE_READ,
};
use crate::response::{
    self, IfCondResponse, OcrResponse, R1Response, RcaResponse, Response, ResponseType,
};
use crate::sdio::{BusWidth, ClockSpeed, SignalVoltage};

verus! {

/// Shape of a pending data phase, recorded by `prepare_data_transfer` and
/// consumed by the next command.
#[derive(Debug, Clone, Copy, PartialEq, Eq, Structural)]
pub struct PendingData {
    pub direction: DataDirection,
    pub block_size: u32,
    pub block_count: u32,
}

/// Polls that wait on the controller alone give up after this many reads.
const SETUP_POLLS: u32 = 1_000;

/// Where a failure concerning a command arose.
pub open spec fn about(phase: Phase, cmd: u8) -> ErrorContext {
    ErrorContext { phase, cmd: Some(cmd) }
}

/// Where a failure concerning no command arose.
pub open spec fn during(phase: Phase) -> ErrorContext {
    ErrorContext { phase, cmd: None }
}

// Programs of the operations

/// Set a reset bit and wait until the controller has cleared it.
pub open spec fn resetting(bit: u32, phase: Phase) -> Seq<Op> {
    seq![
        Op::Write(Reg::SoftwareReset, bit),
        Op::Await {
            reg: Reg::SoftwareReset,
            mask: bit,
            until_set: false,
            limit: 1000,
            error: HostError::Timeout(during(phase)),
        },
    ]
}

/// Wait until the internal clock is stable and let it out to the card.
pub open spec fn clock_rising() -> Seq<Op> {
    seq![
        Op::Await {
            reg: Reg::ClockControl,
            mask: CLOCK_INTERNAL_STABLE,
            until_set: true,
            limit: 1000,
            error: HostError::Timeout(during(Phase::Init)),
        },
        Op::Update { reg: Reg::ClockControl, clear: 0, set: CLOCK_SD_ENABLE },
    ]
}

/// Start the clock with the given clock control register.
pub open spec fn clock_starting(control: u32) -> Seq<Op> {
    seq![Op::Write(Reg::ClockControl, 0), Op::Write(Reg::ClockControl, control)] + clock_rising()
}

/// Stop the clock that the card sees.
pub open spec fn clock_gating() -> Op {
    Op::Update { reg: Reg::ClockControl, clear: CLOCK_SD_ENABLE, set: 0 }
}

/// Start the clock undivided.
pub open spec fn clock_passing() -> Seq<Op> {
    seq![Op::Write(Reg::ClockControl, CLOCK_INTERNAL_ENABLE)] + clock_rising()
}

/// Make the controller report what happens, without raising interrupts.
pub open spec fn interrupts_enabling() -> Seq<Op> {
    seq![
        Op::Write(Reg::NormalIntStatusEnable, 0xFFFF),
        Op::Write(Reg::ErrorIntStatusEnable, 0xFFFF),
        Op::Write(Reg::NormalIntSignalEnable, 0),
        Op::Write(Reg::ErrorIntSignalEnable, 0),
    ]
}

/// The transfer mode register of a data phase.
pub open spec fn transfer_mode(data: PendingData, dma: bool) -> int {
    XFER_MODE_BLOCK_COUNT_ENABLE + bits::digit(data.block_count > 1) * (XFER_MODE_MULTI_BLOCK
        + XFER_MODE_AUTO_CMD12) + bits::digit(data.direction == DataDirection::Read)
        * XFER_MODE_READ + bits::digit(dma) * XFER_MODE_DMA_ENABLE
}

/// Tell the controller the shape of the data phase, if there is one.
pub open spec fn data_shaping(data: Option<PendingData>, dma: bool) -> Seq<Op> {
    match data {
        None => seq![Op::Write(Reg::TransferMode, 0)],
        Some(d) => seq![
            Op::Write(Reg::BlockSize, (d.block_size % 0x1000) as u32),
            Op::Write(Reg::BlockCount, (d.block_count % 0x1_0000) as u32),
            Op::Write(Reg::TimeoutControl, 0x0E),
            Op::Write(Reg::TransferMode, transfer_mode(d, dma) as u32),
        ],
    }
}

/// How the command register describes the response to expect: its length,
/// whether its CRC is checked and whether its index is.
pub open spec fn response_bits(resp_type: ResponseType) -> int {
    match resp_type {
        ResponseType::NoResponse => 0,
        ResponseType::R1 | ResponseType::R5 | ResponseType::R6 | ResponseType::R7 => {
            CMD_RESP_LEN48 + CMD_CRC_CHECK + CMD_INDEX_CHECK
        },
        ResponseType::R1b => CMD_RESP_LEN48_BUSY + CMD_CRC_CHECK + CMD_INDEX_CHECK,
        ResponseType::R2 => CMD_RESP_LEN136 + CMD_CRC_CHECK,
        ResponseType::R3 | ResponseType::R4 => CMD_RESP_LEN48 as int,
    }
}

/// The command register of a command.
pub open spec fn command_word(cmd: Command, has_data: bool) -> int {
    cmd.cmd * 0x100 + bits::digit(has_data) * CMD_DATA_PRESENT + response_bits(cmd.resp_type)
}

/// Read the response.
pub open spec fn response_reading(resp_type: ResponseType) -> Seq<Op> {
    match resp_type {
        ResponseType::R1
        | ResponseType::R1b
        | ResponseType::R3
        | ResponseType::R6
        | ResponseType::R7 => seq![Op::Keep(Reg::Response0)],
        ResponseType::R2 => seq![
            Op::Keep(Reg::Response0),
            Op::Keep(Reg::Response1),
            Op::Keep(Reg::Response2),
            Op::Keep(Reg::Response3),
        ],
        ResponseType::NoResponse | ResponseType::R4 | ResponseType::R5 => Seq::empty(),
    }
}

/// Wait until the lines that a command needs are free, and clear what earlier
/// commands reported.
pub open spec fn command_opening(cmd: Command, has_data: bool) -> Seq<Op> {
    seq![
        Op::Await {
            reg: Reg::PresentState,
            mask: if has_data {
                3
            } else {
                1
            },
            until_set: false,
            limit: POLL_LIMIT,
            error: HostError::Timeout(about(Phase::CommandSend, cmd.cmd)),
        },
        Op::Write(Reg::NormalIntStatus, 0xFFFF),
        Op::Write(Reg::ErrorIntStatus, 0xFFFF),
    ]
}

/// Send a command and wait for its completion.
pub open spec fn command_sending(cmd: Command, has_data: bool) -> Seq<Op> {
    seq![
        Op::Write(Reg::Argument, cmd.arg),
        Op::Write(Reg::Command, command_word(cmd, has_data) as u32),
        Op::Settle {
            done: NORMAL_INT_CMD_COMPLETE,
            errors: ERROR_INT_CMD_LINE_MASK,
            context: about(Phase::ResponseWait, cmd.cmd),
            adma: false,
        },
        Op::Write(Reg::NormalIntStatus, NORMAL_INT_CMD_COMPLETE),
    ]
}

/// Issue a command: all of it.
pub open spec fn command_issuing(cmd: Command, data: Option<PendingData>, dma: bool) -> Seq<Op> {
    command_opening(cmd, data is Some) + data_shaping(data, dma) + command_sending(
        cmd,
        data is Some,
    ) + response_reading(cmd.resp_type)
}

/// Wait for the end of the data phase and acknowledge it.
pub open spec fn data_finishing(context: ErrorContext, adma: bool) -> Seq<Op> {
    seq![
        Op::Settle {
            done: NORMAL_INT_XFER_COMPLETE,
            errors: ERROR_INT_DATA_LINE_MASK,
            context,
            adma,
        },
        Op::Write(Reg::NormalIntStatus, NORMAL_INT_XFER_COMPLETE),
    ]
}

/// Whether a speed runs the bus with default timing.
pub open spec fn default_timing(speed: ClockSpeed) -> bool {
    speed == ClockSpeed::Identification || speed == ClockSpeed::Default || speed
        == ClockSpeed::Sdr12
}

/// Match the timing to a speed and bring the clock to its frequency.
pub open spec fn speed_setting(speed: ClockSpeed, external_clock: bool) -> Seq<Op> {
    seq![
        if default_timing(speed) {
            Op::Update { reg: Reg::HostControl1, clear: HOST_CTRL1_HIGH_SPEED, set: 0 }
        } else {
            Op::Update { reg: Reg::HostControl1, clear: 0, set: HOST_CTRL1_HIGH_SPEED }
        },
    ] + (if external_clock {
        seq![clock_gating(), Op::Retune(clock::speed_hz(speed))] + clock_passing()
    } else {
        seq![Op::Divide { target_hz: clock::speed_hz(speed) }] + clock_rising()
    })
}

/// Use as many data lines, where the controller can.
pub open spec fn width_setting(width: BusWidth) -> Seq<Op> {
    match width {
        BusWidth::Bit1 => seq![Op::Update { reg: Reg::HostControl1, clear: 0x22, set: 0 }],
        BusWidth::Bit4 => seq![
            Op::Update { reg: Reg::HostControl1, clear: 0x22, set: HOST_CTRL1_4BIT },
        ],
        BusWidth::Bit8 => seq![Op::Refuse(Reg::HostControl1, HostError::UnsupportedCommand)],
    }
}

/// Stop the clock, switch the signal voltage, where the controller can, and let
/// the clock out again.
pub open spec fn voltage_switching(voltage: SignalVoltage) -> Seq<Op> {
    match voltage {
        SignalVoltage::V330 => seq![
            clock_gating(),
            Op::Switch { power: 0x0F, lower: HOST_CTRL2_1V8_SIGNALING, raise: 0 },
            Op::Update { reg: Reg::ClockControl, clear: 0, set: CLOCK_SD_ENABLE },
        ],
        SignalVoltage::V180 => seq![
            clock_gating(),
            Op::Switch { power: 0x0B, lower: 0, raise: HOST_CTRL2_1V8_SIGNALING },
            Op::Update { reg: Reg::ClockControl, clear: 0, set: CLOCK_SD_ENABLE },
        ],
        SignalVoltage::V120 => seq![
            clock_gating(),
            Op::Refuse(Reg::HostControl2, HostError::UnsupportedCommand),
        ],
    }
}

/// Shape the tuning block, start the controller's sweep and wait for its end.
pub open spec fn tuning(cmd: u8) -> Seq<Op> {
    seq![
        if cmd == 21 {
            Op::ShapeTuning
        } else {
            Op::Write(Reg::BlockSize, 64)
        },
        Op::Write(Reg::BlockCount, 1),
        Op::Write(Reg::TimeoutControl, 0x0E),
        Op::Write(Reg::TransferMode, (XFER_MODE_BLOCK_COUNT_ENABLE + XFER_MODE_READ) as u32),
        Op::Update { reg: Reg::HostControl2, clear: 0, set: HOST_CTRL2_EXECUTE_TUNING },
        Op::Sweep { cmd },
    ]
}

/// Generic SD Host Controller (SDHCI) backend.
///
/// Holds the address of one controller's register file and what the driver has
/// to remember between commands. The register file is the caller's to access.
#[derive(Debug, PartialEq, Eq, Structural)]
pub struct Sdhci {
    pub base_addr: usize,
    pub pending_data: Option<PendingData>,
    /// Whether the next data phase goes through DMA
    pub use_dma: bool,
    /// Whether the platform sets the bus frequency, not the controller's divider
    pub external_clock: bool,
}

impl Sdhci {
    /// Construct a new Sdhci over the given MMIO base address.
    pub fn new(base_addr: usize) -> (s: Self)
        ensures
            s == (Sdhci { base_addr, pending_data: None, use_dma: false, external_clock: false }),
    {
        Sdhci { base_addr, pending_data: None, use_dma: false, external_clock: false }
    }

    /// From now on the platform sets the bus frequency.
    pub fn set_external_clock(&mut self)
        ensures
            *final(self) == (Sdhci { external_clock: true, ..*old(self) }),
    {
        self.external_clock = true;
    }

    /// Reset the controller (CMD line + DAT line + state) by writing the
    /// "Reset All" bit and waiting for it to clear.
    pub fn reset_all(&self) -> (task: Task)
        ensures
            task.starts(resetting(RESET_ALL, Phase::Init)),
    {
        self.reset_with_mask(RESET_ALL, Phase::Init)
    }

    /// Reset the CMD line state machine (clears any stuck CMD inhibit).
    pub fn reset_cmd(&self) -> (task: Task)
        ensures
            task.starts(resetting(RESET_CMD, Phase::CommandSend)),
    {
        self.reset_with_mask(RESET_CMD, Phase::CommandSend)
    }

    /// Reset the DAT line state machine.
    pub fn reset_dat(&self) -> (task: Task)
        ensures
            task.starts(resetting(RESET_DAT, Phase::DataRead)),
    {
        self.reset_with_mask(RESET_DAT, Phase::DataRead)
    }

    fn reset_with_mask(&self, mask: u32, phase: Phase) -> (task: Task)
        ensures
            task.starts(resetting(mask, phase)),
    {
        let ops: Vec<Op> = vec![
            Op::Write(Reg::SoftwareReset, mask),
            Op::Await {
                reg: Reg::SoftwareReset,
                mask,
                until_set: false,
                limit: SETUP_POLLS,
                error: HostError::Timeout(ErrorContext::new(phase)),
            },
        ];
        assert(ops@ =~= resetting(mask, phase));
        Task::new(ops)
    }

    /// Bring the internal clock up. `base_clock_hz` is the controller's
    /// reference clock (read from Capabilities or supplied externally) and
    /// `target_hz` is the desired SD bus frequency, or 0 to stop the clock.
    ///
    /// Uses the SDHCI v3.0 10-bit divided clock mode.
    pub fn enable_clock(&self, base_clock_hz: u32, target_hz: u32) -> (task: Task)
        ensures
            if target_hz == 0 {
                task.starts(seq![Op::Write(Reg::ClockControl, 0)])
            } else {
                exists|v: u32| #[trigger]
                    clock::is_control(base_clock_hz, target_hz, v) && task.starts(clock_starting(v))
            },
    {
        // 1. Disable SD clock so we can safely change the divider.
        let mut ops: Vec<Op> = vec![Op::Write(Reg::ClockControl, 0)];
        if target_hz == 0 {
            assert(ops@ =~= seq![Op::Write(Reg::ClockControl, 0)]);
            return Task::new(ops);
        }
        // 2. Pick the smallest divider such that base/2N ≤ target.
        let control: u32 = clock_control_for(base_clock_hz, target_hz);
        ops.push(Op::Write(Reg::ClockControl, control));
        // 3. Wait for internal clock to stabilize.
        push_clock_rising(&mut ops);
        assert(ops@ =~= clock_starting(control));
        Task::new(ops)
    }

    /// Bring the clock up undivided, once the platform has set the reference
    /// clock to the desired bus frequency.
    pub fn enable_clock_external(&self) -> (task: Task)
        ensures
            task.starts(clock_passing()),
    {
        let mut ops: Vec<Op> = vec![Op::Write(Reg::ClockControl, CLOCK_INTERNAL_ENABLE)];
        push_clock_rising(&mut ops);
        assert(ops@ =~= clock_passing());
        Task::new(ops)
    }

    /// Stop the clock that the card sees.
    pub fn disable_sd_clock(&self) -> (task: Task)
        ensures
            task.starts(seq![clock_gating()]),
    {
        let ops: Vec<Op> = vec![
            Op::Update { reg: Reg::ClockControl, clear: CLOCK_SD_ENABLE, set: 0 },
        ];
        assert(ops@ =~= seq![clock_gating()]);
        Task::new(ops)
    }

    /// Set bus power (e.g. 3.3 V) and the global power-on bit.
    pub fn set_power(&self, power_byte: u8) -> (task: Task)
        ensures
            task.starts(seq![Op::Write(Reg::PowerControl, power_byte as u32 | POWER_ON)]),
    {
        let ops: Vec<Op> = vec![Op::Write(Reg::PowerControl, power_byte as u32 | POWER_ON)];
        assert(ops@ =~= seq![Op::Write(Reg::PowerControl, power_byte as u32 | POWER_ON)]);
        Task::new(ops)
    }

    /// Enable normal + error interrupt status flags so command/data
    /// completion is observable via the status registers (signal-level
    /// IRQ delivery is NOT enabled, the driver polls).
    pub fn enable_interrupts(&self) -> (task: Task)
        ensures
            task.starts(interrupts_enabling()),
    {
        let ops: Vec<Op> = vec![
            Op::Write(Reg::NormalIntStatusEnable, NORMAL_INT_CLEAR_ALL),
            Op::Write(Reg::ErrorIntStatusEnable, ERROR_INT_CLEAR_ALL),
            // Don't route to host CPU IRQ: leave Signal Enable cleared.
            Op::Write(Reg::NormalIntSignalEnable, 0),
            Op::Write(Reg::ErrorIntSignalEnable, 0),
        ];
        assert(ops@ =~= interrupts_enabling());
        Task::new(ops)
    }

    /// The controller's base reference clock in Hz, from its low capabilities
    /// register; 0 if that states none.
    pub fn base_clock_hz(&self, caps_low: u32) -> (hz: u32)
        ensures
            hz == clock::stated_base_hz(caps_low),
    {
        base_clock_of(caps_low)
    }

    /// Set the bus width
    ///
    /// 8-bit is eMMC territory and is refused, so that the bus is not
    /// misconfigured.
    pub fn set_bus_width(&self, width: BusWidth) -> (task: Task)
        ensures
            task.starts(width_setting(width)),
    {
        let op: Op = match width {
            BusWidth::Bit1 => Op::Update {
                reg: Reg::HostControl1,
                clear: HOST_CTRL1_4BIT + HOST_CTRL1_8BIT,
                set: 0,
            },
            BusWidth::Bit4 => Op::Update {
                reg: Reg::HostControl1,
                clear: HOST_CTRL1_4BIT + HOST_CTRL1_8BIT,
                set: HOST_CTRL1_4BIT,
            },
            BusWidth::Bit8 => Op::Refuse(Reg::HostControl1, HostError::UnsupportedCommand),
        };
        let ops: Vec<Op> = vec![op];
        assert(ops@ =~= width_setting(width));
        Task::new(ops)
    }

    /// Set the clock speed
    pub fn set_clock(&self, speed: ClockSpeed) -> (task: Task)
        ensures
            task.starts(speed_setting(speed, self.external_clock)),
    {
        let target_hz: u32 = clock_hz_for_speed(speed);

        // Toggle the High-Speed Enable bit in HOST_CONTROL1 alongside the
        // divider change so the controller pipelines reflect the new
        // timing window.
        let timing: Op = match speed {
            ClockSpeed::Identification | ClockSpeed::Default | ClockSpeed::Sdr12 => {
                Op::Update { reg: Reg::HostControl1, clear: HOST_CTRL1_HIGH_SPEED, set: 0 }
            },
            _ => Op::Update { reg: Reg::HostControl1, clear: 0, set: HOST_CTRL1_HIGH_SPEED },
        };
        let mut ops: Vec<Op> = vec![timing];

        if self.external_clock {
            // Gate SD clock off, ask the platform to retune the reference
            // clock, then bring SD clock back up at 1:1.
            ops.push(Op::Update { reg: Reg::ClockControl, clear: CLOCK_SD_ENABLE, set: 0 });
            ops.push(Op::Retune(target_hz));
            ops.push(Op::Write(Reg::ClockControl, CLOCK_INTERNAL_ENABLE));
        } else {
            ops.push(Op::Divide { target_hz });
        }
        push_clock_rising(&mut ops);
        assert(ops@ =~= speed_setting(speed, self.external_clock));
        Task::new(ops)
    }

    /// The block count goes to the controller with the command, so this hint
    /// changes nothing.
    pub fn set_block_count(&mut self, _count: u32) -> (r: Result<(), HostError>)
        ensures
            r is Ok,
            *final(self) == *old(self),
    {
        Ok(())
    }

    /// Record the shape of the data phase that the next command triggers, which
    /// does not go through DMA.
    pub fn prepare_data_transfer(
        &mut self,
        direction: DataDirection,
        block_size: u32,
        block_count: u32,
    ) -> (r: Result<(), HostError>)
        ensures
            r is Ok,
            *final(self) == (Sdhci {
                use_dma: false,
                pending_data: pending_of(direction, block_size, block_count),
                ..*old(self)
            }),
    {
        // Plain PIO: never set the DMA bit in the transfer-mode register.
        self.use_dma = false;
        if direction.is_none() {
            self.pending_data = None;
        } else {
            self.pending_data = Some(PendingData { direction, block_size, block_count });
        }
        Ok(())
    }

    /// Switch the signal voltage
    ///
    /// The controller has no bit for 1.2 V, which is refused.
    pub fn switch_voltage(&self, voltage: SignalVoltage) -> (task: Task)
        ensures
            task.starts(voltage_switching(voltage)),
    {
        // 1. Stop the SD clock so we don't drive the bus during the transition.
        let mut ops: Vec<Op> = vec![
            Op::Update { reg: Reg::ClockControl, clear: CLOCK_SD_ENABLE, set: 0 },
        ];
        // 2. Flip the voltage selector.
        match voltage {
            SignalVoltage::V330 => {
                ops.push(
                    Op::Switch {
                        power: POWER_330 as u32 + POWER_ON,
                        lower: HOST_CTRL2_1V8_SIGNALING,
                        raise: 0,
                    },
                );
            },
            SignalVoltage::V180 => {
                ops.push(
                    Op::Switch {
                        power: POWER_180 as u32 + POWER_ON,
                        lower: 0,
                        raise: HOST_CTRL2_1V8_SIGNALING,
                    },
                );
            },
            SignalVoltage::V120 => {
                ops.push(Op::Refuse(Reg::HostControl2, HostError::UnsupportedCommand));
                assert(ops@ =~= voltage_switching(voltage));
                return Task::new(ops);
            },
        }
        // 3. Bring the SD clock back on. The next `set_clock` picks the
        //    appropriate divider for whatever speed mode comes.
        ops.push(Op::Update { reg: Reg::ClockControl, clear: 0, set: CLOCK_SD_ENABLE });
        assert(ops@ =~= voltage_switching(voltage));
        Task::new(ops)
    }

    /// Tune the sampling clock with CMD19 (SD UHS-I) or CMD21 (eMMC HS200)
    ///
    /// The controller issues the tuning command itself, again and again, while
    /// sweeping its sampling clock.
    pub fn execute_tuning(&self, cmd_index: u8) -> (r: Result<Task, HostError>)
        ensures
            if cmd_index == 19 || cmd_index == 21 {
                r matches Ok(task) && task.starts(tuning(cmd_index))
            } else {
                r matches Err(e) && e == HostError::InvalidArgument
            },
    {
        // Reject anything else loudly so that nothing tunes for a non-tuning
        // command by accident.
        if cmd_index != 19 && cmd_index != 21 {
            return Err(HostError::InvalidArgument);
        }
        // Block size for the tuning data phase: SD CMD19 always 64,
        // MMC CMD21 is 64 (4-bit) or 128 (8-bit).
        let shape: Op = if cmd_index == 21 {
            Op::ShapeTuning
        } else {
            Op::Write(Reg::BlockSize, 64)
        };
        let ops: Vec<Op> = vec![
            shape,
            Op::Write(Reg::BlockCount, 1),
            Op::Write(Reg::TimeoutControl, 0x0E),
            // Direction = read, single block, DMA disabled.
            Op::Write(Reg::TransferMode, XFER_MODE_BLOCK_COUNT_ENABLE + XFER_MODE_READ),
            Op::Update { reg: Reg::HostControl2, clear: 0, set: HOST_CTRL2_EXECUTE_TUNING },
            Op::Sweep { cmd: cmd_index },
        ];
        assert(ops@ =~= tuning(cmd_index));
        Ok(Task::new(ops))
    }

    /// Block until the next data phase finishes (Transfer Complete) or
    /// the controller raises a DAT-line error.
    pub fn wait_data_complete(&self, cmd_index: u8) -> (task: Task)
        ensures
            task.starts(data_finishing(about(Phase::ResponseWait, cmd_index), false)),
    {
        let ops: Vec<Op> = vec![
            Op::Settle {
                done: NORMAL_INT_XFER_COMPLETE,
                errors: ERROR_INT_DATA_LINE_MASK,
                context: ErrorContext::for_cmd(Phase::ResponseWait, cmd_index),
                adma: false,
            },
            Op::Write(Reg::NormalIntStatus, NORMAL_INT_XFER_COMPLETE),
        ];
        assert(ops@ =~= data_finishing(about(Phase::ResponseWait, cmd_index), false));
        Task::new(ops)
    }

    /// Issue a single command. The shape of its data phase, if it has one, was
    /// recorded by `prepare_data_transfer`.
    pub fn issue_command(&mut self, cmd: &Command) -> (task: CommandTask)
        ensures
            *final(self) == (Sdhci { pending_data: None, ..*old(self) }),
            task.starts(command_issuing(*cmd, old(self).pending_data, old(self).use_dma)),
            task.expects() == cmd.resp_type,
    {
        let data: Option<PendingData> = self.pending_data;
        self.pending_data = None;
        let has_data: bool = data.is_some();

        // 1. Wait for the controller's own pipeline to drain.
        let mask: u32 = if has_data {
            PRESENT_CMD_INHIBIT + PRESENT_DAT_INHIBIT
        } else {
            PRESENT_CMD_INHIBIT
        };
        let mut ops: Vec<Op> = vec![
            Op::Await {
                reg: Reg::PresentState,
                mask,
                until_set: false,
                limit: POLL_LIMIT,
                error: HostError::Timeout(ErrorContext::for_cmd(Phase::CommandSend, cmd.cmd)),
            },
            // 2. Clear any leftover interrupt bits.
            Op::Write(Reg::NormalIntStatus, NORMAL_INT_CLEAR_ALL),
            Op::Write(Reg::ErrorIntStatus, ERROR_INT_CLEAR_ALL),
        ];
        assert(ops@ =~= command_opening(*cmd, has_data));

        // 3. Configure the data phase (block size + count + transfer mode).
        match data {
            Some(d) => {
                configure_data_phase(&mut ops, d, self.use_dma);
            },
            None => {
                ops.push(Op::Write(Reg::TransferMode, 0));
            },
        }
        assert(ops@ =~= command_opening(*cmd, has_data) + data_shaping(data, self.use_dma));

        // 4. Push the argument and command-register encoding.
        ops.push(Op::Write(Reg::Argument, cmd.arg));
        ops.push(Op::Write(Reg::Command, encode_command(cmd, has_data)));

        // 5. Block until the response arrives (or the controller flags
        //    a CMD-line error).
        ops.push(
            Op::Settle {
                done: NORMAL_INT_CMD_COMPLETE,
                errors: ERROR_INT_CMD_LINE_MASK,
                context: ErrorContext::for_cmd(Phase::ResponseWait, cmd.cmd),
                adma: false,
            },
        );

        // 6. Acknowledge command completion.
        ops.push(Op::Write(Reg::NormalIntStatus, NORMAL_INT_CMD_COMPLETE));
        assert(ops@ =~= command_opening(*cmd, has_data) + data_shaping(data, self.use_dma)
            + command_sending(*cmd, has_data));

        push_response_reading(&mut ops, cmd.resp_type);
        proof {
            assert(ops@ =~= command_issuing(*cmd, data, self.use_dma));
            lemma_issuing_keeps(*cmd, data, self.use_dma);
        }
        CommandTask { task: Task::new(ops), resp_type: cmd.resp_type }
    }
}

/// Appends the shape of a data phase.
fn configure_data_phase(ops: &mut Vec<Op>, data: PendingData, dma: bool)
    requires
        program::patient(old(ops)@),
    ensures
        final(ops)@ == old(ops)@ + data_shaping(Some(data), dma),
        program::patient(final(ops)@),
{
    // SDHCI block size register: bits 11..0 hold block length, bits
    // 14..12 hold the SDMA buffer boundary (we use 0 = 4 KiB).
    ops.push(Op::Write(Reg::BlockSize, data.block_size % 0x1000));
    ops.push(Op::Write(Reg::BlockCount, data.block_count % 0x1_0000));

    let mut mode: u32 = XFER_MODE_BLOCK_COUNT_ENABLE;
    if data.block_count > 1 {
        mode = mode + XFER_MODE_MULTI_BLOCK + XFER_MODE_AUTO_CMD12;
    }
    if matches!(data.direction, DataDirection::Read) {
        mode = mode + XFER_MODE_READ;
    }
    if dma {
        mode = mode + XFER_MODE_DMA_ENABLE;
    }
    ops.push(Op::Write(Reg::TimeoutControl, 0x0E));
    ops.push(Op::Write(Reg::TransferMode, mode));
    assert(ops@ =~= old(ops)@ + data_shaping(Some(data), dma));
}

/// The command register of a command.
fn encode_command(cmd: &Command, has_data: bool) -> (v: u32)
    ensures
        v == command_word(*cmd, has_data),
        v <= 0xFFFF,
{
    let resp_bits: u32 = match cmd.resp_type {
        ResponseType::NoResponse => 0,
        ResponseType::R1 | ResponseType::R5 | ResponseType::R6 | ResponseType::R7 => {
            CMD_RESP_LEN48 + CMD_CRC_CHECK + CMD_INDEX_CHECK
        },
        ResponseType::R1b => CMD_RESP_LEN48_BUSY + CMD_CRC_CHECK + CMD_INDEX_CHECK,
        ResponseType::R2 => CMD_RESP_LEN136 + CMD_CRC_CHECK,
        ResponseType::R3 | ResponseType::R4 => CMD_RESP_LEN48,
    };
    let data_bit: u32 = if has_data {
        CMD_DATA_PRESENT
    } else {
        0
    };
    cmd.cmd as u32 * 0x100 + data_bit + resp_bits
}

/// Appends the reads that a response takes.
fn push_response_reading(ops: &mut Vec<Op>, resp_type: ResponseType)
    requires
        program::patient(old(ops)@),
    ensures
        final(ops)@ == old(ops)@ + response_reading(resp_type),
        program::patient(final(ops)@),
{
    match resp_type {
        ResponseType::R1
        | ResponseType::R1b
        | ResponseType::R3
        | ResponseType::R6
        | ResponseType::R7 => {
            ops.push(Op::Keep(Reg::Response0));
        },
        ResponseType::R2 => {
            ops.push(Op::Keep(Reg::Response0));
            ops.push(Op::Keep(Reg::Response1));
            ops.push(Op::Keep(Reg::Response2));
            ops.push(Op::Keep(Reg::Response3));
        },
        ResponseType::NoResponse | ResponseType::R4 | ResponseType::R5 => {},
    }
    assert(ops@ =~= old(ops)@ + response_reading(resp_type));
}

/// A command keeps the words of its response and nothing else.
pub(crate) proof fn lemma_issuing_keeps(cmd: Command, data: Option<PendingData>, dma: bool)
    ensures
        program::keeps(command_issuing(cmd, data, dma)) == response_reading(cmd.resp_type).len(),
{
    let a = command_opening(cmd, data is Some);
    let b = data_shaping(data, dma);
    let c = command_sending(cmd, data is Some);
    let d = response_reading(cmd.resp_type);
    reveal_with_fuel(program::keeps, 6);
    program::lemma_keeps_of_both(a, b);
    program::lemma_keeps_of_both(a + b, c);
    program::lemma_keeps_of_both(a + b + c, d);
}

// Responses

/// The 16 bytes of an R2 response, most significant first, from the four words
/// in which the controller holds it: it leaves out the CRC, which reads as 0.
pub open spec fn r2_bytes(words: Seq<u32>) -> Seq<u8> {
    (bits::be_bytes_of(words[3]) + bits::be_bytes_of(words[2]) + bits::be_bytes_of(words[1])
        + bits::be_bytes_of(words[0])).skip(1).push(0)
}

/// The response that the words of the response registers stand for.
pub open spec fn answers(
    resp_type: ResponseType,
    words: Seq<u32>,
    r: Result<Response, HostError>,
) -> bool {
    match resp_type {
        ResponseType::NoResponse => r == Ok::<Response, HostError>(Response::NoResponse),
        ResponseType::R1 | ResponseType::R1b => {
            let flagged = response::status_error_bits(words[0]);
            r == (if flagged == 0 {
                Ok(Response::R1(R1Response { raw: words[0] }))
            } else {
                Err(HostError::CardError(response::card_error_of(flagged)))
            })
        },
        ResponseType::R2 => r matches Ok(Response::R2(raw)) && raw@ == r2_bytes(words),
        ResponseType::R3 => r == Ok::<Response, HostError>(
            Response::R3(OcrResponse { raw: words[0] }),
        ),
        ResponseType::R6 => r == Ok::<Response, HostError>(
            Response::R6(RcaResponse { raw: words[0] }),
        ),
        ResponseType::R7 => r == Ok::<Response, HostError>(
            Response::R7(IfCondResponse { raw: words[0] }),
        ),
        ResponseType::R4 | ResponseType::R5 => r == Err::<Response, HostError>(
            HostError::BadResponse(ErrorContext { phase: Phase::Unknown, cmd: None }),
        ),
    }
}

/// Decodes the words of a response.
pub fn decode_response(resp_type: ResponseType, words: &Vec<u32>) -> (r: Result<
    Response,
    HostError,
>)
    requires
        words@.len() == response_reading(resp_type).len(),
    ensures
        answers(resp_type, words@, r),
{
    match resp_type {
        ResponseType::NoResponse => Ok(Response::NoResponse),
        ResponseType::R1 | ResponseType::R1b => match R1Response::from_native_raw(words[0]) {
            Ok(r1) => Ok(Response::R1(r1)),
            Err(e) => Err(e),
        },
        ResponseType::R2 => Ok(Response::R2(read_r2(words[0], words[1], words[2], words[3]))),
        ResponseType::R3 => Ok(Response::R3(OcrResponse::from_raw(words[0]))),
        ResponseType::R4 | ResponseType::R5 => {
            // SDIO IO commands aren't supported; surface them as
            // "bad response" rather than silently returning zeros.
            Err(HostError::BadResponse(ErrorContext::default()))
        },
        ResponseType::R6 => Ok(Response::R6(RcaResponse::from_raw(words[0]))),
        ResponseType::R7 => Ok(Response::R7(IfCondResponse::from_raw(words[0]))),
    }
}

/// Reconstruct the 128-bit R2 frame from the four 32-bit response slots, most
/// significant byte first.
///
/// SDHCI strips the start/tr/reserved header (top 8 bits of the on-bus
/// frame) and the CRC7+end (bottom 8 bits), then stores `card_resp[127:8]`
/// in the four slots. The frame is that, shifted up by 8.
fn read_r2(raw0: u32, raw1: u32, raw2: u32, raw3: u32) -> (bytes: [u8; 16])
    ensures
        bytes@ == r2_bytes(seq![raw0, raw1, raw2, raw3]),
{
    let b3: [u8; 4] = to_be_bytes(raw3);
    let b2: [u8; 4] = to_be_bytes(raw2);
    let b1: [u8; 4] = to_be_bytes(raw1);
    let b0: [u8; 4] = to_be_bytes(raw0);
    let bytes: [u8; 16] = [
        b3[1], b3[2], b3[3], b2[0], b2[1], b2[2], b2[3], b1[0], b1[1], b1[2], b1[3], b0[0], b0[1],
        b0[2], b0[3], 0,
    ];
    assert(bytes@ =~= r2_bytes(seq![raw0, raw1, raw2, raw3]));
    bytes
}

/// A command that is being issued.
///
/// Like [`Task`], with the response for a result.
pub struct CommandTask {
    task: Task,
    resp_type: ResponseType,
}

/// What a step of issuing a command leads to.
pub enum CommandProgress {
    /// There is more to do.
    More(CommandTask),
    /// The command is over: its response, or its failure.
    Done(Result<Response, HostError>),
}

impl CommandTask {
    /// The program that the task runs.
    pub closed spec fn program(self) -> Seq<Op> {
        self.task.program()
    }

    /// The actions that were made for the task, with their outcomes.
    pub closed spec fn history(self) -> Seq<Event> {
        self.task.history()
    }

    /// The action that is due.
    pub closed spec fn next(self) -> Action {
        self.task.next()
    }

    /// The type of the response to come.
    pub closed spec fn expects(self) -> ResponseType {
        self.resp_type
    }

    /// The task has come as far in its program as its history shows, and its
    /// program keeps the words of the response.
    pub closed spec fn wf(self) -> bool {
        &&& self.task.wf()
        &&& program::keeps(self.task.program()) == response_reading(self.resp_type).len()
    }

    /// The task runs `ops` and has done nothing yet.
    pub open spec fn starts(self, ops: Seq<Op>) -> bool {
        &&& self.wf()
        &&& self.program() == ops
        &&& self.history() == Seq::<Event>::empty()
        &&& program::asks(ops, self.history(), self.next())
    }

    /// What to do next.
    pub fn action(&self) -> (a: Action)
        ensures
            a == self.next(),
    {
        self.task.action()
    }

    /// Goes on once the due action had the outcome `value`.
    pub fn step(self, value: u32) -> (p: CommandProgress)
        requires
            self.wf(),
        ensures
            ({
                let t = self.history().push(Event { action: self.next(), reply: value });
                match p {
                    CommandProgress::More(task) => {
                        &&& task.wf()
                        &&& task.program() == self.program()
                        &&& task.expects() == self.expects()
                        &&& task.history() == t
                        &&& program::asks(self.program(), t, task.next())
                        &&& t.len() < program::budget(self.program())
                    },
                    CommandProgress::Done(r) => responds(self.program(), t, self.expects(), r),
                }
            }),
    {
        let resp_type: ResponseType = self.resp_type;
        let ghost t = self.task.history().push(Event { action: self.task.next(), reply: value });
        match self.task.step(value) {
            Progress::More(task) => CommandProgress::More(CommandTask { task, resp_type }),
            Progress::Done(Ok(words)) => {
                proof {
                    program::lemma_ran_keeps(self.task.program(), t, words@);
                }
                let r = decode_response(resp_type, &words);
                assert(program::performs(self.task.program(), t, Ok(words@)));
                CommandProgress::Done(r)
            },
            Progress::Done(Err(e)) => {
                assert(program::performs(self.task.program(), t, Err(e)));
                CommandProgress::Done(Err(e))
            },
        }
    }
}

/// The events of a whole command, and what it ends with: the response that its
/// words stand for, or the failure of its program.
pub open spec fn responds(
    ops: Seq<Op>,
    t: Seq<Event>,
    resp_type: ResponseType,
    r: Result<Response, HostError>,
) -> bool {
    exists|o: Outcome| #[trigger]
        program::performs(ops, t, o) && match o {
            Ok(words) => answers(resp_type, words, r),
            Err(e) => r == Err::<Response, HostError>(e),
        }
}

/// The data phase that is recorded for a command.
pub open spec fn pending_of(direction: DataDirection, block_size: u32, block_count: u32) -> Option<
    PendingData,
> {
    if direction == DataDirection::NoData {
        None
    } else {
        Some(PendingData { direction, block_size, block_count })
    }
}

/// Waits until the internal clock is stable and lets it out to the card.
fn push_clock_rising(ops: &mut Vec<Op>)
    requires
        program::patient(old(ops)@),
    ensures
        final(ops)@ == old(ops)@ + clock_rising(),
        program::patient(final(ops)@),
{
    ops.push(
        Op::Await {
            reg: Reg::ClockControl,
            mask: CLOCK_INTERNAL_STABLE,
            until_set: true,
            limit: SETUP_POLLS,
            error: HostError::Timeout(ErrorContext::new(Phase::Init)),
        },
    );
    ops.push(Op::Update { reg: Reg::ClockControl, clear: 0, set: CLOCK_SD_ENABLE });
    assert(ops@ =~= old(ops)@ + clock_rising());
}

// Laws

/// The four words in which a controller holds an R2 frame: its bytes but the last,
/// which is the CRC, right-aligned.
pub open spec fn r2_words(frame: Seq<u8>) -> Seq<u32> {
    let held = seq![0u8] + frame.take(15);
    Seq::new(4, |i: int| bits::be_value(held.subrange(12 - 4 * i, 16 - 4 * i)) as u32)
}

/// Splitting a word that was joined from four bytes gives the bytes back.
proof fn lemma_word_bytes(b: Seq<u8>)
    requires
        b.len() == 4,
    ensures
        bits::be_bytes_of(bits::be_value(b) as u32) == b,
{
    let v = bits::be_value(b);
    assert(0 <= v <= u32::MAX);
    lemma_byte_of(b[0] as int, b[1] * 0x1_0000 + b[2] * 0x100 + b[3], 0x100_0000, v);
    lemma_byte_of(b[0] * 0x100 + b[1], b[2] * 0x100 + b[3], 0x1_0000, v);
    lemma_byte_of(b[0] * 0x1_0000 + b[1] * 0x100 + b[2], b[3] as int, 0x100, v);
    let split = bits::be_bytes_of(v as u32);
    assert(split[0] == b[0]);
    assert(split[1] == b[1]);
    assert(split[2] == b[2]);
    assert(split[3] == b[3]);
    assert(split =~= b);
}

/// Dividing takes the upper part of a number off.
proof fn lemma_byte_of(upper: int, lower: int, unit: int, v: int)
    by (nonlinear_arith)
    requires
        unit > 0,
        0 <= lower < unit,
        v == upper * unit + lower,
    ensures
        v / unit == upper,
{
}

/// Sixteen bytes are their four quarters.
proof fn lemma_quarters(b: Seq<u8>)
    requires
        b.len() == 16,
    ensures
        b.subrange(0, 4) + b.subrange(4, 8) + b.subrange(8, 12) + b.subrange(12, 16) == b,
{
    assert(b.subrange(0, 4) + b.subrange(4, 8) + b.subrange(8, 12) + b.subrange(12, 16) =~= b);
}

/// An R2 frame is read back as it was sent, but for the CRC.
pub proof fn r2_frame_is_read_back(frame: Seq<u8>)
    requires
        frame.len() == 16,
    ensures
        r2_bytes(r2_words(frame)) == frame.take(15).push(0),
{
    let held = seq![0u8] + frame.take(15);
    lemma_word_bytes(held.subrange(0, 4));
    lemma_word_bytes(held.subrange(4, 8));
    lemma_word_bytes(held.subrange(8, 12));
    lemma_word_bytes(held.subrange(12, 16));
    lemma_quarters(held);
    assert(held.skip(1) =~= frame.take(15));
}

/// The command register keeps the index of the command apart from the rest.
pub proof fn command_word_keeps_the_index(cmd: Command, has_data: bool)
    ensures
        command_word(cmd, has_data) / 0x100 == cmd.cmd,
        command_word(cmd, has_data) / 0x20 % 8 == bits::digit(has_data),
        command_word(cmd, has_data) % 0x20 == response_bits(cmd.resp_type),
{
}

/// A reset that succeeds set the bit once and saw it cleared; one that does not
/// saw it set a thousand times.
pub proof fn reset_waits_for_the_bit(bit: u32, phase: Phase, t: Seq<Event>, r: Outcome)
    requires
        program::performs(resetting(bit, phase), t, r),
    ensures
        2 <= t.len() <= 1001,
        t[0].action == Action::Write(Reg::SoftwareReset, bit),
        forall|i: int|
            0 < i < t.len() ==> (#[trigger] t[i]).action == Action::Read(Reg::SoftwareReset),
        forall|i: int| 0 < i < t.len() - 1 ==> (#[trigger] t[i]).reply & bit != 0,
        match r {
            Ok(_) => t.last().reply & bit == 0,
            Err(e) => {
                &&& e == HostError::Timeout(during(phase))
                &&& t.len() == 1001
                &&& t.last().reply & bit != 0
            },
        },
{
    reveal(Op::does);
    let ops = resetting(bit, phase);
    program::operations_follow_each_other(ops, t, r);
    let n = choose|n: int| #[trigger] program::begins(ops, t, r, n);
    let (first, rest) = choose|first: Seq<u32>, rest: Outcome|
        {
            &&& ops[0].does(t.take(n), Ok(first))
            &&& program::performs(ops.skip(1), t.skip(n), rest)
            &&& r == #[trigger] program::follow(first, rest)
        };
    assert(t.take(n)[0] == t[0]);
    let polls = t.skip(1);
    lemma_single(ops.skip(1), polls, rest);
    assert forall|i: int| 0 < i < t.len() implies #[trigger] t[i] == polls[i - 1] by {}
}

/// The command register is written only after the controller has reported the
/// lines that the command needs as free.
pub proof fn command_waits_for_free_lines(
    cmd: Command,
    data: Option<PendingData>,
    dma: bool,
    t: Seq<Event>,
    r: Outcome,
    i: int,
)
    requires
        program::performs(command_issuing(cmd, data, dma), t, r),
        0 <= i < t.len(),
        t[i].action matches Action::Write(Reg::Command, _),
    ensures
        exists|j: int|
            {
                &&& 0 <= j < i
                &&& (#[trigger] t[j]).action == Action::Read(Reg::PresentState)
                &&& t[j].reply & (if data is Some {
                    3u32
                } else {
                    1u32
                }) == 0
            },
{
    reveal(Op::does);
    let ops = command_issuing(cmd, data, dma);
    assert(ops[0] == command_opening(cmd, data is Some)[0]);
    program::operations_follow_each_other(ops, t, r);
    let n = choose|n: int| #[trigger] program::begins(ops, t, r, n);
    let (first, rest) = choose|first: Seq<u32>, rest: Outcome|
        {
            &&& ops[0].does(t.take(n), Ok(first))
            &&& program::performs(ops.skip(1), t.skip(n), rest)
            &&& r == #[trigger] program::follow(first, rest)
        };
    let polls = t.take(n);
    assert forall|j: int| 0 <= j < n implies #[trigger] polls[j] == t[j] by {}
    assert(polls.last() == t[n - 1]);
    if i < n {
        assert(polls[i] == t[i]);
    }
}

/// A program of one operation does that operation.
pub(crate) proof fn lemma_single(ops: Seq<Op>, t: Seq<Event>, r: Outcome)
    requires
        ops.len() == 1,
        program::performs(ops, t, r),
    ensures
        ops[0].does(t, r),
{
    program::operations_follow_each_other(ops, t, r);
    let n = choose|n: int| #[trigger] program::begins(ops, t, r, n);
    if !(n == t.len() && r is Err && ops[0].does(t, r)) {
        let (first, rest) = choose|first: Seq<u32>, rest: Outcome|
            {
                &&& ops[0].does(t.take(n), Ok(first))
                &&& program::performs(ops.skip(1), t.skip(n), rest)
                &&& r == #[trigger] program::follow(first, rest)
            };
        assert(rest is Ok);
        assert(t.take(n) =~= t);
        assert(first + rest->Ok_0 =~= first);
    }
}

} // verus!
