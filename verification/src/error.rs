//! Failures that card operations report.
use vstd::prelude::*;

verus! {

/// Failure of an operation on the SPI path.
#[derive(Debug, Clone, Copy, PartialEq, Eq, Structural)]
pub enum Error {
    /// No response from card
    Timeout,
    /// CRC check failed
    Crc,
    /// Card is not responding or not inserted
    NoCard,
    /// Command not supported
    UnsupportedCommand,
    /// Bad response received
    BadResponse,
    /// Card returned an error in R1 response
    CardError(CardError),
    /// Write operation failed
    WriteError,
    /// Read operation failed
    ReadError,
    /// Misaligned address or length
    Misaligned,
    /// Invalid argument
    InvalidArgument,
    /// Card is locked
    CardLocked,
    /// Communication error on the bus
    BusError,
}

/// Error that the card itself flagged in its status word.
#[derive(Debug, Clone, Copy, PartialEq, Eq, Structural)]
pub enum CardError {
    /// A command was issued out of sequence
    IllegalCommand,
    /// CRC check of the last command failed
    CommandCrcFailed,
    /// Erase sequence error
    EraseSequence,
    /// Address alignment error
    AddressError,
    /// Card internal ECC error
    CardEccFailed,
    /// Generic controller error
    ControllerError,
    /// Unknown error bit set
    Unknown(u8),
}

/// Stage of a host-controller operation in which a failure arose.
#[derive(Debug, Clone, Copy, PartialEq, Eq, Structural)]
pub enum Phase {
    /// The stage was not recorded
    Unknown,
    /// Card or controller initialization
    Init,
    /// Issuing a command
    CommandSend,
    /// Waiting for a command to complete
    ResponseWait,
    /// Moving data from the card to the host
    DataRead,
    /// Moving data from the host to the card
    DataWrite,
}

/// Where a host-controller failure arose.
#[derive(Debug, Clone, Copy, PartialEq, Eq, Structural)]
pub struct ErrorContext {
    pub phase: Phase,
    /// Index of the command concerned, if one was
    pub cmd: Option<u8>,
}

impl ErrorContext {
    /// Context that names a phase and no command.
    pub fn new(phase: Phase) -> (c: Self)
        ensures
            c == (ErrorContext { phase, cmd: None }),
    {
        ErrorContext { phase, cmd: None }
    }

    /// Context that names a phase and the command concerned.
    pub fn for_cmd(phase: Phase, cmd: u8) -> (c: Self)
        ensures
            c == (ErrorContext { phase, cmd: Some(cmd) }),
    {
        ErrorContext { phase, cmd: Some(cmd) }
    }
}

impl Default for ErrorContext {
    fn default() -> (c: Self)
        ensures
            c == (ErrorContext { phase: Phase::Unknown, cmd: None }),
    {
        ErrorContext { phase: Phase::Unknown, cmd: None }
    }
}

/// Failure of an operation on the host-controller path.
#[derive(Debug, Clone, Copy, PartialEq, Eq, Structural)]
pub enum HostError {
    /// No response from card or controller
    Timeout(ErrorContext),
    /// CRC check failed
    Crc(ErrorContext),
    /// Card is not responding or not inserted
    NoCard,
    /// Command not supported
    UnsupportedCommand,
    /// Bad response received
    BadResponse(ErrorContext),
    /// Card returned an error in its status word
    CardError(CardError),
    /// Write operation failed
    WriteError(ErrorContext),
    /// Read operation failed
    ReadError(ErrorContext),
    /// Misaligned address or length
    Misaligned,
    /// Invalid argument
    InvalidArgument,
    /// Card is locked
    CardLocked,
    /// Communication error on the bus
    BusError(ErrorContext),
}

} // verus!
