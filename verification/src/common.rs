//! Wire-protocol command codes, result flags, and the library's error type.

use vstd::prelude::*;

verus! {

pub const COMMAND_CONNECT: u8 = 0x01;

pub const COMMAND_GET: u8 = 0x02;

pub const COMMAND_BULK_EDIT: u8 = 0x03;

pub const COMMAND_ADD: u8 = 0x04;

/// Try to remove points. If the user does not have enough points, the
/// operation is refused.
pub const COMMAND_REMOVE: u8 = 0x05;

pub const RESULT_OK: u8 = 0x00;

pub const RESULT_ERR: u8 = 0x01;

/// A command byte that was not the one a reader expected.
#[derive(Clone, Copy, Debug, PartialEq, Eq, Structural)]
pub struct WrongCommand {
    pub received_command: u8,
    pub expected_command: u8,
}

impl WrongCommand {
    pub fn new(a: u8, b: u8) -> (r: WrongCommand)
        ensures
            r.received_command == a,
            r.expected_command == b,
    {
        WrongCommand { received_command: a, expected_command: b }
    }
}

/// The error cases the store and its callers distinguish.
#[derive(Debug, PartialEq)]
pub enum MyError {
    /// An I/O failure reported by the surrounding server.
    IoError,
    /// A byte sequence that is not valid UTF-8.
    ParseError,
    /// A command byte other than the one expected.
    WrongCommand(WrongCommand),
    /// A channel's command queue hung up.
    RecvError,
    /// A response could not be delivered.
    SendError(String),
    /// A buffer too short for the value it should hold.
    BufferError,
}

} // verus!
