use vstd::prelude::*;

verus! {

/// Error raised by the wire codec.
///
/// `Incomplete` means the buffer is a prefix of some valid encoding and
/// more input may complete it; `Malformed` means the buffer can never be
/// completed into a valid encoding. A session keeps reading on
/// `Incomplete` and closes on `Malformed`.
#[derive(Debug, Clone, Copy, PartialEq, Eq, Structural)]
pub enum ProtocolError {
    Incomplete,
    Malformed,
}

/// Error raised when a well-formed wire value cannot be read as a
/// command. The kind stays internal: the dispatcher answers a malformed
/// command shape with a protocol error value and the session continues.
/// Only a command that cannot be answered at all — an echo with nothing
/// to echo — reaches the session as an error and closes it.
#[derive(Debug, Clone, Copy, PartialEq, Eq, Structural)]
pub enum CommandError {
    /// The top-level value is not an array, or its first element is not
    /// a bulk string naming a command.
    MalformedCommand,
    /// A command is missing an argument without which no response can
    /// be formed.
    MissingArgument,
}

} // verus!
