//! The conditions under which an operation of the broker fails.

use vstd::prelude::*;

verus! {

/// Why an operation failed.
#[derive(Clone, Copy, Debug, PartialEq, Eq, Structural)]
pub enum Error {
    /// The connection closed before a whole frame had arrived.
    Truncated,
    /// A frame's payload is not the encoding of a message.
    MalformedPayload,
    /// A descriptor that was never handed out.
    UnknownDescriptor,
    /// A message whose sender or receiver is address zero.
    InvalidMessage,
    /// The first message lacks an address, or names another unit.
    InvalidStartup,
    /// A payload longer than the length prefix of a frame can say.
    FrameTooLarge,
    /// Every descriptor is taken.
    DirectoryFull,
    /// The channel from the reader of the connection is closed: the
    /// connection to the master is gone.
    Disconnected,
}

} // verus!
