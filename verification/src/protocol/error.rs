//! The errors of the wire protocol.

use vstd::prelude::*;

verus! {

/// What sending or receiving over a connection can fail with.
#[derive(Debug)]
pub enum ProtocolError {
    /// A failure of the connection, with its cause in words.
    IoError(String),
    /// The payload of a frame is no command or no response.
    DeserializationError(String),
    /// The bytes are no frame, or a frame with too long a payload.
    InvalidFrame(String),
    /// The other side closed the connection.
    ConnectionClosed,
}

} // verus!
