use vstd::prelude::*;

verus! {

/// Failures of the transport: reading frames and the opening handshake.
#[derive(Clone, Copy, Debug, PartialEq, Eq, Structural)]
pub enum SocketError {
    CannotReadPayload,
    ConnectionClosed,
    InvalidHandshake,
    InvalidFrame,
    UnknownError,
}

pub open spec fn socket_error_text(e: SocketError) -> Seq<char> {
    match e {
        SocketError::CannotReadPayload => "Cannot read payload"@,
        SocketError::ConnectionClosed => "Connection closed"@,
        SocketError::InvalidHandshake => "Invalid handshake"@,
        SocketError::InvalidFrame => "Invalid frame"@,
        SocketError::UnknownError => "Unknown error"@,
    }
}

impl SocketError {
    /// The text of the error.
    pub fn as_str(&self) -> (r: &'static str)
        ensures
            r@ == socket_error_text(*self),
    {
        match self {
            SocketError::CannotReadPayload => "Cannot read payload",
            SocketError::ConnectionClosed => "Connection closed",
            SocketError::InvalidHandshake => "Invalid handshake",
            SocketError::InvalidFrame => "Invalid frame",
            SocketError::UnknownError => "Unknown error",
        }
    }
}

} // verus!
