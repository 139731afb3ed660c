use vstd::prelude::*;
use crate::errors::SocketError;
use crate::frame::{DataFrame, Opcode, mask_view, payload_bytes};
use crate::response::{Response, frame_bytes};

verus! {

/// What a connection does with a frame it has read.
pub enum Dispatch {
    /// Send these bytes, the answer to a ping, and read on.
    Pong(Vec<u8>),
    /// Shut the connection down.
    Close,
    /// Run the frame through the message handler, under the store's lock,
    /// and send the reply.
    Command(DataFrame),
    /// Report a read error and read on.
    Report(SocketError),
    /// Report a read error and end the connection: the peer has gone.
    Stop(SocketError),
}

/// Decides what a connection does with a frame: pings are answered at once,
/// a close frame ends the connection, every other frame goes to the handler.
pub fn dispatch(frame: DataFrame) -> (r: Dispatch)
    ensures
        frame.opcode == Opcode::Ping ==> (r matches Dispatch::Pong(b) && b@ == frame_bytes(
            0x80u8 | 10u8,
            payload_bytes(frame.payload).len(),
            mask_view(frame.mask),
            payload_bytes(frame.payload),
        )),
        frame.opcode == Opcode::ConnectionClosed ==> r is Close,
        frame.opcode != Opcode::Ping && frame.opcode != Opcode::ConnectionClosed ==> r == Dispatch::Command(frame),
{
    if frame.opcode == Opcode::Ping {
        Dispatch::Pong(Response::pong(&frame))
    } else if frame.opcode == Opcode::ConnectionClosed {
        Dispatch::Close
    } else {
        Dispatch::Command(frame)
    }
}

/// Decides what a connection does with the outcome of reading a frame: a
/// frame goes to `dispatch`; a read error is reported, and ends the
/// connection only when the peer has closed it.
pub fn on_read(read: Result<DataFrame, SocketError>) -> (r: Dispatch)
    ensures
        read == Err::<DataFrame, SocketError>(SocketError::ConnectionClosed) ==> r == Dispatch::Stop(
            SocketError::ConnectionClosed,
        ),
        read matches Err(e) ==> (e != SocketError::ConnectionClosed ==> r == Dispatch::Report(e)),
        read matches Ok(frame) ==> (frame.opcode == Opcode::Ping ==> (r matches Dispatch::Pong(b) && b@
            == frame_bytes(
            0x80u8 | 10u8,
            payload_bytes(frame.payload).len(),
            mask_view(frame.mask),
            payload_bytes(frame.payload),
        ))),
        read matches Ok(frame) ==> (frame.opcode == Opcode::ConnectionClosed ==> r is Close),
        read matches Ok(frame) ==> (frame.opcode != Opcode::Ping && frame.opcode != Opcode::ConnectionClosed
            ==> r == Dispatch::Command(frame)),
{
    match read {
        Ok(frame) => dispatch(frame),
        Err(SocketError::ConnectionClosed) => Dispatch::Stop(SocketError::ConnectionClosed),
        Err(e) => Dispatch::Report(e),
    }
}

} // verus!
