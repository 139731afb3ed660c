//! An in-memory document store served over WebSocket.
//!
//! - `frame`, `response`, `handshake`, `server`: the WebSocket side: the
//!   frame codec, outgoing frames, the opening handshake, and what a
//!   connection does with each frame.
//! - `json`, `parser`, `path`: document values, their text form, and dotted
//!   paths into them.
//! - `store`, `commands`: the store and the text commands run on it.
//! - `sha1`, `base64`: the digest and the encoding of the handshake's token.
//! - `laws`, `roundtrip`: properties that hold across several operations.
use vstd::prelude::*;

pub mod base64;
pub mod commands;
pub mod errors;
pub mod frame;
pub mod handshake;
pub mod json;
pub mod laws;
pub mod parser;
pub mod path;
pub mod response;
pub mod roundtrip;
pub mod server;
pub mod sha1;
pub mod store;
pub mod text;

verus! {

} // verus!
