//! Server-side core of the River RPC protocol (v2.0): wire codecs,
//! handshake engine, and the per-connection stream dispatcher.

pub mod codecs;
pub mod control;
pub mod dispatch;
pub mod json;
pub mod message_types;
pub mod misc;
pub mod msgpack;
pub mod result;
pub mod utils;
pub mod value;

use vstd::prelude::*;

verus! {

/// Control-flag bit marking an ack / heartbeat frame.
pub const FLAG_ACK: i32 = 0b00001;

/// Control-flag bit marking a stream-open frame.
pub const FLAG_STREAM_OPEN: i32 = 0b00010;

/// Control-flag bit marking an abnormal (cancel) stream close.
pub const FLAG_STREAM_CANCEL: i32 = 0b00100;

/// Control-flag bit marking a normal stream close.
pub const FLAG_STREAM_CLOSE: i32 = 0b01000;

} // verus!
