//! Small types shared between the dispatcher and procedure handlers.

use vstd::prelude::*;

use crate::control::Control;
use crate::message_types::RequestInner;
use crate::value::JsonValue;

verus! {

/// What the dispatcher keeps about an open stream; the queue
/// endpoint itself is held by the connection runner.
#[derive(Debug, Clone, Copy)]
pub struct StreamInfo {
    /// The `seq` of the frame that opened the stream.
    pub opening_seq: i32,
}

/// Items delivered to a running procedure's inbound queue.
#[derive(Debug)]
pub enum IncomingMessage {
    /// The client asked to close the stream.
    Close,
    /// The client disconnected.
    ForceClose,
    /// The client sent a new message.
    Request(JsonValue),
}

/// What a procedure handler learns about its invocation.
#[derive(Debug, Clone)]
pub struct RPCMetadata {
    /// The stream of the invoked procedure.
    pub stream_id: String,
    /// The client who invoked it.
    pub client_id: String,
}

/// An outbound message before the dispatcher fills in its header.
#[derive(Debug)]
pub enum SimpleOutgoingMessage {
    Control(i32, Control),
    Request(i32, RequestInner),
}

/// What a handler hands the dispatcher for sending.
#[derive(Debug)]
pub struct OutgoingMessage {
    /// Message data to send.
    pub message: SimpleOutgoingMessage,
    /// The stream this message belongs to.
    pub stream_id: String,
    /// Whether this is the stream's last message.
    pub close: bool,
}

/// A procedure's logical result.
#[derive(Debug)]
pub enum ProcedureRes {
    /// Only closes the stream.
    Close,
    /// Carries a response value.
    Response(JsonValue),
}

} // verus!
