//! Identifier generation and handler-side helpers.

use vstd::prelude::*;

use crate::misc::{OutgoingMessage, ProcedureRes, RPCMetadata, SimpleOutgoingMessage};
use crate::control::Control;
use crate::message_types::RequestInner;
use crate::value::JsonValue;
use crate::{FLAG_STREAM_CANCEL, FLAG_STREAM_CLOSE};

verus! {

/// A character of the identifier alphabet: a digit or a basic latin
/// letter other than `w` and `W`.
pub open spec fn is_id_char(c: char) -> bool {
    ('0' <= c <= '9') || ('a' <= c <= 'z' && c != 'w') || ('A' <= c <= 'Z' && c != 'W')
}

/// The 60-character identifier alphabet.
fn id_alphabet() -> (r: Vec<char>)
    ensures
        r@.len() == 60,
        forall|i: int| 0 <= i < r@.len() ==> is_id_char(#[trigger] r@[i]) && r@[i] < 128 as char,
{
    let r: Vec<char> = vec![
        '1', '2', '3', '4', '5', '6', '7', '8', '9', '0', 'a', 'b', 'c', 'd', 'e', 'f', 'g', 'h',
        'i', 'j', 'k', 'l', 'm', 'n', 'o', 'p', 'q', 'r', 's', 't', 'u', 'v', 'x', 'y', 'z', 'A',
        'B', 'C', 'D', 'E', 'F', 'G', 'H', 'I', 'J', 'K', 'L', 'M', 'N', 'O', 'P', 'Q', 'R', 'S',
        'T', 'U', 'V', 'X', 'Y', 'Z',
    ];
    r
}

/// Relies on nanoid::format with nanoid::rngs::default: the result
/// has exactly `size` characters, each drawn from `alphabet`.
/// The alphabet must be non-empty, at most 255 characters, and
/// ASCII, and `size` at least one; nanoid does not return otherwise.
#[verifier::external_body]
fn nanoid_format(alphabet: &Vec<char>, size: usize) -> (r: String)
    requires
        1 <= alphabet@.len() <= 255,
        1 <= size,
        forall|i: int| 0 <= i < alphabet@.len() ==> #[trigger] alphabet@[i] < 128 as char,
    ensures
        r@.len() == size,
        forall|i: int| 0 <= i < r@.len() ==> alphabet@.contains(#[trigger] r@[i]),
{
    nanoid::format(nanoid::rngs::default, alphabet.as_slice(), size)
}

/// Generates a fresh 12-character message or stream identifier over
/// the 60-character alphabet.
pub fn generate_id() -> (r: String)
    ensures
        r@.len() == 12,
        forall|i: int| 0 <= i < r@.len() ==> is_id_char(#[trigger] r@[i]),
        vstd::utf8::is_ascii_chars(r@),
{
    let alphabet = id_alphabet();
    let r = nanoid_format(&alphabet, 12);
    proof {
        assert forall|i: int| 0 <= i < r@.len() implies is_id_char(#[trigger] r@[i]) && '\0'
            <= r@[i] <= '\u{7f}' by {
            let j = choose|j: int| 0 <= j < alphabet@.len() && alphabet@[j] == r@[i];
            assert(is_id_char(alphabet@[j]));
        }
    }
    r
}

/// Converts a procedure result into an outbound message.
///
/// `close` marks the stream's last message; `error` closes the
/// stream abruptly with the cancel bit, overriding `close`.
pub fn payload_to_msg(
    payload: ProcedureRes,
    metadata: &RPCMetadata,
    close: bool,
    error: bool,
) -> (r: OutgoingMessage)
    ensures
        r.stream_id@ == metadata.stream_id@,
        r.close == (close || error),
        ({
            let flags: int = if error {
                FLAG_STREAM_CANCEL as int
            } else if close {
                FLAG_STREAM_CLOSE as int
            } else {
                0
            };
            match payload {
                ProcedureRes::Response(p) => (r.message matches SimpleOutgoingMessage::Request(
                    f,
                    inner,
                ) && f == flags && (inner matches RequestInner::Request { payload: q } && q == p)),
                ProcedureRes::Close => (r.message matches SimpleOutgoingMessage::Control(f, c) && f
                    == flags && c is Close),
            }
        }),
{
    let mut control_flags: i32 = 0;
    let mut is_close = close;
    if error {
        control_flags = control_flags | FLAG_STREAM_CANCEL;
        is_close = true;
    } else if close {
        control_flags = control_flags | FLAG_STREAM_CLOSE;
    }
    proof {
        assert(0i32 | FLAG_STREAM_CANCEL == FLAG_STREAM_CANCEL) by (bit_vector);
        assert(0i32 | FLAG_STREAM_CLOSE == FLAG_STREAM_CLOSE) by (bit_vector);
    }
    let message = match payload {
        ProcedureRes::Response(payload) => SimpleOutgoingMessage::Request(
            control_flags,
            RequestInner::Request { payload },
        ),
        ProcedureRes::Close => SimpleOutgoingMessage::Control(control_flags, Control::Close),
    };
    OutgoingMessage { message, stream_id: metadata.stream_id.clone(), close: is_close }
}

} // verus!
