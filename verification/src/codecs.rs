//! The built-in wire codecs and the trait they share.
//!
//! A codec turns a document tree into bytes and back. Both built-in
//! codecs carry exact specifications: what they emit is a function
//! of the value alone, and decoding provably inverts encoding.

use vstd::prelude::*;

use crate::json::{json_dec, json_decode, json_enc, json_encode, lemma_json_round_trip};
use crate::msgpack::{lemma_mp_round_trip, mp_dec, mp_decode, mp_enc, mp_encode};
use crate::value::{jdepth, jval_wf, JVal, JsonValue, MAX_DEPTH};

verus! {

/// A wire codec: encoding and decoding of document trees, with
/// decoding proven to invert encoding.
pub trait Codec: Sized {
    /// The bytes this codec emits for a well-formed value.
    spec fn enc_spec(&self, x: JVal) -> Seq<u8>;

    /// The value this codec reads from a byte buffer, if any.
    spec fn dec_spec(&self, b: Seq<u8>) -> Option<JVal>;

    /// Encode a value into a vector.
    fn encode_value(&self, v: &JsonValue) -> (r: Vec<u8>)
        requires
            jval_wf(v@),
        ensures
            r@ == self.enc_spec(v@),
    ;

    /// Decode a slice into a value.
    fn decode_value(&self, b: &[u8]) -> (r: Option<JsonValue>)
        ensures
            match r {
                Some(v) => self.dec_spec(b@) == Some(v@) && jval_wf(v@) && jdepth(v@)
                    <= MAX_DEPTH,
                None => self.dec_spec(b@) is None,
            },
    ;

    /// Decoding inverts encoding on well-formed values.
    proof fn round_trip(&self, x: JVal)
        requires
            jval_wf(x),
            jdepth(x) <= MAX_DEPTH,
        ensures
            self.dec_spec(self.enc_spec(x)) == Some(x),
    ;
}

/// Basic codec that encodes messages as JSON text.
#[derive(Clone, Copy)]
pub struct NaiveCodec {}

impl Codec for NaiveCodec {
    open spec fn enc_spec(&self, x: JVal) -> Seq<u8> {
        json_enc(x)
    }

    open spec fn dec_spec(&self, b: Seq<u8>) -> Option<JVal> {
        json_dec(b)
    }

    fn encode_value(&self, v: &JsonValue) -> (r: Vec<u8>) {
        json_encode(v)
    }

    fn decode_value(&self, b: &[u8]) -> (r: Option<JsonValue>) {
        json_decode(b)
    }

    proof fn round_trip(&self, x: JVal) {
        lemma_json_round_trip(x);
    }
}

/// Codec that encodes messages in the MessagePack binary format.
#[derive(Clone, Copy)]
pub struct BinaryCodec {}

impl Codec for BinaryCodec {
    open spec fn enc_spec(&self, x: JVal) -> Seq<u8> {
        mp_enc(x)
    }

    open spec fn dec_spec(&self, b: Seq<u8>) -> Option<JVal> {
        mp_dec(b)
    }

    fn encode_value(&self, v: &JsonValue) -> (r: Vec<u8>) {
        mp_encode(v)
    }

    fn decode_value(&self, b: &[u8]) -> (r: Option<JsonValue>) {
        mp_decode(b)
    }

    proof fn round_trip(&self, x: JVal) {
        lemma_mp_round_trip(x);
    }
}

/// Either built-in codec, selected at run time.
#[derive(Clone, Copy)]
pub enum DynCodec {
    /// Binary codec
    Binary(BinaryCodec),
    /// Naive (JSON) codec
    Naive(NaiveCodec),
}

impl Codec for DynCodec {
    open spec fn enc_spec(&self, x: JVal) -> Seq<u8> {
        match *self {
            DynCodec::Binary(c) => c.enc_spec(x),
            DynCodec::Naive(c) => c.enc_spec(x),
        }
    }

    open spec fn dec_spec(&self, b: Seq<u8>) -> Option<JVal> {
        match *self {
            DynCodec::Binary(c) => c.dec_spec(b),
            DynCodec::Naive(c) => c.dec_spec(b),
        }
    }

    fn encode_value(&self, v: &JsonValue) -> (r: Vec<u8>) {
        match self {
            DynCodec::Binary(c) => c.encode_value(v),
            DynCodec::Naive(c) => c.encode_value(v),
        }
    }

    fn decode_value(&self, b: &[u8]) -> (r: Option<JsonValue>) {
        match self {
            DynCodec::Binary(c) => c.decode_value(b),
            DynCodec::Naive(c) => c.decode_value(b),
        }
    }

    proof fn round_trip(&self, x: JVal) {
        match *self {
            DynCodec::Binary(c) => c.round_trip(x),
            DynCodec::Naive(c) => c.round_trip(x),
        }
    }
}

} // verus!
