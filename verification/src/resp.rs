//! The codec of one stream: a decoder that keeps its place between
//! attempts, and the encoder.
use crate::agreement::reads;
use crate::buffer::buffered;
use crate::error::CodecError;
use crate::machine::{run, Outcome, Session};
use crate::resp::encoder::resp_encode;
use crate::resp_stateful_codec::{RedisValue, RespDecoder};
use crate::wire::{encoding, DEFAULT_LINE_LIMIT};
use bytes::BytesMut;
use vstd::prelude::*;

pub mod encoder;

verus! {

/// The codec of one stream.
pub struct RespCodec {
    dec: RespDecoder,
}

impl View for RespCodec {
    type V = Session;

    closed spec fn view(&self) -> Session {
        self.dec@
    }
}

impl Default for RespCodec {
    fn default() -> (r: Self)
        ensures
            r.wf(),
            r@ == Session::idle(DEFAULT_LINE_LIMIT as nat),
    {
        RespCodec { dec: RespDecoder::new() }
    }
}

impl RespCodec {
    /// The decoder inside is well formed.
    pub closed spec fn wf(&self) -> bool {
        self.dec.wf()
    }

    /// One attempt at the next frame: `Ok(Some(..))` with its value,
    /// `Ok(None)` where more bytes are needed, `Err(..)` where the stream is
    /// broken. After `Ok(None)` the next attempt is to be made on the same
    /// buffer, with more bytes appended to it.
    pub fn decode(&mut self, src: &mut BytesMut) -> (r: Result<Option<RedisValue>, CodecError>)
        requires
            old(self).wf(),
        ensures
            final(self).wf(),
            run(old(self)@, buffered(old(src))).leaves(
                old(self)@.limit,
                final(self)@,
                buffered(final(src)),
            ),
            match run(old(self)@, buffered(old(src))) {
                Outcome::Value(value, _) => r matches Ok(Some(v)) && v@ == value,
                Outcome::Suspend(_, _) => r matches Ok(None),
                Outcome::Fatal(e) => r matches Err(x) && x == e,
            },
            old(self)@ == Session::idle(old(self)@.limit) ==> reads(
                buffered(old(src)),
                old(self)@.limit,
                r,
                buffered(final(src)),
            ),
    {
        match self.dec.cached_decode(src) {
            Ok(val) => Ok(Some(val)),
            Err(e) => match e {
                CodecError::Incomplete => Ok(None),
                _ => Err(e),
            },
        }
    }

    /// Appends the bytes that write `item`. It never fails.
    pub fn encode(&mut self, item: RedisValue, dst: &mut BytesMut) -> (r: Result<(), CodecError>)
        ensures
            r is Ok,
            *final(self) == *old(self),
            buffered(final(dst)) == buffered(old(dst)) + encoding(item@),
    {
        resp_encode(item, dst);
        Ok(())
    }
}

} // verus!
