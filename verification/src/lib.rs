//! A codec for the Redis serialization protocol: a decoder that reads a
//! stream as it arrives, in fragments of any size, an encoder, a one-shot
//! reader of replies, and the reading of replies as publish/subscribe
//! events.
//!
//! `wire` says what the bytes mean, `machine` what the resumable decoder
//! does, and `agreement`, `laws` and `roundtrip` prove that the two
//! agree, that a suspended attempt goes on as if it had never stopped,
//! and that what is written is read back.
pub mod agreement;
pub mod buffer;
pub mod decimal;
pub mod error;
pub mod laws;
pub mod machine;
pub mod redis_protocol;
pub mod resp;
pub mod resp_stateful_codec;
pub mod roundtrip;
pub mod text;
pub mod wire;

pub use crate::redis_protocol::{PubSubEvent, PubSubMessage, RedisCodec, RedisValue};

use crate::error::CodecError;
use vstd::prelude::*;
use vstd::slice::{slice_subrange, slice_to_vec};

verus! {

/// Takes the next `N` bytes off the front of `src`.
pub fn take_arr<const N: usize>(src: &mut &[u8]) -> (r: Result<[u8; N], CodecError>)
    ensures
        match r {
            Ok(taken) => {
                &&& N <= old(src)@.len()
                &&& taken@ == old(src)@.take(N as int)
                &&& final(src)@ == old(src)@.skip(N as int)
            },
            Err(e) => {
                &&& e == CodecError::Incomplete
                &&& N > old(src)@.len()
                &&& final(src)@ == old(src)@
            },
        },
{
    if src.len() < N {
        return Err(CodecError::Incomplete);
    }
    let mut buf = [0u8;N];
    let mut i: usize = 0;
    while i < N
        invariant
            i <= N <= src@.len(),
            src@ == old(src)@,
            forall|j: int| 0 <= j < i ==> buf@[j] == src@[j],
        decreases N - i,
    {
        buf[i] = src[i];
        i = i + 1;
    }
    *src = slice_subrange(*src, N, src.len());
    Ok(buf)
}

/// Takes the next `n` bytes off the front of `src`.
pub fn take_vec(src: &mut &[u8], n: usize) -> (r: Result<Vec<u8>, CodecError>)
    ensures
        match r {
            Ok(taken) => {
                &&& n <= old(src)@.len()
                &&& taken@ == old(src)@.take(n as int)
                &&& final(src)@ == old(src)@.skip(n as int)
            },
            Err(e) => {
                &&& e == CodecError::Incomplete
                &&& n > old(src)@.len()
                &&& final(src)@ == old(src)@
            },
        },
{
    if src.len() < n {
        return Err(CodecError::Incomplete);
    }
    let taken = slice_to_vec(slice_subrange(*src, 0, n));
    *src = slice_subrange(*src, n, src.len());
    Ok(taken)
}

/// Takes the next byte off the front of `src`.
pub fn take_u8(src: &mut &[u8]) -> (r: Result<u8, CodecError>)
    ensures
        match r {
            Ok(byte) => {
                &&& 1 <= old(src)@.len()
                &&& byte == old(src)@[0]
                &&& final(src)@ == old(src)@.skip(1)
            },
            Err(e) => {
                &&& e == CodecError::Incomplete
                &&& old(src)@.len() == 0
                &&& final(src)@ == old(src)@
            },
        },
{
    match take_arr::<1>(src) {
        Ok(one) => Ok(one[0]),
        Err(e) => Err(e),
    }
}

} // verus!
