//! `bytes::BytesMut`, the buffer that the codecs read from and write to,
//! and what is taken for granted of it.
use bytes::Buf;
use bytes::BytesMut;
use vstd::prelude::*;

verus! {

/// `bytes::BytesMut`, a growable byte buffer. Its fields are hidden; what it
/// holds is spoken of through [`buffered`].
#[verifier::external_type_specification]
#[verifier::external_body]
pub struct ExBytesMut(bytes::BytesMut);

/// The bytes that a buffer holds, first to last.
pub uninterp spec fn buffered(buf: &BytesMut) -> Seq<u8>;

/// `BytesMut::len`: the number of bytes held.
pub assume_specification[ bytes::BytesMut::len ](buf: &BytesMut) -> (n: usize)
    ensures
        n == buffered(buf).len(),
;

/// `BytesMut::split_to`: the first `at` bytes leave the buffer and are
/// returned as a buffer of their own; the rest stay. It panics when `at`
/// is larger than the length, so that is required.
pub assume_specification[ bytes::BytesMut::split_to ](buf: &mut BytesMut, at: usize) -> (head:
    BytesMut)
    requires
        at <= buffered(old(buf)).len(),
    ensures
        buffered(&head) == buffered(old(buf)).take(at as int),
        buffered(final(buf)) == buffered(old(buf)).skip(at as int),
;

/// `BytesMut::extend_from_slice`: the given bytes are appended. It grows
/// the buffer as needed, and panics only where the new capacity would
/// overflow `usize`, which the sizes of a slice and of an allocation rule
/// out.
pub assume_specification[ bytes::BytesMut::extend_from_slice ](buf: &mut BytesMut, extend: &[u8])
    ensures
        buffered(final(buf)) == buffered(old(buf)) + extend@,
;

/// `<BytesMut as AsRef<[u8]>>::as_ref`: the held bytes as a slice.
#[verifier::external_body]
pub(crate) fn as_slice(buf: &BytesMut) -> (s: &[u8])
    ensures
        s@ == buffered(buf),
{
    buf.as_ref()
}

/// `<BytesMut as Buf>::advance`: the first `cnt` bytes are dropped. It panics
/// when `cnt` is larger than the length, so that is required.
#[verifier::external_body]
pub(crate) fn advance(buf: &mut BytesMut, cnt: usize)
    requires
        cnt <= buffered(old(buf)).len(),
    ensures
        buffered(final(buf)) == buffered(old(buf)).skip(cnt as int),
{
    buf.advance(cnt)
}

} // verus!
