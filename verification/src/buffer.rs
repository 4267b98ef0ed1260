//! The growable byte buffer that messages are written into, with what is
//! taken on trust of it.

use bytes::BufMut;
use bytes::BytesMut;
use vstd::prelude::*;

verus! {

/// `bytes::BytesMut`, taken as it is: nothing inside it is seen here, and
/// all that is said of it is said over `buffer_bytes`.
#[verifier::external_type_specification]
#[verifier::external_body]
pub struct ExBytesMut(bytes::BytesMut);

/// The bytes that a `BytesMut` holds, first to last.
pub uninterp spec fn buffer_bytes(buf: BytesMut) -> Seq<u8>;

/// The two bytes of `value`, most significant first.
pub open spec fn be16(value: u16) -> Seq<u8> {
    seq![(value / 256) as u8, (value % 256) as u8]
}

/// `BytesMut::with_capacity`: the new buffer holds no bytes, whatever room
/// it was given. The capacity is kept within what one allocation may hold,
/// beyond which the call panics.
#[verifier::external_body]
pub(crate) fn buffer_with_capacity(capacity: usize) -> (buf: BytesMut)
    requires
        capacity <= isize::MAX,
    ensures
        buffer_bytes(buf) == Seq::<u8>::empty(),
{
    BytesMut::with_capacity(capacity)
}

/// `BufMut::put_u8` on a `BytesMut`: the byte is appended, the buffer
/// growing as needed.
#[verifier::external_body]
pub(crate) fn put_u8(buf: &mut BytesMut, value: u8)
    requires
        buffer_bytes(*old(buf)).len() + 1 <= isize::MAX,
    ensures
        buffer_bytes(*final(buf)) == buffer_bytes(*old(buf)).push(value),
{
    buf.put_u8(value)
}

/// `BufMut::put_u16` on a `BytesMut`: the two bytes of the value are
/// appended in network byte order.
#[verifier::external_body]
pub(crate) fn put_u16(buf: &mut BytesMut, value: u16)
    requires
        buffer_bytes(*old(buf)).len() + 2 <= isize::MAX,
    ensures
        buffer_bytes(*final(buf)) == buffer_bytes(*old(buf)) + be16(value),
{
    buf.put_u16(value)
}

/// `BufMut::put_slice` on a `BytesMut`: the bytes of the slice are appended
/// in order.
#[verifier::external_body]
pub(crate) fn put_slice(buf: &mut BytesMut, src: &[u8])
    requires
        buffer_bytes(*old(buf)).len() + src@.len() <= isize::MAX,
    ensures
        buffer_bytes(*final(buf)) == buffer_bytes(*old(buf)) + src@,
{
    buf.put_slice(src)
}

/// The slice that a `BytesMut` dereferences to, copied out by `to_vec`: the
/// vector holds the buffer's bytes.
#[verifier::external_body]
pub(crate) fn buffer_to_vec(buf: &BytesMut) -> (bytes: Vec<u8>)
    ensures
        bytes@ == buffer_bytes(*buf),
{
    buf.to_vec()
}

} // verus!
