//! The byte buffers of the `bytes` crate, as far as the tunnel uses them.

use bytes::Buf;
use bytes::Bytes;
use bytes::BytesMut;
use vstd::prelude::*;

verus! {

#[verifier::external_type_specification]
#[verifier::external_body]
pub struct ExBytes(bytes::Bytes);

#[verifier::external_type_specification]
#[verifier::external_body]
pub struct ExBytesMut(bytes::BytesMut);

/// The bytes that an immutable buffer holds, first to last.
pub uninterp spec fn bytes_contents(b: Bytes) -> Seq<u8>;

/// The bytes that a growable buffer holds, first to last.
pub uninterp spec fn buf_contents(b: BytesMut) -> Seq<u8>;

/// `Bytes::copy_from_slice`: the new buffer holds a copy of `data`.
#[verifier::external_body]
pub(crate) fn bytes_from_slice(data: &[u8]) -> (b: Bytes)
    ensures
        bytes_contents(b) == data@,
{
    Bytes::copy_from_slice(data)
}

/// `BytesMut::new`: the new buffer is empty.
#[verifier::external_body]
pub(crate) fn buf_new() -> (b: BytesMut)
    ensures
        buf_contents(b) == Seq::<u8>::empty(),
{
    BytesMut::new()
}

/// `BytesMut::extend_from_slice`: `data` is appended to what the buffer held.
/// Like `Vec::push`, the outside function fails only where memory runs out.
#[verifier::external_body]
pub(crate) fn buf_extend(buf: &mut BytesMut, data: &[u8])
    ensures
        buf_contents(*final(buf)) == buf_contents(*old(buf)) + data@,
{
    buf.extend_from_slice(data)
}

/// `BytesMut::len`: the number of bytes held.
#[verifier::external_body]
pub(crate) fn buf_len(buf: &BytesMut) -> (n: usize)
    ensures
        n == buf_contents(*buf).len(),
{
    buf.len()
}

/// `BytesMut` dereferenced to a slice: the bytes held, borrowed.
#[verifier::external_body]
pub(crate) fn buf_as_slice(buf: &BytesMut) -> (s: &[u8])
    ensures
        s@ == buf_contents(*buf),
{
    &buf[..]
}

/// `Buf::advance` on a `BytesMut`: the first `n` bytes are dropped. The
/// outside function panics when `n` exceeds the length, so that is required.
#[verifier::external_body]
pub(crate) fn buf_advance(buf: &mut BytesMut, n: usize)
    requires
        n <= buf_contents(*old(buf)).len(),
    ensures
        buf_contents(*final(buf)) == buf_contents(*old(buf)).skip(n as int),
{
    buf.advance(n)
}

} // verus!
