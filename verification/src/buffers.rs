//! Byte buffers of the `bytes` crate.
use bytes::{Bytes, BytesMut};
use vstd::prelude::*;

verus! {

/// `bytes::Bytes`, an immutable byte string that is cheap to share.
#[verifier::external_type_specification]
#[verifier::external_body]
pub struct ExBytes(Bytes);

/// `bytes::BytesMut`, a growable byte buffer.
#[verifier::external_type_specification]
#[verifier::external_body]
pub struct ExBytesMut(BytesMut);

/// The bytes that a byte string holds.
pub uninterp spec fn bytes_content(bytes: Bytes) -> Seq<u8>;

/// The bytes that a buffer holds.
pub uninterp spec fn buffer_content(buffer: BytesMut) -> Seq<u8>;

/// Calls `Bytes::from(Vec<u8>)`: the byte string holds the bytes of the vector.
#[verifier::external_body]
pub(crate) fn bytes_from(data: Vec<u8>) -> (bytes: Bytes)
    ensures
        bytes_content(bytes) == data@,
{
    Bytes::from(data)
}

/// Calls `Bytes::as_ref`: the bytes held, as a slice.
#[verifier::external_body]
pub(crate) fn bytes_slice(bytes: &Bytes) -> (slice: &[u8])
    ensures
        slice@ == bytes_content(*bytes),
{
    bytes.as_ref()
}

/// `Bytes::clone`: the copy holds the same bytes.
pub assume_specification[ <Bytes as Clone>::clone ](bytes: &Bytes) -> (copy: Bytes)
    ensures
        bytes_content(copy) == bytes_content(*bytes),
;

/// Calls `BytesMut::from(&[u8])`: the buffer holds the bytes of the slice.
#[verifier::external_body]
pub(crate) fn buffer_from(data: &[u8]) -> (buffer: BytesMut)
    ensures
        buffer_content(buffer) == data@,
{
    BytesMut::from(data)
}

/// Calls `BytesMut::as_ref`: the bytes held, as a slice.
#[verifier::external_body]
pub(crate) fn buffer_slice(buffer: &BytesMut) -> (slice: &[u8])
    ensures
        slice@ == buffer_content(*buffer),
{
    buffer.as_ref()
}

/// Calls `BytesMut::split_to`: cuts the first `at` bytes off into a buffer of
/// their own and keeps the others. A place beyond the end panics and is
/// excluded.
#[verifier::external_body]
pub(crate) fn buffer_split_to(buffer: &mut BytesMut, at: usize) -> (head: BytesMut)
    requires
        at <= buffer_content(*old(buffer)).len(),
    ensures
        buffer_content(head) == buffer_content(*old(buffer)).take(at as int),
        buffer_content(*final(buffer)) == buffer_content(*old(buffer)).skip(at as int),
{
    buffer.split_to(at)
}

/// Calls `BytesMut::extend_from_slice`: appends the bytes of the slice. More
/// bytes than an allocation can hold panic and are excluded.
#[verifier::external_body]
pub(crate) fn buffer_extend(buffer: &mut BytesMut, data: &[u8])
    requires
        buffer_content(*old(buffer)).len() + data@.len() <= isize::MAX,
    ensures
        buffer_content(*final(buffer)) == buffer_content(*old(buffer)) + data@,
{
    buffer.extend_from_slice(data)
}

} // verus!
