//! The byte buffer between the source and the tokenizer: `bytes::BytesMut`,
//! through the few of its methods that the reader calls.
//!
//! Every buffer here is made by [`empty_buffer`] and grows at its back only.
use bytes::BytesMut;
use vstd::prelude::*;

verus! {

/// Declares `bytes::BytesMut`.
#[verifier::external_type_specification]
#[verifier::external_body]
pub struct ExBytesMut(bytes::BytesMut);

/// The bytes that a buffer holds, first to last.
pub uninterp spec fn held_bytes(buffer: BytesMut) -> Seq<u8>;

/// `BytesMut::with_capacity` makes a buffer that holds no byte.
#[verifier::external_body]
pub(crate) fn empty_buffer(capacity: usize) -> (buffer: BytesMut)
    requires
        capacity <= isize::MAX,
    ensures
        held_bytes(buffer) == Seq::<u8>::empty(),
{
    BytesMut::with_capacity(capacity)
}

/// `BytesMut::capacity`. How much was allocated is the allocator's choice, so
/// nothing is said of the result.
#[verifier::external_body]
pub(crate) fn capacity(buffer: &BytesMut) -> usize {
    buffer.capacity()
}

/// `BytesMut::as_ref` (which dereferencing calls) shows the bytes held.
#[verifier::external_body]
pub(crate) fn contents(buffer: &BytesMut) -> (bytes: &[u8])
    ensures
        bytes@ == held_bytes(*buffer),
{
    buffer.as_ref()
}

/// `BytesMut::clear` drops every byte held.
#[verifier::external_body]
pub(crate) fn clear(buffer: &mut BytesMut)
    ensures
        held_bytes(*final(buffer)) == Seq::<u8>::empty(),
{
    buffer.clear()
}

/// `BytesMut::reserve` makes room for `additional` more bytes and keeps the bytes
/// held. It panics where the vector below would outgrow `isize::MAX`, and a vector may
/// grow to twice what is asked for.
#[verifier::external_body]
pub(crate) fn reserve(buffer: &mut BytesMut, additional: usize)
    requires
        2 * (held_bytes(*old(buffer)).len() + additional) <= isize::MAX,
    ensures
        held_bytes(*final(buffer)) == held_bytes(*old(buffer)),
{
    buffer.reserve(additional)
}

/// `BytesMut::extend_from_slice` appends bytes behind those held. It panics where
/// `reserve` would.
#[verifier::external_body]
pub(crate) fn extend_from_slice(buffer: &mut BytesMut, extend: &[u8])
    requires
        2 * (held_bytes(*old(buffer)).len() + extend@.len()) <= isize::MAX,
    ensures
        held_bytes(*final(buffer)) == held_bytes(*old(buffer)) + extend@,
{
    buffer.extend_from_slice(extend)
}

} // verus!
