//! The growable output buffer of the `bytes` crate.
use vstd::prelude::*;
use bytes::BytesMut;

verus! {

#[verifier::external_type_specification]
#[verifier::external_body]
pub struct ExBytesMut(BytesMut);

/// The bytes a `BytesMut` holds.
pub uninterp spec fn buffer_contents(b: BytesMut) -> Seq<u8>;

/// Relies on `BytesMut::extend_from_slice`: appends the bytes at the end. It
/// panics only when the new length overflows, which `requires` leaves out.
#[verifier::external_body]
pub(crate) fn extend_buffer(buf: &mut BytesMut, bytes: &[u8])
    requires
        buffer_contents(*old(buf)).len() + bytes@.len() <= isize::MAX,
    ensures
        buffer_contents(*final(buf)) == buffer_contents(*old(buf)) + bytes@,
{
    buf.extend_from_slice(bytes)
}

} // verus!
