//! The growable byte buffer of the `bytes` crate, as the transport layer
//! hands it to the codec. The codec reads and appends through the small
//! trusted boundary below; all protocol logic is verified against
//! [`bytes_mut_view`].

use vstd::prelude::*;
use bytes::BytesMut;

verus! {

#[verifier::external_type_specification]
#[verifier::external_body]
pub struct ExBytesMut(BytesMut);

/// The bytes that a `BytesMut` buffer currently holds, in order.
pub uninterp spec fn bytes_mut_view(b: BytesMut) -> Seq<u8>;

/// Relies on `<BytesMut as core::ops::Deref>::deref`: a `BytesMut`
/// dereferences to the slice of exactly the bytes it holds.
#[verifier::external_body]
pub fn bytes_mut_slice(b: &BytesMut) -> (r: &[u8])
    ensures
        r@ == bytes_mut_view(*b),
{
    &**b
}

/// Relies on `BytesMut::extend_from_slice`: it appends the given bytes after
/// the buffer's current contents and changes nothing else.
#[verifier::external_body]
pub fn bytes_mut_extend(b: &mut BytesMut, data: &[u8])
    ensures
        bytes_mut_view(*final(b)) == bytes_mut_view(*old(b)) + data@,
{
    b.extend_from_slice(data);
}

/// Relies on `BytesMut::len`: the number of bytes the buffer holds.
#[verifier::external_body]
pub fn bytes_mut_len(b: &BytesMut) -> (r: usize)
    ensures
        r == bytes_mut_view(*b).len(),
{
    b.len()
}

} // verus!
