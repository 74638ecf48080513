use bytes::BytesMut;
use vstd::prelude::*;

verus! {

#[verifier::external_type_specification]
#[verifier::external_body]
pub struct ExBytesMut(BytesMut);

/// The bytes that a `BytesMut` holds, in order.
pub uninterp spec fn bytes_of(b: BytesMut) -> Seq<u8>;

/// Relies on `BytesMut::with_capacity`: the new buffer holds no bytes; the
/// allocation panics above `isize::MAX` bytes, which `requires` leaves out.
pub assume_specification[ BytesMut::with_capacity ](capacity: usize) -> (r: BytesMut)
    requires
        capacity <= isize::MAX,
    ensures
        bytes_of(r) == Seq::<u8>::empty(),
;

/// Relies on `BytesMut::len`: the number of bytes held.
pub assume_specification[ BytesMut::len ](b: &BytesMut) -> (r: usize)
    ensures
        r == bytes_of(*b).len(),
;

/// Relies on `BytesMut::clear`: every byte is removed.
pub assume_specification[ BytesMut::clear ](b: &mut BytesMut)
    ensures
        bytes_of(*final(b)) == Seq::<u8>::empty(),
;

/// Relies on `BytesMut::extend_from_slice`: the slice is appended; it panics
/// when the grown capacity would not fit, which `requires` leaves out.
pub assume_specification[ BytesMut::extend_from_slice ](b: &mut BytesMut, extend: &[u8])
    requires
        bytes_of(*old(b)).len() + extend@.len() <= isize::MAX,
    ensures
        bytes_of(*final(b)) == bytes_of(*old(b)) + extend@,
;

/// Relies on `BytesMut`'s `AsRef<[u8]>`: a view of the bytes held, which as
/// any slice spans at most `isize::MAX` bytes.
#[verifier::external_body]
pub(crate) fn buffer_bytes(b: &BytesMut) -> (r: &[u8])
    ensures
        r@ == bytes_of(*b),
        r@.len() <= isize::MAX,
{
    b.as_ref()
}

/// Relies on `BytesMut`'s `From<&[u8]>`: a buffer holding a copy of the slice.
#[verifier::external_body]
pub(crate) fn buffer_from(s: &[u8]) -> (r: BytesMut)
    ensures
        bytes_of(r) == s@,
{
    BytesMut::from(s)
}

} // verus!
